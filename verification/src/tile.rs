use vstd::prelude::*;

verus! {

/// Terrain category of one cell of the world.
#[derive(Debug, Clone, Copy, PartialEq, Eq, Structural)]
pub enum TileType {
    DeepWater,
    ShallowWater,
    Sand,
    Grass,
    Street,
    Hill,
    Mountain,
    Snow,
    Lava,
    Teleport(bool),
    Wall,
}

/// What lies on a cell. The numbers are the amounts or capacities that the
/// world attaches to an object; the routing logic only looks at the kind.
#[derive(Debug, Clone, Copy, PartialEq, Eq, Structural)]
pub enum Content {
    Rock(usize),
    Tree(usize),
    Garbage(usize),
    Fire,
    Coin(usize),
    Bin(usize, usize),
    Crate(usize, usize),
    Bank(usize, usize),
    Water(usize),
    Market(usize),
    Fish(usize),
    Building,
    Bush(usize),
    JollyBlock(usize),
    Scarecrow,
    Empty,
}

impl Content {
    /// The two are objects of one kind, whatever their amounts.
    pub open spec fn same_kind(self, other: Content) -> bool {
        match self {
            Content::Rock(_) => other is Rock,
            Content::Tree(_) => other is Tree,
            Content::Garbage(_) => other is Garbage,
            Content::Fire => other is Fire,
            Content::Coin(_) => other is Coin,
            Content::Bin(_, _) => other is Bin,
            Content::Crate(_, _) => other is Crate,
            Content::Bank(_, _) => other is Bank,
            Content::Water(_) => other is Water,
            Content::Market(_) => other is Market,
            Content::Fish(_) => other is Fish,
            Content::Building => other is Building,
            Content::Bush(_) => other is Bush,
            Content::JollyBlock(_) => other is JollyBlock,
            Content::Scarecrow => other is Scarecrow,
            Content::Empty => other is Empty,
        }
    }

    /// Whether the two are objects of one kind, whatever their amounts.
    pub fn is_same_kind(&self, other: &Content) -> (res: bool)
        ensures
            res == self.same_kind(*other),
    {
        match (self, other) {
            (Content::Rock(_), Content::Rock(_)) => true,
            (Content::Tree(_), Content::Tree(_)) => true,
            (Content::Garbage(_), Content::Garbage(_)) => true,
            (Content::Fire, Content::Fire) => true,
            (Content::Coin(_), Content::Coin(_)) => true,
            (Content::Bin(_, _), Content::Bin(_, _)) => true,
            (Content::Crate(_, _), Content::Crate(_, _)) => true,
            (Content::Bank(_, _), Content::Bank(_, _)) => true,
            (Content::Water(_), Content::Water(_)) => true,
            (Content::Market(_), Content::Market(_)) => true,
            (Content::Fish(_), Content::Fish(_)) => true,
            (Content::Building, Content::Building) => true,
            (Content::Bush(_), Content::Bush(_)) => true,
            (Content::JollyBlock(_), Content::JollyBlock(_)) => true,
            (Content::Scarecrow, Content::Scarecrow) => true,
            (Content::Empty, Content::Empty) => true,
            _ => false,
        }
    }
}

/// One cell of the known world.
#[derive(Debug, Clone, Copy, PartialEq, Eq, Structural)]
pub struct Tile {
    pub tile_type: TileType,
    pub content: Content,
    pub elevation: usize,
}

} // verus!
