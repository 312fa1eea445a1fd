use crate::grid::rows;
use crate::tile::{Content, Tile, TileType};
use crate::MinerRobot;
use vstd::prelude::*;

verus! {

/// One mark of a printed view of the known world.
#[derive(Debug, Clone, Copy, PartialEq, Eq)]
pub enum Glyph {
    /// The top left corner, over the row numbers.
    Corner,
    /// The last digit of the number of a row.
    Index(usize),
    /// The miner.
    Robot,
    /// A tile of which nothing is known.
    Unknown,
    /// What lies on a known tile.
    Content(Content),
    /// The terrain of a known tile.
    Terrain(TileType),
}

/// The colour in which a mark is printed.
#[derive(Debug, Clone, Copy, PartialEq, Eq, Structural)]
pub enum Tint {
    Yellow,
    Green,
    Blue,
    Red,
}

/// A printed view of the terrain: its lines, and whether the world is small
/// enough for the wide pictures.
#[derive(Debug, PartialEq, Eq)]
pub struct TerrainView {
    pub unicode: bool,
    pub lines: Vec<Vec<Glyph>>,
}

/// The letter that stands for a content.
pub open spec fn content_letter(content: Content) -> Seq<char> {
    match content {
        Content::Bank(_, _) => "A "@,
        Content::Bin(_, _) => "I "@,
        Content::Building => "B "@,
        Content::Bush(_) => "H "@,
        Content::Crate(_, _) => "C "@,
        Content::Coin(_) => "O "@,
        Content::Fire => "F "@,
        Content::Fish(_) => "P "@,
        Content::Garbage(_) => "G "@,
        Content::JollyBlock(_) => "J "@,
        Content::Market(_) => "M "@,
        Content::Rock(_) => "R "@,
        Content::Scarecrow => "S "@,
        Content::Tree(_) => "T "@,
        Content::Water(_) => "W "@,
        Content::Empty => "+ "@,
    }
}

/// The letter that stands for a kind of terrain.
pub open spec fn terrain_letter(tile_type: TileType) -> Seq<char> {
    match tile_type {
        TileType::DeepWater => "D "@,
        TileType::Grass => "G "@,
        TileType::Hill => "H "@,
        TileType::Lava => "L "@,
        TileType::Mountain => "M "@,
        TileType::Sand => "S "@,
        TileType::ShallowWater => "o "@,
        TileType::Snow => "N "@,
        TileType::Street => "R "@,
        TileType::Teleport(_) => "T "@,
        TileType::Wall => "W "@,
    }
}

/// The picture that stands for a kind of terrain.
pub open spec fn terrain_picture(tile_type: TileType) -> Seq<char> {
    match tile_type {
        TileType::DeepWater => "\u{1F30A}"@,
        TileType::Grass => "\u{1F33F}"@,
        TileType::Hill => "\u{26F0}"@,
        TileType::Lava => "\u{1F30B}"@,
        TileType::Mountain => "\u{1F3D4}"@,
        TileType::Sand => "\u{1F3D6}"@,
        TileType::ShallowWater => "o "@,
        TileType::Snow => "\u{2744}"@,
        TileType::Street => "\u{1F309}"@,
        TileType::Teleport(_) => "\u{1F504}"@,
        TileType::Wall => "\u{1F6A1}"@,
    }
}

/// The mark for the tile at `(i, j)`: the miner where it stands, else what is
/// known of the tile, its terrain or its content.
pub open spec fn glyph_at(
    robot_map: Seq<Seq<Option<Tile>>>,
    coordinates: (usize, usize),
    i: int,
    j: int,
    terrain: bool,
) -> Glyph {
    if i == coordinates.0 && j == coordinates.1 {
        Glyph::Robot
    } else {
        match robot_map[i][j] {
            None => Glyph::Unknown,
            Some(tile) => if terrain {
                Glyph::Terrain(tile.tile_type)
            } else {
                Glyph::Content(tile.content)
            },
        }
    }
}

/// The line for row `i`: the last digit of `i`, then one mark for each tile.
/// A row without tiles gives an empty line.
pub open spec fn glyph_line(
    robot_map: Seq<Seq<Option<Tile>>>,
    coordinates: (usize, usize),
    i: int,
    terrain: bool,
) -> Seq<Glyph> {
    if robot_map[i].len() == 0 {
        Seq::empty()
    } else {
        seq![Glyph::Index((i % 10) as usize)] + Seq::new(
            robot_map[i].len(),
            |j: int| glyph_at(robot_map, coordinates, i, j, terrain),
        )
    }
}

/// The head line: the corner, then the last digit of the number of each row.
pub open spec fn glyph_header(robot_map: Seq<Seq<Option<Tile>>>) -> Seq<Glyph> {
    seq![Glyph::Corner] + Seq::new(robot_map.len(), |i: int| Glyph::Index((i % 10) as usize))
}

/// The printed view of the known world: the head line, then one line for
/// each row.
pub open spec fn glyph_lines(
    robot_map: Seq<Seq<Option<Tile>>>,
    coordinates: (usize, usize),
    terrain: bool,
) -> Seq<Seq<Glyph>> {
    Seq::new(
        robot_map.len() + 1,
        |l: int|
            if l == 0 {
                glyph_header(robot_map)
            } else {
                glyph_line(robot_map, coordinates, l - 1, terrain)
            },
    )
}

impl MinerRobot {
    /// The lines of a view of the known world, of its terrain or of what
    /// lies on it.
    fn discovered_tiles(&self, robot_map: &Vec<Vec<Option<Tile>>>, terrain: bool) -> (lines: Vec<
        Vec<Glyph>,
    >)
        ensures
            rows(lines@) == glyph_lines(rows(robot_map@), self.coordinates, terrain),
    {
        let ghost known = rows(robot_map@);
        let (robot_row, robot_col) = self.get_coordinates();
        let mut lines: Vec<Vec<Glyph>> = Vec::new();
        let mut header: Vec<Glyph> = Vec::new();
        header.push(Glyph::Corner);
        let mut i: usize = 0;
        while i < robot_map.len()
            invariant
                i <= robot_map@.len(),
                header@ == seq![Glyph::Corner] + Seq::new(
                    i as nat,
                    |k: int| Glyph::Index((k % 10) as usize),
                ),
            decreases robot_map@.len() - i,
        {
            header.push(Glyph::Index(i % 10));
            assert(header@ =~= seq![Glyph::Corner] + Seq::new(
                (i + 1) as nat,
                |k: int| Glyph::Index((k % 10) as usize),
            ));
            i += 1;
        }
        lines.push(header);
        let mut i: usize = 0;
        while i < robot_map.len()
            invariant
                known == rows(robot_map@),
                (robot_row, robot_col) == self.coordinates,
                i <= robot_map@.len(),
                lines@.len() == i + 1,
                lines@[0]@ == glyph_header(known),
                forall|l: int|
                    1 <= l <= i ==> (#[trigger] lines@[l])@ == glyph_line(
                        known,
                        self.coordinates,
                        l - 1,
                        terrain,
                    ),
            decreases robot_map@.len() - i,
        {
            let row = &robot_map[i];
            let mut line: Vec<Glyph> = Vec::new();
            let mut j: usize = 0;
            while j < row.len()
                invariant
                    known == rows(robot_map@),
                    (robot_row, robot_col) == self.coordinates,
                    i < robot_map@.len(),
                    row@ == known[i as int],
                    j <= row@.len(),
                    j == 0 ==> line@.len() == 0,
                    j > 0 ==> line@ == seq![Glyph::Index((i % 10) as usize)] + Seq::new(
                        j as nat,
                        |c: int| glyph_at(known, self.coordinates, i as int, c, terrain),
                    ),
                decreases row@.len() - j,
            {
                if j == 0 {
                    line.push(Glyph::Index(i % 10));
                }
                let glyph = if i == robot_row && j == robot_col {
                    Glyph::Robot
                } else {
                    match &row[j] {
                        None => Glyph::Unknown,
                        Some(t) => if terrain {
                            Glyph::Terrain(t.tile_type)
                        } else {
                            Glyph::Content(t.content)
                        },
                    }
                };
                line.push(glyph);
                assert(line@ =~= seq![Glyph::Index((i % 10) as usize)] + Seq::new(
                    (j + 1) as nat,
                    |c: int| glyph_at(known, self.coordinates, i as int, c, terrain),
                ));
                j += 1;
            }
            assert(line@ =~= glyph_line(known, self.coordinates, i as int, terrain));
            lines.push(line);
            i += 1;
        }
        assert(rows(lines@) =~= glyph_lines(known, self.coordinates, terrain));
        lines
    }

    /// The lines of a view of what lies on the known tiles.
    pub fn print_discovered_tiles_content(&self, robot_map: &Vec<Vec<Option<Tile>>>) -> (lines: Vec<
        Vec<Glyph>,
    >)
        ensures
            rows(lines@) == glyph_lines(rows(robot_map@), self.coordinates, false),
    {
        self.discovered_tiles(robot_map, false)
    }

    /// A view of the terrain of the known tiles. A world of less than 30 rows
    /// is shown in pictures, a larger one in letters.
    pub fn print_discovered_tiles_tile_type(&self, robot_map: &Vec<Vec<Option<Tile>>>) -> (view:
        TerrainView)
        ensures
            view.unicode == (robot_map@.len() < 30),
            rows(view.lines@) == glyph_lines(rows(robot_map@), self.coordinates, true),
    {
        TerrainView { unicode: robot_map.len() < 30, lines: self.discovered_tiles(robot_map, true) }
    }

    /// The letter that stands for a content.
    pub fn print_content(content: Content) -> (letter: &'static str)
        ensures
            letter@ == content_letter(content),
    {
        match content {
            Content::Bank(_, _) => "A ",
            Content::Bin(_, _) => "I ",
            Content::Building => "B ",
            Content::Bush(_) => "H ",
            Content::Crate(_, _) => "C ",
            Content::Coin(_) => "O ",
            Content::Fire => "F ",
            Content::Fish(_) => "P ",
            Content::Garbage(_) => "G ",
            Content::JollyBlock(_) => "J ",
            Content::Market(_) => "M ",
            Content::Rock(_) => "R ",
            Content::Scarecrow => "S ",
            Content::Tree(_) => "T ",
            Content::Water(_) => "W ",
            Content::Empty => "+ ",
        }
    }

    /// The colour of the letter of a content: green for rocks, yellow for
    /// the rest.
    pub fn content_tint(content: Content) -> (tint: Tint)
        ensures
            tint == if content is Rock {
                Tint::Green
            } else {
                Tint::Yellow
            },
    {
        match content {
            Content::Rock(_) => Tint::Green,
            _ => Tint::Yellow,
        }
    }

    /// The letter that stands for a kind of terrain.
    pub fn print_tile_type(tile_type: TileType) -> (letter: &'static str)
        ensures
            letter@ == terrain_letter(tile_type),
    {
        match tile_type {
            TileType::DeepWater => "D ",
            TileType::Grass => "G ",
            TileType::Hill => "H ",
            TileType::Lava => "L ",
            TileType::Mountain => "M ",
            TileType::Sand => "S ",
            TileType::ShallowWater => "o ",
            TileType::Snow => "N ",
            TileType::Street => "R ",
            TileType::Teleport(_) => "T ",
            TileType::Wall => "W ",
        }
    }

    /// The colour of the letter of a kind of terrain: blue for water, red
    /// for a street, green for the rest.
    pub fn tile_type_tint(tile_type: TileType) -> (tint: Tint)
        ensures
            tint == if tile_type is DeepWater || tile_type is ShallowWater {
                Tint::Blue
            } else if tile_type is Street {
                Tint::Red
            } else {
                Tint::Green
            },
    {
        match tile_type {
            TileType::DeepWater => Tint::Blue,
            TileType::ShallowWater => Tint::Blue,
            TileType::Street => Tint::Red,
            _ => Tint::Green,
        }
    }

    /// The picture that stands for a kind of terrain.
    pub fn print_tile_type_unicode(tile_type: TileType) -> (picture: &'static str)
        ensures
            picture@ == terrain_picture(tile_type),
    {
        match tile_type {
            TileType::DeepWater => "\u{1F30A}",
            TileType::Grass => "\u{1F33F}",
            TileType::Hill => "\u{26F0}",
            TileType::Lava => "\u{1F30B}",
            TileType::Mountain => "\u{1F3D4}",
            TileType::Sand => "\u{1F3D6}",
            TileType::ShallowWater => "o ",
            TileType::Snow => "\u{2744}",
            TileType::Street => "\u{1F309}",
            TileType::Teleport(_) => "\u{1F504}",
            TileType::Wall => "\u{1F6A1}",
        }
    }
}

} // verus!
