use crate::movement::Direction;
use crate::tile::{Tile, TileType};
use vstd::prelude::*;

verus! {

/// The pictures from which a view of the map is put together.
#[derive(Debug, Clone, Copy, PartialEq, Eq, Structural)]
pub enum TileImage {
    Grass,
    Water,
    Lava,
    Snow,
    DeepWater,
    Sand,
    SandWater,
    Hill1,
    Hill2,
    Mountain,
    Wall,
    Street,
    DownHill,
}

/// How many looks a tile can have.
pub const VARIATIONS: i32 = 10;

#[verifier::external_type_specification]
#[verifier::external_body]
pub struct ExThreadRng(rand::rngs::ThreadRng);

/// `rand::thread_rng`: the random number generator of this thread. Nothing
/// is claimed of it. The call panics where the system cannot seed the
/// generator.
#[verifier::external_body]
fn thread_rng() -> rand::rngs::ThreadRng {
    rand::thread_rng()
}

/// `rand::Rng::gen_range` on the range `low..high`: a number drawn from the
/// range. The contract claims that the number lies in the range, and leaves
/// out the empty range, on which the call panics. The call also panics where
/// the generator is due to reseed itself and the system fails it. Two calls
/// may give two numbers.
#[verifier::external_body]
fn gen_range(rng: &mut rand::rngs::ThreadRng, low: i32, high: i32) -> (n: i32)
    requires
        low < high,
    ensures
        low <= n < high,
{
    rand::Rng::gen_range(rng, low..high)
}

/// The tiles of `varied` are those of `map`, each with a number under
/// `VARIATIONS` that varies its looks.
pub open spec fn is_varied(map: Seq<Seq<Tile>>, varied: Seq<Seq<(Tile, usize)>>) -> bool {
    &&& varied.len() == map.len()
    &&& forall|r: int| 0 <= r < map.len() ==> (#[trigger] varied[r]).len() == map[r].len()
    &&& forall|r: int, c: int|
        0 <= r < map.len() && 0 <= c < map[r].len() ==> (#[trigger] varied[r][c]).0 == map[r][c]
            && varied[r][c].1 < VARIATIONS
}

/// The map with a number drawn at random for each tile, to vary its looks.
pub fn vary_tiles(map: &Vec<Vec<Tile>>) -> (varied: Vec<Vec<(Tile, usize)>>)
    ensures
        is_varied(crate::grid::rows(map@), crate::grid::rows(varied@)),
{
    let mut rng = thread_rng();
    let mut varied: Vec<Vec<(Tile, usize)>> = Vec::new();
    let mut r: usize = 0;
    while r < map.len()
        invariant
            r <= map@.len(),
            varied@.len() == r,
            forall|k: int| 0 <= k < r ==> (#[trigger] varied@[k])@.len() == map@[k]@.len(),
            forall|k: int, c: int|
                0 <= k < r && 0 <= c < map@[k]@.len() ==> (#[trigger] varied@[k]@[c]).0
                    == map@[k]@[c] && varied@[k]@[c].1 < VARIATIONS,
        decreases map@.len() - r,
    {
        let row = &map[r];
        let mut mrow: Vec<(Tile, usize)> = Vec::new();
        let mut c: usize = 0;
        while c < row.len()
            invariant
                c <= row@.len(),
                mrow@.len() == c,
                forall|k: int|
                    0 <= k < c ==> (#[trigger] mrow@[k]).0 == row@[k] && mrow@[k].1 < VARIATIONS,
            decreases row@.len() - c,
        {
            let n = gen_range(&mut rng, 0, VARIATIONS);
            mrow.push((row[c], n as usize));
            c += 1;
        }
        varied.push(mrow);
        r += 1;
    }
    varied
}

/// Where the view stands after a key was pressed to move it, when `visible`
/// of the `map_len` tiles of a side fit on the screen: up and down move the
/// second part of the offset, left and right the first, by one tile and
/// never past the edge.
pub open spec fn scrolled(
    offset: (usize, usize),
    direction: Direction,
    map_len: usize,
    visible: usize,
) -> (usize, usize) {
    match direction {
        Direction::Down => if offset.1 < map_len - visible {
            (offset.0, (offset.1 + 1) as usize)
        } else {
            offset
        },
        Direction::Up => if offset.1 > 0 {
            (offset.0, (offset.1 - 1) as usize)
        } else {
            offset
        },
        Direction::Left => if offset.0 > 0 {
            ((offset.0 - 1) as usize, offset.1)
        } else {
            offset
        },
        Direction::Right => if offset.0 < map_len - visible {
            ((offset.0 + 1) as usize, offset.1)
        } else {
            offset
        },
    }
}

/// Where the view stands after a key was pressed to move it.
pub fn scroll(offset: (usize, usize), direction: Direction, map_len: usize, visible: usize) -> (moved:
    (usize, usize))
    requires
        visible <= map_len,
    ensures
        moved == scrolled(offset, direction, map_len, visible),
{
    match direction {
        Direction::Down => if offset.1 < map_len - visible {
            (offset.0, offset.1 + 1)
        } else {
            offset
        },
        Direction::Up => if offset.1 > 0 {
            (offset.0, offset.1 - 1)
        } else {
            offset
        },
        Direction::Left => if offset.0 > 0 {
            (offset.0 - 1, offset.1)
        } else {
            offset
        },
        Direction::Right => if offset.0 < map_len - visible {
            (offset.0 + 1, offset.1)
        } else {
            offset
        },
    }
}

/// The picture of a hill with the variation `n`.
pub open spec fn hill_image(n: usize) -> TileImage {
    if n > 8 {
        TileImage::Hill1
    } else {
        TileImage::Hill2
    }
}

/// The picture for the tile at `coordinate`. Each tile comes with a number
/// that varies its looks. Sand beside shallow water and a hill beside grass
/// get a picture of their own; what lies beside a tile is the next tile of
/// its row.
pub open spec fn image_of(map: Seq<Seq<(Tile, usize)>>, coordinate: (usize, usize)) -> TileImage {
    let tile = map[coordinate.0 as int][coordinate.1 as int];
    let at_edge = coordinate.1 + 1 == map[0].len();
    let beside = map[coordinate.0 as int][coordinate.1 + 1].0.tile_type;
    match tile.0.tile_type {
        TileType::Grass => TileImage::Grass,
        TileType::Lava => TileImage::Lava,
        TileType::Snow => TileImage::Snow,
        TileType::DeepWater => TileImage::DeepWater,
        TileType::Sand => if !at_edge && beside is ShallowWater {
            TileImage::SandWater
        } else {
            TileImage::Sand
        },
        TileType::Hill => if !at_edge && beside is Grass {
            TileImage::DownHill
        } else {
            hill_image(tile.1)
        },
        TileType::Mountain => TileImage::Mountain,
        TileType::Wall => TileImage::Wall,
        TileType::Street => TileImage::Street,
        TileType::ShallowWater => TileImage::Water,
        TileType::Teleport(_) => TileImage::Grass,
    }
}

/// The picture for the tile at `coordinate`.
pub fn choose_image(map: &Vec<Vec<(Tile, usize)>>, coordinate: (usize, usize)) -> (image: TileImage)
    requires
        coordinate.0 < map@.len(),
        coordinate.1 < map@[coordinate.0 as int]@.len(),
        map@[coordinate.0 as int]@.len() == map@[0]@.len(),
    ensures
        image == image_of(crate::grid::rows(map@), coordinate),
{
    let tile = &map[coordinate.0][coordinate.1];
    match tile.0.tile_type {
        TileType::Grass => TileImage::Grass,
        TileType::Lava => TileImage::Lava,
        TileType::Snow => TileImage::Snow,
        TileType::DeepWater => TileImage::DeepWater,
        TileType::Sand => {
            if coordinate.1 == map[0].len() - 1 {
                return TileImage::Sand;
            }
            let tile_down = &map[coordinate.0][coordinate.1 + 1];
            match tile_down.0.tile_type {
                TileType::ShallowWater => TileImage::SandWater,
                _ => TileImage::Sand,
            }
        },
        TileType::Hill => {
            let plain = if tile.1 > 8 {
                TileImage::Hill1
            } else {
                TileImage::Hill2
            };
            if coordinate.1 == map[0].len() - 1 {
                return plain;
            }
            let tile_down = &map[coordinate.0][coordinate.1 + 1];
            match tile_down.0.tile_type {
                TileType::Grass => TileImage::DownHill,
                _ => plain,
            }
        },
        TileType::Mountain => TileImage::Mountain,
        TileType::Wall => TileImage::Wall,
        TileType::Street => TileImage::Street,
        TileType::ShallowWater => TileImage::Water,
        _ => TileImage::Grass,
    }
}

} // verus!
