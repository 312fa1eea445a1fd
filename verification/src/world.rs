use crate::grid::{rows, valid_grid};
use crate::tile::{Content, Tile, TileType};
use crate::MinerRobot;
use vstd::prelude::*;

verus! {

/// The tile that stands for a cell of which nothing is known: deep water,
/// with nothing on it.
pub open spec fn default_tile() -> Tile {
    Tile { tile_type: TileType::DeepWater, content: Content::Empty, elevation: 0 }
}

/// The tile at `(i, j)` as far as it is known, the default tile otherwise.
pub open spec fn known_tile(robot_map: Seq<Seq<Option<Tile>>>, i: int, j: int) -> Tile {
    if j < robot_map[i].len() {
        match robot_map[i][j] {
            Some(tile) => tile,
            None => default_tile(),
        }
    } else {
        default_tile()
    }
}

/// The square grid that a map of the known world stands for, with the
/// default tile wherever nothing is known. Its side is the number of rows of
/// the map.
pub open spec fn materialized(robot_map: Seq<Seq<Option<Tile>>>) -> Seq<Seq<Tile>> {
    Seq::new(
        robot_map.len(),
        |i: int| Seq::new(robot_map.len(), |j: int| known_tile(robot_map, i, j)),
    )
}

/// As `materialized`, each tile marked as known.
pub open spec fn materialized_option(robot_map: Seq<Seq<Option<Tile>>>) -> Seq<
    Seq<Option<Tile>>,
> {
    Seq::new(
        robot_map.len(),
        |i: int| Seq::new(robot_map.len(), |j: int| Some(known_tile(robot_map, i, j))),
    )
}

/// The tile at `(i, j)` is known and holds an object of the kind of
/// `content`.
pub open spec fn holds_content(
    robot_map: Seq<Seq<Option<Tile>>>,
    i: int,
    j: int,
    content: Content,
) -> bool {
    &&& 0 <= i < robot_map.len()
    &&& 0 <= j < robot_map[i].len()
    &&& robot_map[i][j] matches Some(tile)
    &&& tile.content.same_kind(content)
}

/// Row by row, left to right: `a` comes before `b`.
pub open spec fn comes_before(a: (usize, usize), b: (usize, usize)) -> bool {
    a.0 < b.0 || (a.0 == b.0 && a.1 < b.1)
}

/// The tiles listed are those of the map that hold the content, each once, in
/// row-major order.
pub open spec fn lists_content(
    robot_map: Seq<Seq<Option<Tile>>>,
    content: Content,
    tiles: Seq<(usize, usize)>,
) -> bool {
    &&& forall|k: int|
        0 <= k < tiles.len() ==> holds_content(
            robot_map,
            (#[trigger] tiles[k]).0 as int,
            tiles[k].1 as int,
            content,
        )
    &&& forall|i: int, j: int| #[trigger]
        holds_content(robot_map, i, j, content) ==> tiles.contains((i as usize, j as usize))
    &&& forall|k1: int, k2: int|
        0 <= k1 < k2 < tiles.len() ==> comes_before(#[trigger] tiles[k1], #[trigger] tiles[k2])
}

/// The tile that stands for a cell of which nothing is known.
fn unknown_tile() -> (tile: Tile)
    ensures
        tile == default_tile(),
{
    Tile { tile_type: TileType::DeepWater, content: Content::Empty, elevation: 0 }
}

/// What the search for a content has listed when it stands at `(i, j)`.
spec fn listed_so_far(
    robot_map: Seq<Seq<Option<Tile>>>,
    content: Content,
    tiles: Seq<(usize, usize)>,
    i: int,
    j: int,
) -> bool {
    &&& forall|k: int|
        0 <= k < tiles.len() ==> {
            &&& holds_content(
                robot_map,
                (#[trigger] tiles[k]).0 as int,
                tiles[k].1 as int,
                content,
            )
            &&& (tiles[k].0 < i || (tiles[k].0 == i && tiles[k].1 < j))
        }
    &&& forall|r: int, c: int| #[trigger]
        holds_content(robot_map, r, c, content) && (r < i || (r == i && c < j))
            ==> tiles.contains((r as usize, c as usize))
    &&& forall|k1: int, k2: int|
        0 <= k1 < k2 < tiles.len() ==> comes_before(#[trigger] tiles[k1], #[trigger] tiles[k2])
}

impl MinerRobot {
    /// The known world as a square grid of tiles: each known tile of
    /// `robot_map`, and the default tile wherever nothing is known.
    pub fn get_map(&self, robot_map: &Vec<Vec<Option<Tile>>>) -> (map: Vec<Vec<Tile>>)
        requires
            forall|i: int|
                0 <= i < robot_map@.len() ==> (#[trigger] robot_map@[i])@.len() <= robot_map@.len(),
        ensures
            rows(map@) == materialized(rows(robot_map@)),
            0 < robot_map@.len() <= i32::MAX ==> valid_grid(rows(map@)),
    {
        let ghost known = rows(robot_map@);
        let world_dim = robot_map.len();
        let mut map: Vec<Vec<Tile>> = Vec::new();
        let mut i: usize = 0;
        while i < world_dim
            invariant
                known == rows(robot_map@),
                world_dim == robot_map@.len(),
                i <= world_dim,
                map@.len() == i,
                forall|r: int|
                    0 <= r < i ==> (#[trigger] map@[r])@ == Seq::new(
                        world_dim as nat,
                        |j: int| known_tile(known, r, j),
                    ),
            decreases world_dim - i,
        {
            let row = &robot_map[i];
            let mut tiles: Vec<Tile> = Vec::new();
            let mut j: usize = 0;
            while j < world_dim
                invariant
                    known == rows(robot_map@),
                    i < robot_map@.len(),
                    row@ == known[i as int],
                    j <= world_dim,
                    tiles@.len() == j,
                    forall|c: int| 0 <= c < j ==> #[trigger] tiles@[c] == known_tile(known, i as int, c),
                decreases world_dim - j,
            {
                let tile = if j < row.len() {
                    match row[j] {
                        Some(t) => t,
                        None => unknown_tile(),
                    }
                } else {
                    unknown_tile()
                };
                tiles.push(tile);
                j += 1;
            }
            assert(tiles@ =~= Seq::new(world_dim as nat, |j: int| known_tile(known, i as int, j)));
            map.push(tiles);
            i += 1;
        }
        assert(rows(map@) =~= materialized(known));
        map
    }

    /// As `get_map`, each tile marked as known.
    pub fn get_map_option(&self, robot_map: &Vec<Vec<Option<Tile>>>) -> (map: Vec<
        Vec<Option<Tile>>,
    >)
        requires
            forall|i: int|
                0 <= i < robot_map@.len() ==> (#[trigger] robot_map@[i])@.len() <= robot_map@.len(),
        ensures
            rows(map@) == materialized_option(rows(robot_map@)),
    {
        let ghost known = rows(robot_map@);
        let world_dim = robot_map.len();
        let mut map: Vec<Vec<Option<Tile>>> = Vec::new();
        let mut i: usize = 0;
        while i < world_dim
            invariant
                known == rows(robot_map@),
                world_dim == robot_map@.len(),
                i <= world_dim,
                map@.len() == i,
                forall|r: int|
                    0 <= r < i ==> (#[trigger] map@[r])@ == Seq::new(
                        world_dim as nat,
                        |j: int| Some(known_tile(known, r, j)),
                    ),
            decreases world_dim - i,
        {
            let row = &robot_map[i];
            let mut tiles: Vec<Option<Tile>> = Vec::new();
            let mut j: usize = 0;
            while j < world_dim
                invariant
                    known == rows(robot_map@),
                    i < robot_map@.len(),
                    row@ == known[i as int],
                    j <= world_dim,
                    tiles@.len() == j,
                    forall|c: int|
                        0 <= c < j ==> #[trigger] tiles@[c] == Some(known_tile(known, i as int, c)),
                decreases world_dim - j,
            {
                let tile = if j < row.len() {
                    match row[j] {
                        Some(t) => t,
                        None => unknown_tile(),
                    }
                } else {
                    unknown_tile()
                };
                tiles.push(Some(tile));
                j += 1;
            }
            assert(tiles@ =~= Seq::new(
                world_dim as nat,
                |j: int| Some(known_tile(known, i as int, j)),
            ));
            map.push(tiles);
            i += 1;
        }
        assert(rows(map@) =~= materialized_option(known));
        map
    }

    /// Where the known tiles hold an object of the kind of `content`, as
    /// `(row, col)`, row by row and left to right.
    pub fn get_tiles_by_content(&self, robot_map: &Vec<Vec<Option<Tile>>>, content: Content) -> (
        result: Vec<(usize, usize)>
    )
        ensures
            lists_content(rows(robot_map@), content, result@),
    {
        let ghost known = rows(robot_map@);
        let mut result: Vec<(usize, usize)> = Vec::new();
        let mut i: usize = 0;
        while i < robot_map.len()
            invariant
                known == rows(robot_map@),
                i <= robot_map@.len(),
                listed_so_far(known, content, result@, i as int, 0),
            decreases robot_map@.len() - i,
        {
            let row = &robot_map[i];
            let mut j: usize = 0;
            while j < row.len()
                invariant
                    known == rows(robot_map@),
                    i < robot_map@.len(),
                    row@ == known[i as int],
                    j <= row@.len(),
                    listed_so_far(known, content, result@, i as int, j as int),
                decreases row@.len() - j,
            {
                let ghost before = result@;
                let found = match &row[j] {
                    Some(t) => t.content.is_same_kind(&content),
                    None => false,
                };
                if found {
                    result.push((i, j));
                }
                proof {
                    assert forall|r: int, c: int| #[trigger]
                        holds_content(known, r, c, content) && (r < i || (r == i && c < j + 1))
                        implies result@.contains((r as usize, c as usize)) by {
                        if r == i && c == j {
                            assert(result@[before.len() as int] == (i, j));
                        } else {
                            let k = choose|k: int|
                                0 <= k < before.len() && before[k] == (r as usize, c as usize);
                            assert(result@[k] == before[k]);
                        }
                    }
                    assert forall|k1: int, k2: int| 0 <= k1 < k2 < result@.len() implies comes_before(
                        #[trigger] result@[k1],
                        #[trigger] result@[k2],
                    ) by {
                        if k2 < before.len() {
                            assert(comes_before(before[k1], before[k2]));
                        } else {
                            assert(result@[k1] == before[k1]);
                        }
                    }
                }
                j += 1;
            }
            proof {
                assert forall|r: int, c: int| #[trigger]
                    holds_content(known, r, c, content) && (r < i + 1 || (r == i + 1 && c < 0))
                    implies result@.contains((r as usize, c as usize)) by {
                    assert(r < i || (r == i && c < j));
                }
            }
            i += 1;
        }
        result
    }
}

} // verus!
