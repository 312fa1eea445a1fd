use crate::grid::{in_bounds, rows, valid_grid};
use crate::target::{
    bridge_points, is_bridge_target, island_to_reach, lemma_bridge_points, own_island,
};
use crate::tile::{Tile, TileType};
use crate::MinerRobot;
use vstd::math::abs;
use vstd::prelude::*;

verus! {

/// The sound that a rock makes when it is put on a tile.
#[derive(Debug, Clone, Copy, PartialEq, Eq, Structural)]
pub enum PavingSound {
    Water,
    Lava,
    Ground,
}

/// The sound of a rock put on a tile of this kind.
pub open spec fn paving_sound(tile_type: TileType) -> PavingSound {
    match tile_type {
        TileType::DeepWater => PavingSound::Water,
        TileType::ShallowWater => PavingSound::Water,
        TileType::Lava => PavingSound::Lava,
        _ => PavingSound::Ground,
    }
}

/// How many rocks it takes to pave one tile of this kind.
pub open spec fn tile_cost(tile_type: TileType) -> nat {
    match tile_type {
        TileType::DeepWater => 3,
        TileType::Lava => 3,
        TileType::ShallowWater => 2,
        TileType::Mountain => 0,
        _ => 1,
    }
}

/// The cells stepped onto when going along a line from `from` to `to`: the
/// first is the one next to `from`, the last is `to`. `place` makes a cell of
/// a position on the line.
pub open spec fn run(from: int, to: int, place: spec_fn(int) -> (int, int)) -> Seq<(int, int)> {
    Seq::new(
        abs(to - from),
        |i: int|
            place(
                if from < to {
                    from + 1 + i
                } else {
                    from - 1 - i
                },
            ),
    )
}

/// The cells stepped onto when crossing from `from` to `to`: first along the
/// rows, in the column of `from`, then along the columns, in the row of `to`.
pub open spec fn crossing(from: (i32, i32), to: (i32, i32)) -> Seq<(int, int)> {
    run(from.0 as int, to.0 as int, |row: int| (row, from.1 as int)) + run(
        from.1 as int,
        to.1 as int,
        |col: int| (to.0 as int, col),
    )
}

/// What it costs to pave all the cells listed.
pub open spec fn cost_of(g: Seq<Seq<Tile>>, cells: Seq<(int, int)>) -> nat
    decreases cells.len(),
{
    if cells.len() == 0 {
        0
    } else {
        cost_of(g, cells.drop_last()) + tile_cost(g[cells.last().0][cells.last().1].tile_type)
    }
}

/// The cells that a bridge from `from` to `to` is made of: those of the
/// crossing but the last, which is `to` itself and needs no paving.
pub open spec fn bridge_cells(from: (i32, i32), to: (i32, i32)) -> Seq<(int, int)> {
    if crossing(from, to).len() == 0 {
        Seq::empty()
    } else {
        crossing(from, to).drop_last()
    }
}

/// What it costs to build a bridge from `from` to `to`: the cost of the
/// cells it is made of.
pub open spec fn paving_cost(g: Seq<Seq<Tile>>, from: (i32, i32), to: (i32, i32)) -> nat {
    cost_of(g, bridge_cells(from, to))
}

/// Every cell of the crossing from `from` to `to` lies in the grid.
pub open spec fn can_cross(g: Seq<Seq<Tile>>, from: (i32, i32), to: (i32, i32)) -> bool {
    forall|i: int|
        0 <= i < crossing(from, to).len() ==> in_bounds(
            g,
            (#[trigger] crossing(from, to)[i]).0,
            crossing(from, to)[i].1,
        )
}

/// Between two cells of a grid, the crossing stays in the grid.
pub proof fn lemma_can_cross(g: Seq<Seq<Tile>>, from: (i32, i32), to: (i32, i32))
    requires
        in_bounds(g, from.0 as int, from.1 as int),
        in_bounds(g, to.0 as int, to.1 as int),
    ensures
        can_cross(g, from, to),
{
}

/// No bridge on this grid costs more than a `usize` can hold.
pub open spec fn cost_fits(g: Seq<Seq<Tile>>) -> bool {
    3 * (g.len() + g[0].len()) <= usize::MAX
}

/// Whether no bridge on this map costs more than a `usize` can hold.
pub fn is_cost_fitting(map: &Vec<Vec<Tile>>) -> (ok: bool)
    requires
        map@.len() > 0,
    ensures
        ok == cost_fits(rows(map@)),
{
    let limit = usize::MAX / 3;
    let n_rows = map.len();
    let n_cols = map[0].len();
    n_rows <= limit && n_cols <= limit - n_rows
}

/// Whether every cell of the crossing from `from` to `to` lies in the map.
pub fn is_crossing_in_map(map: &Vec<Vec<Tile>>, from: (i32, i32), to: (i32, i32)) -> (ok: bool)
    requires
        valid_grid(rows(map@)),
    ensures
        ok == can_cross(rows(map@), from, to),
{
    let ghost g = rows(map@);
    let ghost path = crossing(from, to);
    let ghost row_steps = abs(to.0 - from.0);
    let n_rows = map.len() as i64;
    let n_cols = map[0].len() as i64;
    let first_row: i64 = if from.0 < to.0 {
        from.0 as i64 + 1
    } else {
        from.0 as i64 - 1
    };
    let first_col: i64 = if from.1 < to.1 {
        from.1 as i64 + 1
    } else {
        from.1 as i64 - 1
    };
    let rows_ok = from.0 == to.0 || (0 <= from.1 as i64 && (from.1 as i64) < n_cols && 0
        <= first_row && first_row < n_rows && 0 <= to.0 as i64 && (to.0 as i64) < n_rows);
    let cols_ok = from.1 == to.1 || (0 <= to.0 as i64 && (to.0 as i64) < n_rows && 0 <= first_col
        && first_col < n_cols && 0 <= to.1 as i64 && (to.1 as i64) < n_cols);
    proof {
        if rows_ok && cols_ok {
            assert forall|i: int| 0 <= i < path.len() implies in_bounds(
                g,
                (#[trigger] path[i]).0,
                path[i].1,
            ) by {
                if i < row_steps {
                } else {
                    assert(path[i].0 == to.0);
                }
            }
        }
        if from.0 != to.0 {
            assert(path[0] == (first_row as int, from.1 as int));
            assert(path[row_steps - 1] == (to.0 as int, from.1 as int));
        }
        if from.1 != to.1 {
            assert(path[row_steps as int] == (to.0 as int, first_col as int));
            assert(path[path.len() - 1] == (to.0 as int, to.1 as int));
        }
    }
    rows_ok && cols_ok
}

/// One cell more costs what that cell costs.
proof fn lemma_cost_of_next(g: Seq<Seq<Tile>>, cells: Seq<(int, int)>, n: int)
    requires
        0 <= n < cells.len(),
    ensures
        cost_of(g, cells.take(n + 1)) == cost_of(g, cells.take(n)) + tile_cost(
            g[cells[n].0][cells[n].1].tile_type,
        ),
{
    assert(cells.take(n + 1).drop_last() =~= cells.take(n));
}

/// What a bridge from `a` to `b` costs, taken in three parts: the stretch to
/// the corner at which it turns, the corner, and the stretch from there.
pub open spec fn cost_through_corner(g: Seq<Seq<Tile>>, a: (i32, i32), b: (i32, i32)) -> nat {
    paving_cost(g, a, (b.0, a.1)) + tile_cost(g[b.0 as int][a.1 as int].tile_type) + paving_cost(
        g,
        (b.0, a.1),
        b,
    )
}

/// The cost of a run of cells, counted from its first cell.
proof fn lemma_cost_of_front(g: Seq<Seq<Tile>>, cells: Seq<(int, int)>)
    requires
        cells.len() > 0,
    ensures
        cost_of(g, cells) == tile_cost(g[cells[0].0][cells[0].1].tile_type) + cost_of(
            g,
            cells.drop_first(),
        ),
    decreases cells.len(),
{
    if cells.len() == 1 {
        assert(cells.drop_last() =~= Seq::<(int, int)>::empty());
        assert(cells.drop_first() =~= Seq::<(int, int)>::empty());
    } else {
        lemma_cost_of_front(g, cells.drop_last());
        assert(cells.drop_last().drop_first() =~= cells.drop_first().drop_last());
    }
}

/// Two runs of cells, one after the other, cost what they cost apart.
pub proof fn lemma_cost_of_two_runs(g: Seq<Seq<Tile>>, first: Seq<(int, int)>, second: Seq<(int, int)>)
    ensures
        cost_of(g, first + second) == cost_of(g, first) + cost_of(g, second),
    decreases second.len(),
{
    if second.len() == 0 {
        assert(first + second =~= first);
    } else {
        lemma_cost_of_two_runs(g, first, second.drop_last());
        assert((first + second).drop_last() =~= first + second.drop_last());
    }
}

/// A run of cells costs the same walked backwards.
pub proof fn lemma_cost_of_reverse(g: Seq<Seq<Tile>>, cells: Seq<(int, int)>)
    ensures
        cost_of(g, cells.reverse()) == cost_of(g, cells),
    decreases cells.len(),
{
    if cells.len() > 0 {
        lemma_cost_of_reverse(g, cells.drop_first());
        assert(cells.reverse().drop_last() =~= cells.drop_first().reverse());
        lemma_cost_of_front(g, cells);
    }
}

/// Between two cells of one row or of one column, a bridge costs the same
/// whichever end it is built from: both ways pave the cells between the two.
pub proof fn lemma_paving_cost_symmetric_on_a_line(
    g: Seq<Seq<Tile>>,
    a: (i32, i32),
    b: (i32, i32),
)
    requires
        a.0 == b.0 || a.1 == b.1,
    ensures
        paving_cost(g, a, b) == paving_cost(g, b, a),
{
    let there = crossing(a, b);
    let back = crossing(b, a);
    assert(there.len() == back.len());
    if there.len() > 0 {
        assert(there.drop_last() =~= back.drop_last().reverse());
        lemma_cost_of_reverse(g, back.drop_last());
    }
}

/// Between two cells that share neither row nor column, a bridge from `a` to
/// `b` turns at the cell in the row of `b` and the column of `a`: it costs
/// the stretch up to that corner, the corner, and the stretch from there.
/// The bridge from `b` to `a` turns at the opposite corner, so the two need
/// not cost the same.
pub proof fn lemma_paving_cost_around_the_corner(g: Seq<Seq<Tile>>, a: (i32, i32), b: (i32, i32))
    requires
        a.0 != b.0,
        a.1 != b.1,
    ensures
        paving_cost(g, a, b) == cost_through_corner(g, a, b),
{
    let corner = (b.0, a.1);
    let along_rows = run(a.0 as int, b.0 as int, |row: int| (row, a.1 as int));
    let along_cols = run(a.1 as int, b.1 as int, |col: int| (b.0 as int, col));
    assert(crossing(a, b) == along_rows + along_cols);
    assert(crossing(a, corner) =~= along_rows);
    assert(crossing(corner, b) =~= along_cols);
    assert((along_rows + along_cols).drop_last() =~= along_rows + along_cols.drop_last());
    lemma_cost_of_two_runs(g, along_rows, along_cols.drop_last());
    assert(along_rows.last() == (b.0 as int, a.1 as int));
}

/// A bridge costs the same whichever end it is built from, wherever the two
/// ways pave tiles of the same total cost: always between two cells of one
/// row or of one column; between two others, when the two ways cost the same
/// through their corners. Elsewhere the two ways may differ in cost, as they
/// turn at opposite corners.
pub proof fn lemma_paving_cost_symmetric(g: Seq<Seq<Tile>>, a: (i32, i32), b: (i32, i32))
    requires
        a.0 == b.0 || a.1 == b.1 || cost_through_corner(g, a, b) == cost_through_corner(g, b, a),
    ensures
        paving_cost(g, a, b) == paving_cost(g, b, a),
{
    if a.0 == b.0 || a.1 == b.1 {
        lemma_paving_cost_symmetric_on_a_line(g, a, b);
    } else {
        lemma_paving_cost_around_the_corner(g, a, b);
        lemma_paving_cost_around_the_corner(g, b, a);
    }
}

impl MinerRobot {
    /// How many rocks it takes to pave one tile of this kind: 3 for deep
    /// water and lava, 2 for shallow water, none for a mountain, 1 for the
    /// rest.
    pub fn get_tile_cost(&self, tile_type: &TileType) -> (cost: usize)
        ensures
            cost == tile_cost(*tile_type),
    {
        match tile_type {
            TileType::DeepWater => 3,
            TileType::Lava => 3,
            TileType::ShallowWater => 2,
            TileType::Mountain => 0,
            _ => 1,
        }
    }

    /// The sound of a rock put on a tile of this kind.
    pub fn play_sound_paving(&self, tile_type: &TileType) -> (sound: PavingSound)
        ensures
            sound == paving_sound(*tile_type),
    {
        match tile_type {
            TileType::DeepWater => PavingSound::Water,
            TileType::ShallowWater => PavingSound::Water,
            TileType::Lava => PavingSound::Lava,
            _ => PavingSound::Ground,
        }
    }

    /// What it costs to build a bridge from `from` to `to`, rows first: the
    /// sum of the costs of the tiles stepped onto, the last one left out.
    pub fn get_paving_cost(&self, map: &Vec<Vec<Tile>>, from: (i32, i32), to: (i32, i32)) -> (cost:
        usize)
        requires
            valid_grid(rows(map@)),
            cost_fits(rows(map@)),
            can_cross(rows(map@), from, to),
        ensures
            cost == paving_cost(rows(map@), from, to),
            from == to ==> cost == 0,
    {
        let ghost g = rows(map@);
        let ghost path = crossing(from, to);
        let ghost row_steps = abs(to.0 - from.0);
        let ghost mut steps: int = 0;
        let mut cost: usize = 0;
        let mut curr_cost: usize = 0;
        let mut curr_row = from.0;
        let mut curr_col = from.1;
        assert(path.take(0) =~= Seq::<(int, int)>::empty());
        while curr_row != to.0
            invariant
                g == rows(map@),
                path == crossing(from, to),
                row_steps == abs(to.0 - from.0),
                valid_grid(g),
                cost_fits(g),
                can_cross(g, from, to),
                curr_col == from.1,
                from.0 <= curr_row <= to.0 || to.0 <= curr_row <= from.0,
                steps == abs(curr_row - from.0),
                cost == cost_of(g, path.take(steps)),
                cost <= 3 * steps,
                curr_cost <= 3,
                steps > 0 ==> curr_cost == tile_cost(
                    g[path[steps - 1].0][path[steps - 1].1].tile_type,
                ),
                steps == 0 ==> curr_cost == 0,
            decreases abs(to.0 - curr_row),
        {
            let next_row = if curr_row < to.0 {
                curr_row + 1
            } else {
                curr_row - 1
            };
            proof {
                assert(path[steps] == (next_row as int, curr_col as int));
                assert(in_bounds(g, path[steps].0, path[steps].1));
                assert(g[next_row as int].len() == g[0].len());
                lemma_cost_of_next(g, path, steps);
            }
            curr_cost = self.get_tile_cost(&map[next_row as usize][curr_col as usize].tile_type);
            cost += curr_cost;
            curr_row = next_row;
            proof {
                steps = steps + 1;
            }
        }
        while curr_col != to.1
            invariant
                g == rows(map@),
                path == crossing(from, to),
                row_steps == abs(to.0 - from.0),
                valid_grid(g),
                cost_fits(g),
                can_cross(g, from, to),
                curr_row == to.0,
                from.1 <= curr_col <= to.1 || to.1 <= curr_col <= from.1,
                steps == row_steps + abs(curr_col - from.1),
                cost == cost_of(g, path.take(steps)),
                cost <= 3 * steps,
                curr_cost <= 3,
                steps > 0 ==> curr_cost == tile_cost(
                    g[path[steps - 1].0][path[steps - 1].1].tile_type,
                ),
                steps == 0 ==> curr_cost == 0,
            decreases abs(to.1 - curr_col),
        {
            let next_col = if curr_col < to.1 {
                curr_col + 1
            } else {
                curr_col - 1
            };
            proof {
                assert(path[steps] == (curr_row as int, next_col as int));
                assert(in_bounds(g, path[steps].0, path[steps].1));
                assert(g[curr_row as int].len() == g[0].len());
                lemma_cost_of_next(g, path, steps);
            }
            curr_cost = self.get_tile_cost(&map[curr_row as usize][next_col as usize].tile_type);
            cost += curr_cost;
            curr_col = next_col;
            proof {
                steps = steps + 1;
            }
        }
        proof {
            assert(steps == path.len());
            assert(path.take(steps) =~= path);
        }
        cost - curr_cost
    }
    /// The two ends of the bridge to build, the target first: the closest
    /// pair of cells between the miner's island and the nearest other island.
    /// Where the miner stands on no island, both are the origin; where no
    /// other island is known, the origin stands in for the target.
    pub fn calculate_bridge_points(&mut self, map: &Vec<Vec<Tile>>) -> (points: (
        (i32, i32),
        (i32, i32),
    ))
        requires
            valid_grid(rows(map@)),
        ensures
            *final(self) == *old(self),
            points == bridge_points(
                rows(map@),
                old(self).coordinates.0 as int,
                old(self).coordinates.1 as int,
            ),
            is_bridge_target(
                rows(map@),
                old(self).coordinates.0 as int,
                old(self).coordinates.1 as int,
                points.0,
                points.1,
            ),
    {
        let ghost g = rows(map@);
        let ghost row = self.coordinates.0 as int;
        let ghost col = self.coordinates.1 as int;
        let mut islands = self.get_islands(map);
        let ghost all = rows(islands@);
        assert forall|k: int| 0 <= k < islands@.len() implies (#[trigger] islands@[k])@.len()
            > 0 by {
            assert(all[k] == islands@[k]@);
        }
        let robot_island = match self.get_robot_island(&islands) {
            Some(cells) => cells,
            None => Vec::new(),
        };
        let target_island = match self.get_closest_island_to_robot(&mut islands) {
            Some(cells) => cells,
            None => {
                let mut origin: Vec<(i32, i32)> = Vec::new();
                origin.push((0, 0));
                origin
            },
        };
        proof {
            assert(robot_island@ =~= own_island(all, row, col));
            assert(target_island@ =~= island_to_reach(all, row, col));
            lemma_bridge_points(g, row, col);
        }
        match self.get_closest_points(map, robot_island, target_island) {
            Some(points) => points,
            None => ((0, 0), (0, 0)),
        }
    }
}

} // verus!
