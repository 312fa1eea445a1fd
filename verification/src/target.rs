use crate::distance::{is_least_distance, least_distance, manhattan};
use crate::grid::{
    adjacent, connected, in_bounds, is_walk, lemma_connected_walkable, step_adjacent, valid_grid,
    walkable, walkable_cell,
};
use crate::island::{
    closest_island, closest_points, differs_from, each_closed, holds, is_candidate,
    is_first_closest_pair, is_first_holding, is_first_nearest, is_island_partition, islands_of,
    lemma_closest_points, lemma_closest_points_exist, lemma_first_holding, lemma_first_nearest,
    lemma_island_of, lemma_nearest_island, on_an_island, other_islands, pair_distance, robot_island,
};
use crate::partition::lemma_islands_of_is_partition;
use crate::tile::Tile;
use vstd::prelude::*;

verus! {

/// The miner stands on a walkable cell of the grid.
pub open spec fn on_land(g: Seq<Seq<Tile>>, row: int, col: int) -> bool {
    in_bounds(g, row, col) && walkable(g[row][col].tile_type)
}

/// The cell at `(row, col)`.
pub open spec fn cell_at(row: int, col: int) -> (i32, i32) {
    (row as i32, col as i32)
}

/// The cell lies on the island of the miner, who stands at `(row, col)`.
pub open spec fn on_own_island(g: Seq<Seq<Tile>>, row: int, col: int, cell: (i32, i32)) -> bool {
    connected(g, cell_at(row, col), cell)
}

/// The cell is walkable, and no walk leads to it from the miner, who stands
/// at `(row, col)`.
pub open spec fn on_other_island(g: Seq<Seq<Tile>>, row: int, col: int, cell: (i32, i32)) -> bool {
    walkable_cell(g, cell) && !connected(g, cell_at(row, col), cell)
}

/// `target` and `start` are the two ends of the bridge to build, for a miner
/// that stands at `(row, col)`.
///
/// Where the miner stands on no walkable cell, both are the origin. Where no
/// other island is known, the target is the origin and the start is the cell
/// of the miner's island nearest to it. Otherwise the target lies on an
/// island nearest to the miner among the others, the start lies on the
/// miner's island, and no two cells of these two islands are closer to each
/// other.
pub open spec fn is_bridge_target(
    g: Seq<Seq<Tile>>,
    row: int,
    col: int,
    target: (i32, i32),
    start: (i32, i32),
) -> bool {
    if !on_land(g, row, col) {
        target == (0i32, 0i32) && start == (0i32, 0i32)
    } else if forall|cell: (i32, i32)| !#[trigger] on_other_island(g, row, col, cell) {
        &&& target == (0i32, 0i32)
        &&& on_own_island(g, row, col, start)
        &&& forall|s: (i32, i32)| #[trigger]
            on_own_island(g, row, col, s) ==> manhattan(target, start.0 as int, start.1 as int)
                <= manhattan(target, s.0 as int, s.1 as int)
    } else {
        &&& on_own_island(g, row, col, start)
        &&& on_other_island(g, row, col, target)
        &&& forall|cell: (i32, i32)| #[trigger]
            on_other_island(g, row, col, cell) ==> exists|t: (i32, i32)| #[trigger]
                connected(g, target, t) && manhattan(t, row, col) <= manhattan(cell, row, col)
        &&& forall|t: (i32, i32), s: (i32, i32)|
            #[trigger] connected(g, target, t) && #[trigger] on_own_island(g, row, col, s)
                ==> manhattan(target, start.0 as int, start.1 as int) <= manhattan(
                t,
                s.0 as int,
                s.1 as int,
            )
    }
}

/// The island on which `(row, col)` lies; no cells where it lies on none.
pub open spec fn own_island(islands: Seq<Seq<(i32, i32)>>, row: int, col: int) -> Seq<(i32, i32)> {
    match robot_island(islands, row, col) {
        Some(cells) => cells,
        None => Seq::empty(),
    }
}

/// The island to build to, for a miner at `(row, col)`: the first of the
/// nearest among the islands other than its own. Where the miner stands on
/// no island, or no other island is left, the origin alone stands in.
pub open spec fn island_to_reach(islands: Seq<Seq<(i32, i32)>>, row: int, col: int) -> Seq<
    (i32, i32),
> {
    match closest_island(islands, row, col) {
        Some(cells) => cells,
        None => seq![(0i32, 0i32)],
    }
}

/// The two ends of a bridge between two islands, the target first: the first
/// closest pair of cells that may be joined, or the origin twice where no
/// pair may.
pub open spec fn end_points(
    g: Seq<Seq<Tile>>,
    robot_island: Seq<(i32, i32)>,
    target_island: Seq<(i32, i32)>,
) -> ((i32, i32), (i32, i32)) {
    match closest_points(g, robot_island, target_island) {
        Some(points) => points,
        None => ((0i32, 0i32), (0i32, 0i32)),
    }
}

/// The two ends of the bridge to build, the target first, as they follow
/// from a listing of the islands for a miner at `(row, col)`.
pub open spec fn resolved(g: Seq<Seq<Tile>>, islands: Seq<Seq<(i32, i32)>>, row: int, col: int) -> (
    (i32, i32),
    (i32, i32),
) {
    end_points(g, own_island(islands, row, col), island_to_reach(islands, row, col))
}

/// The two ends of the bridge to build on a grid, the target first, for a
/// miner at `(row, col)`.
pub open spec fn bridge_points(g: Seq<Seq<Tile>>, row: int, col: int) -> ((i32, i32), (i32, i32)) {
    resolved(g, islands_of(g), row, col)
}

/// An island with a cell has a least distance to any point.
pub proof fn lemma_least_distance_exists(island: Seq<(i32, i32)>, row: int, col: int)
    requires
        island.len() > 0,
    ensures
        is_least_distance(island, row, col, least_distance(island, row, col)),
    decreases island.len(),
{
    let last = island.last();
    let d_last = manhattan(last, row, col);
    if island.len() == 1 {
        assert(manhattan(island[0], row, col) == d_last);
        assert(is_least_distance(island, row, col, d_last));
    } else {
        let rest = island.drop_last();
        lemma_least_distance_exists(rest, row, col);
        let d_rest = least_distance(rest, row, col);
        let x = choose|x: int| 0 <= x < rest.len() && manhattan(#[trigger] rest[x], row, col) == d_rest;
        assert(island[x] == rest[x]);
        let d = if d_last < d_rest {
            d_last
        } else {
            d_rest
        };
        assert(manhattan(island[island.len() - 1], row, col) == d_last);
        assert forall|y: int| 0 <= y < island.len() implies d <= manhattan(
            #[trigger] island[y],
            row,
            col,
        ) by {
            if y < rest.len() {
                assert(island[y] == rest[y]);
            }
        }
        assert(is_least_distance(island, row, col, d));
    }
}

/// A walk that starts on an island stays on it.
pub proof fn lemma_walk_stays_on_island(
    g: Seq<Seq<Tile>>,
    islands: Seq<Seq<(i32, i32)>>,
    k: int,
    path: Seq<(i32, i32)>,
    i: int,
)
    requires
        each_closed(g, islands),
        0 <= k < islands.len(),
        is_walk(g, path),
        islands[k].contains(path[0]),
        0 <= i < path.len(),
    ensures
        islands[k].contains(path[i]),
    decreases i,
{
    if i > 0 {
        lemma_walk_stays_on_island(g, islands, k, path, i - 1);
        let x = choose|x: int| 0 <= x < islands[k].len() && islands[k][x] == path[i - 1];
        assert(step_adjacent(path, i - 1));
        assert(adjacent(islands[k][x], path[i]));
        assert(walkable_cell(g, path[i]));
    }
}

/// Two cells lie on one island exactly when a walk joins them: the islands
/// are the sets of cells that hang together.
pub proof fn lemma_same_island_iff_connected(
    g: Seq<Seq<Tile>>,
    islands: Seq<Seq<(i32, i32)>>,
    k: int,
    a: (i32, i32),
    b: (i32, i32),
)
    requires
        is_island_partition(g, islands),
        0 <= k < islands.len(),
        islands[k].contains(a),
    ensures
        islands[k].contains(b) <==> connected(g, a, b),
{
    let x = choose|x: int| 0 <= x < islands[k].len() && islands[k][x] == a;
    if islands[k].contains(b) {
        let y = choose|y: int| 0 <= y < islands[k].len() && islands[k][y] == b;
        assert(connected(g, islands[k][x], islands[k][y]));
    }
    if connected(g, a, b) {
        let path = choose|path: Seq<(i32, i32)>| #[trigger]
            is_walk(g, path) && path[0] == a && path.last() == b;
        lemma_walk_stays_on_island(g, islands, k, path, path.len() - 1);
    }
}

/// Where the miner stands on none of the islands, it stands on no walkable
/// cell.
pub proof fn lemma_off_the_islands(g: Seq<Seq<Tile>>, islands: Seq<Seq<(i32, i32)>>, row: int, col: int)
    requires
        valid_grid(g),
        is_island_partition(g, islands),
        !on_an_island(islands, row, col),
    ensures
        !on_land(g, row, col),
{
    if on_land(g, row, col) {
        let cell = cell_at(row, col);
        assert(walkable_cell(g, cell));
        let k = choose|k: int| 0 <= k < islands.len() && (#[trigger] islands[k]).contains(cell);
        let x = choose|x: int| 0 <= x < islands[k].len() && islands[k][x] == cell;
        assert(islands[k][x].0 == row && islands[k][x].1 == col);
        assert(holds(islands[k], row, col));
    }
}

/// The miner's island is the set of cells that a walk from the miner
/// reaches; the other islands hold the walkable cells that none reaches.
pub proof fn lemma_islands_by_walks(
    g: Seq<Seq<Tile>>,
    islands: Seq<Seq<(i32, i32)>>,
    others: Seq<Seq<(i32, i32)>>,
    row: int,
    col: int,
    k0: int,
)
    requires
        valid_grid(g),
        is_island_partition(g, islands),
        is_first_holding(islands, row, col, k0),
        others == islands.filter(differs_from(islands[k0])),
    ensures
        on_land(g, row, col),
        forall|cell: (i32, i32)|
            #[trigger] islands[k0].contains(cell) <==> on_own_island(g, row, col, cell),
        forall|m: int, cell: (i32, i32)|
            0 <= m < others.len() && (#[trigger] others[m]).contains(cell) ==> #[trigger] on_other_island(
                g,
                row,
                col,
                cell,
            ),
        forall|cell: (i32, i32)| #[trigger]
            on_other_island(g, row, col, cell) ==> exists|m: int|
                0 <= m < others.len() && (#[trigger] others[m]).contains(cell),
        forall|m: int| 0 <= m < others.len() ==> (#[trigger] others[m]).len() > 0,
        forall|m: int, x: int, y: int|
            #![trigger others[m][x], others[m][y]]
            0 <= m < others.len() && 0 <= x < others[m].len() && 0 <= y < others[m].len()
                ==> connected(g, others[m][x], others[m][y]),
        forall|m: int, x: int, cell: (i32, i32)|
            0 <= m < others.len() && 0 <= x < others[m].len() && #[trigger] connected(
                g,
                others[m][x],
                cell,
            ) ==> others[m].contains(cell),
{
    broadcast use vstd::seq_lib::group_filter_ensures;
    broadcast use vstd::seq::Seq::lemma_filter_contains_rev;

    let own = islands[k0];
    let keep = differs_from(own);
    let me = cell_at(row, col);
    let x0 = choose|x: int| 0 <= x < own.len() && (#[trigger] own[x]).0 == row && own[x].1 == col;
    assert(walkable_cell(g, islands[k0][x0]));
    assert(own[x0] == me);
    assert(own.contains(me));
    assert forall|cell: (i32, i32)| #[trigger]
        own.contains(cell) <==> on_own_island(g, row, col, cell) by {
        lemma_same_island_iff_connected(g, islands, k0, me, cell);
    }
    assert forall|m: int| 0 <= m < others.len() implies exists|j: int|
        0 <= j < islands.len() && j != k0 && islands[j] == #[trigger] others[m] by {
        assert(keep(others[m]));
        assert(others.contains(others[m]));
        assert(islands.contains(others[m]));
        let j = choose|j: int| 0 <= j < islands.len() && islands[j] == others[m];
        assert(islands[j] != own);
    }
    assert forall|m: int, cell: (i32, i32)|
        0 <= m < others.len() && (#[trigger] others[m]).contains(cell) implies #[trigger] on_other_island(
        g,
        row,
        col,
        cell,
    ) by {
        let j = choose|j: int| 0 <= j < islands.len() && j != k0 && islands[j] == others[m];
        let y = choose|y: int| 0 <= y < islands[j].len() && islands[j][y] == cell;
        assert(walkable_cell(g, islands[j][y]));
        if connected(g, me, cell) {
            assert(own.contains(cell));
            let z = choose|z: int| 0 <= z < own.len() && own[z] == cell;
            assert(islands[k0][z] == islands[j][y]);
        }
    }
    assert forall|cell: (i32, i32)| #[trigger]
        on_other_island(g, row, col, cell) implies exists|m: int|
        0 <= m < others.len() && (#[trigger] others[m]).contains(cell) by {
        let j = choose|j: int| 0 <= j < islands.len() && (#[trigger] islands[j]).contains(cell);
        assert(!own.contains(cell));
        assert(islands[j] != own);
        assert(keep(islands[j]));
        assert(others.contains(islands[j]));
        let m = choose|m: int| 0 <= m < others.len() && others[m] == islands[j];
        assert(others[m].contains(cell));
    }
    assert forall|m: int| 0 <= m < others.len() implies (#[trigger] others[m]).len() > 0 by {
        let j = choose|j: int| 0 <= j < islands.len() && j != k0 && islands[j] == others[m];
    }
    assert forall|m: int, x: int, y: int|
        #![trigger others[m][x], others[m][y]]
        0 <= m < others.len() && 0 <= x < others[m].len() && 0 <= y < others[m].len()
        implies connected(g, others[m][x], others[m][y]) by {
        let j = choose|j: int| 0 <= j < islands.len() && j != k0 && islands[j] == others[m];
        assert(connected(g, islands[j][x], islands[j][y]));
    }
    assert forall|m: int, x: int, cell: (i32, i32)|
        0 <= m < others.len() && 0 <= x < others[m].len() && #[trigger] connected(
            g,
            others[m][x],
            cell,
        ) implies others[m].contains(cell) by {
        let j = choose|j: int| 0 <= j < islands.len() && j != k0 && islands[j] == others[m];
        assert(islands[j].contains(others[m][x]));
        lemma_same_island_iff_connected(g, islands, j, others[m][x], cell);
    }
}

/// Where another island is known: the end points picked on the nearest of
/// the other islands and on the miner's island are the two ends of the
/// bridge.
pub proof fn lemma_target_on_nearest_island(
    g: Seq<Seq<Tile>>,
    islands: Seq<Seq<(i32, i32)>>,
    others: Seq<Seq<(i32, i32)>>,
    row: int,
    col: int,
    k0: int,
    k: int,
    t: int,
    r: int,
)
    requires
        valid_grid(g),
        is_island_partition(g, islands),
        is_first_holding(islands, row, col, k0),
        others == islands.filter(differs_from(islands[k0])),
        is_first_nearest(others, row, col, k),
        is_first_closest_pair(g, islands[k0], others[k], t, r),
    ensures
        is_bridge_target(g, row, col, others[k][t], islands[k0][r]),
{
    lemma_islands_by_walks(g, islands, others, row, col, k0);
    let own = islands[k0];
    let goal = others[k];
    let target = goal[t];
    let start = own[r];
    assert(own.contains(start));
    assert(goal.contains(target));
    assert(on_other_island(g, row, col, target));
    lemma_least_distance_exists(goal, row, col);
    let t_near = choose|x: int|
        0 <= x < goal.len() && manhattan(#[trigger] goal[x], row, col) == least_distance(
            goal,
            row,
            col,
        );
    assert(connected(g, others[k][t], others[k][t_near]));
    assert forall|cell: (i32, i32)| #[trigger]
        on_other_island(g, row, col, cell) implies exists|c: (i32, i32)| #[trigger]
        connected(g, target, c) && manhattan(c, row, col) <= manhattan(cell, row, col) by {
        let m = choose|m: int| 0 <= m < others.len() && (#[trigger] others[m]).contains(cell);
        let y = choose|y: int| 0 <= y < others[m].len() && others[m][y] == cell;
        lemma_least_distance_exists(others[m], row, col);
        assert(least_distance(others[m], row, col) <= manhattan(others[m][y], row, col));
        assert(connected(g, target, goal[t_near]));
    }
    assert forall|c: (i32, i32), s: (i32, i32)|
        #[trigger] connected(g, target, c) && #[trigger] on_own_island(
            g,
            row,
            col,
            s,
        ) implies manhattan(target, start.0 as int, start.1 as int) <= manhattan(
        c,
        s.0 as int,
        s.1 as int,
    ) by {
        assert(connected(g, others[k][t], c));
        assert(goal.contains(c));
        assert(own.contains(s));
        let t2 = choose|x: int| 0 <= x < goal.len() && goal[x] == c;
        let r2 = choose|x: int| 0 <= x < own.len() && own[x] == s;
        lemma_connected_walkable(g, cell_at(row, col), s);
        assert(is_candidate(g, own, goal, t2, r2));
        assert(pair_distance(own, goal, t, r) <= pair_distance(own, goal, t2, r2));
    }
}

/// Where no other island is known: the origin stands in for the target, and
/// the start is the cell of the miner's island nearest to it.
pub proof fn lemma_target_at_origin(
    g: Seq<Seq<Tile>>,
    islands: Seq<Seq<(i32, i32)>>,
    row: int,
    col: int,
    k0: int,
    t: int,
    r: int,
)
    requires
        valid_grid(g),
        is_island_partition(g, islands),
        is_first_holding(islands, row, col, k0),
        islands.filter(differs_from(islands[k0])).len() == 0,
        is_first_closest_pair(g, islands[k0], seq![(0i32, 0i32)], t, r),
    ensures
        is_bridge_target(g, row, col, (0i32, 0i32), islands[k0][r]),
{
    let others = islands.filter(differs_from(islands[k0]));
    lemma_islands_by_walks(g, islands, others, row, col, k0);
    let own = islands[k0];
    let goal = seq![(0i32, 0i32)];
    let start = own[r];
    assert(own.contains(start));
    assert(t == 0);
    assert forall|s: (i32, i32)| #[trigger] on_own_island(g, row, col, s) implies manhattan(
        (0i32, 0i32),
        start.0 as int,
        start.1 as int,
    ) <= manhattan((0i32, 0i32), s.0 as int, s.1 as int) by {
        assert(own.contains(s));
        let r2 = choose|x: int| 0 <= x < own.len() && own[x] == s;
        lemma_connected_walkable(g, cell_at(row, col), s);
        assert(is_candidate(g, own, goal, 0, r2));
        assert(pair_distance(own, goal, t, r) <= pair_distance(own, goal, 0, r2));
    }
}

/// The end points worked out for a bridge are what they are meant to be: on
/// the miner's island and on a nearest other island, as close to each other
/// as two cells of these islands can be; or the origin, where there is
/// nothing to build from or nothing to build to.
pub proof fn lemma_bridge_points(g: Seq<Seq<Tile>>, row: int, col: int)
    requires
        valid_grid(g),
    ensures
        is_bridge_target(g, row, col, bridge_points(g, row, col).0, bridge_points(g, row, col).1),
{
    let islands = islands_of(g);
    lemma_islands_of_is_partition(g);
    if on_an_island(islands, row, col) {
        let some = choose|k: int| 0 <= k < islands.len() && holds(#[trigger] islands[k], row, col);
        let k0 = lemma_first_holding(islands, row, col, some);
        lemma_island_of(islands, row, col, k0);
        let own = islands[k0];
        let others = other_islands(islands, row, col);
        lemma_islands_by_walks(g, islands, others, row, col, k0);
        let x0 = choose|x: int| 0 <= x < own.len() && (#[trigger] own[x]).0 == row && own[x].1 == col;
        assert(walkable_cell(g, islands[k0][x0]));
        if others.len() == 0 {
            let goal = seq![(0i32, 0i32)];
            assert(is_candidate(g, own, goal, 0, x0));
            let (t, r) = lemma_closest_points_exist(g, own, goal, 0, x0);
            lemma_closest_points(g, own, goal, t, r);
            lemma_target_at_origin(g, islands, row, col, k0, t, r);
        } else {
            assert(others.take(others.len() as int) =~= others);
            let k = lemma_first_nearest(others, row, col, others.len() as int);
            lemma_nearest_island(others, row, col, k);
            let goal = others[k];
            assert(is_candidate(g, own, goal, 0, x0));
            let (t, r) = lemma_closest_points_exist(g, own, goal, 0, x0);
            lemma_closest_points(g, own, goal, t, r);
            lemma_target_on_nearest_island(g, islands, others, row, col, k0, k, t, r);
        }
    } else {
        lemma_off_the_islands(g, islands, row, col);
        let own = Seq::<(i32, i32)>::empty();
        let goal = seq![(0i32, 0i32)];
        assert forall|t: int, r: int| !is_first_closest_pair(g, own, goal, t, r) by {
            assert(!is_candidate(g, own, goal, t, r));
        }
    }
}

} // verus!
