use crate::distance::{distance_between, island_distance, least_distance, manhattan};
use crate::grid::{adjacent, connected, rows, valid_grid, walkable, walkable_cell};
use crate::partition::lemma_islands_of_is_partition;
use crate::tile::Tile;
use crate::MinerRobot;
use vstd::prelude::*;

verus! {

/// Whether the table of marks holds a mark for the cell.
pub open spec fn seen(marks: Seq<Seq<bool>>, cell: (i32, i32)) -> bool {
    marks[cell.0 as int][cell.1 as int]
}

/// The table of marks has one entry for each tile of the grid.
pub open spec fn same_shape(marks: Seq<Seq<bool>>, g: Seq<Seq<Tile>>) -> bool {
    &&& marks.len() == g.len()
    &&& forall|r: int| 0 <= r < g.len() ==> (#[trigger] marks[r]).len() == g[r].len()
}

/// How many entries of a row of marks are still unset.
pub open spec fn unset_in_row(row: Seq<bool>) -> nat
    decreases row.len(),
{
    if row.len() == 0 {
        0
    } else {
        unset_in_row(row.drop_last()) + if row.last() {
            0nat
        } else {
            1nat
        }
    }
}

/// How many entries of a table of marks are still unset.
pub open spec fn unset(marks: Seq<Seq<bool>>) -> nat
    decreases marks.len(),
{
    if marks.len() == 0 {
        0
    } else {
        unset(marks.drop_last()) + unset_in_row(marks.last())
    }
}

/// Setting one of its marks leaves a row with one unset mark less.
proof fn lemma_unset_in_row_after_mark(row: Seq<bool>, c: int)
    requires
        0 <= c < row.len(),
        !row[c],
    ensures
        unset_in_row(row.update(c, true)) + 1 == unset_in_row(row),
    decreases row.len(),
{
    if c == row.len() - 1 {
        assert(row.update(c, true).drop_last() =~= row.drop_last());
    } else {
        lemma_unset_in_row_after_mark(row.drop_last(), c);
        assert(row.update(c, true).drop_last() =~= row.drop_last().update(c, true));
    }
}

/// Setting one of its marks leaves a table with one unset mark less.
pub proof fn lemma_unset_after_mark(marks: Seq<Seq<bool>>, r: int, c: int)
    requires
        0 <= r < marks.len(),
        0 <= c < marks[r].len(),
        !marks[r][c],
    ensures
        unset(marks.update(r, marks[r].update(c, true))) + 1 == unset(marks),
    decreases marks.len(),
{
    let after = marks.update(r, marks[r].update(c, true));
    if r == marks.len() - 1 {
        assert(after.drop_last() =~= marks.drop_last());
        lemma_unset_in_row_after_mark(marks[r], c);
    } else {
        lemma_unset_after_mark(marks.drop_last(), r, c);
        assert(after.drop_last() =~= marks.drop_last().update(r, marks[r].update(c, true)));
    }
}

/// The marks with the mark of one more cell set.
pub open spec fn marked(marks: Seq<Seq<bool>>, cell: (i32, i32)) -> Seq<Seq<bool>> {
    marks.update(cell.0 as int, marks[cell.0 as int].update(cell.1 as int, true))
}

/// The marks with the mark of each of the cells set.
pub open spec fn marked_all(marks: Seq<Seq<bool>>, cells: Seq<(i32, i32)>) -> Seq<Seq<bool>>
    decreases cells.len(),
{
    if cells.len() == 0 {
        marks
    } else {
        marked(marked_all(marks, cells.drop_last()), cells.last())
    }
}

/// A table of marks for the grid, none of them set.
pub open spec fn no_marks(g: Seq<Seq<Tile>>) -> Seq<Seq<bool>> {
    Seq::new(g.len(), |r: int| Seq::new(g[r].len(), |c: int| false))
}

/// The cell alone, if it is a walkable cell without a mark; nothing
/// otherwise.
pub open spec fn if_fresh(g: Seq<Seq<Tile>>, marks: Seq<Seq<bool>>, cell: (i32, i32)) -> Seq<
    (i32, i32),
> {
    if walkable_cell(g, cell) && !seen(marks, cell) {
        seq![cell]
    } else {
        Seq::empty()
    }
}

/// The neighbours of a cell that the flood fill is to look at: those that
/// are walkable and carry no mark, the one above first, then the ones below,
/// to the left and to the right. They go onto a stack, so the last is looked
/// at first.
pub open spec fn fresh_neighbours(g: Seq<Seq<Tile>>, marks: Seq<Seq<bool>>, cell: (i32, i32)) -> Seq<
    (i32, i32),
> {
    if_fresh(g, marks, ((cell.0 - 1) as i32, cell.1)) + if_fresh(
        g,
        marks,
        ((cell.0 + 1) as i32, cell.1),
    ) + if_fresh(g, marks, (cell.0, (cell.1 - 1) as i32)) + if_fresh(
        g,
        marks,
        (cell.0, (cell.1 + 1) as i32),
    )
}

/// The cells that a flood fill lists, in its order, when it starts with the
/// given marks and has the cells of `stack` still to look at, the last one
/// first. A cell is listed and marked when it is looked at for the first
/// time; its neighbours are looked at before anything else: first the one to
/// the right, then the ones to the left, below and above.
pub open spec fn flood(g: Seq<Seq<Tile>>, marks: Seq<Seq<bool>>, stack: Seq<(i32, i32)>) -> Seq<
    (i32, i32),
>
    decreases unset(marks), stack.len(),
    when same_shape(marks, g) && valid_grid(g)
    via flood_decreases
{
    if stack.len() == 0 {
        Seq::empty()
    } else if walkable_cell(g, stack.last()) && !seen(marks, stack.last()) {
        seq![stack.last()] + flood(
            g,
            marked(marks, stack.last()),
            stack.drop_last() + fresh_neighbours(g, marked(marks, stack.last()), stack.last()),
        )
    } else {
        flood(g, marks, stack.drop_last())
    }
}

#[via_fn]
proof fn flood_decreases(g: Seq<Seq<Tile>>, marks: Seq<Seq<bool>>, stack: Seq<(i32, i32)>) {
    if stack.len() > 0 && walkable_cell(g, stack.last()) && !seen(marks, stack.last()) {
        let cell = stack.last();
        assert(g[cell.0 as int].len() == g[0].len());
        assert(marks[cell.0 as int].len() == g[cell.0 as int].len());
        lemma_unset_after_mark(marks, cell.0 as int, cell.1 as int);
    }
}

/// The islands that a scan of the grid finds from the tile at `(i, j)` on,
/// row by row and left to right, when it starts with the given marks: each
/// walkable tile without a mark starts a flood fill, which lists one island.
pub open spec fn scan(g: Seq<Seq<Tile>>, marks: Seq<Seq<bool>>, i: int, j: int) -> Seq<
    Seq<(i32, i32)>,
>
    decreases g.len() - i, g[0].len() - j,
{
    if i < 0 || j < 0 || i >= g.len() {
        Seq::empty()
    } else if j >= g[0].len() {
        scan(g, marks, i + 1, 0)
    } else if walkable(g[i][j].tile_type) && !marks[i][j] {
        let island = flood(g, marks, seq![(i as i32, j as i32)]);
        seq![island] + scan(g, marked_all(marks, island), i, j + 1)
    } else {
        scan(g, marks, i, j + 1)
    }
}

/// The islands of a grid, in the order in which a scan of the grid meets
/// them, each with its cells in the order in which the flood fill lists
/// them.
pub open spec fn islands_of(g: Seq<Seq<Tile>>) -> Seq<Seq<(i32, i32)>> {
    scan(g, no_marks(g), 0, 0)
}

/// Row by row, left to right: `a` comes before `b`.
pub open spec fn row_major_before(a: (i32, i32), b: (i32, i32)) -> bool {
    a.0 < b.0 || (a.0 == b.0 && a.1 < b.1)
}

/// Every cell of every island is a walkable cell of the grid.
pub open spec fn only_walkable(g: Seq<Seq<Tile>>, islands: Seq<Seq<(i32, i32)>>) -> bool {
    forall|k: int, x: int|
        0 <= k < islands.len() && 0 <= x < islands[k].len() ==> walkable_cell(
            g,
            #[trigger] islands[k][x],
        )
}

/// Every walkable cell of the grid lies in some island.
pub open spec fn covers_walkable(g: Seq<Seq<Tile>>, islands: Seq<Seq<(i32, i32)>>) -> bool {
    forall|cell: (i32, i32)| #[trigger]
        walkable_cell(g, cell) ==> exists|k: int|
            0 <= k < islands.len() && (#[trigger] islands[k]).contains(cell)
}

/// No cell is listed twice, neither in one island nor in two.
pub open spec fn no_cell_twice(islands: Seq<Seq<(i32, i32)>>) -> bool {
    forall|k1: int, x1: int, k2: int, x2: int|
        #![trigger islands[k1][x1], islands[k2][x2]]
        0 <= k1 < islands.len() && 0 <= x1 < islands[k1].len() && 0 <= k2 < islands.len() && 0
            <= x2 < islands[k2].len() && islands[k1][x1] == islands[k2][x2] ==> k1 == k2 && x1
            == x2
}

/// Any two cells of one island are joined by a walk.
pub open spec fn each_connected(g: Seq<Seq<Tile>>, islands: Seq<Seq<(i32, i32)>>) -> bool {
    forall|k: int, x: int, y: int|
        #![trigger islands[k][x], islands[k][y]]
        0 <= k < islands.len() && 0 <= x < islands[k].len() && 0 <= y < islands[k].len()
            ==> connected(g, islands[k][x], islands[k][y])
}

/// An island holds every walkable cell that shares a side with one of its
/// cells: it cannot be made larger.
pub open spec fn each_closed(g: Seq<Seq<Tile>>, islands: Seq<Seq<(i32, i32)>>) -> bool {
    forall|k: int, x: int, n: (i32, i32)|
        0 <= k < islands.len() && 0 <= x < islands[k].len() && #[trigger] adjacent(
            islands[k][x],
            n,
        ) && walkable_cell(g, n) ==> islands[k].contains(n)
}

/// Each island starts with its first cell in row-major order, and the islands
/// are listed by that first cell.
pub open spec fn in_discovery_order(islands: Seq<Seq<(i32, i32)>>) -> bool {
    &&& forall|k: int, x: int|
        0 <= k < islands.len() && 0 < x < islands[k].len() ==> row_major_before(
            islands[k][0],
            #[trigger] islands[k][x],
        )
    &&& forall|k1: int, k2: int|
        #![trigger islands[k1], islands[k2]]
        0 <= k1 < k2 < islands.len() ==> row_major_before(islands[k1][0], islands[k2][0])
}

/// The islands of a grid: its walkable cells, split into the largest sets
/// that hang together by shared sides, each cell listed once.
pub open spec fn is_island_partition(g: Seq<Seq<Tile>>, islands: Seq<Seq<(i32, i32)>>) -> bool {
    &&& forall|k: int| 0 <= k < islands.len() ==> (#[trigger] islands[k]).len() > 0
    &&& only_walkable(g, islands)
    &&& covers_walkable(g, islands)
    &&& no_cell_twice(islands)
    &&& each_connected(g, islands)
    &&& each_closed(g, islands)
    &&& in_discovery_order(islands)
}

/// The island lists the cell `(row, col)`.
pub open spec fn holds(island: Seq<(i32, i32)>, row: int, col: int) -> bool {
    exists|x: int| 0 <= x < island.len() && (#[trigger] island[x]).0 == row && island[x].1 == col
}

/// Some island lists the cell `(row, col)`.
pub open spec fn on_an_island(islands: Seq<Seq<(i32, i32)>>, row: int, col: int) -> bool {
    exists|k: int| 0 <= k < islands.len() && holds(#[trigger] islands[k], row, col)
}

/// Island `k` is the first that lists the cell `(row, col)`.
pub open spec fn is_first_holding(
    islands: Seq<Seq<(i32, i32)>>,
    row: int,
    col: int,
    k: int,
) -> bool {
    &&& 0 <= k < islands.len()
    &&& holds(islands[k], row, col)
    &&& forall|j: int| 0 <= j < k ==> !holds(#[trigger] islands[j], row, col)
}

/// The first island that lists the cell `(row, col)`, where there is one.
pub open spec fn island_of(islands: Seq<Seq<(i32, i32)>>, row: int, col: int) -> Seq<(i32, i32)> {
    islands[choose|k: int| is_first_holding(islands, row, col, k)]
}

/// Only one island is the first to list a cell.
pub proof fn lemma_island_of(islands: Seq<Seq<(i32, i32)>>, row: int, col: int, k: int)
    requires
        is_first_holding(islands, row, col, k),
    ensures
        island_of(islands, row, col) == islands[k],
        on_an_island(islands, row, col),
{
    let c = choose|c: int| is_first_holding(islands, row, col, c);
    assert(is_first_holding(islands, row, col, c));
    if c < k {
        assert(!holds(islands[c], row, col));
    }
    if k < c {
        assert(!holds(islands[k], row, col));
    }
}

/// The island on which `(row, col)` lies, if it lies on one.
pub open spec fn robot_island(islands: Seq<Seq<(i32, i32)>>, row: int, col: int) -> Option<
    Seq<(i32, i32)>,
> {
    if on_an_island(islands, row, col) {
        Some(island_of(islands, row, col))
    } else {
        None
    }
}

/// Where a cell lies on an island, one island is the first to list it.
pub proof fn lemma_first_holding(islands: Seq<Seq<(i32, i32)>>, row: int, col: int, k: int) -> (first:
    int)
    requires
        0 <= k < islands.len(),
        holds(islands[k], row, col),
    ensures
        is_first_holding(islands, row, col, first),
    decreases k,
{
    if exists|j: int| 0 <= j < k && holds(#[trigger] islands[j], row, col) {
        let j = choose|j: int| 0 <= j < k && holds(#[trigger] islands[j], row, col);
        lemma_first_holding(islands, row, col, j)
    } else {
        k
    }
}

/// The test by which the islands other than `own` are picked.
pub open spec fn differs_from(own: Seq<(i32, i32)>) -> spec_fn(Seq<(i32, i32)>) -> bool {
    |island: Seq<(i32, i32)>| island != own
}

/// The islands other than the one on which `(row, col)` lies, in their
/// order. Where the cell lies on no island, nothing is taken out.
pub open spec fn other_islands(islands: Seq<Seq<(i32, i32)>>, row: int, col: int) -> Seq<
    Seq<(i32, i32)>,
> {
    if on_an_island(islands, row, col) {
        islands.filter(differs_from(island_of(islands, row, col)))
    } else {
        islands
    }
}

/// Island `k` is the nearest to `(row, col)`, and the first of those that
/// are as near.
pub open spec fn is_first_nearest(
    islands: Seq<Seq<(i32, i32)>>,
    row: int,
    col: int,
    k: int,
) -> bool {
    &&& 0 <= k < islands.len()
    &&& forall|j: int|
        0 <= j < islands.len() ==> least_distance(islands[k], row, col) <= least_distance(
            #[trigger] islands[j],
            row,
            col,
        )
    &&& forall|j: int|
        0 <= j < k ==> least_distance(islands[k], row, col) < least_distance(
            #[trigger] islands[j],
            row,
            col,
        )
}

/// The island nearest to `(row, col)`, the first of those that are as near.
/// It means nothing where there is no island.
pub open spec fn nearest_island(islands: Seq<Seq<(i32, i32)>>, row: int, col: int) -> Seq<
    (i32, i32),
> {
    islands[choose|k: int| is_first_nearest(islands, row, col, k)]
}

/// Only one island is the first of the nearest.
pub proof fn lemma_nearest_island(islands: Seq<Seq<(i32, i32)>>, row: int, col: int, k: int)
    requires
        is_first_nearest(islands, row, col, k),
    ensures
        nearest_island(islands, row, col) == islands[k],
{
    let c = choose|c: int| is_first_nearest(islands, row, col, c);
    if c < k {
        assert(least_distance(islands[k], row, col) < least_distance(islands[c], row, col));
        assert(least_distance(islands[c], row, col) <= least_distance(islands[k], row, col));
    }
    if k < c {
        assert(least_distance(islands[c], row, col) < least_distance(islands[k], row, col));
        assert(least_distance(islands[k], row, col) <= least_distance(islands[c], row, col));
    }
}

/// Among the first `n` islands, one is the first of the nearest.
pub proof fn lemma_first_nearest(islands: Seq<Seq<(i32, i32)>>, row: int, col: int, n: int) -> (k:
    int)
    requires
        1 <= n <= islands.len(),
    ensures
        is_first_nearest(islands.take(n), row, col, k),
    decreases n,
{
    let next = islands.take(n);
    if n == 1 {
        0
    } else {
        let so_far = islands.take(n - 1);
        let best = lemma_first_nearest(islands, row, col, n - 1);
        let k = if least_distance(islands[n - 1], row, col) < least_distance(
            islands[best],
            row,
            col,
        ) {
            n - 1
        } else {
            best
        };
        assert(next[best] == so_far[best]);
        assert forall|x: int| 0 <= x < next.len() implies least_distance(next[k], row, col)
            <= least_distance(#[trigger] next[x], row, col) by {
            if x < n - 1 {
                assert(next[x] == so_far[x]);
            }
        }
        assert forall|x: int| 0 <= x < k implies least_distance(next[k], row, col)
            < least_distance(#[trigger] next[x], row, col) by {
            assert(next[x] == so_far[x]);
        }
        k
    }
}

/// The island nearest to `(row, col)` among those on which it does not lie.
/// Nothing where it lies on no island, or there is no other island.
pub open spec fn closest_island(islands: Seq<Seq<(i32, i32)>>, row: int, col: int) -> Option<
    Seq<(i32, i32)>,
> {
    if on_an_island(islands, row, col) && other_islands(islands, row, col).len() > 0 {
        Some(nearest_island(other_islands(islands, row, col), row, col))
    } else {
        None
    }
}

/// The cells of an island, if there is one.
pub open spec fn cells_of(island: Option<Vec<(i32, i32)>>) -> Option<Seq<(i32, i32)>> {
    match island {
        Some(cells) => Some(cells@),
        None => None,
    }
}

/// Cell `t` of the target island and cell `r` of the miner's island may be
/// joined: the latter is a walkable cell of the grid.
pub open spec fn is_candidate(
    g: Seq<Seq<Tile>>,
    robot_island: Seq<(i32, i32)>,
    target_island: Seq<(i32, i32)>,
    t: int,
    r: int,
) -> bool {
    &&& 0 <= t < target_island.len()
    &&& 0 <= r < robot_island.len()
    &&& walkable_cell(g, robot_island[r])
}

/// The Manhattan distance between cell `t` of the target island and cell `r`
/// of the miner's island.
pub open spec fn pair_distance(
    robot_island: Seq<(i32, i32)>,
    target_island: Seq<(i32, i32)>,
    t: int,
    r: int,
) -> int {
    manhattan(target_island[t], robot_island[r].0 as int, robot_island[r].1 as int)
}

/// The pair `(t, r)` comes before `(t2, r2)` when the target island is walked
/// cell by cell and, for each of its cells, the miner's island.
pub open spec fn pair_before(t: int, r: int, t2: int, r2: int) -> bool {
    t < t2 || (t == t2 && r < r2)
}

/// No pair that may be joined is closer than `(t, r)`, and none as close
/// comes before it.
pub open spec fn is_first_closest_pair(
    g: Seq<Seq<Tile>>,
    robot_island: Seq<(i32, i32)>,
    target_island: Seq<(i32, i32)>,
    t: int,
    r: int,
) -> bool {
    &&& is_candidate(g, robot_island, target_island, t, r)
    &&& forall|t2: int, r2: int| #[trigger]
        is_candidate(g, robot_island, target_island, t2, r2) ==> pair_distance(
            robot_island,
            target_island,
            t,
            r,
        ) <= pair_distance(robot_island, target_island, t2, r2)
    &&& forall|t2: int, r2: int| #[trigger]
        is_candidate(g, robot_island, target_island, t2, r2) && pair_before(t2, r2, t, r)
            ==> pair_distance(robot_island, target_island, t, r) < pair_distance(
            robot_island,
            target_island,
            t2,
            r2,
        )
}

/// The closest pair of cells that a bridge could join, the cell of the
/// target island first; of pairs equally close, the first. Nothing where no
/// pair may be joined.
pub open spec fn closest_points(
    g: Seq<Seq<Tile>>,
    robot_island: Seq<(i32, i32)>,
    target_island: Seq<(i32, i32)>,
) -> Option<((i32, i32), (i32, i32))> {
    if exists|t: int, r: int| is_first_closest_pair(g, robot_island, target_island, t, r) {
        let (t, r) = choose|t: int, r: int|
            is_first_closest_pair(g, robot_island, target_island, t, r);
        Some((target_island[t], robot_island[r]))
    } else {
        None
    }
}

/// Only one pair is the first of the closest.
pub proof fn lemma_closest_points(
    g: Seq<Seq<Tile>>,
    robot_island: Seq<(i32, i32)>,
    target_island: Seq<(i32, i32)>,
    t: int,
    r: int,
)
    requires
        is_first_closest_pair(g, robot_island, target_island, t, r),
    ensures
        closest_points(g, robot_island, target_island) == Some(
            (target_island[t], robot_island[r]),
        ),
{
    let (t2, r2) = choose|t2: int, r2: int|
        is_first_closest_pair(g, robot_island, target_island, t2, r2);
    assert(is_candidate(g, robot_island, target_island, t, r));
    assert(is_candidate(g, robot_island, target_island, t2, r2));
    if pair_before(t, r, t2, r2) {
        assert(pair_distance(robot_island, target_island, t2, r2) < pair_distance(
            robot_island,
            target_island,
            t,
            r,
        ));
    }
    if pair_before(t2, r2, t, r) {
        assert(pair_distance(robot_island, target_island, t, r) < pair_distance(
            robot_island,
            target_island,
            t2,
            r2,
        ));
    }
}

/// What the search for the closest pair knows when it stands at pair
/// `(t, r)`: nothing that may be joined came before, or `(bt, br)` is the
/// first closest pair of those that did.
spec fn closest_so_far(
    g: Seq<Seq<Tile>>,
    robot_island: Seq<(i32, i32)>,
    target_island: Seq<(i32, i32)>,
    t: int,
    r: int,
    found: Option<((i32, i32), (i32, i32))>,
    distance: int,
    bt: int,
    br: int,
) -> bool {
    match found {
        None => forall|t2: int, r2: int| #[trigger]
            is_candidate(g, robot_island, target_island, t2, r2) ==> !pair_before(t2, r2, t, r),
        Some((target, start)) => {
            &&& is_candidate(g, robot_island, target_island, bt, br)
            &&& pair_before(bt, br, t, r)
            &&& target == target_island[bt]
            &&& start == robot_island[br]
            &&& distance == pair_distance(robot_island, target_island, bt, br)
            &&& forall|t2: int, r2: int| #[trigger]
                is_candidate(g, robot_island, target_island, t2, r2) && pair_before(t2, r2, t, r)
                    ==> distance <= pair_distance(robot_island, target_island, t2, r2)
            &&& forall|t2: int, r2: int| #[trigger]
                is_candidate(g, robot_island, target_island, t2, r2) && pair_before(
                    t2,
                    r2,
                    bt,
                    br,
                ) ==> distance < pair_distance(robot_island, target_island, t2, r2)
        },
    }
}

/// Of the pairs met before `(t, r)`, one is the first of the closest, unless
/// none of them may be joined.
proof fn lemma_closest_so_far(
    g: Seq<Seq<Tile>>,
    robot_island: Seq<(i32, i32)>,
    target_island: Seq<(i32, i32)>,
    t: int,
    r: int,
) -> (best: Option<(int, int)>)
    requires
        0 <= t <= target_island.len(),
        0 <= r <= robot_island.len(),
    ensures
        match best {
            Some((bt, br)) => closest_so_far(
                g,
                robot_island,
                target_island,
                t,
                r,
                Some((target_island[bt], robot_island[br])),
                pair_distance(robot_island, target_island, bt, br),
                bt,
                br,
            ),
            None => closest_so_far(g, robot_island, target_island, t, r, None, 0, 0, 0),
        },
    decreases t, r,
{
    if r > 0 {
        let before = lemma_closest_so_far(g, robot_island, target_island, t, r - 1);
        if is_candidate(g, robot_island, target_island, t, r - 1) {
            match before {
                None => Some((t, r - 1)),
                Some((bt, br)) => if pair_distance(robot_island, target_island, t, r - 1)
                    < pair_distance(robot_island, target_island, bt, br) {
                    Some((t, r - 1))
                } else {
                    before
                },
            }
        } else {
            before
        }
    } else if t > 0 {
        let before = lemma_closest_so_far(
            g,
            robot_island,
            target_island,
            t - 1,
            robot_island.len() as int,
        );
        match before {
            None => {
                assert forall|t2: int, r2: int| #[trigger]
                    is_candidate(g, robot_island, target_island, t2, r2) implies !pair_before(
                    t2,
                    r2,
                    t,
                    r,
                ) by {
                    assert(!pair_before(t2, r2, t - 1, robot_island.len() as int));
                }
            },
            Some((bt, br)) => {
                assert forall|t2: int, r2: int| #[trigger]
                    is_candidate(g, robot_island, target_island, t2, r2) && pair_before(
                        t2,
                        r2,
                        t,
                        r,
                    ) implies pair_distance(robot_island, target_island, bt, br) <= pair_distance(
                    robot_island,
                    target_island,
                    t2,
                    r2,
                ) by {
                    assert(pair_before(t2, r2, t - 1, robot_island.len() as int));
                }
            },
        }
        before
    } else {
        None
    }
}

/// Where some pair may be joined, one pair is the first of the closest.
pub proof fn lemma_closest_points_exist(
    g: Seq<Seq<Tile>>,
    robot_island: Seq<(i32, i32)>,
    target_island: Seq<(i32, i32)>,
    t: int,
    r: int,
) -> (best: (int, int))
    requires
        is_candidate(g, robot_island, target_island, t, r),
    ensures
        is_first_closest_pair(g, robot_island, target_island, best.0, best.1),
{
    let end = target_island.len() as int;
    let found = lemma_closest_so_far(g, robot_island, target_island, end, 0);
    assert(pair_before(t, r, end, 0));
    let (bt, br) = found.unwrap();
    assert forall|t2: int, r2: int| #[trigger]
        is_candidate(g, robot_island, target_island, t2, r2) implies pair_distance(
        robot_island,
        target_island,
        bt,
        br,
    ) <= pair_distance(robot_island, target_island, t2, r2) by {
        assert(pair_before(t2, r2, end, 0));
    }
    (bt, br)
}

/// Whether the island lists the cell `(row, col)`.
fn island_holds(island: &Vec<(i32, i32)>, row: usize, col: usize) -> (res: bool)
    ensures
        res == holds(island@, row as int, col as int),
{
    let mut x: usize = 0;
    while x < island.len()
        invariant
            x <= island@.len(),
            forall|y: int|
                0 <= y < x ==> !((#[trigger] island@[y]).0 == row && island@[y].1 == col),
        decreases island@.len() - x,
    {
        let cell = island[x];
        if cell.0 >= 0 && cell.1 >= 0 && cell.0 as usize == row && cell.1 as usize == col {
            return true;
        }
        x += 1;
    }
    false
}

/// Whether two islands list the same cells in the same order.
fn same_cells(a: &Vec<(i32, i32)>, b: &Vec<(i32, i32)>) -> (res: bool)
    ensures
        res == (a@ == b@),
{
    if a.len() != b.len() {
        return false;
    }
    let mut x: usize = 0;
    while x < a.len()
        invariant
            a@.len() == b@.len(),
            x <= a@.len(),
            forall|y: int| 0 <= y < x ==> a@[y] == b@[y],
        decreases a@.len() - x,
    {
        if a[x].0 != b[x].0 || a[x].1 != b[x].1 {
            return false;
        }
        x += 1;
    }
    assert(a@ =~= b@);
    true
}

/// A copy of the island.
fn copy_cells(cells: &Vec<(i32, i32)>) -> (copy: Vec<(i32, i32)>)
    ensures
        copy@ == cells@,
{
    let mut copy: Vec<(i32, i32)> = Vec::new();
    let mut x: usize = 0;
    while x < cells.len()
        invariant
            x <= cells@.len(),
            copy@ == cells@.take(x as int),
        decreases cells@.len() - x,
    {
        copy.push(cells[x]);
        assert(cells@.take(x + 1) =~= cells@.take(x as int).push(cells@[x as int]));
        x += 1;
    }
    assert(cells@.take(x as int) =~= cells@);
    copy
}

/// Sets the mark of one cell.
fn mark(visited: &mut Vec<Vec<bool>>, r: usize, c: usize)
    requires
        r < old(visited)@.len(),
        c < old(visited)@[r as int]@.len(),
    ensures
        rows(final(visited)@) == rows(old(visited)@).update(
            r as int,
            rows(old(visited)@)[r as int].update(c as int, true),
        ),
{
    visited[r][c] = true;
    assert(rows(visited@) =~= rows(old(visited)@).update(
        r as int,
        rows(old(visited)@)[r as int].update(c as int, true),
    ));
}

/// A table of `n_rows` by `n_cols` marks, none of them set.
fn unmarked_table(n_rows: usize, n_cols: usize) -> (table: Vec<Vec<bool>>)
    ensures
        table@.len() == n_rows,
        forall|r: int| 0 <= r < n_rows ==> (#[trigger] rows(table@)[r]).len() == n_cols,
        forall|r: int, c: int| 0 <= r < n_rows && 0 <= c < n_cols ==> !rows(table@)[r][c],
{
    let mut table: Vec<Vec<bool>> = Vec::new();
    let mut r: usize = 0;
    while r < n_rows
        invariant
            r <= n_rows,
            table@.len() == r,
            forall|k: int| 0 <= k < r ==> (#[trigger] table@[k])@.len() == n_cols,
            forall|k: int, c: int| 0 <= k < r && 0 <= c < n_cols ==> !(#[trigger] table@[k]@[c]),
        decreases n_rows - r,
    {
        let mut row: Vec<bool> = Vec::new();
        let mut c: usize = 0;
        while c < n_cols
            invariant
                c <= n_cols,
                row@.len() == c,
                forall|k: int| 0 <= k < c ==> !(#[trigger] row@[k]),
            decreases n_cols - c,
        {
            row.push(false);
            c += 1;
        }
        table.push(row);
        r += 1;
    }
    table
}

impl MinerRobot {
    /// Whether the flood fill may step onto `(row, col)`: a walkable cell of
    /// the map that carries no mark yet.
    fn is_valid_move(
        &self,
        map: &Vec<Vec<Tile>>,
        row: i32,
        col: i32,
        visited: &Vec<Vec<bool>>,
    ) -> (res: bool)
        requires
            valid_grid(rows(map@)),
            same_shape(rows(visited@), rows(map@)),
        ensures
            res == (walkable_cell(rows(map@), (row, col)) && !seen(rows(visited@), (row, col))),
    {
        if !self.is_in_bounds(map, row, col) {
            return false;
        }
        let r = row as usize;
        let c = col as usize;
        assert(rows(map@)[r as int].len() == rows(map@)[0].len());
        assert(rows(visited@)[r as int].len() == rows(map@)[r as int].len());
        self.is_walkable(&map[r][c].tile_type) && !visited[r][c]
    }

    /// Flood fill from `(row, col)`: marks every cell that a walk from there
    /// reaches and appends it to `island_cells`. It keeps a stack of cells
    /// still to look at, so its depth does not grow with the island.
    /// Flood fill from `(row, col)`: marks every cell that a walk from there
    /// reaches and appends it to `island_cells`. It keeps a stack of cells
    /// still to look at, so its depth does not grow with the island.
    fn dfs(
        &self,
        map: &Vec<Vec<Tile>>,
        row: i32,
        col: i32,
        visited: &mut Vec<Vec<bool>>,
        island_cells: &mut Vec<(i32, i32)>,
    )
        requires
            valid_grid(rows(map@)),
            same_shape(rows(old(visited)@), rows(map@)),
            walkable_cell(rows(map@), (row, col)),
            old(island_cells)@.len() == 0,
        ensures
            final(island_cells)@ == flood(rows(map@), rows(old(visited)@), seq![(row, col)]),
            rows(final(visited)@) == marked_all(rows(old(visited)@), final(island_cells)@),
            same_shape(rows(final(visited)@), rows(map@)),
    {
        let ghost g = rows(map@);
        let ghost before = rows(visited@);
        let ghost start = (row, col);
        let mut stack: Vec<(i32, i32)> = Vec::new();
        stack.push((row, col));
        proof {
            assert(stack@ =~= seq![start]);
            assert(island_cells@ + flood(g, before, seq![start]) =~= flood(g, before, seq![start]));
        }
        while stack.len() > 0
            invariant
                g == rows(map@),
                valid_grid(g),
                same_shape(rows(visited@), g),
                forall|s: int| 0 <= s < stack@.len() ==> walkable_cell(g, #[trigger] stack@[s]),
                island_cells@ + flood(g, rows(visited@), stack@) == flood(g, before, seq![start]),
                rows(visited@) == marked_all(before, island_cells@),
            decreases unset(rows(visited@)), stack@.len(),
        {
            let ghost stack_before = stack@;
            let ghost marks_before = rows(visited@);
            let ghost island_before = island_cells@;
            let cell = stack.pop().unwrap();
            let ghost rest = stack@;
            assert(walkable_cell(g, stack_before[stack_before.len() - 1]));
            let r = cell.0 as usize;
            let c = cell.1 as usize;
            assert(g[r as int].len() == g[0].len());
            assert(marks_before[r as int].len() == g[r as int].len());
            if !visited[r][c] {
                mark(visited, r, c);
                island_cells.push(cell);
                let ghost marks = rows(visited@);
                proof {
                    lemma_unset_after_mark(marks_before, r as int, c as int);
                    assert(marks == marked(marks_before, cell));
                    assert(same_shape(marks, g));
                    assert(island_cells@.drop_last() =~= island_before);
                }
                let up = (cell.0 - 1, cell.1);
                let down = (cell.0 + 1, cell.1);
                let left = (cell.0, cell.1 - 1);
                let right = (cell.0, cell.1 + 1);
                let go_up = self.is_valid_move(map, up.0, up.1, visited);
                let go_down = self.is_valid_move(map, down.0, down.1, visited);
                let go_left = self.is_valid_move(map, left.0, left.1, visited);
                let go_right = self.is_valid_move(map, right.0, right.1, visited);
                // The neighbour pushed last is looked at first.
                if go_up {
                    stack.push(up);
                }
                if go_down {
                    stack.push(down);
                }
                if go_left {
                    stack.push(left);
                }
                if go_right {
                    stack.push(right);
                }
                proof {
                    assert(stack@ =~= rest + fresh_neighbours(g, marks, cell));
                    assert(island_cells@ + flood(g, marks, stack@) =~= island_before + flood(
                        g,
                        marks_before,
                        stack_before,
                    ));
                    assert forall|s: int| 0 <= s < stack@.len() implies walkable_cell(
                        g,
                        #[trigger] stack@[s],
                    ) by {
                        if s < rest.len() {
                            assert(stack@[s] == stack_before[s]);
                        }
                    }
                }
            } else {
                proof {
                    assert(seen(marks_before, cell));
                    assert(flood(g, marks_before, stack_before) == flood(g, marks_before, rest));
                }
            }
        }
        proof {
            assert(island_cells@ + flood(g, rows(visited@), stack@) =~= island_cells@);
        }
    }

    /// The islands of the map: its walkable cells, split into the largest
    /// sets that hang together by shared sides. The map is scanned row by
    /// row, and each walkable cell not yet marked starts a flood fill.
    pub fn get_islands(&self, map: &Vec<Vec<Tile>>) -> (islands: Vec<Vec<(i32, i32)>>)
        requires
            valid_grid(rows(map@)),
        ensures
            rows(islands@) == islands_of(rows(map@)),
            is_island_partition(rows(map@), rows(islands@)),
    {
        let ghost g = rows(map@);
        let n_rows = map.len();
        let n_cols = map[0].len();
        let mut visited = unmarked_table(n_rows, n_cols);
        let mut islands_cells: Vec<Vec<(i32, i32)>> = Vec::new();
        proof {
            assert(rows(visited@) =~= no_marks(g)) by {
                assert forall|r: int| 0 <= r < g.len() implies #[trigger] rows(visited@)[r]
                    =~= no_marks(g)[r] by {
                    assert(g[r].len() == g[0].len());
                }
            }
            assert(rows(islands_cells@) + scan(g, rows(visited@), 0, 0) =~= islands_of(g));
        }
        let mut i: usize = 0;
        while i < n_rows
            invariant
                g == rows(map@),
                valid_grid(g),
                n_rows == g.len(),
                n_cols == g[0].len(),
                i <= n_rows,
                same_shape(rows(visited@), g),
                rows(islands_cells@) + scan(g, rows(visited@), i as int, 0) == islands_of(g),
            decreases n_rows - i,
        {
            let mut j: usize = 0;
            while j < n_cols
                invariant
                    g == rows(map@),
                    valid_grid(g),
                    n_rows == g.len(),
                    n_cols == g[0].len(),
                    i < n_rows,
                    j <= n_cols,
                    same_shape(rows(visited@), g),
                    rows(islands_cells@) + scan(g, rows(visited@), i as int, j as int)
                        == islands_of(g),
                decreases n_cols - j,
            {
                assert(g[i as int].len() == g[0].len());
                assert(rows(visited@)[i as int].len() == g[i as int].len());
                if self.is_walkable(&map[i][j].tile_type) && !visited[i][j] {
                    let ghost marks = rows(visited@);
                    let ghost found = rows(islands_cells@);
                    let mut island_cells: Vec<(i32, i32)> = Vec::new();
                    self.dfs(map, i as i32, j as i32, &mut visited, &mut island_cells);
                    proof {
                        assert(rows(islands_cells@.push(island_cells)) =~= found.push(
                            island_cells@,
                        ));
                        assert(found.push(island_cells@) + scan(
                            g,
                            rows(visited@),
                            i as int,
                            j + 1,
                        ) =~= found + scan(g, marks, i as int, j as int));
                    }
                    islands_cells.push(island_cells);
                }
                j += 1;
            }
            i += 1;
        }
        proof {
            assert(rows(islands_cells@) + scan(g, rows(visited@), i as int, 0) =~= rows(
                islands_cells@,
            ));
            lemma_islands_of_is_partition(g);
        }
        islands_cells
    }

    pub fn get_robot_island(&mut self, islands: &Vec<Vec<(i32, i32)>>) -> (island: Option<
        Vec<(i32, i32)>,
    >)
        ensures
            *final(self) == *old(self),
            cells_of(island) == robot_island(
                rows(islands@),
                old(self).coordinates.0 as int,
                old(self).coordinates.1 as int,
            ),
    {
        let (robot_row, robot_col) = self.get_coordinates();
        let ghost all = rows(islands@);
        let mut k: usize = 0;
        while k < islands.len()
            invariant
                *self == *old(self),
                (robot_row, robot_col) == self.coordinates,
                all == rows(islands@),
                k <= islands@.len(),
                forall|j: int|
                    0 <= j < k ==> !holds(#[trigger] all[j], robot_row as int, robot_col as int),
            decreases islands@.len() - k,
        {
            assert(all[k as int] == islands@[k as int]@);
            if island_holds(&islands[k], robot_row, robot_col) {
                proof {
                    lemma_island_of(all, robot_row as int, robot_col as int, k as int);
                }
                return Some(copy_cells(&islands[k]));
            }
            k += 1;
        }
        None
    }

    /// The island nearest to the miner among those other than its own, and
    /// the first of those that are as near. Every copy of the miner's own
    /// island leaves `islands`. Where the miner stands on no island, or no
    /// other island is left, there is no answer.
    pub fn get_closest_island_to_robot(&mut self, islands: &mut Vec<Vec<(i32, i32)>>) -> (closest:
        Option<Vec<(i32, i32)>>)
        requires
            forall|k: int| 0 <= k < old(islands)@.len() ==> (#[trigger] old(islands)@[k])@.len() > 0,
        ensures
            *final(self) == *old(self),
            rows(final(islands)@) == other_islands(
                rows(old(islands)@),
                old(self).coordinates.0 as int,
                old(self).coordinates.1 as int,
            ),
            cells_of(closest) == closest_island(
                rows(old(islands)@),
                old(self).coordinates.0 as int,
                old(self).coordinates.1 as int,
            ),
    {
        let (robot_row, robot_col) = self.get_coordinates();
        let ghost all = rows(islands@);
        let ghost row = robot_row as int;
        let ghost col = robot_col as int;
        let own = match self.get_robot_island(islands) {
            Some(own) => own,
            None => {
                return None;
            },
        };
        let ghost keep = differs_from(own@);
        let mut others: Vec<Vec<(i32, i32)>> = Vec::new();
        let mut k: usize = 0;
        while k < islands.len()
            invariant
                all == rows(islands@),
                keep == differs_from(own@),
                k <= islands@.len(),
                rows(others@) == all.take(k as int).filter(keep),
                forall|j: int| 0 <= j < islands@.len() ==> (#[trigger] islands@[j])@.len() > 0,
                forall|j: int| 0 <= j < others@.len() ==> (#[trigger] others@[j])@.len() > 0,
            decreases islands@.len() - k,
        {
            let ghost kept = rows(others@);
            proof {
                reveal(Seq::filter);
                assert(all.take(k + 1).drop_last() =~= all.take(k as int));
                assert(all.take(k + 1).last() == islands@[k as int]@);
            }
            if !same_cells(&islands[k], &own) {
                let island = copy_cells(&islands[k]);
                others.push(island);
                assert(rows(others@) =~= kept.push(islands@[k as int]@));
            }
            k += 1;
        }
        proof {
            reveal(Seq::filter);
            assert(all.take(k as int) =~= all);
        }
        *islands = others;
        if islands.len() == 0 {
            return None;
        }
        let ghost left = rows(islands@);
        let mut best: usize = 0;
        let mut best_distance: i128 = island_distance(&islands[0], robot_row, robot_col);
        let mut j: usize = 1;
        assert(left[0] == islands@[0]@);
        while j < islands.len()
            invariant
                left == rows(islands@),
                row == robot_row as int,
                col == robot_col as int,
                1 <= j <= islands@.len(),
                best < j,
                best_distance == least_distance(left[best as int], row, col),
                is_first_nearest(left.take(j as int), row, col, best as int),
                forall|x: int| 0 <= x < islands@.len() ==> (#[trigger] islands@[x])@.len() > 0,
            decreases islands@.len() - j,
        {
            let ghost so_far = left.take(j as int);
            let ghost next = left.take(j + 1);
            assert(left[j as int] == islands@[j as int]@);
            let d = island_distance(&islands[j], robot_row, robot_col);
            proof {
                assert(next[j as int] == left[j as int]);
                assert forall|x: int| 0 <= x < j implies #[trigger] next[x] == so_far[x] by {}
                assert(next[best as int] == so_far[best as int]);
            }
            if d < best_distance {
                best = j;
                best_distance = d;
            }
            proof {
                assert forall|x: int| 0 <= x < next.len() implies least_distance(
                    next[best as int],
                    row,
                    col,
                ) <= least_distance(#[trigger] next[x], row, col) by {
                    if x < j {
                        assert(next[x] == so_far[x]);
                    }
                }
                assert forall|x: int| 0 <= x < best implies least_distance(
                    next[best as int],
                    row,
                    col,
                ) < least_distance(#[trigger] next[x], row, col) by {
                    assert(next[x] == so_far[x]);
                }
            }
            j += 1;
        }
        proof {
            assert(left.take(j as int) =~= left);
            assert(left[best as int] == islands@[best as int]@);
            lemma_nearest_island(left, row, col, best as int);
        }
        Some(copy_cells(&islands[best]))
    }

    /// The closest pair of cells that a bridge could join: one cell of the
    /// target island and one walkable cell of the miner's island, the target
    /// cell first. Of pairs equally close, the first met wins, when the
    /// target island is walked cell by cell and, for each, the miner's.
    pub fn get_closest_points(
        &self,
        map: &Vec<Vec<Tile>>,
        robot_island: Vec<(i32, i32)>,
        target_island: Vec<(i32, i32)>,
    ) -> (points: Option<((i32, i32), (i32, i32))>)
        requires
            valid_grid(rows(map@)),
        ensures
            points == closest_points(rows(map@), robot_island@, target_island@),
    {
        let ghost g = rows(map@);
        let ghost own = robot_island@;
        let ghost goal = target_island@;
        let mut closest_coords: Option<((i32, i32), (i32, i32))> = None;
        let mut min_distance: i64 = 0;
        let ghost mut bt: int = 0;
        let ghost mut br: int = 0;
        let mut t: usize = 0;
        while t < target_island.len()
            invariant
                g == rows(map@),
                own == robot_island@,
                goal == target_island@,
                valid_grid(g),
                t <= goal.len(),
                closest_so_far(g, own, goal, t as int, 0, closest_coords, min_distance as int, bt, br),
            decreases goal.len() - t,
        {
            let target = target_island[t];
            let mut r: usize = 0;
            while r < robot_island.len()
                invariant
                    g == rows(map@),
                    own == robot_island@,
                    goal == target_island@,
                    valid_grid(g),
                    t < goal.len(),
                    target == goal[t as int],
                    r <= own.len(),
                    closest_so_far(
                        g,
                        own,
                        goal,
                        t as int,
                        r as int,
                        closest_coords,
                        min_distance as int,
                        bt,
                        br,
                    ),
                decreases own.len() - r,
            {
                let cell = robot_island[r];
                if self.is_in_bounds(map, cell.0, cell.1) {
                    assert(g[cell.0 as int].len() == g[0].len());
                    if self.is_walkable(&map[cell.0 as usize][cell.1 as usize].tile_type) {
                        let distance = distance_between(target, cell);
                        assert(is_candidate(g, own, goal, t as int, r as int));
                        if closest_coords.is_none() || distance < min_distance {
                            min_distance = distance;
                            closest_coords = Some((target, cell));
                            proof {
                                bt = t as int;
                                br = r as int;
                            }
                        }
                    }
                }
                r += 1;
            }
            t += 1;
        }
        proof {
            match closest_coords {
                Some(_) => {
                    assert(is_first_closest_pair(g, own, goal, bt, br)) by {
                        assert forall|t2: int, r2: int| #[trigger]
                            is_candidate(g, own, goal, t2, r2) implies pair_distance(
                            own,
                            goal,
                            bt,
                            br,
                        ) <= pair_distance(own, goal, t2, r2) by {
                            assert(pair_before(t2, r2, t as int, 0));
                        }
                    }
                    lemma_closest_points(g, own, goal, bt, br);
                },
                None => {
                    assert forall|t2: int, r2: int| !#[trigger] is_candidate(
                        g,
                        own,
                        goal,
                        t2,
                        r2,
                    ) by {
                        if is_candidate(g, own, goal, t2, r2) {
                            assert(pair_before(t2, r2, t as int, 0));
                        }
                    }
                    assert forall|t2: int, r2: int| !is_first_closest_pair(
                        g,
                        own,
                        goal,
                        t2,
                        r2,
                    ) by {
                        assert(!is_candidate(g, own, goal, t2, r2));
                    }
                },
            }
        }
        closest_coords
    }
}

} // verus!
