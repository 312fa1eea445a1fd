use crate::grid::{
    adjacent, connected, in_bounds, lemma_connected_extend, lemma_connected_refl,
    lemma_connected_sym, lemma_connected_trans, valid_grid, walkable_cell,
};
use crate::island::{
    covers_walkable, each_closed, each_connected, flood, fresh_neighbours, if_fresh,
    in_discovery_order, is_island_partition, islands_of, lemma_unset_after_mark, marked, marked_all,
    no_cell_twice, no_marks, only_walkable, row_major_before, same_shape, scan, seen, unset,
};
use crate::tile::Tile;
use vstd::prelude::*;

verus! {

/// Every walkable neighbour of a marked walkable cell is marked too.
spec fn closed_marks(g: Seq<Seq<Tile>>, marks: Seq<Seq<bool>>) -> bool {
    forall|u: (i32, i32), n: (i32, i32)|
        walkable_cell(g, u) && seen(marks, u) && #[trigger] adjacent(u, n) && walkable_cell(g, n)
            ==> seen(marks, n)
}

/// The cell comes before `(i, j)` in row-major order.
spec fn scanned(cell: (i32, i32), i: int, j: int) -> bool {
    cell.0 < i || (cell.0 == i && cell.1 < j)
}

/// No island is empty; every cell listed is walkable, marked, and joined to
/// the first cell of its island by a walk.
spec fn cells_marked(
    g: Seq<Seq<Tile>>,
    marks: Seq<Seq<bool>>,
    islands: Seq<Seq<(i32, i32)>>,
) -> bool {
    &&& forall|k: int| 0 <= k < islands.len() ==> (#[trigger] islands[k]).len() > 0
    &&& forall|k: int, x: int|
        0 <= k < islands.len() && 0 <= x < islands[k].len() ==> {
            &&& walkable_cell(g, #[trigger] islands[k][x])
            &&& seen(marks, islands[k][x])
            &&& connected(g, islands[k][0], islands[k][x])
        }
}

/// Every marked cell lies in some island.
spec fn marks_covered(
    g: Seq<Seq<Tile>>,
    marks: Seq<Seq<bool>>,
    islands: Seq<Seq<(i32, i32)>>,
) -> bool {
    forall|cell: (i32, i32)|
        in_bounds(g, cell.0 as int, cell.1 as int) && #[trigger] seen(marks, cell) ==> exists|
            k: int,
        | 0 <= k < islands.len() && (#[trigger] islands[k]).contains(cell)
}

/// Every walkable cell that the scan has passed is marked.
spec fn scanned_marked(g: Seq<Seq<Tile>>, marks: Seq<Seq<bool>>, i: int, j: int) -> bool {
    forall|cell: (i32, i32)| #[trigger]
        walkable_cell(g, cell) && scanned(cell, i, j) ==> seen(marks, cell)
}

/// The scan has passed the first cell of every island.
spec fn firsts_scanned(islands: Seq<Seq<(i32, i32)>>, i: int, j: int) -> bool {
    forall|k: int| 0 <= k < islands.len() ==> scanned((#[trigger] islands[k])[0], i, j)
}

/// What holds of the marks and of the islands found when the scan of the
/// grid stands at `(i, j)`.
spec fn detection_so_far(
    g: Seq<Seq<Tile>>,
    marks: Seq<Seq<bool>>,
    islands: Seq<Seq<(i32, i32)>>,
    i: int,
    j: int,
) -> bool {
    &&& same_shape(marks, g)
    &&& closed_marks(g, marks)
    &&& cells_marked(g, marks, islands)
    &&& marks_covered(g, marks, islands)
    &&& no_cell_twice(islands)
    &&& each_closed(g, islands)
    &&& scanned_marked(g, marks, i, j)
    &&& in_discovery_order(islands)
    &&& firsts_scanned(islands, i, j)
}

/// What a flood fill from `start` leaves behind: the marks it found, the
/// marks it made, and the island it listed.
spec fn flood_filled(
    g: Seq<Seq<Tile>>,
    marks: Seq<Seq<bool>>,
    marks_after: Seq<Seq<bool>>,
    island: Seq<(i32, i32)>,
    start: (i32, i32),
) -> bool {
    &&& same_shape(marks_after, g)
    &&& closed_marks(g, marks_after)
    &&& forall|cell: (i32, i32)|
        in_bounds(g, cell.0 as int, cell.1 as int) && #[trigger] seen(marks, cell) ==> seen(
            marks_after,
            cell,
        )
    &&& forall|x: int|
        0 <= x < island.len() ==> {
            &&& walkable_cell(g, #[trigger] island[x])
            &&& !seen(marks, island[x])
            &&& seen(marks_after, island[x])
            &&& connected(g, start, island[x])
        }
    &&& forall|cell: (i32, i32)|
        in_bounds(g, cell.0 as int, cell.1 as int) && #[trigger] seen(marks_after, cell) && !seen(
            marks,
            cell,
        ) ==> island.contains(cell)
    &&& island.no_duplicates()
    &&& island.len() > 0
    &&& island[0] == start
}

/// The scan may pass over a cell that is not walkable or already marked.
proof fn lemma_cell_passed(
    g: Seq<Seq<Tile>>,
    marks: Seq<Seq<bool>>,
    islands: Seq<Seq<(i32, i32)>>,
    i: int,
    j: int,
)
    requires
        valid_grid(g),
        detection_so_far(g, marks, islands, i, j),
        0 <= i < g.len(),
        0 <= j < g[0].len(),
        !walkable_cell(g, (i as i32, j as i32)) || seen(marks, (i as i32, j as i32)),
    ensures
        detection_so_far(g, marks, islands, i, j + 1),
{
    assert forall|cell: (i32, i32)| #[trigger]
        walkable_cell(g, cell) && scanned(cell, i, j + 1) implies seen(marks, cell) by {
        if !scanned(cell, i, j) {
            assert(cell == (i as i32, j as i32));
        }
    }
    assert forall|k: int| 0 <= k < islands.len() implies scanned(
        (#[trigger] islands[k])[0],
        i,
        j + 1,
    ) by {
        assert(scanned(islands[k][0], i, j));
    }
}

/// At the end of a row the scan goes on with the next one.
proof fn lemma_row_passed(
    g: Seq<Seq<Tile>>,
    marks: Seq<Seq<bool>>,
    islands: Seq<Seq<(i32, i32)>>,
    i: int,
)
    requires
        valid_grid(g),
        detection_so_far(g, marks, islands, i, g[0].len() as int),
        0 <= i < g.len(),
    ensures
        detection_so_far(g, marks, islands, i + 1, 0),
{
    assert forall|cell: (i32, i32)| #[trigger]
        walkable_cell(g, cell) && scanned(cell, i + 1, 0) implies seen(marks, cell) by {
        assert(scanned(cell, i, g[0].len() as int));
    }
    assert forall|k: int| 0 <= k < islands.len() implies scanned(
        (#[trigger] islands[k])[0],
        i + 1,
        0,
    ) by {
        assert(scanned(islands[k][0], i, g[0].len() as int));
    }
}

/// The new island's cells are marked, and so are those of the islands
/// before it.
proof fn lemma_found_cells_marked(
    g: Seq<Seq<Tile>>,
    marks: Seq<Seq<bool>>,
    marks_after: Seq<Seq<bool>>,
    islands: Seq<Seq<(i32, i32)>>,
    island: Seq<(i32, i32)>,
    start: (i32, i32),
)
    requires
        cells_marked(g, marks, islands),
        flood_filled(g, marks, marks_after, island, start),
    ensures
        cells_marked(g, marks_after, islands.push(island)),
{
    let found = islands.push(island);
    let last = islands.len() as int;
    assert(found[last] == island);
    assert forall|k: int| 0 <= k < found.len() implies (#[trigger] found[k]).len() > 0 by {
        if k < last {
            assert(found[k] == islands[k]);
        }
    }
    assert forall|k: int, x: int| 0 <= k < found.len() && 0 <= x < found[k].len() implies {
        &&& walkable_cell(g, #[trigger] found[k][x])
        &&& seen(marks_after, found[k][x])
        &&& connected(g, found[k][0], found[k][x])
    } by {
        if k < last {
            assert(found[k] == islands[k]);
            assert(walkable_cell(g, islands[k][x]));
            assert(seen(marks, islands[k][x]));
        } else {
            assert(walkable_cell(g, island[x]));
        }
    }
}

/// Every cell marked after the fill lies in an island.
proof fn lemma_found_marks_covered(
    g: Seq<Seq<Tile>>,
    marks: Seq<Seq<bool>>,
    marks_after: Seq<Seq<bool>>,
    islands: Seq<Seq<(i32, i32)>>,
    island: Seq<(i32, i32)>,
    start: (i32, i32),
)
    requires
        marks_covered(g, marks, islands),
        flood_filled(g, marks, marks_after, island, start),
    ensures
        marks_covered(g, marks_after, islands.push(island)),
{
    let found = islands.push(island);
    let last = islands.len() as int;
    assert(found[last] == island);
    assert forall|cell: (i32, i32)|
        in_bounds(g, cell.0 as int, cell.1 as int) && #[trigger] seen(
            marks_after,
            cell,
        ) implies exists|k: int| 0 <= k < found.len() && (#[trigger] found[k]).contains(cell) by {
        if seen(marks, cell) {
            let k = choose|k: int| 0 <= k < islands.len() && (#[trigger] islands[k]).contains(cell);
            assert(found[k] == islands[k]);
            assert(found[k].contains(cell));
        } else {
            assert(found[last].contains(cell));
        }
    }
}

/// The new island shares no cell with the islands before it.
proof fn lemma_found_no_cell_twice(
    g: Seq<Seq<Tile>>,
    marks: Seq<Seq<bool>>,
    marks_after: Seq<Seq<bool>>,
    islands: Seq<Seq<(i32, i32)>>,
    island: Seq<(i32, i32)>,
    start: (i32, i32),
)
    requires
        cells_marked(g, marks, islands),
        no_cell_twice(islands),
        flood_filled(g, marks, marks_after, island, start),
    ensures
        no_cell_twice(islands.push(island)),
{
    let found = islands.push(island);
    let last = islands.len() as int;
    assert(found[last] == island);
    assert forall|k1: int, x1: int, k2: int, x2: int|
        #![trigger found[k1][x1], found[k2][x2]]
        0 <= k1 < found.len() && 0 <= x1 < found[k1].len() && 0 <= k2 < found.len() && 0 <= x2
            < found[k2].len() && found[k1][x1] == found[k2][x2] implies k1 == k2 && x1 == x2 by {
        if k1 < last && k2 < last {
            assert(found[k1] == islands[k1]);
            assert(found[k2] == islands[k2]);
            assert(islands[k1][x1] == islands[k2][x2]);
        } else if k1 < last {
            assert(found[k1] == islands[k1]);
            assert(seen(marks, islands[k1][x1]));
            assert(!seen(marks, island[x2]));
        } else if k2 < last {
            assert(found[k2] == islands[k2]);
            assert(seen(marks, islands[k2][x2]));
            assert(!seen(marks, island[x1]));
        } else {
            assert(island[x1] == island[x2]);
        }
    }
}

/// The new island cannot be made larger, and neither can those before it.
proof fn lemma_found_closed(
    g: Seq<Seq<Tile>>,
    marks: Seq<Seq<bool>>,
    marks_after: Seq<Seq<bool>>,
    islands: Seq<Seq<(i32, i32)>>,
    island: Seq<(i32, i32)>,
    start: (i32, i32),
)
    requires
        closed_marks(g, marks),
        each_closed(g, islands),
        flood_filled(g, marks, marks_after, island, start),
    ensures
        each_closed(g, islands.push(island)),
{
    let found = islands.push(island);
    let last = islands.len() as int;
    assert(found[last] == island);
    assert forall|k: int, x: int, n: (i32, i32)|
        0 <= k < found.len() && 0 <= x < found[k].len() && #[trigger] adjacent(found[k][x], n)
            && walkable_cell(g, n) implies found[k].contains(n) by {
        if k < last {
            assert(found[k] == islands[k]);
            assert(adjacent(islands[k][x], n));
        } else {
            let u = island[x];
            assert(walkable_cell(g, u) && seen(marks_after, u) && !seen(marks, u));
            assert(adjacent(u, n));
            assert(seen(marks_after, n));
            if seen(marks, n) {
                assert(adjacent(n, u));
                assert(seen(marks, u));
            }
            assert(island.contains(n));
        }
    }
}

/// The new island comes after those before it, and starts with its first
/// cell in row-major order.
proof fn lemma_found_in_order(
    g: Seq<Seq<Tile>>,
    marks: Seq<Seq<bool>>,
    marks_after: Seq<Seq<bool>>,
    islands: Seq<Seq<(i32, i32)>>,
    island: Seq<(i32, i32)>,
    i: int,
    j: int,
)
    requires
        0 <= i <= i32::MAX,
        0 <= j <= i32::MAX,
        scanned_marked(g, marks, i, j),
        in_discovery_order(islands),
        firsts_scanned(islands, i, j),
        flood_filled(g, marks, marks_after, island, (i as i32, j as i32)),
    ensures
        in_discovery_order(islands.push(island)),
        firsts_scanned(islands.push(island), i, j + 1),
{
    let found = islands.push(island);
    let last = islands.len() as int;
    assert(found[last] == island);
    assert forall|k: int, x: int|
        0 <= k < found.len() && 0 < x < found[k].len() implies row_major_before(
        found[k][0],
        #[trigger] found[k][x],
    ) by {
        if k < last {
            assert(found[k] == islands[k]);
            assert(row_major_before(islands[k][0], islands[k][x]));
        } else {
            let c = island[x];
            assert(walkable_cell(g, c) && !seen(marks, c));
            assert(!scanned(c, i, j));
            assert(c != island[0]);
        }
    }
    assert forall|k1: int, k2: int|
        #![trigger found[k1], found[k2]]
        0 <= k1 < k2 < found.len() implies row_major_before(found[k1][0], found[k2][0]) by {
        assert(found[k1] == islands[k1]);
        if k2 < last {
            assert(found[k2] == islands[k2]);
            assert(row_major_before(islands[k1][0], islands[k2][0]));
        } else {
            assert(scanned(islands[k1][0], i, j));
        }
    }
    assert forall|k: int| 0 <= k < found.len() implies scanned(
        (#[trigger] found[k])[0],
        i,
        j + 1,
    ) by {
        if k < last {
            assert(found[k] == islands[k]);
            assert(scanned(islands[k][0], i, j));
        }
    }
}

/// A flood fill from the cell at which the scan stands adds one island.
proof fn lemma_island_found(
    g: Seq<Seq<Tile>>,
    marks: Seq<Seq<bool>>,
    marks_after: Seq<Seq<bool>>,
    islands: Seq<Seq<(i32, i32)>>,
    island: Seq<(i32, i32)>,
    i: int,
    j: int,
)
    requires
        valid_grid(g),
        detection_so_far(g, marks, islands, i, j),
        0 <= i < g.len(),
        0 <= j < g[0].len(),
        flood_filled(g, marks, marks_after, island, (i as i32, j as i32)),
    ensures
        detection_so_far(g, marks_after, islands.push(island), i, j + 1),
{
    let start = (i as i32, j as i32);
    lemma_found_cells_marked(g, marks, marks_after, islands, island, start);
    lemma_found_marks_covered(g, marks, marks_after, islands, island, start);
    lemma_found_no_cell_twice(g, marks, marks_after, islands, island, start);
    lemma_found_closed(g, marks, marks_after, islands, island, start);
    lemma_found_in_order(g, marks, marks_after, islands, island, i, j);
    assert(scanned_marked(g, marks_after, i, j + 1)) by {
        assert forall|cell: (i32, i32)| #[trigger]
            walkable_cell(g, cell) && scanned(cell, i, j + 1) implies seen(marks_after, cell) by {
            if scanned(cell, i, j) {
                assert(seen(marks, cell));
            } else {
                assert(cell == start);
                assert(seen(marks_after, island[0]));
            }
        }
    }
}

/// When the scan has passed the last row, the islands found are the islands
/// of the grid.
proof fn lemma_detection_done(
    g: Seq<Seq<Tile>>,
    marks: Seq<Seq<bool>>,
    islands: Seq<Seq<(i32, i32)>>,
)
    requires
        valid_grid(g),
        detection_so_far(g, marks, islands, g.len() as int, 0),
    ensures
        is_island_partition(g, islands),
{
    assert(only_walkable(g, islands));
    assert(covers_walkable(g, islands)) by {
        assert forall|cell: (i32, i32)| #[trigger] walkable_cell(g, cell) implies exists|k: int|
            0 <= k < islands.len() && (#[trigger] islands[k]).contains(cell) by {
            assert(scanned(cell, g.len() as int, 0));
            assert(seen(marks, cell));
        }
    }
    assert(each_connected(g, islands)) by {
        assert forall|k: int, x: int, y: int|
            #![trigger islands[k][x], islands[k][y]]
            0 <= k < islands.len() && 0 <= x < islands[k].len() && 0 <= y < islands[k].len()
            implies connected(g, islands[k][x], islands[k][y]) by {
            lemma_connected_sym(g, islands[k][0], islands[k][x]);
            lemma_connected_trans(g, islands[k][x], islands[k][0], islands[k][y]);
        }
    }
}

/// What holds while a flood fill from `start` is under way: `before` are the
/// marks it found, `marks` the marks by now, `out` the cells listed so far,
/// and `stack` the cells still to look at.
spec fn flooding(
    g: Seq<Seq<Tile>>,
    before: Seq<Seq<bool>>,
    marks: Seq<Seq<bool>>,
    out: Seq<(i32, i32)>,
    stack: Seq<(i32, i32)>,
    start: (i32, i32),
) -> bool {
    &&& valid_grid(g)
    &&& same_shape(before, g)
    &&& same_shape(marks, g)
    &&& closed_marks(g, before)
    &&& walkable_cell(g, start)
    &&& !seen(before, start)
    &&& forall|cell: (i32, i32)|
        in_bounds(g, cell.0 as int, cell.1 as int) && #[trigger] seen(before, cell) ==> seen(
            marks,
            cell,
        )
    &&& forall|i: int|
        0 <= i < out.len() ==> {
            &&& walkable_cell(g, #[trigger] out[i])
            &&& !seen(before, out[i])
            &&& seen(marks, out[i])
            &&& connected(g, start, out[i])
        }
    &&& forall|cell: (i32, i32)|
        in_bounds(g, cell.0 as int, cell.1 as int) && #[trigger] seen(marks, cell) && !seen(
            before,
            cell,
        ) ==> out.contains(cell)
    &&& out.no_duplicates()
    &&& forall|s: int|
        0 <= s < stack.len() ==> {
            &&& walkable_cell(g, #[trigger] stack[s])
            &&& connected(g, start, stack[s])
        }
    &&& out.len() == 0 ==> stack =~= seq![start]
    &&& out.len() > 0 ==> out[0] == start
    &&& forall|u: (i32, i32), n: (i32, i32)|
        walkable_cell(g, u) && seen(marks, u) && #[trigger] adjacent(u, n) && walkable_cell(g, n)
            ==> seen(marks, n) || stack.contains(n)
}

/// Marking a cell and then a run of cells is marking the run with the cell
/// in front.
proof fn lemma_marked_all_front(marks: Seq<Seq<bool>>, cell: (i32, i32), cells: Seq<(i32, i32)>)
    ensures
        marked_all(marks, seq![cell] + cells) == marked_all(marked(marks, cell), cells),
    decreases cells.len(),
{
    let all = seq![cell] + cells;
    if cells.len() == 0 {
        assert(all.drop_last() =~= Seq::<(i32, i32)>::empty());
        assert(marked_all(marks, all.drop_last()) == marks);
    } else {
        lemma_marked_all_front(marks, cell, cells.drop_last());
        assert(all.drop_last() =~= seq![cell] + cells.drop_last());
    }
}

/// The neighbours that the flood fill is to look at are the walkable cells
/// without a mark that share a side with the cell.
proof fn lemma_fresh_neighbours(g: Seq<Seq<Tile>>, marks: Seq<Seq<bool>>, cell: (i32, i32))
    requires
        valid_grid(g),
        walkable_cell(g, cell),
    ensures
        forall|n: (i32, i32)|
            #[trigger] fresh_neighbours(g, marks, cell).contains(n) <==> adjacent(cell, n)
                && walkable_cell(g, n) && !seen(marks, n),
{
    broadcast use vstd::seq_lib::lemma_seq_concat_contains_all_elements;

    let up = ((cell.0 - 1) as i32, cell.1);
    let down = ((cell.0 + 1) as i32, cell.1);
    let left = (cell.0, (cell.1 - 1) as i32);
    let right = (cell.0, (cell.1 + 1) as i32);
    assert forall|n: (i32, i32)|
        #[trigger] fresh_neighbours(g, marks, cell).contains(n) <==> adjacent(cell, n)
            && walkable_cell(g, n) && !seen(marks, n) by {
        assert(forall|c: (i32, i32)| #[trigger]
            if_fresh(g, marks, c).contains(n) <==> c == n && walkable_cell(g, n) && !seen(
                marks,
                n,
            )) by {
            assert forall|c: (i32, i32)| #[trigger]
                if_fresh(g, marks, c).contains(n) <==> c == n && walkable_cell(g, n) && !seen(
                    marks,
                    n,
                ) by {
                if walkable_cell(g, c) && !seen(marks, c) {
                    assert(if_fresh(g, marks, c)[0] == c);
                }
            }
        }
        assert(adjacent(cell, n) <==> n == up || n == down || n == left || n == right);
    }
}

/// The flood fill does what it is for: from any point on its way, what it
/// goes on to list makes up the island of its start.
proof fn lemma_flood(
    g: Seq<Seq<Tile>>,
    before: Seq<Seq<bool>>,
    marks: Seq<Seq<bool>>,
    out: Seq<(i32, i32)>,
    stack: Seq<(i32, i32)>,
    start: (i32, i32),
)
    requires
        flooding(g, before, marks, out, stack, start),
    ensures
        flood_filled(
            g,
            before,
            marked_all(marks, flood(g, marks, stack)),
            out + flood(g, marks, stack),
            start,
        ),
    decreases unset(marks), stack.len(),
{
    broadcast use vstd::seq_lib::lemma_seq_concat_contains_all_elements;

    if stack.len() == 0 {
        assert(out + flood(g, marks, stack) =~= out);
        assert(closed_marks(g, marks)) by {
            assert forall|u: (i32, i32), n: (i32, i32)|
                walkable_cell(g, u) && seen(marks, u) && #[trigger] adjacent(u, n)
                    && walkable_cell(g, n) implies seen(marks, n) by {
                assert(seen(marks, n) || stack.contains(n));
            }
        }
        assert(out.len() > 0) by {
            if out.len() == 0 {
                assert(stack.len() == 1);
            }
        }
    } else {
        let cell = stack.last();
        let rest = stack.drop_last();
        assert(walkable_cell(g, stack[stack.len() - 1]));
        assert(connected(g, start, stack[stack.len() - 1]));
        assert forall|x: (i32, i32)| stack.contains(x) implies x == cell || rest.contains(x) by {
            let i = choose|i: int| 0 <= i < stack.len() && stack[i] == x;
            if i < stack.len() - 1 {
                assert(rest[i] == x);
            }
        }
        assert(g[cell.0 as int].len() == g[0].len());
        assert(marks[cell.0 as int].len() == g[cell.0 as int].len());
        if !seen(marks, cell) {
            let marks2 = marked(marks, cell);
            let pushes = fresh_neighbours(g, marks2, cell);
            let stack2 = rest + pushes;
            let out2 = out.push(cell);
            lemma_unset_after_mark(marks, cell.0 as int, cell.1 as int);
            lemma_fresh_neighbours(g, marks2, cell);
            assert(flooding(g, before, marks2, out2, stack2, start)) by {
                assert(same_shape(marks2, g));
                assert(forall|x: (i32, i32)|
                    in_bounds(g, x.0 as int, x.1 as int) ==> (#[trigger] seen(marks2, x) == (x
                        == cell || seen(marks, x))));
                assert(!out.contains(cell));
                assert forall|x: (i32, i32)|
                    in_bounds(g, x.0 as int, x.1 as int) && #[trigger] seen(marks2, x) && !seen(
                        before,
                        x,
                    ) implies out2.contains(x) by {
                    if x == cell {
                        assert(out2[out.len() as int] == cell);
                    } else {
                        let i = choose|i: int| 0 <= i < out.len() && out[i] == x;
                        assert(out2[i] == x);
                    }
                }
                assert forall|s: int| 0 <= s < stack2.len() implies walkable_cell(
                    g,
                    #[trigger] stack2[s],
                ) && connected(g, start, stack2[s]) by {
                    if s < rest.len() {
                        assert(stack2[s] == stack[s]);
                    } else {
                        assert(pushes[s - rest.len()] == stack2[s]);
                        assert(pushes.contains(stack2[s]));
                        lemma_connected_extend(g, start, cell, stack2[s]);
                    }
                }
                assert forall|u: (i32, i32), n: (i32, i32)|
                    walkable_cell(g, u) && seen(marks2, u) && #[trigger] adjacent(u, n)
                        && walkable_cell(g, n) implies seen(marks2, n) || stack2.contains(n) by {
                    if u == cell {
                        if !seen(marks2, n) {
                            assert(pushes.contains(n));
                        }
                    } else {
                        assert(seen(marks, u));
                        assert(seen(marks, n) || stack.contains(n));
                    }
                }
                assert(out.len() == 0 ==> rest.len() == 0 && cell == start);
            }
            lemma_flood(g, before, marks2, out2, stack2, start);
            let more = flood(g, marks2, stack2);
            assert(flood(g, marks, stack) == seq![cell] + more);
            assert(out2 + more =~= out + (seq![cell] + more));
            lemma_marked_all_front(marks, cell, more);
        } else {
            assert(flooding(g, before, marks, out, rest, start)) by {
                assert forall|u: (i32, i32), n: (i32, i32)|
                    walkable_cell(g, u) && seen(marks, u) && #[trigger] adjacent(u, n)
                        && walkable_cell(g, n) implies seen(marks, n) || rest.contains(n) by {
                    assert(seen(marks, n) || stack.contains(n));
                }
                assert(out.len() > 0) by {
                    if out.len() == 0 {
                        assert(stack[0] == start);
                        assert(out.contains(cell));
                    }
                }
                assert forall|s: int| 0 <= s < rest.len() implies walkable_cell(
                    g,
                    #[trigger] rest[s],
                ) && connected(g, start, rest[s]) by {
                    assert(rest[s] == stack[s]);
                }
            }
            lemma_flood(g, before, marks, out, rest, start);
        }
    }
}

/// From wherever the scan stands, the islands found so far and those still
/// to be found make up the islands of the grid.
proof fn lemma_scan(
    g: Seq<Seq<Tile>>,
    marks: Seq<Seq<bool>>,
    found: Seq<Seq<(i32, i32)>>,
    i: int,
    j: int,
)
    requires
        valid_grid(g),
        detection_so_far(g, marks, found, i, j),
        0 <= i <= g.len(),
        0 <= j <= g[0].len(),
        i < g.len() || j == 0,
    ensures
        is_island_partition(g, found + scan(g, marks, i, j)),
    decreases g.len() - i, g[0].len() - j,
{
    if i >= g.len() {
        assert(found + scan(g, marks, i, j) =~= found);
        lemma_detection_done(g, marks, found);
    } else if j >= g[0].len() {
        lemma_row_passed(g, marks, found, i);
        lemma_scan(g, marks, found, i + 1, 0);
    } else {
        let cell = (i as i32, j as i32);
        assert(g[i].len() == g[0].len());
        assert(marks[i].len() == g[i].len());
        if walkable_cell(g, cell) && !seen(marks, cell) {
            let island = flood(g, marks, seq![cell]);
            let marks2 = marked_all(marks, island);
            assert(flooding(g, marks, marks, Seq::empty(), seq![cell], cell)) by {
                lemma_connected_refl(g, cell);
            }
            lemma_flood(g, marks, marks, Seq::empty(), seq![cell], cell);
            assert(Seq::<(i32, i32)>::empty() + island =~= island);
            lemma_island_found(g, marks, marks2, found, island, i, j);
            lemma_scan(g, marks2, found.push(island), i, j + 1);
            assert(found.push(island) + scan(g, marks2, i, j + 1) =~= found + scan(
                g,
                marks,
                i,
                j,
            ));
        } else {
            lemma_cell_passed(g, marks, found, i, j);
            lemma_scan(g, marks, found, i, j + 1);
        }
    }
}

/// The islands of a grid are its walkable cells, each listed once, split
/// into the largest sets that hang together: any two cells of an island are
/// joined by a walk, and no walkable cell beside an island is left out of it.
pub proof fn lemma_islands_of_is_partition(g: Seq<Seq<Tile>>)
    requires
        valid_grid(g),
    ensures
        is_island_partition(g, islands_of(g)),
{
    let marks = no_marks(g);
    let found = Seq::<Seq<(i32, i32)>>::empty();
    assert(same_shape(marks, g));
    assert(detection_so_far(g, marks, found, 0, 0));
    lemma_scan(g, marks, found, 0, 0);
    assert(found + scan(g, marks, 0, 0) =~= islands_of(g));
}

} // verus!
