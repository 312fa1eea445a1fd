use crate::tile::{Tile, TileType};
use vstd::prelude::*;

verus! {

/// The rows of a vector of vectors, each taken as a sequence.
pub open spec fn rows<T>(v: Seq<Vec<T>>) -> Seq<Seq<T>> {
    Seq::new(v.len(), |r: int| v[r]@)
}

/// Whether the miner can stand on terrain of this kind.
pub open spec fn walkable(tile_type: TileType) -> bool {
    !(tile_type is DeepWater || tile_type is Lava || tile_type is ShallowWater)
}

/// Whether `(row, col)` names a cell of the grid. The width of the grid is
/// the length of its first row.
pub open spec fn in_bounds(g: Seq<Seq<Tile>>, row: int, col: int) -> bool {
    0 <= row < g.len() && 0 <= col < g[0].len()
}

/// A grid that the engine can work on: at least one row, every row as long as
/// the first, and no side longer than an `i32` can count.
pub open spec fn valid_grid(g: Seq<Seq<Tile>>) -> bool {
    &&& 0 < g.len() <= i32::MAX
    &&& g[0].len() <= i32::MAX
    &&& forall|r: int| 0 <= r < g.len() ==> (#[trigger] g[r]).len() == g[0].len()
}

/// Whether the map stands for a grid that the engine can work on.
pub fn is_valid_grid(map: &Vec<Vec<Tile>>) -> (ok: bool)
    ensures
        ok == valid_grid(rows(map@)),
{
    let n_rows = map.len();
    if n_rows == 0 || n_rows > i32::MAX as usize {
        return false;
    }
    let n_cols = map[0].len();
    if n_cols > i32::MAX as usize {
        return false;
    }
    let mut r: usize = 1;
    while r < n_rows
        invariant
            n_rows == map@.len(),
            n_cols == map@[0]@.len(),
            1 <= r <= n_rows,
            forall|k: int| 0 <= k < r ==> (#[trigger] rows(map@)[k]).len() == n_cols,
        decreases n_rows - r,
    {
        if map[r].len() != n_cols {
            assert(rows(map@)[r as int].len() != rows(map@)[0].len());
            return false;
        }
        r += 1;
    }
    true
}

/// The cell lies in the grid and the miner can stand on it.
pub open spec fn walkable_cell(g: Seq<Seq<Tile>>, cell: (i32, i32)) -> bool {
    in_bounds(g, cell.0 as int, cell.1 as int) && walkable(
        g[cell.0 as int][cell.1 as int].tile_type,
    )
}

/// The two cells share a side.
pub open spec fn adjacent(a: (i32, i32), b: (i32, i32)) -> bool {
    ||| a.0 == b.0 && (a.1 - b.1 == 1 || b.1 - a.1 == 1)
    ||| a.1 == b.1 && (a.0 - b.0 == 1 || b.0 - a.0 == 1)
}

/// Cell `i` of the path and the one after it share a side.
pub open spec fn step_adjacent(path: Seq<(i32, i32)>, i: int) -> bool {
    adjacent(path[i], path[i + 1])
}

/// A walk: a non-empty run of walkable cells, each sharing a side with the
/// next.
pub open spec fn is_walk(g: Seq<Seq<Tile>>, path: Seq<(i32, i32)>) -> bool {
    &&& path.len() > 0
    &&& forall|i: int| 0 <= i < path.len() ==> walkable_cell(g, #[trigger] path[i])
    &&& forall|i: int| 0 <= i < path.len() - 1 ==> #[trigger] step_adjacent(path, i)
}

/// Some walk leads from `a` to `b`.
pub open spec fn connected(g: Seq<Seq<Tile>>, a: (i32, i32), b: (i32, i32)) -> bool {
    exists|path: Seq<(i32, i32)>| #[trigger] is_walk(g, path) && path[0] == a && path.last() == b
}

/// A walkable cell is connected to itself.
pub proof fn lemma_connected_refl(g: Seq<Seq<Tile>>, a: (i32, i32))
    requires
        walkable_cell(g, a),
    ensures
        connected(g, a, a),
{
    let path = seq![a];
    assert(is_walk(g, path));
    assert(path[0] == a && path.last() == a);
}

/// A walk can be prolonged by one walkable neighbour of its end.
pub proof fn lemma_connected_extend(
    g: Seq<Seq<Tile>>,
    a: (i32, i32),
    b: (i32, i32),
    n: (i32, i32),
)
    requires
        connected(g, a, b),
        adjacent(b, n),
        walkable_cell(g, n),
    ensures
        connected(g, a, n),
{
    let p = choose|path: Seq<(i32, i32)>| #[trigger]
        is_walk(g, path) && path[0] == a && path.last() == b;
    let q = p.push(n);
    assert forall|i: int| 0 <= i < q.len() implies walkable_cell(g, #[trigger] q[i]) by {
        if i < p.len() {
            assert(q[i] == p[i]);
        }
    }
    assert forall|i: int| 0 <= i < q.len() - 1 implies #[trigger] step_adjacent(q, i) by {
        if i < p.len() - 1 {
            assert(step_adjacent(p, i));
        }
    }
    assert(is_walk(g, q));
    assert(q[0] == a && q.last() == n);
}

/// Connection does not depend on the direction of travel.
pub proof fn lemma_connected_sym(g: Seq<Seq<Tile>>, a: (i32, i32), b: (i32, i32))
    requires
        connected(g, a, b),
    ensures
        connected(g, b, a),
{
    let p = choose|path: Seq<(i32, i32)>| #[trigger]
        is_walk(g, path) && path[0] == a && path.last() == b;
    let q = Seq::new(p.len(), |i: int| p[p.len() - 1 - i]);
    assert forall|i: int| 0 <= i < q.len() - 1 implies #[trigger] step_adjacent(q, i) by {
        assert(step_adjacent(p, p.len() - 2 - i));
    }
    assert(is_walk(g, q));
    assert(q[0] == b && q.last() == a);
}

/// Two walks that meet make one walk.
pub proof fn lemma_connected_trans(
    g: Seq<Seq<Tile>>,
    a: (i32, i32),
    b: (i32, i32),
    c: (i32, i32),
)
    requires
        connected(g, a, b),
        connected(g, b, c),
    ensures
        connected(g, a, c),
{
    let p = choose|path: Seq<(i32, i32)>| #[trigger]
        is_walk(g, path) && path[0] == a && path.last() == b;
    let r = choose|path: Seq<(i32, i32)>| #[trigger]
        is_walk(g, path) && path[0] == b && path.last() == c;
    let q = p + r.subrange(1, r.len() as int);
    assert forall|i: int| 0 <= i < q.len() implies walkable_cell(g, #[trigger] q[i]) by {
        if i < p.len() {
            assert(q[i] == p[i]);
        } else {
            assert(q[i] == r[i - p.len() + 1]);
        }
    }
    assert forall|i: int| 0 <= i < q.len() - 1 implies #[trigger] step_adjacent(q, i) by {
        if i < p.len() - 1 {
            assert(step_adjacent(p, i));
        } else {
            assert(step_adjacent(r, i - p.len() + 1));
        }
    }
    assert(is_walk(g, q));
    assert(q[0] == a);
    assert(q.last() == c) by {
        if r.len() == 1 {
            assert(q =~= p);
        } else {
            assert(q.last() == r.last());
        }
    }
}

/// Both ends of a connection are walkable cells.
pub proof fn lemma_connected_walkable(g: Seq<Seq<Tile>>, a: (i32, i32), b: (i32, i32))
    requires
        connected(g, a, b),
    ensures
        walkable_cell(g, a),
        walkable_cell(g, b),
{
    let p = choose|path: Seq<(i32, i32)>| #[trigger]
        is_walk(g, path) && path[0] == a && path.last() == b;
    assert(walkable_cell(g, p[0]));
    assert(walkable_cell(g, p[p.len() - 1]));
}

} // verus!
