use vstd::math::abs;
use vstd::prelude::*;

verus! {

/// The Manhattan distance from a cell to the point `(row, col)`.
pub open spec fn manhattan(cell: (i32, i32), row: int, col: int) -> int {
    (abs(cell.0 - row) + abs(cell.1 - col)) as int
}

/// `d` is the least Manhattan distance from a cell of the island to
/// `(row, col)`.
pub open spec fn is_least_distance(island: Seq<(i32, i32)>, row: int, col: int, d: int) -> bool {
    &&& exists|x: int| 0 <= x < island.len() && manhattan(#[trigger] island[x], row, col) == d
    &&& forall|x: int| 0 <= x < island.len() ==> d <= manhattan(#[trigger] island[x], row, col)
}

/// The least Manhattan distance from a cell of the island to `(row, col)`.
/// It means nothing for an island without cells.
pub open spec fn least_distance(island: Seq<(i32, i32)>, row: int, col: int) -> int {
    choose|d: int| is_least_distance(island, row, col, d)
}

/// There is only one least distance.
pub proof fn lemma_least_distance(island: Seq<(i32, i32)>, row: int, col: int, d: int)
    requires
        is_least_distance(island, row, col, d),
    ensures
        least_distance(island, row, col) == d,
{
    let e = least_distance(island, row, col);
    assert(is_least_distance(island, row, col, e));
    let x = choose|x: int| 0 <= x < island.len() && manhattan(#[trigger] island[x], row, col) == d;
    let y = choose|y: int| 0 <= y < island.len() && manhattan(#[trigger] island[y], row, col) == e;
    assert(e <= manhattan(island[x], row, col));
    assert(d <= manhattan(island[y], row, col));
}

/// The Manhattan distance from a cell to the point `(row, col)`.
pub fn distance_to(cell: (i32, i32), row: usize, col: usize) -> (d: i128)
    ensures
        d == manhattan(cell, row as int, col as int),
{
    let dr: i128 = cell.0 as i128 - row as i128;
    let dc: i128 = cell.1 as i128 - col as i128;
    let ar: i128 = if dr < 0 {
        -dr
    } else {
        dr
    };
    let ac: i128 = if dc < 0 {
        -dc
    } else {
        dc
    };
    ar + ac
}

/// The Manhattan distance between two cells.
pub fn distance_between(a: (i32, i32), b: (i32, i32)) -> (d: i64)
    ensures
        d == manhattan(a, b.0 as int, b.1 as int),
{
    let dr: i64 = a.0 as i64 - b.0 as i64;
    let dc: i64 = a.1 as i64 - b.1 as i64;
    let ar: i64 = if dr < 0 {
        -dr
    } else {
        dr
    };
    let ac: i64 = if dc < 0 {
        -dc
    } else {
        dc
    };
    ar + ac
}

/// The least Manhattan distance from a cell of the island to `(row, col)`.
pub fn island_distance(island: &Vec<(i32, i32)>, row: usize, col: usize) -> (d: i128)
    requires
        island@.len() > 0,
    ensures
        d == least_distance(island@, row as int, col as int),
{
    let mut best: i128 = distance_to(island[0], row, col);
    let mut x: usize = 1;
    assert(island@.take(1)[0] == island@[0]);
    while x < island.len()
        invariant
            1 <= x <= island@.len(),
            is_least_distance(island@.take(x as int), row as int, col as int, best as int),
        decreases island@.len() - x,
    {
        let ghost so_far = island@.take(x as int);
        let ghost next = island@.take(x + 1);
        let d = distance_to(island[x], row, col);
        proof {
            let w = choose|w: int|
                0 <= w < so_far.len() && manhattan(#[trigger] so_far[w], row as int, col as int)
                    == best;
            assert(next[w] == so_far[w]);
            assert(next[x as int] == island@[x as int]);
            assert forall|y: int| 0 <= y < next.len() implies (if d < best {
                d
            } else {
                best
            }) <= manhattan(#[trigger] next[y], row as int, col as int) by {
                if y < x {
                    assert(next[y] == so_far[y]);
                }
            }
        }
        if d < best {
            best = d;
        }
        x += 1;
    }
    proof {
        assert(island@.take(x as int) =~= island@);
        lemma_least_distance(island@, row as int, col as int, best as int);
    }
    best
}

} // verus!
