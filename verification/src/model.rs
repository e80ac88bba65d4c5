//! Mathematical model of the grid and of paths across it.
//!
//! A grid is a flat, row-major sequence of `n * n` cells, each `1` (free) or
//! anything else (blocked).  A path is a sequence of `(row, col)` coordinates
//! that starts at `(0, 0)`, moves one step along exactly one axis at a time,
//! and only ever stands on free cells.  Every contract of this crate is
//! stated over these definitions.

use vstd::prelude::*;

verus! {

/// `(r, c)` lies inside an `n` by `n` grid.
pub open spec fn in_grid(n: nat, r: int, c: int) -> bool {
    0 <= r < n && 0 <= c < n
}

/// The cell `(r, c)` exists and is free (holds a `1`).
pub open spec fn free_at(grid: Seq<u8>, n: nat, r: int, c: int) -> bool {
    in_grid(n, r, c) && grid[r * n + c] == 1
}

/// Two cells differ by one step along exactly one axis.
pub open spec fn step_adjacent(a: (int, int), b: (int, int)) -> bool {
    ||| a.1 == b.1 && (a.0 == b.0 + 1 || a.0 + 1 == b.0)
    ||| a.0 == b.0 && (a.1 == b.1 + 1 || a.1 + 1 == b.1)
}

/// `p` is a walk over free cells that starts at `(0, 0)`.
pub open spec fn is_path(grid: Seq<u8>, n: nat, p: Seq<(int, int)>) -> bool {
    &&& p.len() > 0
    &&& p[0] == (0int, 0int)
    &&& (forall|i: int| 0 <= i < p.len() ==> free_at(grid, n, #[trigger] p[i].0, p[i].1))
    &&& (forall|i: int| 1 <= i < p.len() ==> step_adjacent(p[i - 1], #[trigger] p[i]))
}

/// `p` is a walk from `(0, 0)` that ends on the cell `(r, c)`.
pub open spec fn is_path_to(grid: Seq<u8>, n: nat, p: Seq<(int, int)>, r: int, c: int) -> bool {
    is_path(grid, n, p) && p.last() == (r, c)
}

/// Some walk connects `(0, 0)` to the far corner `(n-1, n-1)`.
pub open spec fn reaches_dest(grid: Seq<u8>, n: nat) -> bool {
    exists|p: Seq<(int, int)>| #[trigger] is_path_to(grid, n, p, n - 1, n - 1)
}

/// `p` connects the two corners and no walk between them has fewer cells.
pub open spec fn is_shortest_dest_path(grid: Seq<u8>, n: nat, p: Seq<(int, int)>) -> bool {
    &&& is_path_to(grid, n, p, n - 1, n - 1)
    &&& forall|q: Seq<(int, int)>| #[trigger] is_path_to(grid, n, q, n - 1, n - 1) ==> q.len() >= p.len()
}

/// The coordinates of a machine-level cell, as mathematical integers.
pub open spec fn cell_view(p: (usize, usize)) -> (int, int) {
    (p.0 as int, p.1 as int)
}

/// The coordinates of a machine-level path, as mathematical integers.
pub open spec fn path_view(p: Seq<(usize, usize)>) -> Seq<(int, int)> {
    Seq::new(p.len(), |i: int| cell_view(p[i]))
}

/// When either corner is blocked, no walk connects the corners: every walk
/// starts on `(0, 0)` and a walk to `(n-1, n-1)` ends on it, and walks only
/// stand on free cells.
pub proof fn lemma_blocked_endpoint_unreachable(grid: Seq<u8>, n: nat)
    requires
        n >= 1,
        !free_at(grid, n, 0, 0) || !free_at(grid, n, n - 1, n - 1),
    ensures
        !reaches_dest(grid, n),
{
    if reaches_dest(grid, n) {
        let p = choose|p: Seq<(int, int)>| #[trigger] is_path_to(grid, n, p, n - 1, n - 1);
        assert(free_at(grid, n, p[0].0, p[0].1));
        assert(free_at(grid, n, p[p.len() - 1].0, p[p.len() - 1].1));
        assert(false);
    }
}

/// Dropping the last cell of a walk of two or more cells leaves a walk.
pub proof fn lemma_path_drop_last(grid: Seq<u8>, n: nat, p: Seq<(int, int)>)
    requires
        is_path(grid, n, p),
        p.len() >= 2,
    ensures
        is_path(grid, n, p.drop_last()),
        p.drop_last().len() == p.len() - 1,
        p.drop_last().last() == p[p.len() - 2],
{
    let q = p.drop_last();
    assert forall|i: int| 0 <= i < q.len() implies free_at(grid, n, #[trigger] q[i].0, q[i].1) by {
        assert(q[i].0 == p[i].0);
        assert(free_at(grid, n, p[i].0, p[i].1));
    }
    assert forall|i: int| 1 <= i < q.len() implies step_adjacent(q[i - 1], #[trigger] q[i]) by {
        assert(q[i].0 == p[i].0);
        assert(q[i - 1] == p[i - 1] && q[i] == p[i]);
    }
}

/// A free cell's flat index lies inside the grid's cell count.
pub proof fn lemma_cell_index_bounds(n: nat, r: int, c: int)
    requires
        in_grid(n, r, c),
    ensures
        0 <= r * n + c < n * n,
{
    assert(r * n + c < n * n) by (nonlinear_arith)
        requires 0 <= r < n && 0 <= c < n;
}

/// Distinct cells of the grid have distinct flat indices.
pub proof fn lemma_cell_index_injective(n: nat, r1: int, c1: int, r2: int, c2: int)
    requires
        in_grid(n, r1, c1),
        in_grid(n, r2, c2),
        r1 * n + c1 == r2 * n + c2,
    ensures
        r1 == r2 && c1 == c2,
{
    assert(r1 == r2 && c1 == c2) by (nonlinear_arith)
        requires
            0 <= r1 < n && 0 <= c1 < n,
            0 <= r2 < n && 0 <= c2 < n,
            r1 * n + c1 == r2 * n + c2;
}

} // verus!
