//! Breadth-first search over the grid, and path reconstruction.
//!
//! The search keeps the whole discovery order in one vector and walks it with
//! a head index, so the already-expanded prefix stays available; that prefix
//! is exactly what the loop invariants speak about.  A ghost map records the
//! breadth-first depth of every discovered cell: depths never decrease along
//! the discovery order, the pending window spans at most two consecutive
//! depths, and each recorded depth is a lower bound on the cell count of
//! every walk to that cell — which is what makes the returned path shortest.

use vstd::prelude::*;

use crate::model::{
    cell_view, free_at, in_grid, is_path, is_path_to, is_shortest_dest_path,
    lemma_blocked_endpoint_unreachable, lemma_cell_index_bounds, lemma_cell_index_injective,
    lemma_path_drop_last, path_view, reaches_dest, step_adjacent,
};

verus! {

/// How many entries of `s` are true.
pub closed spec fn count_true(s: Seq<bool>) -> int
    decreases s.len(),
{
    if s.len() == 0 {
        0
    } else if s.last() {
        count_true(s.drop_last()) + 1
    } else {
        count_true(s.drop_last())
    }
}

proof fn lemma_count_true_bounds(s: Seq<bool>)
    ensures
        0 <= count_true(s) <= s.len(),
    decreases s.len(),
{
    if s.len() > 0 {
        lemma_count_true_bounds(s.drop_last());
    }
}

proof fn lemma_count_true_all_false(s: Seq<bool>)
    requires
        forall|i: int| 0 <= i < s.len() ==> !s[i],
    ensures
        count_true(s) == 0,
    decreases s.len(),
{
    if s.len() > 0 {
        assert(!s[s.len() - 1]);
        assert forall|i: int| 0 <= i < s.drop_last().len() implies !s.drop_last()[i] by {
            assert(s.drop_last()[i] == s[i]);
        }
        lemma_count_true_all_false(s.drop_last());
    }
}

proof fn lemma_count_true_set_true(s: Seq<bool>, k: int)
    requires
        0 <= k < s.len(),
        !s[k],
    ensures
        count_true(s.update(k, true)) == count_true(s) + 1,
    decreases s.len(),
{
    let t = s.update(k, true);
    if k == s.len() - 1 {
        assert(t.drop_last() =~= s.drop_last());
    } else {
        assert(t.drop_last() =~= s.drop_last().update(k, true));
        lemma_count_true_set_true(s.drop_last(), k);
    }
}

/// The flat index of an in-grid cell determines its coordinates.
proof fn lemma_flat_index_coords(n: nat, r: int, c: int)
    requires
        in_grid(n, r, c),
    ensures
        (r * n + c) / (n as int) == r,
        (r * n + c) % (n as int) == c,
{
    vstd::arithmetic::div_mod::lemma_fundamental_div_mod_converse_div(r * n + c, n as int, r, c);
    vstd::arithmetic::div_mod::lemma_fundamental_div_mod_converse_mod(r * n + c, n as int, r, c);
}

/// A vector of `len` copies of `value`.
fn repeat_value<T: Copy>(value: T, len: usize) -> (v: Vec<T>)
    ensures
        v@.len() == len,
        forall|i: int| 0 <= i < len ==> v@[i] == value,
{
    let mut v: Vec<T> = Vec::new();
    while v.len() < len
        invariant
            v@.len() <= len,
            forall|i: int| 0 <= i < v@.len() ==> v@[i] == value,
        decreases len - v@.len(),
    {
        v.push(value);
    }
    v
}

/// The parent entry of a discovered cell points one depth level back:
/// the start holds no parent, every other discovered cell holds an adjacent
/// discovered cell whose depth is one less.
#[verifier::opaque]
pub open spec fn parent_link_ok(
    n: nat,
    par: Seq<Option<(usize, usize)>>,
    d: Map<(int, int), int>,
    r: int,
    c: int,
) -> bool {
    if (r, c) == (0int, 0int) {
        par[r * n + c] is None
    } else {
        match par[r * n + c] {
            Option::Some(pp) => {
                &&& d.dom().contains(cell_view(pp))
                &&& step_adjacent(cell_view(pp), (r, c))
                &&& d[cell_view(pp)] == d[(r, c)] - 1
            },
            Option::None => false,
        }
    }
}

/// Every discovered cell is free, has a non-negative depth — zero exactly on
/// the start cell — and a sound parent entry.
pub open spec fn parents_ok(
    grid: Seq<u8>,
    n: nat,
    par: Seq<Option<(usize, usize)>>,
    d: Map<(int, int), int>,
) -> bool {
    &&& n >= 1
    &&& par.len() == n * n
    &&& d.dom().contains((0int, 0int))
    &&& forall|r: int, c: int| #[trigger] d.dom().contains((r, c)) ==> {
        &&& free_at(grid, n, r, c)
        &&& 0 <= d[(r, c)]
        &&& (d[(r, c)] == 0 <==> (r, c) == (0int, 0int))
        &&& parent_link_ok(n, par, d, r, c)
    }
}

/// A discovered cell is marked in the visited vector and stands in the
/// discovery order.
#[verifier::opaque]
pub open spec fn recorded_ok(n: nat, q: Seq<(usize, usize)>, vis: Seq<bool>, r: int, c: int) -> bool {
    &&& vis[r * n + c]
    &&& exists|i: int| 0 <= i < q.len() && cell_view(#[trigger] q[i]) == (r, c)
}

/// The full invariant of the search loop.  `q` is the discovery order,
/// `q[..head]` its expanded prefix, `d` the ghost depth of each discovered
/// cell.
pub open spec fn bfs_inv(
    grid: Seq<u8>,
    n: nat,
    q: Seq<(usize, usize)>,
    vis: Seq<bool>,
    par: Seq<Option<(usize, usize)>>,
    d: Map<(int, int), int>,
    head: int,
) -> bool {
    &&& grid.len() == n * n
    &&& vis.len() == n * n
    &&& parents_ok(grid, n, par, d)
    &&& 0 <= head <= q.len() <= n * n
    &&& count_true(vis) == q.len()
    &&& q.len() >= 1
    &&& cell_view(q[0]) == (0int, 0int)
    // discovered cells are marked and stand in the discovery order
    &&& forall|r: int, c: int| #[trigger] d.dom().contains((r, c)) ==> recorded_ok(n, q, vis, r, c)
    // marked cells are discovered
    &&& forall|idx: int|
        0 <= idx < n * n && #[trigger] vis[idx] ==> d.dom().contains(
            (idx / (n as int), idx % (n as int)),
        )
    // the discovery order holds discovered cells, each once
    &&& forall|i: int| 0 <= i < q.len() ==> d.dom().contains(cell_view(#[trigger] q[i]))
    &&& forall|i: int, j: int|
        0 <= i < j < q.len() ==> cell_view(#[trigger] q[i]) != cell_view(#[trigger] q[j])
    // depths never decrease along the discovery order
    &&& forall|i: int, j: int|
        0 <= i <= j < q.len() ==> d[cell_view(#[trigger] q[i])] <= d[cell_view(#[trigger] q[j])]
    // the pending window spans at most two consecutive depths
    &&& forall|i: int|
        head <= i < q.len() ==> d[cell_view(#[trigger] q[i])] <= d[cell_view(q[head])] + 1
    // every free neighbour of an expanded cell is discovered
    &&& forall|j: int, r: int, c: int|
        0 <= j < head && step_adjacent(cell_view(#[trigger] q[j]), (r, c)) && #[trigger] free_at(
            grid,
            n,
            r,
            c,
        ) ==> d.dom().contains((r, c))
    // a recorded depth bounds every walk to its cell from below
    &&& forall|r: int, c: int, w: Seq<(int, int)>|
        d.dom().contains((r, c)) && #[trigger] is_path_to(grid, n, w, r, c)
            ==> w.len() >= d[(r, c)] + 1
    // the destination has not been expanded
    &&& forall|j: int| 0 <= j < head ==> cell_view(#[trigger] q[j]) != (n - 1, n - 1)
}

/// Crossing lemma: while the search still has pending cells, every walk that
/// ends on an undiscovered cell is at least two cells longer than the depth
/// of the cell about to be expanded — the walk has to leave the discovered
/// region through the pending window.
proof fn lemma_undiscovered_cell_far(
    grid: Seq<u8>,
    n: nat,
    q: Seq<(usize, usize)>,
    vis: Seq<bool>,
    par: Seq<Option<(usize, usize)>>,
    d: Map<(int, int), int>,
    head: int,
    p: Seq<(int, int)>,
)
    requires
        bfs_inv(grid, n, q, vis, par, d, head),
        head < q.len(),
        is_path(grid, n, p),
        !d.dom().contains((p.last().0, p.last().1)),
    ensures
        p.len() >= d[cell_view(q[head])] + 2,
    decreases p.len(),
{
    let u = cell_view(q[head]);
    assert(d.dom().contains(cell_view(q[head])));
    if p.len() == 1 {
        assert(p.last() == p[0]);
        assert(d.dom().contains((0int, 0int)));
        assert(false);
    } else {
        lemma_path_drop_last(grid, n, p);
        let pp = p.drop_last();
        let w = p[p.len() - 2];
        assert(pp.last() == w);
        if !d.dom().contains((w.0, w.1)) {
            lemma_undiscovered_cell_far(grid, n, q, vis, par, d, head, pp);
        } else {
            reveal(recorded_ok);
            assert(recorded_ok(n, q, vis, w.0, w.1));
            let j = choose|i: int| 0 <= i < q.len() && cell_view(#[trigger] q[i]) == (w.0, w.1);
            assert(step_adjacent(p[p.len() - 2], p[p.len() - 1]));
            assert(free_at(grid, n, p[p.len() - 1].0, p[p.len() - 1].1));
            if j < head {
                assert(step_adjacent(cell_view(q[j]), (p[p.len() - 1].0, p[p.len() - 1].1)));
                assert(d.dom().contains((p[p.len() - 1].0, p[p.len() - 1].1)));
                assert(false);
            } else {
                assert(d[cell_view(q[head])] <= d[cell_view(q[j])]);
                assert(is_path_to(grid, n, pp, w.0, w.1));
                assert(pp.len() >= d[(w.0, w.1)] + 1);
            }
        }
    }
}

/// Once nothing is pending, the discovered region is closed under free
/// neighbours, so every walk ends on a discovered cell.
proof fn lemma_exhausted_path_discovered(
    grid: Seq<u8>,
    n: nat,
    q: Seq<(usize, usize)>,
    vis: Seq<bool>,
    par: Seq<Option<(usize, usize)>>,
    d: Map<(int, int), int>,
    p: Seq<(int, int)>,
)
    requires
        bfs_inv(grid, n, q, vis, par, d, q.len() as int),
        is_path(grid, n, p),
    ensures
        d.dom().contains((p.last().0, p.last().1)),
    decreases p.len(),
{
    if p.len() == 1 {
        assert(p.last() == p[0]);
        assert(d.dom().contains((0int, 0int)));
    } else {
        lemma_path_drop_last(grid, n, p);
        let pp = p.drop_last();
        let w = p[p.len() - 2];
        assert(pp.last() == w);
        lemma_exhausted_path_discovered(grid, n, q, vis, par, d, pp);
        reveal(recorded_ok);
        assert(recorded_ok(n, q, vis, w.0, w.1));
        let j = choose|i: int| 0 <= i < q.len() && cell_view(#[trigger] q[i]) == (w.0, w.1);
        assert(step_adjacent(p[p.len() - 2], p[p.len() - 1]));
        assert(free_at(grid, n, p[p.len() - 1].0, p[p.len() - 1].1));
        assert(step_adjacent(cell_view(q[j]), (p[p.len() - 1].0, p[p.len() - 1].1)));
        assert(d.dom().contains((p[p.len() - 1].0, p[p.len() - 1].1)));
    }
}

/// Examine the neighbour `(nx, ny)` of the cell about to be expanded.  A
/// free, still-unmarked neighbour is marked, given the expanded cell as
/// parent, appended to the discovery order, and recorded one depth further.
fn try_visit(
    grid: &Vec<u8>,
    n: usize,
    head: usize,
    nx: usize,
    ny: usize,
    queue: &mut Vec<(usize, usize)>,
    visited: &mut Vec<bool>,
    parent: &mut Vec<Option<(usize, usize)>>,
    dist: Ghost<Map<(int, int), int>>,
) -> (dist2: Ghost<Map<(int, int), int>>)
    requires
        bfs_inv(
            grid@,
            n as nat,
            old(queue)@,
            old(visited)@,
            old(parent)@,
            dist@,
            head as int,
        ),
        head < old(queue)@.len(),
        nx < n,
        ny < n,
        step_adjacent(cell_view(old(queue)@[head as int]), (nx as int, ny as int)),
    ensures
        bfs_inv(
            grid@,
            n as nat,
            final(queue)@,
            final(visited)@,
            final(parent)@,
            dist2@,
            head as int,
        ),
        old(queue)@.len() <= final(queue)@.len(),
        forall|i: int| 0 <= i < old(queue)@.len() ==> final(queue)@[i] == old(queue)@[i],
        forall|r: int, c: int| #[trigger]
            dist@.dom().contains((r, c)) ==> dist2@.dom().contains((r, c)) && dist2@[(r, c)]
                == dist@[(r, c)],
        free_at(grid@, n as nat, nx as int, ny as int) ==> dist2@.dom().contains(
            (nx as int, ny as int),
        ),
{
    let total = grid.len();
    proof {
        lemma_cell_index_bounds(n as nat, nx as int, ny as int);
        assert(nx as int * n + ny < total);
    }
    let idx = nx * n + ny;
    if grid[idx] == 1 && !visited[idx] {
        let u = queue[head];
        let ghost g = grid@;
        let ghost nn = n as nat;
        let ghost q0 = old(queue)@;
        let ghost v0 = old(visited)@;
        let ghost p0 = old(parent)@;
        let ghost d0 = dist@;
        let ghost w = (nx as int, ny as int);
        let ghost du = d0[cell_view(q0[head as int])];
        let ghost d2 = d0.insert(w, du + 1);
        proof {
            assert(d0.dom().contains(cell_view(q0[head as int])));
            assert(cell_view(q0[head as int]) == (u.0 as int, u.1 as int));
            // the neighbour is not yet discovered: a discovered cell is marked
            assert(!d0.dom().contains(w)) by {
                reveal(recorded_ok);
                if d0.dom().contains((nx as int, ny as int)) {
                    assert(recorded_ok(nn, q0, v0, nx as int, ny as int));
                    assert(v0[nx as int * nn + ny as int]);
                }
            }
            assert(w != (0int, 0int));
            assert(0 <= du);
        }
        visited[idx] = true;
        parent[idx] = Some(u);
        queue.push((nx, ny));
        proof {
            let q1 = queue@;
            let v1 = visited@;
            let p1 = parent@;
            let len0 = q0.len() as int;
            assert(q1 == q0.push((nx, ny)));
            assert(v1 == v0.update(idx as int, true));
            assert(p1 == p0.update(idx as int, Some(u)));
            assert(cell_view(q1[len0]) == w);
            lemma_count_true_set_true(v0, idx as int);
            lemma_count_true_bounds(v1);
            lemma_flat_index_coords(nn, nx as int, ny as int);

            // parents_ok and the per-cell record for the new map
            assert forall|r: int, c: int| #[trigger] d2.dom().contains((r, c)) implies {
                &&& free_at(g, nn, r, c)
                &&& 0 <= d2[(r, c)]
                &&& (d2[(r, c)] == 0 <==> (r, c) == (0int, 0int))
                &&& parent_link_ok(nn, p1, d2, r, c)
                &&& recorded_ok(nn, q1, v1, r, c)
            } by {
                reveal(parent_link_ok);
                reveal(recorded_ok);
                lemma_cell_index_bounds(nn, r, c);
                if r == nx as int && c == ny as int {
                    assert(free_at(g, nn, r, c));
                    assert(parent_link_ok(nn, p1, d2, r, c)) by {
                        assert(p1[r * nn + c] == Some(u));
                        assert(d2.dom().contains(cell_view(u)));
                        assert(d2[cell_view(u)] == du);
                    }
                    assert(recorded_ok(nn, q1, v1, r, c)) by {
                        assert(v1[r * nn + c]);
                        assert(cell_view(q1[len0]) == (r, c));
                    }
                } else {
                    assert(d0.dom().contains((r, c)));
                    assert((r, c) != w);
                    assert(r * nn + c != idx as int) by {
                        if r * nn + c == idx as int {
                            lemma_cell_index_injective(nn, r, c, nx as int, ny as int);
                        }
                    }
                    assert(p1[r * nn + c] == p0[r * nn + c]);
                    assert(parent_link_ok(nn, p1, d2, r, c)) by {
                        assert(parent_link_ok(nn, p0, d0, r, c));
                        if (r, c) != (0int, 0int) {
                            let pp = p0[r * nn + c]->Some_0;
                            assert(d0.dom().contains(cell_view(pp)));
                            assert(cell_view(pp) != w);
                        }
                    }
                    assert(recorded_ok(nn, q1, v1, r, c)) by {
                        assert(recorded_ok(nn, q0, v0, r, c));
                        assert(v0[r * nn + c]);
                        let i = choose|i: int|
                            0 <= i < q0.len() && cell_view(#[trigger] q0[i]) == (r, c);
                        assert(cell_view(q1[i]) == (r, c));
                    }
                }
            }

            // marked cells are discovered
            assert forall|k: int| 0 <= k < nn * nn && #[trigger] v1[k] implies d2.dom().contains(
                (k / (nn as int), k % (nn as int)),
            ) by {
                if k == idx as int {
                    assert((k / (nn as int), k % (nn as int)) == w);
                } else {
                    assert(v0[k]);
                    assert(d0.dom().contains((k / (nn as int), k % (nn as int))));
                }
            }

            // the discovery order holds discovered cells, each once
            assert forall|i: int| 0 <= i < q1.len() implies d2.dom().contains(
                cell_view(#[trigger] q1[i]),
            ) by {
                if i < len0 {
                    assert(q1[i] == q0[i]);
                    assert(d0.dom().contains(cell_view(q0[i])));
                }
            }
            assert forall|i: int, j: int| 0 <= i < j < q1.len() implies cell_view(
                #[trigger] q1[i],
            ) != cell_view(#[trigger] q1[j]) by {
                if j < len0 {
                    assert(q1[i] == q0[i] && q1[j] == q0[j]);
                } else {
                    assert(q1[i] == q0[i]);
                    assert(d0.dom().contains(cell_view(q0[i])));
                }
            }

            // depth order along the discovery order
            assert forall|i: int, j: int| 0 <= i <= j < q1.len() implies d2[cell_view(
                #[trigger] q1[i],
            )] <= d2[cell_view(#[trigger] q1[j])] by {
                if j < len0 {
                    assert(q1[i] == q0[i] && q1[j] == q0[j]);
                    assert(d0.dom().contains(cell_view(q0[i])));
                    assert(d0.dom().contains(cell_view(q0[j])));
                    assert(d0[cell_view(q0[i])] <= d0[cell_view(q0[j])]);
                } else if i < j {
                    assert(q1[i] == q0[i]);
                    assert(d0.dom().contains(cell_view(q0[i])));
                    assert(d2[cell_view(q1[i])] == d0[cell_view(q0[i])]);
                    if i < head as int {
                        assert(d0[cell_view(q0[i])] <= d0[cell_view(q0[head as int])]);
                    } else {
                        assert(d0[cell_view(q0[i])] <= d0[cell_view(q0[head as int])] + 1);
                    }
                }
            }

            // the pending window spans at most two consecutive depths
            assert(q1[head as int] == q0[head as int]);
            assert forall|i: int| head <= i < q1.len() implies d2[cell_view(#[trigger] q1[i])]
                <= d2[cell_view(q1[head as int])] + 1 by {
                assert(d2[cell_view(q1[head as int])] == du);
                if i < len0 {
                    assert(q1[i] == q0[i]);
                    assert(d0.dom().contains(cell_view(q0[i])));
                    assert(d0[cell_view(q0[i])] <= d0[cell_view(q0[head as int])] + 1);
                }
            }

            // free neighbours of expanded cells stay discovered
            assert forall|j: int, r: int, c: int|
                0 <= j < head && step_adjacent(cell_view(#[trigger] q1[j]), (r, c))
                    && #[trigger] free_at(g, nn, r, c) implies d2.dom().contains((r, c)) by {
                assert(q1[j] == q0[j]);
                assert(d0.dom().contains((r, c)));
            }

            // recorded depths still bound every walk from below
            assert forall|r: int, c: int, pw: Seq<(int, int)>|
                d2.dom().contains((r, c)) && #[trigger] is_path_to(g, nn, pw, r, c) implies pw.len()
                >= d2[(r, c)] + 1 by {
                if r == nx as int && c == ny as int {
                    assert(pw.last() == (r, c));
                    lemma_undiscovered_cell_far(g, nn, q0, v0, p0, d0, head as int, pw);
                } else {
                    assert(d0.dom().contains((r, c)));
                }
            }

            // the destination has not been expanded
            assert forall|j: int| 0 <= j < head implies cell_view(#[trigger] q1[j]) != (
            nn - 1,
            nn - 1,
            ) by {
                assert(q1[j] == q0[j]);
            }

            assert(cell_view(q1[0]) == (0int, 0int)) by {
                assert(q1[0] == q0[0]);
            }
        }
        Ghost(d2)
    } else {
        proof {
            if free_at(grid@, n as nat, nx as int, ny as int) {
                assert(grid@[nx as int * n + ny as int] == 1);
                assert(visited@[nx as int * n + ny as int]);
                lemma_flat_index_coords(n as nat, nx as int, ny as int);
                assert(dist@.dom().contains(
                    ((nx as int * n + ny as int) / (n as int), (nx as int * n + ny as int) % (
                    n as int)),
                ));
            }
        }
        dist
    }
}

/// Walk the parent entries back from `(ex, ey)` to the start cell and return
/// the cells in start-to-end order.
fn build_path(
    parent: &Vec<Option<(usize, usize)>>,
    n: usize,
    ex: usize,
    ey: usize,
    Ghost(grid): Ghost<Seq<u8>>,
    Ghost(d): Ghost<Map<(int, int), int>>,
) -> (path: Vec<(usize, usize)>)
    requires
        parents_ok(grid, n as nat, parent@, d),
        d.dom().contains((ex as int, ey as int)),
    ensures
        path@.len() == d[(ex as int, ey as int)] + 1,
        is_path_to(grid, n as nat, path_view(path@), ex as int, ey as int),
{
    let ghost nn = n as nat;
    let ghost de = d[(ex as int, ey as int)];
    let total = parent.len();
    let mut rev: Vec<(usize, usize)> = Vec::new();
    let mut cx = ex;
    let mut cy = ey;
    rev.push((ex, ey));
    while cx != 0 || cy != 0
        invariant
            parents_ok(grid, nn, parent@, d),
            total == parent@.len(),
            nn == n as nat,
            d.dom().contains((cx as int, cy as int)),
            d.dom().contains((ex as int, ey as int)),
            de == d[(ex as int, ey as int)],
            rev@.len() >= 1,
            rev@[0] == (ex, ey),
            rev@[rev@.len() - 1] == (cx, cy),
            forall|k: int|
                0 <= k < rev@.len() ==> d.dom().contains(cell_view(#[trigger] rev@[k])) && d[
                    cell_view(rev@[k])
                ] == de - k,
            forall|k: int|
                1 <= k < rev@.len() ==> step_adjacent(
                    cell_view(#[trigger] rev@[k]),
                    cell_view(rev@[k - 1]),
                ),
        decreases d[(cx as int, cy as int)],
    {
        proof {
            assert((cx as int, cy as int) != (0int, 0int));
            assert(free_at(grid, nn, cx as int, cy as int));
            lemma_cell_index_bounds(nn, cx as int, cy as int);
        }
        let idx = cx * n + cy;
        let link = parent[idx];
        match link {
            Option::Some(p) => {
                proof {
                    reveal(parent_link_ok);
                    assert(parent_link_ok(nn, parent@, d, cx as int, cy as int));
                    assert(cell_view(p) == (p.0 as int, p.1 as int));
                    assert(d.dom().contains((p.0 as int, p.1 as int)));
                }
                cx = p.0;
                cy = p.1;
                rev.push(p);
            },
            Option::None => {
                proof {
                    reveal(parent_link_ok);
                    assert(parent_link_ok(nn, parent@, d, cx as int, cy as int));
                    assert(false);
                }
            },
        }
    }
    proof {
        assert(d.dom().contains((0int, 0int)));
        assert(d[(0int, 0int)] == 0);
        assert(d[cell_view(rev@[rev@.len() - 1])] == de - (rev@.len() - 1));
        assert(rev@.len() == de + 1);
    }
    let ghost revlen = rev@.len() as int;
    let mut path: Vec<(usize, usize)> = Vec::new();
    let mut i = rev.len();
    while i > 0
        invariant
            i <= rev@.len(),
            revlen == rev@.len(),
            path@.len() == revlen - i,
            forall|k: int| 0 <= k < path@.len() ==> #[trigger] path@[k] == rev@[revlen - 1 - k],
        decreases i,
    {
        i = i - 1;
        let cell = rev[i];
        path.push(cell);
    }
    proof {
        let pv = path_view(path@);
        assert(pv.len() == de + 1);
        assert(path@[0] == rev@[revlen - 1]);
        assert(rev@[revlen - 1] == (cx, cy));
        assert(pv[0] == (0int, 0int));
        assert forall|k: int| 0 <= k < pv.len() implies free_at(grid, nn, #[trigger] pv[k].0, pv[k].1) by {
            assert(path@[k] == rev@[revlen - 1 - k]);
            let cell = cell_view(rev@[revlen - 1 - k]);
            assert(d.dom().contains(cell_view(rev@[revlen - 1 - k])));
            assert(d.dom().contains((cell.0, cell.1)));
            assert(free_at(grid, nn, cell.0, cell.1));
            assert(pv[k] == cell);
        }
        assert forall|k: int| 1 <= k < pv.len() implies step_adjacent(pv[k - 1], #[trigger] pv[k]) by {
            assert(path@[k] == rev@[revlen - 1 - k]);
            assert(path@[k - 1] == rev@[revlen - k]);
            assert(step_adjacent(cell_view(rev@[revlen - k]), cell_view(rev@[revlen - k - 1])));
        }
        assert(path@[pv.len() - 1] == rev@[0]);
        assert(pv[pv.len() - 1] == (ex as int, ey as int));
        assert(pv.last() == (ex as int, ey as int));
        assert(is_path_to(grid, nn, pv, ex as int, ey as int));
    }
    path
}

/// Breadth-first search from `(0, 0)` to `(n-1, n-1)` over a flattened,
/// row-major grid whose free cells hold `1` (any other value blocks).
///
/// Returns the cells of a shortest free walk between the two corners in
/// start-to-end order, or an empty vector exactly when no such walk exists.
#[verifier::rlimit(100)]
pub fn bfs(grid: Vec<u8>, n: usize) -> (path: Vec<(usize, usize)>)
    requires
        n >= 1,
        grid@.len() == n * n,
    ensures
        path@.len() != 0 <==> reaches_dest(grid@, n as nat),
        path@.len() != 0 ==> is_shortest_dest_path(grid@, n as nat, path_view(path@)),
{
    let ghost g = grid@;
    let ghost nn = n as nat;
    let total = grid.len();
    proof {
        assert(n * n >= 1) by (nonlinear_arith)
            requires n >= 1;
        assert((n - 1) * (n as int) + (n - 1) == n * n - 1) by (nonlinear_arith);
    }
    if grid[0] != 1 || grid[total - 1] != 1 {
        proof {
            lemma_blocked_endpoint_unreachable(g, nn);
        }
        return Vec::new();
    }
    let mut queue: Vec<(usize, usize)> = Vec::new();
    let mut visited: Vec<bool> = repeat_value(false, total);
    let mut parent: Vec<Option<(usize, usize)>> = repeat_value(None, total);
    let ghost v0 = visited@;
    queue.push((0, 0));
    visited[0] = true;
    let ghost d0: Map<(int, int), int> = Map::empty().insert((0int, 0int), 0);
    let mut dist: Ghost<Map<(int, int), int>> = Ghost(d0);
    let mut head: usize = 0;
    proof {
        lemma_count_true_all_false(v0);
        lemma_count_true_set_true(v0, 0);
        lemma_flat_index_coords(nn, 0, 0);
        assert(free_at(g, nn, 0, 0));
        assert forall|r: int, c: int| #[trigger] d0.dom().contains((r, c)) implies {
            &&& free_at(g, nn, r, c)
            &&& 0 <= d0[(r, c)]
            &&& (d0[(r, c)] == 0 <==> (r, c) == (0int, 0int))
            &&& parent_link_ok(nn, parent@, d0, r, c)
            &&& recorded_ok(nn, queue@, visited@, r, c)
        } by {
            reveal(parent_link_ok);
            reveal(recorded_ok);
            assert((r, c) == (0int, 0int));
            assert(parent@[0int] is None);
            assert(visited@[0int]);
            assert(cell_view(queue@[0]) == (0int, 0int));
        }
        assert forall|idx: int| 0 <= idx < nn * nn && #[trigger] visited@[idx] implies d0
            .dom().contains((idx / (nn as int), idx % (nn as int))) by {
            assert(idx == 0);
        }
        assert forall|r: int, c: int, w: Seq<(int, int)>|
            d0.dom().contains((r, c)) && #[trigger] is_path_to(g, nn, w, r, c) implies w.len()
            >= d0[(r, c)] + 1 by {
            assert((r, c) == (0int, 0int));
        }
        assert(bfs_inv(g, nn, queue@, visited@, parent@, dist@, head as int));
    }
    while head < queue.len()
        invariant
            n >= 1,
            g == grid@,
            nn == n as nat,
            bfs_inv(g, nn, queue@, visited@, parent@, dist@, head as int),
        decreases n * n - head,
    {
        let cur = queue[head];
        let x = cur.0;
        let y = cur.1;
        proof {
            assert(dist@.dom().contains(cell_view(queue@[head as int])));
            assert(dist@.dom().contains((x as int, y as int)));
            assert(free_at(g, nn, x as int, y as int));
        }
        if x == n - 1 && y == n - 1 {
            let path = build_path(&parent, n, x, y, Ghost(g), Ghost(dist@));
            proof {
                let pv = path_view(path@);
                assert(pv.len() == dist@[(x as int, y as int)] + 1);
                assert(pv.len() != 0);
                assert(is_path_to(g, nn, pv, nn - 1, nn - 1));
                assert(reaches_dest(g, nn));
                assert forall|q2: Seq<(int, int)>| #[trigger] is_path_to(g, nn, q2, nn - 1, nn - 1)
                    implies q2.len() >= pv.len() by {
                    assert(dist@.dom().contains((x as int, y as int)));
                    assert(q2.len() >= dist@[(x as int, y as int)] + 1);
                }
                assert(is_shortest_dest_path(g, nn, pv));
            }
            return path;
        }
        if x + 1 < n {
            dist = try_visit(&grid, n, head, x + 1, y, &mut queue, &mut visited, &mut parent, dist);
        }
        let ghost dist_1 = dist@;
        proof {
            assert(queue@[head as int] == cur);
        }
        if y + 1 < n {
            dist = try_visit(&grid, n, head, x, y + 1, &mut queue, &mut visited, &mut parent, dist);
        }
        let ghost dist_2 = dist@;
        proof {
            assert(queue@[head as int] == cur);
        }
        if x > 0 {
            dist = try_visit(&grid, n, head, x - 1, y, &mut queue, &mut visited, &mut parent, dist);
        }
        let ghost dist_3 = dist@;
        proof {
            assert(queue@[head as int] == cur);
        }
        if y > 0 {
            dist = try_visit(&grid, n, head, x, y - 1, &mut queue, &mut visited, &mut parent, dist);
        }
        proof {
            let q4 = queue@;
            let d4 = dist@;
            assert(q4[head as int] == cur);
            let u = cell_view(q4[head as int]);
            // every free neighbour of the cell just expanded is now discovered
            assert forall|j: int, r: int, c: int|
                0 <= j < head + 1 && step_adjacent(cell_view(#[trigger] q4[j]), (r, c))
                    && #[trigger] free_at(g, nn, r, c) implies d4.dom().contains((r, c)) by {
                if j < head {
                    assert(d4.dom().contains((r, c)));
                } else {
                    assert(cell_view(q4[j]) == (x as int, y as int));
                    if r == x + 1 && c == y {
                        assert(x + 1 < n);
                        assert(dist_1.dom().contains((r, c)));
                        assert(dist_2.dom().contains((r, c)));
                        assert(dist_3.dom().contains((r, c)));
                        assert(d4.dom().contains((r, c)));
                    } else if r == x && c == y + 1 {
                        assert(y + 1 < n);
                        assert(dist_2.dom().contains((r, c)));
                        assert(dist_3.dom().contains((r, c)));
                        assert(d4.dom().contains((r, c)));
                    } else if x > 0 && r == x - 1 && c == y {
                        assert(dist_3.dom().contains((r, c)));
                        assert(d4.dom().contains((r, c)));
                    } else if y > 0 && r == x && c == y - 1 {
                        assert(d4.dom().contains((r, c)));
                    } else {
                        assert(false);
                    }
                }
            }
            // the pending window keeps its two-level span behind the new head
            assert forall|i: int| head + 1 <= i < q4.len() implies d4[cell_view(#[trigger] q4[i])]
                <= d4[cell_view(q4[head + 1])] + 1 by {
                assert(d4[cell_view(q4[i])] <= d4[u] + 1);
                assert(d4[u] <= d4[cell_view(q4[head + 1])]);
            }
            // the destination is still unexpanded
            assert forall|j: int| 0 <= j < head + 1 implies cell_view(#[trigger] q4[j]) != (
            nn - 1,
            nn - 1,
            ) by {
                if j == head {
                    assert(cell_view(q4[j]) == (x as int, y as int));
                }
            }
        }
        head = head + 1;
    }
    proof {
        if reaches_dest(g, nn) {
            let p = choose|p: Seq<(int, int)>| #[trigger] is_path_to(g, nn, p, nn - 1, nn - 1);
            lemma_exhausted_path_discovered(g, nn, queue@, visited@, parent@, dist@, p);
            assert(p.last() == (nn - 1, nn - 1));
            assert(dist@.dom().contains((nn - 1, nn - 1)));
            reveal(recorded_ok);
            assert(recorded_ok(nn, queue@, visited@, nn - 1, nn - 1));
            let j = choose|i: int|
                0 <= i < queue@.len() && cell_view(#[trigger] queue@[i]) == (nn - 1, nn - 1);
            assert(cell_view(queue@[j]) != (nn - 1, nn - 1));
            assert(false);
        }
    }
    Vec::new()
}

} // verus!
