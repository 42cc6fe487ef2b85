//! Shortest-path search over the passage cells of a grid: a uniform-cost
//! (unit edge weight) search that expands cells level by level, records each
//! cell's distance from the start and its predecessor, and reconstructs the
//! path by walking the predecessors backward.
use vstd::prelude::*;

use crate::grid::adjacent;
use crate::grid::grid_square;
use crate::grid::in_grid;
use crate::grid::is_passage;
use crate::grid::is_path;
use crate::grid::is_shortest_path;
use crate::grid::reachable;
use crate::matrix::count_eq;
use crate::matrix::lemma_count_eq_all;
use crate::matrix::lemma_count_eq_cell_update;
use crate::matrix::mat_fill_pair;
use crate::matrix::mat_fill_usize;
use crate::matrix::mat_get_bool;
use crate::matrix::mat_get_pair;
use crate::matrix::mat_get_usize;
use crate::matrix::mat_set_pair;
use crate::matrix::mat_set_usize;

verus! {

/// Sentinel distance of a cell the search has not reached.
pub const UNVISITED: usize = usize::MAX;

/// The table has one entry per grid cell.
pub open spec fn dims_match<T>(g: Seq<Seq<bool>>, d: Seq<Seq<T>>) -> bool {
    d.len() == g.len() && forall|i: int| 0 <= i < d.len() ==> (#[trigger] d[i]).len() == g.len()
}

/// The distance recorded for a cell.
pub open spec fn dist_at(d: Seq<Seq<usize>>, c: (usize, usize)) -> usize {
    d[c.0 as int][c.1 as int]
}

/// The search has reached the cell and recorded a distance for it.
pub open spec fn discovered(d: Seq<Seq<usize>>, c: (usize, usize)) -> bool {
    dist_at(d, c) != UNVISITED
}

/// The predecessor recorded for a cell.
pub open spec fn pred_at(p: Seq<Seq<(usize, usize)>>, c: (usize, usize)) -> (usize, usize) {
    p[c.0 as int][c.1 as int]
}

/// What the search tables always satisfy: dimensions match the grid, the
/// start is discovered at distance zero, every discovered cell is a passage,
/// each discovered cell's distance stays below the number of discovered
/// cells, and every discovered cell other than the start has a discovered,
/// adjacent predecessor one step closer to the start.
pub open spec fn search_inv(
    g: Seq<Seq<bool>>,
    d: Seq<Seq<usize>>,
    p: Seq<Seq<(usize, usize)>>,
    s: (usize, usize),
) -> bool {
    &&& grid_square(g)
    &&& dims_match(g, d)
    &&& dims_match(g, p)
    &&& in_grid(g, s)
    &&& is_passage(g, s)
    &&& discovered(d, s)
    &&& dist_at(d, s) == 0
    &&& forall|c: (usize, usize)| in_grid(g, c) && #[trigger] discovered(d, c) ==> is_passage(g, c)
    &&& forall|c: (usize, usize)|
        in_grid(g, c) && #[trigger] discovered(d, c) ==> dist_at(d, c) + count_eq(d, UNVISITED)
            < g.len() * g.len()
    &&& forall|c: (usize, usize)|
        in_grid(g, c) && #[trigger] discovered(d, c) && c != s ==> {
            let pc = pred_at(p, c);
            &&& in_grid(g, pc)
            &&& discovered(d, pc)
            &&& adjacent(pc, c)
            &&& dist_at(d, pc) + 1 == dist_at(d, c)
        }
}

/// Every discovered cell outside the two pending queues has had all its
/// passage neighbours discovered, at a distance at most one greater.
pub open spec fn closed_except(
    g: Seq<Seq<bool>>,
    d: Seq<Seq<usize>>,
    q1: Seq<(usize, usize)>,
    q2: Seq<(usize, usize)>,
) -> bool {
    forall|u: (usize, usize), v: (usize, usize)|
        in_grid(g, u) && #[trigger] discovered(d, u) && !q1.contains(u) && !q2.contains(u)
            && is_passage(g, v) && #[trigger] adjacent(u, v) ==> discovered(d, v) && dist_at(d, v)
            <= dist_at(d, u) + 1
}

/// Every cell of the queue is a discovered cell at exactly distance `lev`.
pub open spec fn frontier_ok(
    g: Seq<Seq<bool>>,
    d: Seq<Seq<usize>>,
    fr: Seq<(usize, usize)>,
    lev: int,
) -> bool {
    forall|j: int|
        0 <= j < fr.len() ==> {
            let c = #[trigger] fr[j];
            &&& in_grid(g, c)
            &&& discovered(d, c)
            &&& dist_at(d, c) == lev
        }
}

/// No discovered cell lies deeper than `lev`.
pub open spec fn level_bound(g: Seq<Seq<bool>>, d: Seq<Seq<usize>>, lev: int) -> bool {
    forall|c: (usize, usize)|
        in_grid(g, c) && #[trigger] discovered(d, c) ==> dist_at(d, c) <= lev
}

/// In tables that are closed (no queue pending), the recorded distance of
/// any cell a walk reaches is bounded by the number of that walk's steps: a
/// closed search has found a distance no worse than any walk achieves.
pub proof fn lemma_path_dist_bound(
    g: Seq<Seq<bool>>,
    d: Seq<Seq<usize>>,
    p: Seq<(usize, usize)>,
    s: (usize, usize),
    e: (usize, usize),
)
    requires
        grid_square(g),
        dims_match(g, d),
        in_grid(g, s),
        discovered(d, s),
        dist_at(d, s) == 0,
        closed_except(g, d, Seq::<(usize, usize)>::empty(), Seq::<(usize, usize)>::empty()),
        is_path(g, p, s, e),
    ensures
        discovered(d, e),
        dist_at(d, e) <= p.len() - 1,
    decreases p.len(),
{
    if p.len() == 1 {
        assert(e == s);
    } else {
        let q = p.drop_last();
        let w = p[p.len() - 2];
        assert(q[0] == s);
        assert(q[q.len() - 1] == w);
        assert(forall|i: int| 0 <= i < q.len() ==> q[i] == p[i]);
        assert(is_path(g, q, s, w));
        lemma_path_dist_bound(g, d, q, s, w);
        assert(adjacent(w, e));
        assert(is_passage(g, e));
        assert(!Seq::<(usize, usize)>::empty().contains(w));
        assert(discovered(d, e) && dist_at(d, e) <= dist_at(d, w) + 1);
    }
}

/// One relaxation step of the search: if `v` is an undiscovered passage
/// cell, record its distance `nd` and predecessor `u` and queue it; in every
/// other case leave all three tables untouched.
fn relax(
    g: &Vec<Vec<bool>>,
    dist: &mut Vec<Vec<usize>>,
    pred: &mut Vec<Vec<(usize, usize)>>,
    next: &mut Vec<(usize, usize)>,
    u: (usize, usize),
    v: (usize, usize),
    nd: usize,
)
    requires
        grid_square(g.deep_view()),
        dims_match(g.deep_view(), old(dist).deep_view()),
        dims_match(g.deep_view(), old(pred).deep_view()),
        in_grid(g.deep_view(), u),
        in_grid(g.deep_view(), v),
        nd < UNVISITED,
    ensures
        ({
            let gv = g.deep_view();
            let d0 = old(dist).deep_view();
            let p0 = old(pred).deep_view();
            if is_passage(gv, v) && !discovered(d0, v) {
                &&& final(dist).deep_view() == d0.update(
                    v.0 as int,
                    d0[v.0 as int].update(v.1 as int, nd),
                )
                &&& final(pred).deep_view() == p0.update(
                    v.0 as int,
                    p0[v.0 as int].update(v.1 as int, u),
                )
                &&& final(next)@ == old(next)@.push(v)
            } else {
                &&& final(dist).deep_view() == d0
                &&& final(pred).deep_view() == p0
                &&& final(next)@ == old(next)@
            }
        }),
{
    if !mat_get_bool(g, v.0, v.1) {
        let dv = mat_get_usize(dist, v.0, v.1);
        if dv == UNVISITED {
            mat_set_usize(dist, v.0, v.1, nd);
            mat_set_pair(pred, v.0, v.1, u);
            next.push(v);
        }
    }
}

/// The search is done with `v` as seen from the current level: if it is a
/// passage it has been discovered, no deeper than one level down.
pub open spec fn nbr_done(g: Seq<Seq<bool>>, d: Seq<Seq<usize>>, v: (usize, usize), lev: usize) -> bool {
    is_passage(g, v) ==> discovered(d, v) && dist_at(d, v) <= lev + 1
}

/// A cell of the queue's tail from position `i` on is either the cell at
/// `i` itself or lies in the tail from `i + 1`.
proof fn lemma_skip_contains(fr: Seq<(usize, usize)>, i: int, x: (usize, usize))
    requires
        0 <= i < fr.len(),
        fr.skip(i).contains(x),
    ensures
        x == fr[i] || fr.skip(i + 1).contains(x),
{
    let j = choose|j: int| 0 <= j < fr.skip(i).len() && fr.skip(i)[j] == x;
    if j != 0 {
        assert(fr.skip(i + 1)[j - 1] == x);
    }
}

/// Recording distance `nd` and predecessor `u` for a fresh passage cell `v`
/// preserves the search invariant and lowers the undiscovered count by one.
#[verifier::rlimit(100)]
#[verifier::spinoff_prover]
proof fn lemma_discover(
    g: Seq<Seq<bool>>,
    d0: Seq<Seq<usize>>,
    p0: Seq<Seq<(usize, usize)>>,
    s: (usize, usize),
    u: (usize, usize),
    v: (usize, usize),
    nd: usize,
    d1: Seq<Seq<usize>>,
    p1: Seq<Seq<(usize, usize)>>,
)
    requires
        search_inv(g, d0, p0, s),
        in_grid(g, v),
        is_passage(g, v),
        !discovered(d0, v),
        in_grid(g, u),
        discovered(d0, u),
        adjacent(u, v),
        nd == dist_at(d0, u) + 1,
        nd < UNVISITED,
        d1 == d0.update(v.0 as int, d0[v.0 as int].update(v.1 as int, nd)),
        p1 == p0.update(v.0 as int, p0[v.0 as int].update(v.1 as int, u)),
    ensures
        search_inv(g, d1, p1, s),
        count_eq(d1, UNVISITED) + 1 == count_eq(d0, UNVISITED),
        dist_at(d1, v) == nd,
        discovered(d1, v),
        forall|c: (usize, usize)|
            in_grid(g, c) && c != v ==> #[trigger] dist_at(d1, c) == dist_at(d0, c),
{
    assert(u != v);
    assert forall|i2: int| 0 <= i2 < d1.len() implies (#[trigger] d1[i2]).len() == g.len() by {
        if i2 != v.0 as int {
            assert(d1[i2] == d0[i2]);
        } else {
            assert(d1[i2] == d0[v.0 as int].update(v.1 as int, nd));
        }
    }
    assert forall|i2: int| 0 <= i2 < p1.len() implies (#[trigger] p1[i2]).len() == g.len() by {
        if i2 != v.0 as int {
            assert(p1[i2] == p0[i2]);
        } else {
            assert(p1[i2] == p0[v.0 as int].update(v.1 as int, u));
        }
    }
    assert(dims_match(g, d1));
    assert(dims_match(g, p1));
    assert forall|c: (usize, usize)| in_grid(g, c) && c != v implies #[trigger] dist_at(d1, c)
        == dist_at(d0, c) && pred_at(p1, c) == pred_at(p0, c) by {
        if c.0 == v.0 {
            assert(c.1 != v.1);
        }
    }
    assert(s != v);
    assert(dist_at(d1, s) == 0);
    assert(dist_at(d1, v) == nd);
    assert(pred_at(p1, v) == u);
    lemma_count_eq_cell_update(d0, v.0 as int, v.1 as int, nd, UNVISITED);
    assert(count_eq(d1, UNVISITED) + 1 == count_eq(d0, UNVISITED));
    // every discovered cell is still a passage
    assert forall|c: (usize, usize)| in_grid(g, c) && #[trigger] discovered(d1, c)
        implies is_passage(g, c) by {
        if c != v {
            assert(dist_at(d1, c) == dist_at(d0, c));
            assert(discovered(d0, c));
        }
    }
    // distances stay below the number of discovered cells
    assert forall|c: (usize, usize)| in_grid(g, c) && #[trigger] discovered(d1, c)
        implies dist_at(d1, c) + count_eq(d1, UNVISITED) < g.len() * g.len() by {
        if c == v {
            assert(dist_at(d0, u) + count_eq(d0, UNVISITED) < g.len() * g.len());
        } else {
            assert(discovered(d0, c));
        }
    }
    // predecessor links
    assert forall|c: (usize, usize)| in_grid(g, c) && #[trigger] discovered(d1, c) && c != s
        implies {
        let pc = pred_at(p1, c);
        &&& in_grid(g, pc)
        &&& discovered(d1, pc)
        &&& adjacent(pc, c)
        &&& dist_at(d1, pc) + 1 == dist_at(d1, c)
    } by {
        if c == v {
            assert(pred_at(p1, v) == u);
            assert(dist_at(d1, u) == dist_at(d0, u));
        } else {
            assert(discovered(d0, c));
            let pc = pred_at(p0, c);
            assert(discovered(d0, pc));
            assert(pc != v);
            assert(dist_at(d1, pc) == dist_at(d0, pc));
        }
    }
}

/// Discovering a fresh cell and queueing it keeps the settled cells closed:
/// no settled cell can border the fresh cell, which was undiscovered.
#[verifier::rlimit(100)]
#[verifier::spinoff_prover]
proof fn lemma_discover_closed(
    g: Seq<Seq<bool>>,
    d0: Seq<Seq<usize>>,
    d1: Seq<Seq<usize>>,
    q1: Seq<(usize, usize)>,
    q2: Seq<(usize, usize)>,
    v: (usize, usize),
)
    requires
        closed_except(g, d0, q1, q2),
        in_grid(g, v),
        !discovered(d0, v),
        discovered(d1, v),
        forall|c: (usize, usize)|
            in_grid(g, c) && c != v ==> #[trigger] dist_at(d1, c) == dist_at(d0, c),
    ensures
        closed_except(g, d1, q1, q2.push(v)),
{
    assert forall|u2: (usize, usize), w: (usize, usize)|
        in_grid(g, u2) && #[trigger] discovered(d1, u2) && !q1.contains(u2)
            && !q2.push(v).contains(u2) && is_passage(g, w) && #[trigger] adjacent(u2, w)
        implies discovered(d1, w) && dist_at(d1, w) <= dist_at(d1, u2) + 1 by {
        assert(q2.push(v)[q2.len() as int] == v);
        assert(u2 != v);
        if q2.contains(u2) {
            let j = choose|j: int| 0 <= j < q2.len() && q2[j] == u2;
            assert(q2.push(v)[j] == u2);
        }
        assert(dist_at(d1, u2) == dist_at(d0, u2));
        assert(discovered(d0, u2));
        assert(discovered(d0, w) && dist_at(d0, w) <= dist_at(d0, u2) + 1);
        assert(w != v);
        assert(dist_at(d1, w) == dist_at(d0, w));
    }
}

/// Relax one neighbour `v` of the frontier cell `u` and restore every
/// invariant of the expansion loop.
#[verifier::rlimit(100)]
#[verifier::spinoff_prover]
fn relax_dir(
    g: &Vec<Vec<bool>>,
    dist: &mut Vec<Vec<usize>>,
    pred: &mut Vec<Vec<(usize, usize)>>,
    next: &mut Vec<(usize, usize)>,
    s: (usize, usize),
    u: (usize, usize),
    v: (usize, usize),
    nd: usize,
    lev: Ghost<usize>,
    fr: Ghost<Seq<(usize, usize)>>,
    i: Ghost<int>,
    cbase: Ghost<nat>,
)
    requires
        search_inv(g.deep_view(), old(dist).deep_view(), old(pred).deep_view(), s),
        0 <= i@ < fr@.len(),
        fr@[i@] == u,
        frontier_ok(g.deep_view(), old(dist).deep_view(), fr@, lev@ as int),
        frontier_ok(g.deep_view(), old(dist).deep_view(), old(next)@, lev@ as int + 1),
        level_bound(g.deep_view(), old(dist).deep_view(), lev@ as int + 1),
        closed_except(g.deep_view(), old(dist).deep_view(), fr@.skip(i@), old(next)@),
        count_eq(old(dist).deep_view(), UNVISITED) + old(next)@.len() == cbase@,
        in_grid(g.deep_view(), v),
        adjacent(u, v),
        nd == lev@ + 1,
        nd < UNVISITED,
    ensures
        search_inv(g.deep_view(), final(dist).deep_view(), final(pred).deep_view(), s),
        frontier_ok(g.deep_view(), final(dist).deep_view(), fr@, lev@ as int),
        frontier_ok(g.deep_view(), final(dist).deep_view(), final(next)@, lev@ as int + 1),
        level_bound(g.deep_view(), final(dist).deep_view(), lev@ as int + 1),
        closed_except(g.deep_view(), final(dist).deep_view(), fr@.skip(i@), final(next)@),
        count_eq(final(dist).deep_view(), UNVISITED) + final(next)@.len() == cbase@,
        nbr_done(g.deep_view(), final(dist).deep_view(), v, lev@),
        forall|w: (usize, usize)| #[trigger]
            nbr_done(g.deep_view(), old(dist).deep_view(), w, lev@) ==> nbr_done(
                g.deep_view(),
                final(dist).deep_view(),
                w,
                lev@,
            ),
{
    let ghost gv = g.deep_view();
    let ghost d0 = dist.deep_view();
    let ghost p0 = pred.deep_view();
    let ghost nx0 = next@;
    relax(g, dist, pred, next, u, v, nd);
    proof {
        let d1 = dist.deep_view();
        let p1 = pred.deep_view();
        let nx1 = next@;
        assert(discovered(d0, u) && dist_at(d0, u) == lev@);
        if is_passage(gv, v) && !discovered(d0, v) {
            lemma_discover(gv, d0, p0, s, u, v, nd, d1, p1);
            lemma_discover_closed(gv, d0, d1, fr@.skip(i@), nx0, v);
            // the old frontier still sits at its level
            assert forall|j: int| 0 <= j < fr@.len() implies {
                let c = #[trigger] fr@[j];
                &&& in_grid(gv, c)
                &&& discovered(d1, c)
                &&& dist_at(d1, c) == lev@ as int
            } by {
                let c = fr@[j];
                assert(discovered(d0, c) && dist_at(d0, c) == lev@);
                assert(c != v);
            }
            // the grown queue sits one level down
            assert forall|j: int| 0 <= j < nx1.len() implies {
                let c = #[trigger] nx1[j];
                &&& in_grid(gv, c)
                &&& discovered(d1, c)
                &&& dist_at(d1, c) == lev@ as int + 1
            } by {
                if j < nx0.len() {
                    let c = nx0[j];
                    assert(discovered(d0, c) && dist_at(d0, c) == lev@ + 1);
                    assert(c != v);
                    assert(nx1[j] == c);
                } else {
                    assert(nx1[j] == v);
                }
            }
            // no discovered cell lies below the next level
            assert forall|c: (usize, usize)| in_grid(gv, c) && #[trigger] discovered(d1, c)
                implies dist_at(d1, c) <= lev@ as int + 1 by {
                if c != v {
                    assert(dist_at(d1, c) == dist_at(d0, c));
                    assert(discovered(d0, c));
                }
            }
            // earlier neighbour work survives a fresh discovery
            assert forall|w: (usize, usize)| #[trigger] nbr_done(gv, d0, w, lev@) implies
                nbr_done(gv, d1, w, lev@) by {
                if is_passage(gv, w) && w != v {
                    assert(dist_at(d1, w) == dist_at(d0, w));
                }
            }
        } else {
            assert(d1 == d0 && p1 == p0 && nx1 == nx0);
            if is_passage(gv, v) {
                assert(discovered(d0, v));
            }
        }
    }
}

/// Walk the predecessor table backward from `end` until the start cell and
/// reverse the walk: the result runs from `start` to `end`, each consecutive
/// pair of cells is 4-adjacent, every cell is a passage, and its length is
/// one more than the recorded distance of `end`.
#[verifier::rlimit(100)]
#[verifier::spinoff_prover]
pub fn reconstruct_path(
    g: &Vec<Vec<bool>>,
    dist: &Vec<Vec<usize>>,
    pred: &Vec<Vec<(usize, usize)>>,
    start: (usize, usize),
    end: (usize, usize),
) -> (path: Vec<(usize, usize)>)
    requires
        search_inv(g.deep_view(), dist.deep_view(), pred.deep_view(), start),
        in_grid(g.deep_view(), end),
        discovered(dist.deep_view(), end),
    ensures
        is_path(g.deep_view(), path@, start, end),
        path@.len() == dist_at(dist.deep_view(), end) + 1,
{
    let ghost gv = g.deep_view();
    let ghost dv = dist.deep_view();
    let mut rev: Vec<(usize, usize)> = Vec::new();
    let mut cur = end;
    rev.push(cur);
    proof {
        assert(is_passage(gv, cur));
    }
    while cur.0 != start.0 || cur.1 != start.1
        invariant
            in_grid(gv, cur),
            discovered(dv, cur),
            rev@.len() >= 1,
            rev@[0] == end,
            rev@[rev@.len() - 1] == cur,
            rev@.len() + dist_at(dv, cur) == dist_at(dv, end) + 1,
            forall|k: int| 0 <= k < rev@.len() ==> is_passage(gv, #[trigger] rev@[k]),
            forall|k: int| 0 <= k < rev@.len() - 1 ==> adjacent(#[trigger] rev@[k], rev@[k + 1]),
        decreases dist_at(dist.deep_view(), cur),
    {
        proof {
            assert(cur != start);
            assert(discovered(dv, cur));
        }
        let pc = mat_get_pair(pred, cur.0, cur.1);
        proof {
            assert(pc == pred_at(pred.deep_view(), cur));
            assert(in_grid(gv, pc) && discovered(dv, pc) && adjacent(pc, cur) && dist_at(dv, pc)
                + 1 == dist_at(dv, cur));
            assert(adjacent(cur, pc));
            assert(is_passage(gv, pc));
        }
        rev.push(pc);
        cur = pc;
    }
    proof {
        assert(cur == start);
        assert(rev@.len() == dist_at(dv, end) + 1);
    }
    let m = rev.len();
    let mut path: Vec<(usize, usize)> = Vec::new();
    let mut k: usize = 0;
    while k < m
        invariant
            k <= m,
            path@.len() == k,
            forall|j: int| 0 <= j < k ==> path@[j] == rev@[m - 1 - j],
        decreases m - k,
    {
        let x = rev[m - 1 - k];
        path.push(x);
        k = k + 1;
    }
    proof {
        assert(path@[0] == rev@[m - 1]);
        assert(path@[path@.len() - 1] == rev@[0]);
        assert forall|j: int| 0 <= j < path@.len() implies is_passage(gv, #[trigger] path@[j]) by {
            assert(path@[j] == rev@[m - 1 - j]);
        }
        assert forall|j: int| 0 <= j < path@.len() - 1 implies adjacent(
            #[trigger] path@[j],
            path@[j + 1],
        ) by {
            assert(path@[j] == rev@[m - 1 - j]);
            assert(path@[j + 1] == rev@[m - 1 - (j + 1)]);
            assert(adjacent(rev@[m - 2 - j], rev@[m - 1 - j]));
        }
    }
    path
}

/// Uniform-cost (unit weight) shortest-path search from `start` to `end`
/// over the passage cells of the grid. The result is empty exactly when no
/// walk through passage cells joins the two; otherwise it is a shortest such
/// walk, and solving the same grid again can only return a path of the same
/// length. The dimension bound keeps every recorded distance, which stays
/// below the cell count, within `usize`.
#[verifier::rlimit(100)]
#[verifier::spinoff_prover]
pub fn dijkstra(grid: &Vec<Vec<bool>>, start: (usize, usize), end: (usize, usize)) -> (path: Vec<
    (usize, usize),
>)
    requires
        grid_square(grid.deep_view()),
        grid.deep_view().len() <= 0xffff,
        in_grid(grid.deep_view(), start),
        in_grid(grid.deep_view(), end),
    ensures
        path@.len() != 0 ==> is_shortest_path(grid.deep_view(), path@, start, end),
        path@.len() == 0 <==> !reachable(grid.deep_view(), start, end),
        start == end && is_passage(grid.deep_view(), start) ==> path@.len() == 1 && path@[0]
            == start,
{
    let ghost gv = grid.deep_view();
    let n = grid.len();
    proof {
        assert(n == gv.len());
    }
    if mat_get_bool(grid, start.0, start.1) || mat_get_bool(grid, end.0, end.1) {
        proof {
            if reachable(gv, start, end) {
                let p = choose|p: Seq<(usize, usize)>| is_path(gv, p, start, end);
                assert(is_passage(gv, p[0]));
                assert(is_passage(gv, p[p.len() - 1]));
            }
        }
        return Vec::new();
    }
    let mut dist = mat_fill_usize(n, UNVISITED);
    let mut pred = mat_fill_pair(n, (0, 0));
    proof {
        lemma_count_eq_all(dist.deep_view(), UNVISITED, n as nat);
    }
    let ghost d_init = dist.deep_view();
    mat_set_usize(&mut dist, start.0, start.1, 0);
    proof {
        lemma_count_eq_cell_update(d_init, start.0 as int, start.1 as int, 0, UNVISITED);
    }
    let mut frontier: Vec<(usize, usize)> = Vec::new();
    frontier.push(start);
    let mut lev: usize = 0;
    proof {
        assert(n * n >= n) by (nonlinear_arith)
            requires
                n >= 1,
        ;
        assert forall|c: (usize, usize)| in_grid(gv, c) && #[trigger] discovered(
            dist.deep_view(),
            c,
        ) implies c == start by {
            if c != start {
                if c.0 == start.0 {
                    assert(c.1 != start.1);
                }
            }
        }
        assert(frontier@[0] == start);
    }
    while frontier.len() != 0
        invariant
            search_inv(gv, dist.deep_view(), pred.deep_view(), start),
            frontier_ok(gv, dist.deep_view(), frontier@, lev as int),
            level_bound(gv, dist.deep_view(), lev as int),
            closed_except(gv, dist.deep_view(), frontier@, Seq::<(usize, usize)>::empty()),
        decreases count_eq(dist.deep_view(), UNVISITED) + frontier@.len(),
    {
        let ghost d_enter = dist.deep_view();
        let ghost cbase = count_eq(d_enter, UNVISITED);
        proof {
            assert(discovered(dist.deep_view(), frontier@[0]));
            assert(dist_at(dist.deep_view(), frontier@[0]) == lev);
            assert(lev < gv.len() * gv.len());
            assert(gv.len() * gv.len() <= 0xffff * 0xffff) by (nonlinear_arith)
                requires
                    gv.len() <= 0xffff,
            ;
        }
        let nd = lev + 1;
        let mut next: Vec<(usize, usize)> = Vec::new();
        let mut i: usize = 0;
        proof {
            assert(frontier@.skip(0) =~= frontier@);
        }
        while i < frontier.len()
            invariant
                i <= frontier@.len(),
                search_inv(gv, dist.deep_view(), pred.deep_view(), start),
                frontier_ok(gv, dist.deep_view(), frontier@, lev as int),
                frontier_ok(gv, dist.deep_view(), next@, lev as int + 1),
                level_bound(gv, dist.deep_view(), lev as int + 1),
                closed_except(gv, dist.deep_view(), frontier@.skip(i as int), next@),
                count_eq(dist.deep_view(), UNVISITED) + next@.len() == cbase,
            decreases frontier@.len() - i,
        {
            let u = frontier[i];
            proof {
                assert(frontier@[i as int] == u);
                assert(in_grid(gv, u) && discovered(dist.deep_view(), u) && dist_at(
                    dist.deep_view(),
                    u,
                ) == lev);
            }
            // After each guarded relaxation the proof block re-states which
            // neighbours are done so far, so those facts survive the join
            // of the two branches and the later relaxations.
            if u.0 >= 1 {
                let v = (u.0 - 1, u.1);
                relax_dir(grid, &mut dist, &mut pred, &mut next, start, u, v, nd, Ghost(lev),
                    Ghost(frontier@), Ghost(i as int), Ghost(cbase));
            }
            proof {
                assert(u.0 >= 1 ==> nbr_done(gv, dist.deep_view(), ((u.0 - 1) as usize, u.1),
                    lev));
            }
            if u.0 + 1 < n {
                let v = (u.0 + 1, u.1);
                relax_dir(grid, &mut dist, &mut pred, &mut next, start, u, v, nd, Ghost(lev),
                    Ghost(frontier@), Ghost(i as int), Ghost(cbase));
            }
            proof {
                assert(u.0 >= 1 ==> nbr_done(gv, dist.deep_view(), ((u.0 - 1) as usize, u.1),
                    lev));
                assert(u.0 + 1 < n ==> nbr_done(gv, dist.deep_view(), ((u.0 + 1) as usize, u.1),
                    lev));
            }
            if u.1 >= 1 {
                let v = (u.0, u.1 - 1);
                relax_dir(grid, &mut dist, &mut pred, &mut next, start, u, v, nd, Ghost(lev),
                    Ghost(frontier@), Ghost(i as int), Ghost(cbase));
            }
            proof {
                assert(u.0 >= 1 ==> nbr_done(gv, dist.deep_view(), ((u.0 - 1) as usize, u.1),
                    lev));
                assert(u.0 + 1 < n ==> nbr_done(gv, dist.deep_view(), ((u.0 + 1) as usize, u.1),
                    lev));
                assert(u.1 >= 1 ==> nbr_done(gv, dist.deep_view(), (u.0, (u.1 - 1) as usize),
                    lev));
            }
            if u.1 + 1 < n {
                let v = (u.0, u.1 + 1);
                relax_dir(grid, &mut dist, &mut pred, &mut next, start, u, v, nd, Ghost(lev),
                    Ghost(frontier@), Ghost(i as int), Ghost(cbase));
            }
            proof {
                let dv = dist.deep_view();
                assert(u.0 >= 1 ==> nbr_done(gv, dv, ((u.0 - 1) as usize, u.1), lev));
                assert(u.0 + 1 < n ==> nbr_done(gv, dv, ((u.0 + 1) as usize, u.1), lev));
                assert(u.1 >= 1 ==> nbr_done(gv, dv, (u.0, (u.1 - 1) as usize), lev));
                assert(u.1 + 1 < n ==> nbr_done(gv, dv, (u.0, (u.1 + 1) as usize), lev));
                assert(dist_at(dv, u) == lev);
                assert forall|w: (usize, usize)| is_passage(gv, w) && #[trigger] adjacent(u, w)
                    implies discovered(dv, w) && dist_at(dv, w) <= lev + 1 by {
                    if w.0 == u.0 && w.1 == u.1 + 1 {
                        assert(w == (u.0, (u.1 + 1) as usize));
                    } else if w.0 == u.0 && w.1 + 1 == u.1 {
                        assert(w == (u.0, (u.1 - 1) as usize));
                    } else if w.1 == u.1 && w.0 == u.0 + 1 {
                        assert(w == ((u.0 + 1) as usize, u.1));
                    } else {
                        assert(w.1 == u.1 && w.0 + 1 == u.0);
                        assert(w == ((u.0 - 1) as usize, u.1));
                    }
                }
                assert forall|u2: (usize, usize), w: (usize, usize)|
                    in_grid(gv, u2) && #[trigger] discovered(dv, u2) && !frontier@.skip(
                        i as int + 1,
                    ).contains(u2) && !next@.contains(u2) && is_passage(gv, w)
                        && #[trigger] adjacent(u2, w) implies discovered(dv, w) && dist_at(dv, w)
                    <= dist_at(dv, u2) + 1 by {
                    if frontier@.skip(i as int).contains(u2) {
                        lemma_skip_contains(frontier@, i as int, u2);
                        assert(u2 == u);
                    }
                }
            }
            i = i + 1;
        }
        proof {
            assert(frontier@.skip(frontier@.len() as int) =~= Seq::<(usize, usize)>::empty());
            assert(frontier@.len() >= 1);
        }
        frontier = next;
        lev = nd;
    }
    proof {
        assert(frontier@ =~= Seq::<(usize, usize)>::empty());
    }
    let de = mat_get_usize(&dist, end.0, end.1);
    if de == UNVISITED {
        proof {
            if reachable(gv, start, end) {
                let p = choose|p: Seq<(usize, usize)>| is_path(gv, p, start, end);
                lemma_path_dist_bound(gv, dist.deep_view(), p, start, end);
            }
            if start == end {
                assert(seq![start].len() == 1);
                assert(seq![start][0] == start);
                assert(is_path(gv, seq![start], start, start));
            }
        }
        Vec::new()
    } else {
        let path = reconstruct_path(grid, &dist, &pred, start, end);
        proof {
            assert forall|q: Seq<(usize, usize)>| is_path(gv, q, start, end) implies path@.len()
                <= q.len() by {
                lemma_path_dist_bound(gv, dist.deep_view(), q, start, end);
            }
            assert(is_path(gv, path@, start, end));
        }
        path
    }
}

} // verus!
