//! Mathematical model of a maze grid: a square matrix of cells, `true` for a
//! wall and `false` for a passage, together with paths over its 4-connected
//! passage graph.
use vstd::prelude::*;

verus! {

/// The grid is square: every row is exactly as long as the number of rows.
pub open spec fn grid_square(g: Seq<Seq<bool>>) -> bool {
    forall|i: int| 0 <= i < g.len() ==> (#[trigger] g[i]).len() == g.len()
}

/// The cell lies inside the grid.
pub open spec fn in_grid(g: Seq<Seq<bool>>, c: (usize, usize)) -> bool {
    c.0 < g.len() && c.1 < g.len()
}

/// The cell lies inside the grid and is a passage (not a wall).
pub open spec fn is_passage(g: Seq<Seq<bool>>, c: (usize, usize)) -> bool {
    in_grid(g, c) && !g[c.0 as int][c.1 as int]
}

/// Two cells are 4-adjacent: they agree in one coordinate and differ by
/// exactly one in the other.
pub open spec fn adjacent(a: (usize, usize), b: (usize, usize)) -> bool {
    ||| (a.0 == b.0 && (a.1 == b.1 + 1 || a.1 + 1 == b.1))
    ||| (a.1 == b.1 && (a.0 == b.0 + 1 || a.0 + 1 == b.0))
}

/// `p` is a walk through the passage cells of `g` from `s` to `e`: it is
/// non-empty, starts at `s`, ends at `e`, every cell is a passage, and each
/// consecutive pair is 4-adjacent.
pub open spec fn is_path(
    g: Seq<Seq<bool>>,
    p: Seq<(usize, usize)>,
    s: (usize, usize),
    e: (usize, usize),
) -> bool {
    &&& p.len() >= 1
    &&& p[0] == s
    &&& p[p.len() - 1] == e
    &&& forall|i: int| 0 <= i < p.len() ==> is_passage(g, #[trigger] p[i])
    &&& forall|i: int| 0 <= i < p.len() - 1 ==> adjacent(#[trigger] p[i], p[i + 1])
}

/// Some walk through passage cells joins `s` to `e`.
pub open spec fn reachable(g: Seq<Seq<bool>>, s: (usize, usize), e: (usize, usize)) -> bool {
    exists|p: Seq<(usize, usize)>| is_path(g, p, s, e)
}

/// `p` joins `s` to `e` and no walk joining them is strictly shorter.
pub open spec fn is_shortest_path(
    g: Seq<Seq<bool>>,
    p: Seq<(usize, usize)>,
    s: (usize, usize),
    e: (usize, usize),
) -> bool {
    &&& is_path(g, p, s, e)
    &&& forall|q: Seq<(usize, usize)>| is_path(g, q, s, e) ==> p.len() <= (#[trigger] q.len())
}

/// If `s` and `e` differ and every cell 4-adjacent to `e` is a wall, no
/// walk through passage cells reaches `e`.
pub proof fn lemma_isolated_end_unreachable(
    g: Seq<Seq<bool>>,
    s: (usize, usize),
    e: (usize, usize),
)
    requires
        s != e,
        forall|v: (usize, usize)|
            in_grid(g, v) && #[trigger] adjacent(v, e) ==> g[v.0 as int][v.1 as int],
    ensures
        !reachable(g, s, e),
{
    if reachable(g, s, e) {
        let p = choose|p: Seq<(usize, usize)>| is_path(g, p, s, e);
        assert(p.len() >= 2);
        let w = p[p.len() - 2];
        assert(adjacent(w, e));
        assert(is_passage(g, w));
        assert(false);
    }
}

/// Any two shortest walks between the same pair of cells have the same
/// length, so the number of steps a shortest-path solver reports is a
/// function of the grid and the endpoints alone.
pub proof fn lemma_shortest_path_length_unique(
    g: Seq<Seq<bool>>,
    p1: Seq<(usize, usize)>,
    p2: Seq<(usize, usize)>,
    s: (usize, usize),
    e: (usize, usize),
)
    requires
        is_shortest_path(g, p1, s, e),
        is_shortest_path(g, p2, s, e),
    ensures
        p1.len() == p2.len(),
{
    assert(p1.len() <= p2.len());
    assert(p2.len() <= p1.len());
}

} // verus!
