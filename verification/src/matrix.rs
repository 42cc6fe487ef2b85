//! Helpers for square matrices held as `Vec<Vec<T>>`: construction, cell
//! reads and writes stated over `deep_view`, and a spec that counts the
//! cells holding a given value (the termination measures of the carving and
//! search loops shrink with it).
use vstd::prelude::*;

verus! {

/// How many elements of the row equal `x`.
pub open spec fn count_eq_row<T>(r: Seq<T>, x: T) -> nat
    decreases r.len(),
{
    if r.len() == 0 {
        0
    } else {
        count_eq_row(r.drop_last(), x) + if r.last() == x {
            1nat
        } else {
            0nat
        }
    }
}

/// How many cells of the matrix equal `x`.
pub open spec fn count_eq<T>(g: Seq<Seq<T>>, x: T) -> nat
    decreases g.len(),
{
    if g.len() == 0 {
        0
    } else {
        count_eq(g.drop_last(), x) + count_eq_row(g.last(), x)
    }
}

/// Replacing the element at `i` by `y` trades its old contribution to the
/// count for the contribution of `y`.
pub proof fn lemma_count_eq_row_update<T>(r: Seq<T>, i: int, y: T, x: T)
    requires
        0 <= i < r.len(),
    ensures
        count_eq_row(r.update(i, y), x) + (if r[i] == x {
            1nat
        } else {
            0nat
        }) == count_eq_row(r, x) + (if y == x {
            1nat
        } else {
            0nat
        }),
    decreases r.len(),
{
    let r2 = r.update(i, y);
    if i == r.len() - 1 {
        assert(r2.drop_last() =~= r.drop_last());
    } else {
        assert(r2.drop_last() =~= r.drop_last().update(i, y));
        assert(r2.last() == r.last());
        lemma_count_eq_row_update(r.drop_last(), i, y, x);
    }
}

/// Replacing the row at `i` trades its old contribution for the new row's.
pub proof fn lemma_count_eq_row_swap<T>(g: Seq<Seq<T>>, i: int, row2: Seq<T>, x: T)
    requires
        0 <= i < g.len(),
    ensures
        count_eq(g.update(i, row2), x) + count_eq_row(g[i], x) == count_eq(g, x) + count_eq_row(
            row2,
            x,
        ),
    decreases g.len(),
{
    let g2 = g.update(i, row2);
    if i == g.len() - 1 {
        assert(g2.drop_last() =~= g.drop_last());
        assert(g2.last() == row2);
    } else {
        assert(g2.drop_last() =~= g.drop_last().update(i, row2));
        assert(g2.last() == g.last());
        lemma_count_eq_row_swap(g.drop_last(), i, row2, x);
    }
}

/// Overwriting one cell trades its old contribution for the new value's.
pub proof fn lemma_count_eq_cell_update<T>(g: Seq<Seq<T>>, i: int, j: int, y: T, x: T)
    requires
        0 <= i < g.len(),
        0 <= j < g[i].len(),
    ensures
        count_eq(g.update(i, g[i].update(j, y)), x) + (if g[i][j] == x {
            1nat
        } else {
            0nat
        }) == count_eq(g, x) + (if y == x {
            1nat
        } else {
            0nat
        }),
{
    lemma_count_eq_row_swap(g, i, g[i].update(j, y), x);
    lemma_count_eq_row_update(g[i], j, y, x);
}

/// A row whose elements all equal `x` contributes its whole length.
pub proof fn lemma_count_eq_row_all<T>(r: Seq<T>, x: T)
    requires
        forall|j: int| 0 <= j < r.len() ==> r[j] == x,
    ensures
        count_eq_row(r, x) == r.len(),
    decreases r.len(),
{
    if r.len() > 0 {
        lemma_count_eq_row_all(r.drop_last(), x);
    }
}

/// A matrix of `m`-element rows whose cells all equal `x` counts its whole
/// area.
pub proof fn lemma_count_eq_all<T>(g: Seq<Seq<T>>, x: T, m: nat)
    requires
        forall|i: int| 0 <= i < g.len() ==> (#[trigger] g[i]).len() == m,
        forall|i: int, j: int| 0 <= i < g.len() && 0 <= j < m ==> g[i][j] == x,
    ensures
        count_eq(g, x) == g.len() * m,
    decreases g.len(),
{
    if g.len() == 0 {
        assert(g.len() * m == 0) by (nonlinear_arith)
            requires
                g.len() == 0,
        ;
    } else {
        lemma_count_eq_all(g.drop_last(), x, m);
        lemma_count_eq_row_all(g.last(), x);
        assert((g.len() - 1) * m + m == g.len() * m) by (nonlinear_arith);
    }
}

/// After overwriting one cell, the dimensions are unchanged and every other
/// cell reads as before.
pub proof fn lemma_cell_update_point<T>(g: Seq<Seq<T>>, i: int, j: int, y: T)
    requires
        0 <= i < g.len(),
        0 <= j < g[i].len(),
    ensures
        ({
            let g2 = g.update(i, g[i].update(j, y));
            &&& g2.len() == g.len()
            &&& forall|a: int| 0 <= a < g.len() ==> (#[trigger] g2[a]).len() == g[a].len()
            &&& forall|a: int, b: int|
                0 <= a < g.len() && 0 <= b < g[a].len() && !(a == i && b == j)
                    ==> #[trigger] g2[a][b] == g[a][b]
            &&& g2[i][j] == y
        }),
{
    let g2 = g.update(i, g[i].update(j, y));
    assert forall|a: int| 0 <= a < g.len() implies (#[trigger] g2[a]).len() == g[a].len() by {
        if a != i {
            assert(g2[a] == g[a]);
        }
    }
    assert forall|a: int, b: int|
        0 <= a < g.len() && 0 <= b < g[a].len() && !(a == i && b == j) implies #[trigger] g2[a][b]
        == g[a][b] by {
        if a == i {
            assert(b != j);
        }
    }
}

/// A fresh `n` by `n` matrix of walls or passages, every cell equal to `x`.
pub fn mat_fill_bool(n: usize, x: bool) -> (m: Vec<Vec<bool>>)
    ensures
        m.deep_view().len() == n,
        forall|i: int| 0 <= i < n ==> (#[trigger] m.deep_view()[i]).len() == n,
        forall|i: int, j: int|
            0 <= i < n && 0 <= j < n ==> m.deep_view()[i][j] == x,
{
    let mut m: Vec<Vec<bool>> = Vec::new();
    let mut i: usize = 0;
    while i < n
        invariant
            i <= n,
            m@.len() == i,
            forall|k: int|
                0 <= k < i ==> (#[trigger] m@[k])@.len() == n && (forall|l: int|
                    0 <= l < n ==> m@[k]@[l] == x),
        decreases n - i,
    {
        let mut row: Vec<bool> = Vec::new();
        let mut j: usize = 0;
        while j < n
            invariant
                j <= n,
                row@.len() == j,
                forall|l: int| 0 <= l < j ==> row@[l] == x,
            decreases n - j,
        {
            row.push(x);
            j = j + 1;
        }
        m.push(row);
        i = i + 1;
    }
    m
}

/// Read one cell of a matrix of cell states.
pub fn mat_get_bool(g: &Vec<Vec<bool>>, r: usize, c: usize) -> (b: bool)
    requires
        r < g.deep_view().len(),
        c < g.deep_view()[r as int].len(),
    ensures
        b == g.deep_view()[r as int][c as int],
{
    g[r][c]
}

/// Overwrite one cell of a matrix of cell states.
pub fn mat_set_bool(g: &mut Vec<Vec<bool>>, r: usize, c: usize, x: bool)
    requires
        r < old(g).deep_view().len(),
        c < old(g).deep_view()[r as int].len(),
    ensures
        final(g).deep_view() == old(g).deep_view().update(
            r as int,
            old(g).deep_view()[r as int].update(c as int, x),
        ),
{
    g[r][c] = x;
    proof {
        assert(g.deep_view() =~~= old(g).deep_view().update(
            r as int,
            old(g).deep_view()[r as int].update(c as int, x),
        ));
    }
}

/// A fresh `n` by `n` matrix of distances, every cell equal to `x`.
pub fn mat_fill_usize(n: usize, x: usize) -> (m: Vec<Vec<usize>>)
    ensures
        m.deep_view().len() == n,
        forall|i: int| 0 <= i < n ==> (#[trigger] m.deep_view()[i]).len() == n,
        forall|i: int, j: int|
            0 <= i < n && 0 <= j < n ==> m.deep_view()[i][j] == x,
{
    let mut m: Vec<Vec<usize>> = Vec::new();
    let mut i: usize = 0;
    while i < n
        invariant
            i <= n,
            m@.len() == i,
            forall|k: int|
                0 <= k < i ==> (#[trigger] m@[k])@.len() == n && (forall|l: int|
                    0 <= l < n ==> m@[k]@[l] == x),
        decreases n - i,
    {
        let mut row: Vec<usize> = Vec::new();
        let mut j: usize = 0;
        while j < n
            invariant
                j <= n,
                row@.len() == j,
                forall|l: int| 0 <= l < j ==> row@[l] == x,
            decreases n - j,
        {
            row.push(x);
            j = j + 1;
        }
        m.push(row);
        i = i + 1;
    }
    m
}

/// Read one cell of a matrix of distances.
pub fn mat_get_usize(g: &Vec<Vec<usize>>, r: usize, c: usize) -> (x: usize)
    requires
        r < g.deep_view().len(),
        c < g.deep_view()[r as int].len(),
    ensures
        x == g.deep_view()[r as int][c as int],
{
    g[r][c]
}

/// Overwrite one cell of a matrix of distances.
pub fn mat_set_usize(g: &mut Vec<Vec<usize>>, r: usize, c: usize, x: usize)
    requires
        r < old(g).deep_view().len(),
        c < old(g).deep_view()[r as int].len(),
    ensures
        final(g).deep_view() == old(g).deep_view().update(
            r as int,
            old(g).deep_view()[r as int].update(c as int, x),
        ),
{
    g[r][c] = x;
    proof {
        assert(g.deep_view() =~~= old(g).deep_view().update(
            r as int,
            old(g).deep_view()[r as int].update(c as int, x),
        ));
    }
}

/// A fresh `n` by `n` matrix of cell coordinates, every cell equal to `x`.
pub fn mat_fill_pair(n: usize, x: (usize, usize)) -> (m: Vec<Vec<(usize, usize)>>)
    ensures
        m.deep_view().len() == n,
        forall|i: int| 0 <= i < n ==> (#[trigger] m.deep_view()[i]).len() == n,
        forall|i: int, j: int|
            0 <= i < n && 0 <= j < n ==> m.deep_view()[i][j] == x,
{
    let mut m: Vec<Vec<(usize, usize)>> = Vec::new();
    let mut i: usize = 0;
    while i < n
        invariant
            i <= n,
            m@.len() == i,
            forall|k: int|
                0 <= k < i ==> (#[trigger] m@[k])@.len() == n && (forall|l: int|
                    0 <= l < n ==> m@[k]@[l] == x),
        decreases n - i,
    {
        let mut row: Vec<(usize, usize)> = Vec::new();
        let mut j: usize = 0;
        while j < n
            invariant
                j <= n,
                row@.len() == j,
                forall|l: int| 0 <= l < j ==> row@[l] == x,
            decreases n - j,
        {
            row.push(x);
            j = j + 1;
        }
        m.push(row);
        i = i + 1;
    }
    m
}

/// Read one cell of a matrix of cell coordinates.
pub fn mat_get_pair(g: &Vec<Vec<(usize, usize)>>, r: usize, c: usize) -> (x: (usize, usize))
    requires
        r < g.deep_view().len(),
        c < g.deep_view()[r as int].len(),
    ensures
        x == g.deep_view()[r as int][c as int],
{
    g[r][c]
}

/// Overwrite one cell of a matrix of cell coordinates.
pub fn mat_set_pair(g: &mut Vec<Vec<(usize, usize)>>, r: usize, c: usize, x: (usize, usize))
    requires
        r < old(g).deep_view().len(),
        c < old(g).deep_view()[r as int].len(),
    ensures
        final(g).deep_view() == old(g).deep_view().update(
            r as int,
            old(g).deep_view()[r as int].update(c as int, x),
        ),
{
    g[r][c] = x;
    proof {
        assert(g.deep_view() =~~= old(g).deep_view().update(
            r as int,
            old(g).deep_view()[r as int].update(c as int, x),
        ));
    }
}

} // verus!
