//! The maze itself: randomized depth-first carving of a perfect maze on an
//! odd-sized square grid, entrance and exit on opposite borders, a retry
//! loop that only accepts a solvable grid, and shortest-path solving of the
//! accepted maze.
use vstd::prelude::*;

use crate::grid::adjacent;
use crate::grid::grid_square;
use crate::grid::in_grid;
use crate::grid::is_passage;
use crate::grid::is_path;
use crate::grid::is_shortest_path;
use crate::grid::reachable;
use crate::matrix::count_eq;
use crate::matrix::lemma_cell_update_point;
use crate::matrix::lemma_count_eq_cell_update;
use crate::matrix::mat_fill_bool;
use crate::matrix::mat_get_bool;
use crate::matrix::mat_set_bool;
use crate::rng::rand_in_range;
use crate::rng::shuffle_dirs;
use crate::solver::dijkstra;

verus! {

/// How many randomized carves the generator tries before reporting failure.
pub const MAX_GEN_ATTEMPTS: usize = 200;

/// The requested size clamped into the supported range `5..=51` and, when
/// even, rounded up to the next odd value.
pub open spec fn normalized_size(size: usize) -> usize {
    if size < 5 {
        5
    } else if size > 51 {
        51
    } else if size % 2 == 0 {
        (size + 1) as usize
    } else {
        size
    }
}

/// Clamp a requested size into `5..=51` and round an even value up to the
/// next odd one.
pub fn normalize_size(size: usize) -> (n: usize)
    ensures
        n == normalized_size(size),
        n % 2 == 1,
        5 <= n <= 51,
{
    if size < 5 {
        5
    } else if size > 51 {
        51
    } else if size % 2 == 0 {
        size + 1
    } else {
        size
    }
}

/// Every passage cell is one of the two openings or lies strictly inside
/// the border ring.
pub open spec fn interior_passages(g: Seq<Seq<bool>>, er: usize, ex: usize) -> bool {
    forall|c: (usize, usize)|
        #[trigger] is_passage(g, c) ==> c == (er, 0usize) || c == (ex, (g.len() - 1) as usize) || (
        1 <= c.0 <= g.len() - 2 && 1 <= c.1 <= g.len() - 2)
}

/// Every border cell other than the entrance opening (row `er`, leftmost
/// column) and the exit opening (row `ex`, rightmost column) is a wall.
pub open spec fn enclosed(g: Seq<Seq<bool>>, er: usize, ex: usize) -> bool {
    forall|c: (usize, usize)|
        in_grid(g, c) && (c.0 == 0 || c.0 == g.len() - 1 || c.1 == 0 || c.1 == g.len() - 1) && c
            != (er, 0usize) && c != (ex, (g.len() - 1) as usize) ==> !(#[trigger] is_passage(g, c))
}

/// A cell of the carving lattice: both coordinates odd and strictly inside
/// the border ring.
pub open spec fn lattice_cell(c: (usize, usize), n: usize) -> bool {
    c.0 % 2 == 1 && c.1 % 2 == 1 && 1 <= c.0 <= n - 2 && 1 <= c.1 <= n - 2
}

/// Carve the lattice neighbour `(nr, nc)` and the wall cell `(wr, wc)`
/// between it and the current cell, and push the neighbour, provided the
/// neighbour is still a wall; otherwise change nothing.
fn try_carve(
    grid: &mut Vec<Vec<bool>>,
    stack: &mut Vec<(usize, usize)>,
    nr: usize,
    nc: usize,
    wr: usize,
    wc: usize,
    n: usize,
    er: usize,
    ex: usize,
)
    requires
        grid_square(old(grid).deep_view()),
        old(grid).deep_view().len() == n,
        interior_passages(old(grid).deep_view(), er, ex),
        forall|j: int|
            0 <= j < old(stack)@.len() ==> lattice_cell(#[trigger] old(stack)@[j], n),
        nr % 2 == 1 && nc % 2 == 1,
        1 <= nr <= n - 2,
        1 <= nc <= n - 2,
        1 <= wr <= n - 2,
        1 <= wc <= n - 2,
    ensures
        grid_square(final(grid).deep_view()),
        final(grid).deep_view().len() == n,
        interior_passages(final(grid).deep_view(), er, ex),
        forall|j: int|
            0 <= j < final(stack)@.len() ==> lattice_cell(#[trigger] final(stack)@[j], n),
        2 * count_eq(final(grid).deep_view(), true) + final(stack)@.len() <= 2 * count_eq(
            old(grid).deep_view(),
            true,
        ) + old(stack)@.len(),
        forall|c: (usize, usize)|
            in_grid(old(grid).deep_view(), c) && c != (nr, nc) && c != (wr, wc)
                ==> #[trigger] final(grid).deep_view()[c.0 as int][c.1 as int] == old(
                grid,
            ).deep_view()[c.0 as int][c.1 as int],
{
    let ghost g0 = grid.deep_view();
    if mat_get_bool(grid, nr, nc) {
        mat_set_bool(grid, nr, nc, false);
        proof {
            lemma_count_eq_cell_update(g0, nr as int, nc as int, false, true);
            lemma_cell_update_point(g0, nr as int, nc as int, false);
        }
        let ghost g1 = grid.deep_view();
        mat_set_bool(grid, wr, wc, false);
        proof {
            lemma_count_eq_cell_update(g1, wr as int, wc as int, false, true);
            lemma_cell_update_point(g1, wr as int, wc as int, false);
        }
        stack.push((nr, nc));
        proof {
            let g2 = grid.deep_view();
            assert forall|c: (usize, usize)|
                in_grid(g0, c) && c != (nr, nc) && c != (wr, wc) implies #[trigger] g2[c.0 as int][c.1 as int]
                == g0[c.0 as int][c.1 as int] by {
                if c.0 == nr && c.0 == wr {
                    assert(c.1 != nc && c.1 != wc);
                }
                assert(g2[c.0 as int][c.1 as int] == g1[c.0 as int][c.1 as int]);
                assert(g1[c.0 as int][c.1 as int] == g0[c.0 as int][c.1 as int]);
            }
            assert forall|c: (usize, usize)| #[trigger] is_passage(g2, c) implies c == (
                er,
                0usize,
            ) || c == (ex, (n - 1) as usize) || (1 <= c.0 <= n - 2 && 1 <= c.1 <= n - 2) by {
                if c != (nr, nc) && c != (wr, wc) {
                    assert(is_passage(g0, c));
                }
            }
        }
    }
}

/// One randomized depth-first carve: an all-wall grid, two random openings
/// on the left and right borders, and a stack-driven carve at stride two
/// from the fixed seed cell. The grid comes back square of dimension `n`,
/// enclosed by border walls except at the two openings.
#[verifier::rlimit(100)]
#[verifier::spinoff_prover]
fn carve_attempt(n: usize) -> (r: (Vec<Vec<bool>>, usize, usize))
    requires
        5 <= n <= 51,
        n % 2 == 1,
    ensures
        grid_square(r.0.deep_view()),
        r.0.deep_view().len() == n,
        1 <= r.1 <= n - 2,
        1 <= r.2 <= n - 2,
        is_passage(r.0.deep_view(), (r.1, 0usize)),
        is_passage(r.0.deep_view(), (r.2, (n - 1) as usize)),
        enclosed(r.0.deep_view(), r.1, r.2),
{
    let mut grid = mat_fill_bool(n, true);
    let er = rand_in_range(1, n - 1);
    let ex = rand_in_range(1, n - 1);
    let ghost ga = grid.deep_view();
    mat_set_bool(&mut grid, er, 0, false);
    proof {
        lemma_cell_update_point(ga, er as int, 0, false);
    }
    let ghost gb = grid.deep_view();
    mat_set_bool(&mut grid, ex, n - 1, false);
    proof {
        lemma_cell_update_point(gb, ex as int, n - 1, false);
    }
    let ghost gc = grid.deep_view();
    mat_set_bool(&mut grid, 1, 1, false);
    proof {
        lemma_cell_update_point(gc, 1, 1, false);
    }
    let mut stack: Vec<(usize, usize)> = Vec::new();
    stack.push((1, 1));
    proof {
        let gd = grid.deep_view();
        assert forall|c: (usize, usize)| #[trigger] is_passage(gd, c) implies c == (er, 0usize)
            || c == (ex, (n - 1) as usize) || (1 <= c.0 <= n - 2 && 1 <= c.1 <= n - 2) by {
            if c != (er, 0usize) && c != (ex, (n - 1) as usize) && c != (1usize, 1usize) {
                assert(gd[c.0 as int][c.1 as int] == gc[c.0 as int][c.1 as int]);
                assert(gc[c.0 as int][c.1 as int] == gb[c.0 as int][c.1 as int]);
                assert(gb[c.0 as int][c.1 as int] == ga[c.0 as int][c.1 as int]);
            }
        }
        assert(is_passage(grid.deep_view(), (er, 0usize)));
        assert(is_passage(grid.deep_view(), (ex, (n - 1) as usize)));
    }
    while stack.len() != 0
        invariant
            grid_square(grid.deep_view()),
            grid.deep_view().len() == n,
            interior_passages(grid.deep_view(), er, ex),
            is_passage(grid.deep_view(), (er, 0usize)),
            is_passage(grid.deep_view(), (ex, (n - 1) as usize)),
            forall|j: int| 0 <= j < stack@.len() ==> lattice_cell(#[trigger] stack@[j], n),
        decreases 2 * count_eq(grid.deep_view(), true) + stack@.len(),
    {
        let cur = stack.pop().unwrap();
        let row = cur.0;
        let col = cur.1;
        proof {
            assert(lattice_cell(cur, n));
        }
        let mut dirs: Vec<usize> = Vec::new();
        dirs.push(0);
        dirs.push(1);
        dirs.push(2);
        dirs.push(3);
        shuffle_dirs(&mut dirs);
        let ghost m1 = 2 * count_eq(grid.deep_view(), true) + stack@.len();
        let mut k: usize = 0;
        while k < dirs.len()
            invariant
                dirs@.len() == 4,
                k <= 4,
                grid_square(grid.deep_view()),
                grid.deep_view().len() == n,
                interior_passages(grid.deep_view(), er, ex),
                is_passage(grid.deep_view(), (er, 0usize)),
                is_passage(grid.deep_view(), (ex, (n - 1) as usize)),
                forall|j: int| 0 <= j < stack@.len() ==> lattice_cell(#[trigger] stack@[j], n),
                2 * count_eq(grid.deep_view(), true) + stack@.len() <= m1,
            decreases 4 - k,
        {
            let ghost gpre = grid.deep_view();
            let d = dirs[k];
            if d == 0 {
                if row >= 2 {
                    try_carve(&mut grid, &mut stack, row - 2, col, row - 1, col, n, er, ex);
                }
            } else if d == 1 {
                if row + 2 < n {
                    try_carve(&mut grid, &mut stack, row + 2, col, row + 1, col, n, er, ex);
                }
            } else if d == 2 {
                if col >= 2 {
                    try_carve(&mut grid, &mut stack, row, col - 2, row, col - 1, n, er, ex);
                }
            } else if d == 3 {
                if col + 2 < n {
                    try_carve(&mut grid, &mut stack, row, col + 2, row, col + 1, n, er, ex);
                }
            }
            proof {
                if gpre != grid.deep_view() {
                    assert(is_passage(grid.deep_view(), (er, 0usize)));
                }
            }
            k = k + 1;
        }
        proof {
            assert(2 * count_eq(grid.deep_view(), true) + stack@.len() <= m1);
        }
    }
    // re-open the seed cell, an idempotent safeguard
    let ghost ge = grid.deep_view();
    mat_set_bool(&mut grid, 1, 1, false);
    proof {
        lemma_cell_update_point(ge, 1, 1, false);
        assert forall|c: (usize, usize)| #[trigger] is_passage(grid.deep_view(), c) implies c
            == (er, 0usize) || c == (ex, (n - 1) as usize) || (1 <= c.0 <= n - 2 && 1 <= c.1 <= n
            - 2) by {
            if c != (1usize, 1usize) {
                assert(grid.deep_view()[c.0 as int][c.1 as int] == ge[c.0 as int][c.1 as int]);
                assert(is_passage(ge, c));
            }
        }
        assert(is_passage(grid.deep_view(), (er, 0usize)));
        assert(is_passage(grid.deep_view(), (ex, (n - 1) as usize)));
    }
    proof {
        let gv = grid.deep_view();
        assert forall|c: (usize, usize)|
            in_grid(gv, c) && (c.0 == 0 || c.0 == gv.len() - 1 || c.1 == 0 || c.1 == gv.len() - 1)
                && c != (er, 0usize) && c != (ex, (gv.len() - 1) as usize) implies !(
        #[trigger] is_passage(gv, c)) by {
            if is_passage(gv, c) {
                assert(1 <= c.0 <= n - 2 && 1 <= c.1 <= n - 2);
            }
        }
    }
    (grid, er, ex)
}

/// A generated maze: the grid of walls and passages, the rows of the two
/// border openings, and the most recently computed path (empty until the
/// maze is solved, and cleared by generation).
pub struct Maze {
    pub grid: Vec<Vec<bool>>,
    pub path: Vec<(usize, usize)>,
    pub grid_size: usize,
    pub entrance_row: usize,
    pub exit_row: usize,
}

impl Maze {
    /// The grid as a mathematical matrix of cells.
    pub open spec fn grid_view(self) -> Seq<Seq<bool>> {
        self.grid.deep_view()
    }

    /// The entrance cell, on the leftmost column.
    pub open spec fn entrance_cell(self) -> (usize, usize) {
        (self.entrance_row, 0usize)
    }

    /// The exit cell, on the rightmost column.
    pub open spec fn exit_cell(self) -> (usize, usize) {
        (self.exit_row, (self.grid_size - 1) as usize)
    }

    /// A well-formed maze: a square grid of supported odd dimension, both
    /// openings carved on their borders away from the corners, all other
    /// border cells walls, the exit reachable from the entrance, and the
    /// stored path either empty or a shortest entrance-to-exit path.
    pub open spec fn wf(self) -> bool {
        &&& grid_square(self.grid_view())
        &&& self.grid_view().len() == self.grid_size
        &&& 5 <= self.grid_size <= 51
        &&& self.grid_size % 2 == 1
        &&& 1 <= self.entrance_row <= self.grid_size - 2
        &&& 1 <= self.exit_row <= self.grid_size - 2
        &&& is_passage(self.grid_view(), self.entrance_cell())
        &&& is_passage(self.grid_view(), self.exit_cell())
        &&& enclosed(self.grid_view(), self.entrance_row, self.exit_row)
        &&& reachable(self.grid_view(), self.entrance_cell(), self.exit_cell())
        &&& (self.path@.len() == 0 || is_shortest_path(
            self.grid_view(),
            self.path@,
            self.entrance_cell(),
            self.exit_cell(),
        ))
    }

    /// Generate a maze of the requested size (clamped and rounded as
    /// `normalized_size` states). Random carves are validated by solving;
    /// an unsolvable grid is thrown away and carved anew. After the allowed
    /// number of attempts the failure surfaces as `None` instead of
    /// looping on.
    pub fn generate(size: usize) -> (res: Option<Maze>)
        ensures
            res matches Some(m) ==> m.wf() && m.path@.len() == 0 && m.grid_size
                == normalized_size(size),
    {
        let n = normalize_size(size);
        let mut attempts: usize = 0;
        while attempts < MAX_GEN_ATTEMPTS
            invariant
                attempts <= MAX_GEN_ATTEMPTS,
            decreases MAX_GEN_ATTEMPTS - attempts,
        {
            let (grid, er, ex) = carve_attempt(n);
            let path = dijkstra(&grid, (er, 0), (ex, n - 1));
            if path.len() != 0 {
                let m = Maze {
                    grid,
                    path: Vec::new(),
                    grid_size: n,
                    entrance_row: er,
                    exit_row: ex,
                };
                proof {
                    assert(is_path(m.grid_view(), path@, (er, 0usize), (ex, (n - 1) as usize)));
                    assert(reachable(m.grid_view(), m.entrance_cell(), m.exit_cell()));
                }
                return Some(m);
            }
            attempts = attempts + 1;
        }
        None
    }

    /// Solve the maze from its entrance to its exit and store the path: a
    /// shortest passage walk, never empty, since a well-formed maze always
    /// has its exit reachable.
    pub fn solve_maze(&mut self)
        requires
            old(self).wf(),
        ensures
            final(self).wf(),
            final(self).grid == old(self).grid,
            final(self).grid_size == old(self).grid_size,
            final(self).entrance_row == old(self).entrance_row,
            final(self).exit_row == old(self).exit_row,
            is_shortest_path(
                final(self).grid_view(),
                final(self).path@,
                final(self).entrance_cell(),
                final(self).exit_cell(),
            ),
            final(self).path@.len() != 0,
    {
        let path = dijkstra(
            &self.grid,
            (self.entrance_row, 0),
            (self.exit_row, self.grid_size - 1),
        );
        self.path = path;
    }

    /// The grid dimension.
    pub fn size(&self) -> (n: usize)
        ensures
            n == self.grid_size,
    {
        self.grid_size
    }

    /// The row of the entrance opening on the leftmost column.
    pub fn entrance_row(&self) -> (r: usize)
        ensures
            r == self.entrance_row,
    {
        self.entrance_row
    }

    /// The row of the exit opening on the rightmost column.
    pub fn exit_row(&self) -> (r: usize)
        ensures
            r == self.exit_row,
    {
        self.exit_row
    }

    /// Whether the cell at `(row, col)` is a wall.
    pub fn is_wall(&self, row: usize, col: usize) -> (b: bool)
        requires
            self.wf(),
            row < self.grid_size,
            col < self.grid_size,
        ensures
            b == self.grid_view()[row as int][col as int],
    {
        mat_get_bool(&self.grid, row, col)
    }

    /// How many cells the stored path holds (zero until solved).
    pub fn path_len(&self) -> (l: usize)
        ensures
            l == self.path@.len(),
    {
        self.path.len()
    }

    /// The `i`-th cell of the stored path.
    pub fn path_cell(&self, i: usize) -> (c: (usize, usize))
        requires
            i < self.path@.len(),
        ensures
            c == self.path@[i as int],
    {
        self.path[i]
    }

    /// Whether the cell at `(row, col)` lies on the stored path.
    pub fn path_contains(&self, row: usize, col: usize) -> (b: bool)
        ensures
            b == self.path@.contains((row, col)),
    {
        let mut j: usize = 0;
        while j < self.path.len()
            invariant
                j <= self.path@.len(),
                forall|k: int| 0 <= k < j ==> self.path@[k] != (row, col),
            decreases self.path@.len() - j,
        {
            let c = self.path[j];
            if c.0 == row && c.1 == col {
                proof {
                    assert(self.path@[j as int] == (row, col));
                }
                return true;
            }
            j = j + 1;
        }
        proof {
            assert(!self.path@.contains((row, col)));
        }
        false
    }
}

} // verus!
