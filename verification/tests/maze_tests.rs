use maze_core::dijkstra;
use maze_core::Maze;
use maze_core::maze::normalize_size;
use maze_core::solver::reconstruct_path;

/// A 5x5 grid: border all walls except the two openings, interior all
/// passage.
fn open_grid_5(entrance_row: usize, exit_row: usize) -> Vec<Vec<bool>> {
    let n = 5;
    let mut g = vec![vec![true; n]; n];
    for r in 1..n - 1 {
        for c in 1..n - 1 {
            g[r][c] = false;
        }
    }
    g[entrance_row][0] = false;
    g[exit_row][n - 1] = false;
    g
}

fn assert_is_valid_path(
    g: &Vec<Vec<bool>>,
    path: &Vec<(usize, usize)>,
    start: (usize, usize),
    end: (usize, usize),
) {
    assert!(!path.is_empty());
    assert_eq!(path[0], start);
    assert_eq!(path[path.len() - 1], end);
    for w in path.windows(2) {
        let (a, b) = (w[0], w[1]);
        let dr = (a.0 as i64 - b.0 as i64).abs();
        let dc = (a.1 as i64 - b.1 as i64).abs();
        assert_eq!(dr + dc, 1, "consecutive cells must be 4-adjacent");
    }
    for &(r, c) in path.iter() {
        assert!(!g[r][c], "path runs through a wall at ({}, {})", r, c);
    }
}

#[test]
fn generated_maze_is_solvable() {
    for size in [5usize, 9, 21, 51] {
        let mut m = Maze::generate(size).expect("generation failed");
        assert_eq!(m.size(), size);
        m.solve_maze();
        let n = m.size();
        let start = (m.entrance_row(), 0);
        let end = (m.exit_row(), n - 1);
        let path: Vec<(usize, usize)> = (0..m.path_len()).map(|i| m.path_cell(i)).collect();
        assert_is_valid_path(&m.grid, &path, start, end);
    }
}

#[test]
fn generated_maze_is_enclosed() {
    let m = Maze::generate(21).expect("generation failed");
    let n = m.size();
    let er = m.entrance_row();
    let ex = m.exit_row();
    assert!(er >= 1 && er <= n - 2);
    assert!(ex >= 1 && ex <= n - 2);
    for r in 0..n {
        for c in 0..n {
            if r == 0 || r == n - 1 || c == 0 || c == n - 1 {
                if (r, c) != (er, 0) && (r, c) != (ex, n - 1) {
                    assert!(m.is_wall(r, c), "border cell ({}, {}) must be a wall", r, c);
                }
            }
        }
    }
    assert!(!m.is_wall(er, 0));
    assert!(!m.is_wall(ex, n - 1));
}

#[test]
fn solver_length_is_deterministic() {
    let mut m = Maze::generate(15).expect("generation failed");
    m.solve_maze();
    let n = m.size();
    let start = (m.entrance_row(), 0);
    let end = (m.exit_row(), n - 1);
    let p1 = dijkstra(&m.grid, start, end);
    let p2 = dijkstra(&m.grid, start, end);
    assert_eq!(p1.len(), p2.len());
    assert_eq!(p1.len(), m.path_len());
}

#[test]
fn reconstruct_walks_predecessors_backward() {
    // a 3-cell corridor in a 3x3 grid: (1,0) -> (1,1) -> (1,2)
    let g = vec![
        vec![true, true, true],
        vec![false, false, false],
        vec![true, true, true],
    ];
    let u = usize::MAX;
    let dist = vec![vec![u, u, u], vec![0, 1, 2], vec![u, u, u]];
    let pred = vec![
        vec![(0, 0), (0, 0), (0, 0)],
        vec![(0, 0), (1, 0), (1, 1)],
        vec![(0, 0), (0, 0), (0, 0)],
    ];
    let path = reconstruct_path(&g, &dist, &pred, (1, 0), (1, 2));
    assert_eq!(path, vec![(1, 0), (1, 1), (1, 2)]);
}

#[test]
fn solve_start_equals_end() {
    let g = open_grid_5(2, 2);
    let path = dijkstra(&g, (2, 2), (2, 2));
    assert_eq!(path, vec![(2, 2)]);
}

#[test]
fn solve_walled_in_end_is_empty() {
    // exit opening at (2,4) with every neighbouring cell a wall
    let mut g = open_grid_5(2, 2);
    g[1][3] = true;
    g[2][3] = true;
    g[3][3] = true;
    let path = dijkstra(&g, (2, 0), (2, 4));
    assert!(path.is_empty());
}

#[test]
fn solve_separating_wall_is_empty() {
    // a full wall column through the interior between the two openings
    let mut g = open_grid_5(2, 2);
    g[1][2] = true;
    g[2][2] = true;
    g[3][2] = true;
    let path = dijkstra(&g, (2, 0), (2, 4));
    assert!(path.is_empty());
}

#[test]
fn solve_open_grid_takes_manhattan_distance() {
    let n = 5;
    let (er, ex) = (1, 3);
    let g = open_grid_5(er, ex);
    let path = dijkstra(&g, (er, 0), (ex, n - 1));
    // number of steps across an open grid is the Manhattan distance
    let steps = (er as i64 - ex as i64).unsigned_abs() as usize + (n - 1);
    assert_eq!(path.len(), steps + 1);
    assert_is_valid_path(&g, &path, (er, 0), (ex, n - 1));
}

#[test]
fn solve_wall_endpoint_is_empty() {
    let g = open_grid_5(2, 2);
    // (0,0) is a border wall
    assert!(dijkstra(&g, (0, 0), (2, 2)).is_empty());
    assert!(dijkstra(&g, (2, 2), (0, 0)).is_empty());
}

#[test]
fn generation_varies() {
    let first = Maze::generate(21).expect("generation failed");
    let mut saw_difference = false;
    for _ in 0..8 {
        let m = Maze::generate(21).expect("generation failed");
        if m.grid != first.grid || m.entrance_row() != first.entrance_row()
            || m.exit_row() != first.exit_row()
        {
            saw_difference = true;
        }
    }
    assert!(saw_difference, "eight generated mazes should not all coincide");
}

#[test]
fn size_is_clamped_and_rounded() {
    assert_eq!(normalize_size(0), 5);
    assert_eq!(normalize_size(4), 5);
    assert_eq!(normalize_size(5), 5);
    assert_eq!(normalize_size(6), 7);
    assert_eq!(normalize_size(20), 21);
    assert_eq!(normalize_size(51), 51);
    assert_eq!(normalize_size(52), 51);
    assert_eq!(normalize_size(1000), 51);
    let m = Maze::generate(20).expect("generation failed");
    assert_eq!(m.size(), 21);
}

#[test]
fn path_membership_matches_path() {
    let mut m = Maze::generate(9).expect("generation failed");
    assert_eq!(m.path_len(), 0);
    assert!(!m.path_contains(m.entrance_row(), 0));
    m.solve_maze();
    let cells: Vec<(usize, usize)> = (0..m.path_len()).map(|i| m.path_cell(i)).collect();
    for r in 0..m.size() {
        for c in 0..m.size() {
            assert_eq!(m.path_contains(r, c), cells.contains(&(r, c)));
        }
    }
}
