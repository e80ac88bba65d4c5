use pathfinder::search::bfs;
use pathfinder::{PathFinder, PathFinderError};

/// A fully open grid has a path.
#[test]
fn path_exists_simple() {
    let grid = vec![1, 1, 1, 1];
    let path = bfs(grid, 2);
    assert!(!path.is_empty());
}

/// A blocked start cell leaves no path.
#[test]
fn no_path_start_blocked() {
    let grid = vec![0, 1, 1, 1];
    let path = bfs(grid, 2);
    assert!(path.is_empty());
}

/// A blocked destination cell leaves no path.
#[test]
fn no_path_end_blocked() {
    let grid = vec![1, 1, 1, 0];
    let path = bfs(grid, 2);
    assert!(path.is_empty());
}

/// A three-by-three grid with one open route.
#[test]
fn path_exists_complex() {
    let grid = vec![1, 1, 0, 0, 1, 1, 0, 1, 1];
    let path = bfs(grid, 3);
    assert_eq!(path.first(), Some(&(0, 0)));
    assert_eq!(path.last(), Some(&(2, 2)));
}

#[test]
fn single_free_cell_is_its_own_path() {
    let pf = PathFinder::new(vec![1], 1).unwrap();
    assert!(pf.has_path());
    assert_eq!(pf.path(), vec![0, 0]);
}

#[test]
fn single_blocked_cell_has_no_path() {
    let pf = PathFinder::new(vec![0], 1).unwrap();
    assert!(!pf.has_path());
    assert_eq!(pf.path(), Vec::<usize>::new());
}

#[test]
fn open_two_by_two_grid() {
    let pf = PathFinder::new(vec![1, 1, 1, 1], 2).unwrap();
    assert!(pf.has_path());
    let flat = pf.path();
    // three cells, expanded +row, +col, -row, -col: down first, then right
    assert_eq!(flat, vec![0, 0, 1, 0, 1, 1]);
    assert_eq!(&flat[..2], &[0, 0]);
    assert_eq!(&flat[flat.len() - 2..], &[1, 1]);
}

#[test]
fn blocked_start_two_by_two() {
    let pf = PathFinder::new(vec![0, 1, 1, 1], 2).unwrap();
    assert!(!pf.has_path());
    assert!(pf.path().is_empty());
}

#[test]
fn blocked_destination_two_by_two() {
    let pf = PathFinder::new(vec![1, 1, 1, 0], 2).unwrap();
    assert!(!pf.has_path());
    assert!(pf.path().is_empty());
}

#[test]
fn three_by_three_path_endpoints() {
    let pf = PathFinder::new(vec![1, 1, 0, 0, 1, 1, 0, 1, 1], 3).unwrap();
    assert!(pf.has_path());
    let flat = pf.path();
    assert_eq!(&flat[..2], &[0, 0]);
    assert_eq!(&flat[flat.len() - 2..], &[2, 2]);
    // the unique shortest route through this grid
    assert_eq!(flat, vec![0, 0, 0, 1, 1, 1, 2, 1, 2, 2]);
}

#[test]
fn wrong_cell_count_is_rejected() {
    assert!(matches!(PathFinder::new(vec![1, 1, 1], 2), Err(PathFinderError::InvalidInput)));
    assert!(matches!(PathFinder::new(vec![1, 1, 1, 1, 1], 2), Err(PathFinderError::InvalidInput)));
}

#[test]
fn zero_size_is_rejected() {
    assert!(matches!(PathFinder::new(Vec::new(), 0), Err(PathFinderError::InvalidInput)));
    assert!(matches!(PathFinder::new(vec![1], 0), Err(PathFinderError::InvalidInput)));
}

#[test]
fn queries_are_idempotent() {
    let pf = PathFinder::new(vec![1, 1, 0, 0, 1, 1, 0, 1, 1], 3).unwrap();
    assert_eq!(pf.has_path(), pf.has_path());
    assert_eq!(pf.path(), pf.path());
    let blocked = PathFinder::new(vec![0, 1, 1, 1], 2).unwrap();
    assert_eq!(blocked.has_path(), blocked.has_path());
    assert_eq!(blocked.path(), blocked.path());
}

#[test]
fn snake_grid_takes_the_long_way() {
    // forced corridor: right, down, left, down, right
    let grid = vec![
        1, 1, 1, //
        0, 0, 1, //
        1, 1, 1, //
    ];
    let pf = PathFinder::new(grid, 3).unwrap();
    assert!(pf.has_path());
    let flat = pf.path();
    assert_eq!(flat, vec![0, 0, 0, 1, 0, 2, 1, 2, 2, 2]);
}

/// An independent shortest-distance computation: plain level-by-level
/// flooding, no parent tracking, no early exit.
fn reference_cell_count(grid: &[u8], n: usize) -> Option<usize> {
    if grid[0] != 1 || grid[n * n - 1] != 1 {
        return None;
    }
    let mut depth = vec![usize::MAX; n * n];
    depth[0] = 0;
    let mut frontier = vec![0usize];
    let mut level = 0usize;
    while !frontier.is_empty() {
        let mut next = Vec::new();
        for &idx in &frontier {
            let (r, c) = (idx / n, idx % n);
            let mut neighbours = Vec::new();
            if r + 1 < n {
                neighbours.push(idx + n);
            }
            if c + 1 < n {
                neighbours.push(idx + 1);
            }
            if r > 0 {
                neighbours.push(idx - n);
            }
            if c > 0 {
                neighbours.push(idx - 1);
            }
            for w in neighbours {
                if grid[w] == 1 && depth[w] == usize::MAX {
                    depth[w] = level + 1;
                    next.push(w);
                }
            }
        }
        frontier = next;
        level += 1;
    }
    if depth[n * n - 1] == usize::MAX {
        None
    } else {
        Some(depth[n * n - 1] + 1)
    }
}

#[test]
fn matches_reference_search_on_many_grids() {
    // deterministic linear-congruential bit stream
    let mut state = 0x2545F4914F6CDD1Du64;
    let mut next_bit = || {
        state = state.wrapping_mul(6364136223846793005).wrapping_add(1442695040888963407);
        (state >> 33) & 1
    };
    for n in 1..=6usize {
        for _round in 0..40 {
            let grid: Vec<u8> = (0..n * n).map(|_| next_bit() as u8).collect();
            let expected = reference_cell_count(&grid, n);
            let pf = PathFinder::new(grid.clone(), n).unwrap();
            match expected {
                None => {
                    assert!(!pf.has_path());
                    assert!(pf.path().is_empty());
                }
                Some(cells) => {
                    assert!(pf.has_path());
                    let flat = pf.path();
                    assert_eq!(flat.len(), 2 * cells);
                    assert_eq!(&flat[..2], &[0, 0]);
                    assert_eq!(&flat[flat.len() - 2..], &[n - 1, n - 1]);
                    // consecutive cells differ by one step along one axis,
                    // and every visited cell is free
                    for k in (0..flat.len()).step_by(2) {
                        assert_eq!(grid[flat[k] * n + flat[k + 1]], 1);
                        if k >= 2 {
                            let dr = flat[k].abs_diff(flat[k - 2]);
                            let dc = flat[k + 1].abs_diff(flat[k - 1]);
                            assert_eq!(dr + dc, 1);
                        }
                    }
                }
            }
        }
    }
}
