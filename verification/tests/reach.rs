use pathfinder::a_star::calculate;
use pathfinder::grassfire::{v1, v2, v3, v4};
use pathfinder::grid::OccupancyGrid;
use pathfinder::plan::Outcome;
use std::collections::VecDeque;

/// A grid whose obstacles follow from `seed` alone.
fn scattered(rows: usize, cols: usize, seed: u64, density: u64) -> OccupancyGrid {
    let mut grid = OccupancyGrid::new(rows, cols).unwrap();
    let mut state = seed.wrapping_mul(6364136223846793005).wrapping_add(1442695040888963407);
    for r in 0..rows {
        for c in 0..cols {
            state = state.wrapping_mul(6364136223846793005).wrapping_add(1442695040888963407);
            if (state >> 33) % 100 < density {
                grid.set_blocked((r, c), true);
            }
        }
    }
    grid.set_blocked((0, 0), false);
    grid.set_blocked((rows - 1, cols - 1), false);
    grid
}

/// The number of cells of a shortest way from `from` to `to`, by plain
/// breadth-first search.
fn shortest(grid: &OccupancyGrid, from: (usize, usize), to: (usize, usize), eight: bool) -> Option<usize> {
    let (rows, cols) = (grid.rows(), grid.cols());
    let mut seen = vec![vec![0usize; cols]; rows];
    let mut queue = VecDeque::new();
    seen[from.0][from.1] = 1;
    queue.push_back(from);
    while let Some(cell) = queue.pop_front() {
        if cell == to {
            return Some(seen[cell.0][cell.1]);
        }
        for dr in [-1i64, 0, 1] {
            for dc in [-1i64, 0, 1] {
                if (dr, dc) == (0, 0) || (!eight && dr != 0 && dc != 0) {
                    continue;
                }
                let r = cell.0 as i64 + dr;
                let c = cell.1 as i64 + dc;
                if r < 0 || c < 0 || r >= rows as i64 || c >= cols as i64 {
                    continue;
                }
                let next = (r as usize, c as usize);
                if grid.is_blocked(next) || seen[next.0][next.1] != 0 {
                    continue;
                }
                seen[next.0][next.1] = seen[cell.0][cell.1] + 1;
                queue.push_back(next);
            }
        }
    }
    None
}

#[test]
fn flood_fill_finds_a_shortest_path_exactly_where_one_exists() {
    let start = (0, 0);
    let goal = (11, 13);
    let mut found = 0;
    let mut lost = 0;
    for seed in 0..60u64 {
        let grid = scattered(12, 14, seed, 20 + seed % 25);
        let by_four = shortest(&grid, start, goal, false);
        let by_eight = shortest(&grid, start, goal, true);
        for res in [v1(&grid, start, goal), v2(&grid, start, goal)] {
            match by_four {
                Some(cells) => {
                    assert_eq!(res.outcome, Outcome::Found);
                    assert_eq!(res.path.len(), cells);
                    assert_eq!(res.rounds + 1, cells);
                }
                None => {
                    assert_eq!(res.outcome, Outcome::Unreachable);
                    assert!(res.path.is_empty());
                }
            }
        }
        let res = v3(&grid, start, goal);
        match by_eight {
            Some(cells) => {
                assert_eq!(res.outcome, Outcome::Found);
                assert_eq!(res.path.len(), cells);
                found += 1;
            }
            None => {
                assert_eq!(res.outcome, Outcome::Unreachable);
                lost += 1;
            }
        }
        let res = v4(&grid, start, goal);
        match by_four {
            Some(cells) => {
                assert_eq!(res.outcome, Outcome::Found);
                assert!(res.path.len() <= cells);
                assert_eq!(res.rounds + 1, cells);
            }
            None => assert_eq!(res.outcome, Outcome::Unreachable),
        }
    }
    assert!(found > 5);
    assert!(lost > 5);
}

#[test]
fn a_star_finds_a_path_exactly_where_one_exists() {
    let start = (0, 0);
    let goal = (11, 13);
    let mut found = 0;
    let mut lost = 0;
    for seed in 0..60u64 {
        let grid = scattered(12, 14, seed, 20 + seed % 25);
        let res = calculate(&grid, start, goal);
        match shortest(&grid, start, goal, true) {
            Some(cells) => {
                assert_eq!(res.outcome, Outcome::Found);
                assert!(res.path.len() >= cells);
                assert_eq!(res.path[0], start);
                assert_eq!(*res.path.last().unwrap(), goal);
                for cell in &res.path {
                    assert!(!grid.is_blocked(*cell));
                }
                found += 1;
            }
            None => {
                assert_eq!(res.outcome, Outcome::Unreachable);
                assert!(res.path.is_empty());
                lost += 1;
            }
        }
    }
    assert!(found > 5);
    assert!(lost > 5);
}
