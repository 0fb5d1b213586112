use pathfinder::grassfire::{fill_exhaustive, fill_frontier, find_path, v1, v2, v3, v4, WALL};
use pathfinder::grid::{CellMap, OccupancyGrid};
use pathfinder::plan::Outcome;

fn wall_column(rows: usize, cols: usize, col: usize) -> OccupancyGrid {
    let mut grid = OccupancyGrid::new(rows, cols).unwrap();
    for r in 0..rows {
        grid.set_blocked((r, col), true);
    }
    grid
}

fn touching(a: (usize, usize), b: (usize, usize)) -> bool {
    a != b && a.0.abs_diff(b.0) <= 1 && a.1.abs_diff(b.1) <= 1
}

#[test]
fn open_grid_path_length_is_manhattan_plus_one() {
    let grid = OccupancyGrid::new(7, 9).unwrap();
    let cases: [((usize, usize), (usize, usize)); 4] =
        [((0, 0), (6, 8)), ((3, 4), (0, 8)), ((6, 0), (2, 2)), ((1, 7), (1, 2))];
    for (start, goal) in cases {
        let manhattan = start.0.abs_diff(goal.0) + start.1.abs_diff(goal.1);
        for res in [v1(&grid, start, goal), v2(&grid, start, goal)] {
            assert_eq!(res.outcome, Outcome::Found);
            assert_eq!(res.path.len(), manhattan + 1);
            assert_eq!(res.rounds, manhattan);
            assert_eq!(res.path[0], start);
            assert_eq!(*res.path.last().unwrap(), goal);
        }
    }
}

#[test]
fn exhaustive_and_frontier_agree() {
    let mut grid = OccupancyGrid::new(8, 8).unwrap();
    for r in 1..8 {
        grid.set_blocked((r, 3), true);
    }
    for c in 5..8 {
        grid.set_blocked((4, c), true);
    }
    let cases = [((7, 0), (7, 7)), ((0, 0), (5, 6)), ((7, 0), (5, 7)), ((2, 2), (2, 4))];
    for (start, goal) in cases {
        for eight in [false, true] {
            for path_eight in [false, true] {
                let a = fill_exhaustive(&grid, start, goal, eight, path_eight);
                let b = fill_frontier(&grid, start, goal, eight, path_eight);
                assert_eq!(a.outcome, b.outcome);
                assert_eq!(a.path, b.path);
                assert_eq!(a.rounds, b.rounds);
                assert_eq!(a.labels.into_vec(), b.labels.into_vec());
            }
        }
    }
}

#[test]
fn flood_fill_start_equals_goal() {
    let grid = OccupancyGrid::new(4, 4).unwrap();
    for res in [v1(&grid, (2, 1), (2, 1)), v2(&grid, (2, 1), (2, 1)), v3(&grid, (2, 1), (2, 1)), v4(&grid, (2, 1), (2, 1))] {
        assert_eq!(res.outcome, Outcome::Found);
        assert_eq!(res.path, vec![(2, 1)]);
        assert_eq!(res.rounds, 0);
    }
}

#[test]
fn eight_connected_diagonal_on_five_by_five() {
    let grid = OccupancyGrid::new(5, 5).unwrap();
    let res = v3(&grid, (0, 0), (4, 4));
    assert_eq!(res.outcome, Outcome::Found);
    assert_eq!(res.path, vec![(0, 0), (1, 1), (2, 2), (3, 3), (4, 4)]);
    let labels: Vec<u64> = res.path.iter().map(|c| res.labels.get(*c)).collect();
    assert_eq!(labels, vec![5, 4, 3, 2, 1]);
}

#[test]
fn flood_fill_wall_column_is_unreachable() {
    let grid = wall_column(6, 7, 3);
    for res in [v1(&grid, (2, 0), (2, 6)), v2(&grid, (2, 0), (2, 6)), v3(&grid, (2, 0), (2, 6)), v4(&grid, (2, 0), (2, 6))] {
        assert_eq!(res.outcome, Outcome::Unreachable);
        assert!(res.path.is_empty());
        assert_eq!(res.labels.get((2, 0)), 0);
        assert_eq!(res.labels.get((2, 3)), WALL);
        assert_eq!(res.labels.get((2, 6)), 1);
    }
}

#[test]
fn flood_fill_rejects_invalid_endpoints() {
    let mut grid = OccupancyGrid::new(4, 4).unwrap();
    grid.set_blocked((1, 1), true);
    assert_eq!(v2(&grid, (1, 1), (3, 3)).outcome, Outcome::InvalidInput);
    assert_eq!(v2(&grid, (0, 0), (1, 1)).outcome, Outcome::InvalidInput);
    assert_eq!(v1(&grid, (4, 0), (3, 3)).outcome, Outcome::InvalidInput);
    assert_eq!(v3(&grid, (0, 0), (0, 4)).outcome, Outcome::InvalidInput);
    let res = v4(&grid, (0, 9), (3, 3));
    assert_eq!(res.outcome, Outcome::InvalidInput);
    assert!(res.path.is_empty());
    assert_eq!(res.rounds, 0);
    assert_eq!(res.labels.get((1, 1)), WALL);
    assert_eq!(res.labels.get((3, 3)), 0);
}

#[test]
fn flood_fill_paths_avoid_obstacles() {
    let mut grid = OccupancyGrid::new(9, 9).unwrap();
    for r in 0..8 {
        grid.set_blocked((r, 2), true);
    }
    for r in 1..9 {
        grid.set_blocked((r, 5), true);
    }
    for res in [v1(&grid, (0, 0), (8, 8)), v2(&grid, (0, 0), (8, 8)), v3(&grid, (0, 0), (8, 8)), v4(&grid, (0, 0), (8, 8))] {
        assert_eq!(res.outcome, Outcome::Found);
        assert_eq!(res.path[0], (0, 0));
        assert_eq!(*res.path.last().unwrap(), (8, 8));
        for cell in &res.path {
            assert!(!grid.is_blocked(*cell));
        }
        for pair in res.path.windows(2) {
            assert!(touching(pair[0], pair[1]));
        }
    }
}

#[test]
fn labels_are_breadth_first_depths() {
    let grid = OccupancyGrid::new(3, 3).unwrap();
    let res = v2(&grid, (0, 0), (2, 2));
    // column after column: (0,0) (1,0) (2,0) (0,1) ...
    assert_eq!(res.labels.into_vec(), vec![5, 4, 3, 4, 3, 2, 3, 2, 1]);
    let res = v3(&grid, (0, 0), (2, 2));
    assert_eq!(res.labels.into_vec(), vec![3, 3, 3, 3, 2, 2, 3, 2, 1]);
}

#[test]
fn relaxation_stops_once_the_start_is_labelled() {
    let grid = OccupancyGrid::new(1, 6).unwrap();
    let res = v2(&grid, (0, 3), (0, 1));
    assert_eq!(res.rounds, 2);
    assert_eq!(res.labels.into_vec(), vec![2, 1, 2, 3, 0, 0]);
    assert_eq!(res.path, vec![(0, 3), (0, 2), (0, 1)]);
}

#[test]
fn hybrid_path_cuts_corners() {
    let grid = OccupancyGrid::new(5, 5).unwrap();
    let straight = v2(&grid, (0, 0), (4, 4));
    let hybrid = v4(&grid, (0, 0), (4, 4));
    assert_eq!(straight.path.len(), 9);
    assert_eq!(hybrid.path, vec![(0, 0), (1, 1), (2, 2), (3, 3), (4, 4)]);
    assert_eq!(straight.labels.into_vec(), hybrid.labels.into_vec());
}

#[test]
fn find_path_prefers_the_column_before() {
    // labels of a 3 x 3 grid without obstacles, goal in the middle
    let mut labels = CellMap::new(3, 3, 0u64).unwrap();
    let values = [[3, 2, 3], [2, 1, 2], [3, 2, 3]];
    for r in 0..3 {
        for c in 0..3 {
            labels.set((r, c), values[r][c]);
        }
    }
    assert_eq!(find_path((2, 2), &labels, false), vec![(2, 2), (2, 1), (1, 1)]);
    assert_eq!(find_path((2, 2), &labels, true), vec![(2, 2), (1, 1)]);
    assert_eq!(find_path((0, 0), &labels, false), vec![(0, 0), (0, 1), (1, 1)]);
}

#[test]
fn find_path_ends_where_nothing_is_lower() {
    let mut labels = CellMap::new(2, 2, 0u64).unwrap();
    labels.set((0, 0), 4);
    labels.set((0, 1), 6);
    labels.set((1, 0), WALL);
    labels.set((1, 1), 5);
    assert_eq!(find_path((0, 0), &labels, false), vec![(0, 0)]);
    assert_eq!(find_path((1, 1), &labels, false), vec![(1, 1), (0, 0)]);
    assert_eq!(find_path((1, 0), &labels, true), vec![(1, 0)]);
    let blank = CellMap::new(2, 2, 0u64).unwrap();
    assert_eq!(find_path((1, 1), &blank, true), vec![(1, 1)]);
}

#[test]
fn path_length_is_one_more_than_the_rounds() {
    let mut grid = OccupancyGrid::new(9, 9).unwrap();
    for r in 0..8 {
        grid.set_blocked((r, 2), true);
    }
    for r in 1..9 {
        grid.set_blocked((r, 5), true);
    }
    for res in [v1(&grid, (0, 0), (8, 8)), v2(&grid, (0, 0), (8, 8)), v3(&grid, (0, 0), (8, 8))] {
        assert_eq!(res.outcome, Outcome::Found);
        assert_eq!(res.path.len(), res.rounds + 1);
        assert_eq!(res.labels.get((0, 0)), res.rounds as u64 + 1);
    }
    // around both walls in orthogonal steps: 8 down, 3 right, 8 up, 3 right, 8 down, 2 right
    assert_eq!(v2(&grid, (0, 0), (8, 8)).rounds, 32);
    // with diagonal steps the corners are cut
    assert_eq!(v3(&grid, (0, 0), (8, 8)).rounds, 24);
    let hybrid = v4(&grid, (0, 0), (8, 8));
    assert_eq!(hybrid.rounds, 32);
    assert!(hybrid.path.len() <= hybrid.rounds + 1);
    assert!(hybrid.path.len() < 33);
}
