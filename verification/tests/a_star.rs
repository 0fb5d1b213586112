use pathfinder::a_star::{calculate, find_path, labels, Field, DIAGONAL_COST, STEP_COST, WALL};
use pathfinder::double::{DIAGONAL, UNIT};
use pathfinder::grid::{CellMap, OccupancyGrid};
use pathfinder::plan::Outcome;

fn neighbours(a: (usize, usize), b: (usize, usize)) -> bool {
    a != b && a.0.abs_diff(b.0) <= 1 && a.1.abs_diff(b.1) <= 1
}

/// The number that a double holds, as a multiple of 2 to the -52.
fn held(x: f64) -> u128 {
    (x * 4503599627370496.0) as u128
}

/// The double that a multiple of 2 to the -52 stands for.
fn double(cost: u128) -> f64 {
    cost as f64 / 4503599627370496.0
}

#[test]
fn a_star_step_costs_are_one_and_seven_fifths() {
    assert_eq!(STEP_COST, UNIT);
    assert_eq!(DIAGONAL_COST, DIAGONAL);
    assert_eq!(STEP_COST, held(1.0));
    assert_eq!(DIAGONAL_COST, held(1.4));
    assert_eq!(double(DIAGONAL_COST), 1.4);
}

#[test]
fn a_star_three_by_three_diagonal() {
    let grid = OccupancyGrid::new(3, 3).unwrap();
    let res = calculate(&grid, (0, 0), (2, 2));
    assert_eq!(res.outcome, Outcome::Found);
    assert_eq!(res.path, vec![(0, 0), (1, 1), (2, 2)]);
    assert_eq!(res.rounds, 2);
    let goal = res.fields.get((2, 2));
    assert!(goal.known);
    assert!(!goal.processed);
    assert_eq!(goal.cost, held(1.4 + 1.4));
    assert_eq!(goal.estimate, 28);
    assert_eq!(goal.dist, 0);
    assert_eq!(goal.prev, Some((1, 1)));
    let side = res.fields.get((0, 1));
    assert_eq!(side.cost, STEP_COST);
    assert_eq!(side.estimate, 40);
    assert_eq!(side.dist, 3);
    assert_eq!(side.prev, Some((0, 0)));
    let middle = res.fields.get((1, 1));
    assert!(middle.processed);
    assert_eq!(middle.cost, DIAGONAL_COST);
    assert_eq!(middle.estimate, 34);
    let start = res.fields.get((0, 0));
    assert!(start.processed);
    assert_eq!(start.cost, 0);
    assert_eq!(start.estimate, 40);
    assert_eq!(start.prev, None);
}

#[test]
fn a_star_labels_are_estimates_in_whole_steps() {
    let grid = OccupancyGrid::new(3, 3).unwrap();
    let res = calculate(&grid, (0, 0), (2, 2));
    // column after column: (0,0) (1,0) (2,0) (0,1) (1,1) (2,1) (0,2) (1,2) (2,2)
    assert_eq!(labels(&grid, &res.fields).into_vec(), vec![4, 4, 4, 4, 3, 3, 4, 3, 2]);
}

#[test]
fn a_star_expands_every_tied_cell_in_one_round() {
    let mut grid = OccupancyGrid::new(3, 3).unwrap();
    grid.set_blocked((1, 1), true);
    let res = calculate(&grid, (0, 1), (2, 1));
    assert_eq!(res.outcome, Outcome::Found);
    assert_eq!(res.rounds, 2);
    assert_eq!(res.path, vec![(0, 1), (1, 0), (2, 1)]);
    // both cells with estimate 34 were expanded, so both far corners are known
    assert!(res.fields.get((1, 0)).processed);
    assert!(res.fields.get((1, 2)).processed);
    assert!(res.fields.get((2, 0)).known);
    assert!(res.fields.get((2, 2)).known);
    assert_eq!(res.fields.get((2, 0)).prev, Some((1, 0)));
    assert_eq!(res.fields.get((2, 2)).prev, Some((1, 2)));
    // the first of the tied cells reached the goal, the second was not cheaper
    assert_eq!(res.fields.get((2, 1)).prev, Some((1, 0)));
    assert_eq!(res.fields.get((2, 1)).cost, held(1.4 + 1.4));
    // the cells with the higher estimate stayed open
    assert!(!res.fields.get((0, 0)).processed);
    assert!(!res.fields.get((0, 2)).processed);
}

#[test]
fn a_star_obstacles_are_final_and_without_cost() {
    let mut grid = OccupancyGrid::new(3, 3).unwrap();
    grid.set_blocked((1, 1), true);
    let res = calculate(&grid, (0, 1), (2, 1));
    let wall = res.fields.get((1, 1));
    assert!(wall.known);
    assert!(wall.processed);
    assert_eq!(wall.estimate, WALL);
    assert_eq!(wall.cost, u128::MAX);
    assert_eq!(wall.prev, None);
    assert_eq!(labels(&grid, &res.fields).get((1, 1)), WALL);
}

#[test]
fn a_star_start_equals_goal() {
    let grid = OccupancyGrid::new(4, 4).unwrap();
    let res = calculate(&grid, (3, 2), (3, 2));
    assert_eq!(res.outcome, Outcome::Found);
    assert_eq!(res.path, vec![(3, 2)]);
    assert_eq!(res.rounds, 0);
    assert!(!res.fields.get((3, 2)).processed);
    assert!(!res.fields.get((2, 2)).known);
}

#[test]
fn a_star_wall_column_is_unreachable() {
    let mut grid = OccupancyGrid::new(6, 7).unwrap();
    for r in 0..6 {
        grid.set_blocked((r, 3), true);
    }
    let res = calculate(&grid, (2, 0), (2, 6));
    assert_eq!(res.outcome, Outcome::Unreachable);
    assert!(res.path.is_empty());
    assert!(!res.fields.get((2, 6)).known);
    for r in 0..6 {
        for c in 0..3 {
            assert!(res.fields.get((r, c)).processed);
        }
        for c in 4..7 {
            assert!(!res.fields.get((r, c)).known);
        }
    }
    // one cell per round at least: the 18 cells on the near side
    assert!(res.rounds <= 18);
}

#[test]
fn a_star_rejects_invalid_endpoints() {
    let mut grid = OccupancyGrid::new(4, 4).unwrap();
    grid.set_blocked((1, 1), true);
    for (start, goal) in [((1, 1), (3, 3)), ((0, 0), (1, 1)), ((4, 0), (3, 3)), ((0, 0), (0, 4))] {
        let res = calculate(&grid, start, goal);
        assert_eq!(res.outcome, Outcome::InvalidInput);
        assert!(res.path.is_empty());
        assert_eq!(res.rounds, 0);
        assert!(!res.fields.get((0, 0)).known);
        assert!(!res.fields.get((1, 1)).known);
    }
}

#[test]
fn a_star_path_runs_over_free_touching_cells() {
    let mut grid = OccupancyGrid::new(9, 9).unwrap();
    for r in 0..8 {
        grid.set_blocked((r, 2), true);
    }
    for r in 1..9 {
        grid.set_blocked((r, 5), true);
    }
    let res = calculate(&grid, (0, 0), (8, 8));
    assert_eq!(res.outcome, Outcome::Found);
    assert_eq!(res.path[0], (0, 0));
    assert_eq!(*res.path.last().unwrap(), (8, 8));
    for cell in &res.path {
        assert!(!grid.is_blocked(*cell));
    }
    for pair in res.path.windows(2) {
        assert!(neighbours(pair[0], pair[1]));
    }
}

#[test]
fn a_star_costs_add_up_along_predecessors() {
    let mut grid = OccupancyGrid::new(7, 7).unwrap();
    for c in 1..6 {
        grid.set_blocked((3, c), true);
    }
    let res = calculate(&grid, (0, 3), (6, 3));
    assert_eq!(res.outcome, Outcome::Found);
    for r in 0..7 {
        for c in 0..7 {
            let f = res.fields.get((r, c));
            if f.known && !grid.is_blocked((r, c)) {
                assert_eq!(f.estimate, (double(f.cost) * 10.0) as u64 + 10 * f.dist as u64);
                assert_eq!(f.dist, r.abs_diff(6) + c.abs_diff(3));
                match f.prev {
                    None => assert_eq!((r, c), (0, 3)),
                    Some(p) => {
                        let before = res.fields.get(p);
                        let step = if p.0 != r && p.1 != c { 1.4 } else { 1.0 };
                        assert!(before.processed);
                        assert_eq!(f.cost, held(double(before.cost) + step));
                        assert!(f.cost > before.cost);
                    }
                }
            }
        }
    }
}

#[test]
fn a_star_runs_are_repeatable() {
    let mut grid = OccupancyGrid::new(8, 8).unwrap();
    for r in 2..8 {
        grid.set_blocked((r, 4), true);
    }
    let a = calculate(&grid, (7, 0), (7, 7));
    let b = calculate(&grid, (7, 0), (7, 7));
    assert_eq!(a.outcome, b.outcome);
    assert_eq!(a.path, b.path);
    assert_eq!(a.rounds, b.rounds);
    assert_eq!(labels(&grid, &a.fields).into_vec(), labels(&grid, &b.fields).into_vec());
}

fn record(prev: Option<(usize, usize)>, cost: u128) -> Field {
    Field { known: true, processed: true, prev, cost, estimate: 0, dist: 0 }
}

#[test]
fn a_star_find_path_walks_the_predecessors() {
    let blank = Field { known: false, processed: false, prev: None, cost: 0, estimate: 0, dist: 0 };
    let mut fields = CellMap::new(2, 3, blank).unwrap();
    fields.set((0, 0), record(None, 0));
    fields.set((1, 1), record(Some((0, 0)), 14));
    fields.set((1, 2), record(Some((1, 1)), 24));
    assert_eq!(find_path((1, 2), &fields), vec![(0, 0), (1, 1), (1, 2)]);
    assert_eq!(find_path((0, 0), &fields), vec![(0, 0)]);
    assert_eq!(find_path((0, 2), &fields), vec![(0, 2)]);
}

#[test]
fn a_star_find_path_never_leaves_the_map() {
    let blank = Field { known: false, processed: false, prev: None, cost: 0, estimate: 0, dist: 0 };
    let mut fields = CellMap::new(2, 2, blank).unwrap();
    // a predecessor outside the map, and a loop of two cells
    fields.set((0, 0), record(Some((5, 5)), 10));
    fields.set((0, 1), record(Some((1, 1)), 20));
    fields.set((1, 1), record(Some((0, 1)), 20));
    assert_eq!(find_path((0, 0), &fields), vec![(0, 0)]);
    assert_eq!(find_path((0, 1), &fields), vec![(0, 1)]);
    assert_eq!(find_path((1, 1), &fields), vec![(1, 1)]);
}

#[test]
fn a_star_estimates_cut_off_what_rounding_leaves() {
    // three diagonal steps cost a little less than 4.2, so ten times that is
    // cut off to 41
    let grid = OccupancyGrid::new(4, 8).unwrap();
    let res = calculate(&grid, (0, 0), (3, 7));
    let third = res.fields.get((3, 3));
    assert!(third.known);
    assert_eq!(third.cost, held(1.4 + 1.4 + 1.4));
    assert_eq!(third.dist, 4);
    assert_eq!(third.estimate, 41 + 40);
    let second = res.fields.get((2, 2));
    assert_eq!(second.estimate, 28 + 60);
    assert_eq!(labels(&grid, &res.fields).get((3, 3)), 8);
}

/// What a search in double precision records of a cell, and the cost with
/// which the cell was first reached.
#[derive(Clone, Copy)]
struct Record {
    known: bool,
    processed: bool,
    prev: Option<(usize, usize)>,
    cost: f64,
    estimate: u64,
    dist: usize,
    first: f64,
}

/// The search in double precision: records by cell, and the number of rounds.
fn in_doubles(grid: &OccupancyGrid, start: (usize, usize), goal: (usize, usize)) -> (Vec<Vec<Record>>, usize) {
    let (rows, cols) = (grid.rows(), grid.cols());
    let blank = Record { known: false, processed: false, prev: None, cost: 0.0, estimate: 0, dist: 0, first: 0.0 };
    let wall =
        Record { known: true, processed: true, prev: None, cost: f64::MAX, estimate: u64::MAX, dist: 0, first: f64::MAX };
    let mut records = vec![vec![blank; cols]; rows];
    let far = |cell: (usize, usize)| cell.0.abs_diff(goal.0) + cell.1.abs_diff(goal.1);
    let estimate = |cost: f64, dist: usize| (cost * 10.0) as u64 + dist as u64 * 10;
    records[start.0][start.1] = Record {
        known: true,
        processed: false,
        prev: None,
        cost: 0.0,
        estimate: estimate(0.0, far(start)),
        dist: far(start),
        first: 0.0,
    };
    let mut open = vec![start];
    let mut rounds = 0;
    while !records[goal.0][goal.1].known && !open.is_empty() {
        let lowest = open.iter().map(|c| records[c.0][c.1].estimate).min().unwrap();
        let batch: Vec<_> = open.iter().copied().filter(|c| records[c.0][c.1].estimate == lowest).collect();
        let mut next: Vec<_> = open.iter().copied().filter(|c| records[c.0][c.1].estimate != lowest).collect();
        for cur in batch {
            records[cur.0][cur.1].processed = true;
            let base = records[cur.0][cur.1].cost;
            let steps: [(i64, i64); 8] = [(-1, -1), (1, -1), (-1, 1), (1, 1), (0, -1), (0, 1), (-1, 0), (1, 0)];
            for (dr, dc) in steps {
                let r = cur.0 as i64 + dr;
                let c = cur.1 as i64 + dc;
                if r < 0 || c < 0 || r >= rows as i64 || c >= cols as i64 {
                    continue;
                }
                let q = (r as usize, c as usize);
                let seen = records[q.0][q.1];
                if grid.is_blocked(q) {
                    records[q.0][q.1] = wall;
                    continue;
                }
                if seen.processed {
                    continue;
                }
                let cost = base + if dr != 0 && dc != 0 { 1.4 } else { 1.0 };
                if !seen.known {
                    records[q.0][q.1] = Record {
                        known: true,
                        processed: false,
                        prev: Some(cur),
                        cost,
                        estimate: estimate(cost, far(q)),
                        dist: far(q),
                        first: cost,
                    };
                    next.push(q);
                } else if cost < seen.cost {
                    records[q.0][q.1] = Record {
                        known: true,
                        processed: false,
                        prev: Some(cur),
                        cost,
                        estimate: estimate(cost, seen.dist),
                        dist: seen.dist,
                        first: seen.first,
                    };
                }
            }
        }
        open = next;
        rounds += 1;
    }
    (records, rounds)
}

#[test]
fn a_star_records_are_those_of_a_search_in_double_precision() {
    let mut state = 99u64;
    let mut compared = 0;
    let mut lowered = 0;
    for round in 0..40u64 {
        let (rows, cols) = (9 + (round % 5) as usize, 11 + (round % 7) as usize);
        let mut grid = OccupancyGrid::new(rows, cols).unwrap();
        for r in 0..rows {
            for c in 0..cols {
                state = state.wrapping_mul(6364136223846793005).wrapping_add(1442695040888963407);
                if (state >> 33) % 100 < 15 + round % 20 {
                    grid.set_blocked((r, c), true);
                }
            }
        }
        let start = (0, 0);
        let goal = (rows - 1, cols - 1);
        grid.set_blocked(start, false);
        grid.set_blocked(goal, false);
        let res = calculate(&grid, start, goal);
        let (records, rounds) = in_doubles(&grid, start, goal);
        assert_eq!(res.rounds, rounds);
        for r in 0..rows {
            for c in 0..cols {
                let field = res.fields.get((r, c));
                let record = records[r][c];
                assert_eq!(field.known, record.known);
                assert_eq!(field.processed, record.processed);
                assert_eq!(field.prev, record.prev);
                assert_eq!(field.estimate, record.estimate);
                assert_eq!(field.dist, record.dist);
                if record.known && !grid.is_blocked((r, c)) {
                    assert_eq!(field.cost, held(record.cost));
                    compared += 1;
                    // the cost of a cell never rises above that of its first record
                    assert!(field.cost <= held(record.first));
                    if field.cost < held(record.first) {
                        lowered += 1;
                    }
                }
            }
        }
    }
    assert!(compared > 1000);
    assert!(lowered > 0);
}

#[test]
fn a_star_obstacles_are_known_once_a_neighbour_is_expanded() {
    let mut grid = OccupancyGrid::new(3, 9).unwrap();
    grid.set_blocked((0, 1), true);
    grid.set_blocked((2, 8), true);
    let res = calculate(&grid, (1, 0), (1, 3));
    assert_eq!(res.outcome, Outcome::Found);
    // next to the start
    let near = res.fields.get((0, 1));
    assert!(near.known);
    assert!(near.processed);
    assert_eq!(near.estimate, WALL);
    // far beyond the goal: never reached
    let far = res.fields.get((2, 8));
    assert!(!far.known);
    assert!(!far.processed);
    // the labels show both
    let shown = labels(&grid, &res.fields);
    assert_eq!(shown.get((0, 1)), WALL);
    assert_eq!(shown.get((2, 8)), WALL);
    assert_eq!(shown.get((1, 8)), 0);
}
