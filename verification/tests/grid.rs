use pathfinder::grid::{
    diagonal_cells, distance, orthogonal_cells, CellMap, OccupancyGrid, MAX_CELLS, MAX_SIDE,
};
use pathfinder::line::{line_of_sight, rasterize};

#[test]
fn new_grid_is_free_everywhere() {
    let grid = OccupancyGrid::new(3, 4).unwrap();
    assert_eq!(grid.rows(), 3);
    assert_eq!(grid.cols(), 4);
    for r in 0..3 {
        for c in 0..4 {
            assert!(!grid.is_blocked((r, c)));
        }
    }
}

#[test]
fn outside_the_grid_counts_as_blocked() {
    let grid = OccupancyGrid::new(3, 4).unwrap();
    assert!(grid.is_blocked((3, 0)));
    assert!(grid.is_blocked((0, 4)));
    assert!(!grid.contains((3, 3)));
    assert!(grid.contains((2, 3)));
}

#[test]
fn oversized_grid_is_refused() {
    assert!(OccupancyGrid::new(usize::MAX, 2).is_none());
    assert!(OccupancyGrid::new(MAX_CELLS, 2).is_none());
    assert!(CellMap::new(usize::MAX, usize::MAX, 0u8).is_none());
}

#[test]
fn set_blocked_marks_one_cell() {
    let mut grid = OccupancyGrid::new(3, 3).unwrap();
    assert!(grid.set_blocked((1, 2), true));
    assert!(grid.is_blocked((1, 2)));
    assert!(!grid.is_blocked((2, 1)));
    assert!(!grid.is_blocked((1, 1)));
    assert!(grid.set_blocked((1, 2), false));
    assert!(!grid.is_blocked((1, 2)));
    assert!(!grid.set_blocked((3, 3), true));
}

#[test]
fn from_area_reads_walls_column_after_column() {
    // 2 rows, 3 columns; index = col * rows + row
    let area = vec![0, u64::MAX, 0, 0, u64::MAX, 7];
    let grid = OccupancyGrid::from_area(&area, 2, 3).unwrap();
    assert!(grid.is_blocked((1, 0)));
    assert!(grid.is_blocked((0, 2)));
    assert!(!grid.is_blocked((0, 0)));
    assert!(!grid.is_blocked((1, 2)));
    assert!(OccupancyGrid::from_area(&area, 2, 2).is_none());
}

#[test]
fn cell_map_get_set_and_flat_order() {
    let mut m = CellMap::new(2, 3, 0u64).unwrap();
    m.set((1, 2), 9);
    m.set((0, 1), 4);
    assert_eq!(m.get((1, 2)), 9);
    assert_eq!(m.get((0, 1)), 4);
    assert_eq!(m.get((0, 0)), 0);
    assert_eq!(m.size(), 6);
    assert_eq!(m.into_vec(), vec![0, 0, 4, 0, 0, 9]);
}

#[test]
fn neighbors_in_the_middle() {
    let grid = OccupancyGrid::new(3, 3).unwrap();
    assert_eq!(grid.neighbors4((1, 1)), vec![(1, 0), (1, 2), (0, 1), (2, 1)]);
    assert_eq!(grid.diagonals((1, 1)), vec![(0, 0), (2, 0), (0, 2), (2, 2)]);
    assert_eq!(
        grid.neighbors8((1, 1)),
        vec![(0, 0), (2, 0), (0, 2), (2, 2), (1, 0), (1, 2), (0, 1), (2, 1)]
    );
}

#[test]
fn neighbors_in_a_corner_stay_in_bounds() {
    let grid = OccupancyGrid::new(3, 3).unwrap();
    assert_eq!(grid.neighbors4((0, 0)), vec![(0, 1), (1, 0)]);
    assert_eq!(grid.neighbors8((0, 0)), vec![(1, 1), (0, 1), (1, 0)]);
    assert_eq!(grid.neighbors4((2, 2)), vec![(2, 1), (1, 2)]);
    assert_eq!(grid.neighbors8((2, 2)), vec![(1, 1), (2, 1), (1, 2)]);
}

#[test]
fn neighbors_of_a_single_cell_grid() {
    let grid = OccupancyGrid::new(1, 1).unwrap();
    assert!(grid.neighbors4((0, 0)).is_empty());
    assert!(grid.neighbors8((0, 0)).is_empty());
}

#[test]
fn line_of_sight_on_an_open_grid() {
    let grid = OccupancyGrid::new(10, 10).unwrap();
    assert!(line_of_sight(&grid, (0, 0), (9, 9)));
    assert!(line_of_sight(&grid, (9, 0), (0, 9)));
    assert!(line_of_sight(&grid, (3, 7), (3, 1)));
    assert!(line_of_sight(&grid, (8, 2), (1, 3)));
}

#[test]
fn line_of_sight_stops_at_an_obstacle() {
    let mut grid = OccupancyGrid::new(10, 10).unwrap();
    grid.set_blocked((5, 5), true);
    assert!(!line_of_sight(&grid, (0, 0), (9, 9)));
    assert!(line_of_sight(&grid, (0, 0), (4, 4)));
    assert!(line_of_sight(&grid, (0, 9), (9, 9)));
}

#[test]
fn line_of_sight_counts_both_ends() {
    let mut grid = OccupancyGrid::new(5, 5).unwrap();
    grid.set_blocked((4, 4), true);
    assert!(!line_of_sight(&grid, (0, 0), (4, 4)));
    assert!(!line_of_sight(&grid, (4, 4), (0, 0)));
    assert!(!line_of_sight(&grid, (4, 3), (4, 4)));
}

#[test]
fn line_of_sight_of_a_cell_to_itself_is_clear() {
    let mut grid = OccupancyGrid::new(5, 5).unwrap();
    grid.set_blocked((2, 2), true);
    assert!(line_of_sight(&grid, (2, 2), (2, 2)));
    assert!(line_of_sight(&grid, (1, 1), (1, 1)));
}

#[test]
fn line_of_sight_through_a_wall_column() {
    let mut grid = OccupancyGrid::new(6, 6).unwrap();
    for r in 0..6 {
        grid.set_blocked((r, 3), true);
    }
    assert!(!line_of_sight(&grid, (2, 0), (2, 5)));
    assert!(!line_of_sight(&grid, (0, 1), (5, 4)));
    assert!(line_of_sight(&grid, (0, 0), (5, 2)));
}

#[test]
fn rasterize_walks_the_midpoint_line() {
    assert_eq!(rasterize((0, 0), (3, 1)), vec![(0, 0), (1, 0), (2, 1), (3, 1)]);
    assert_eq!(rasterize((0, 0), (1, 3)), vec![(0, 0), (0, 1), (1, 2), (1, 3)]);
    assert_eq!(rasterize((3, 1), (0, 0)), vec![(3, 1), (2, 1), (1, 0), (0, 0)]);
    assert_eq!(rasterize((0, 0), (3, 3)), vec![(0, 0), (1, 1), (2, 2), (3, 3)]);
    assert_eq!(rasterize((2, 5), (2, 2)), vec![(2, 5), (2, 4), (2, 3), (2, 2)]);
    assert_eq!(rasterize((4, 0), (0, 2)), vec![(4, 0), (3, 0), (2, 1), (1, 1), (0, 2)]);
}

#[test]
fn rasterize_of_a_single_cell() {
    assert_eq!(rasterize((2, 2), (2, 2)), vec![(2, 2)]);
}

#[test]
fn line_of_sight_is_the_freedom_of_the_rasterized_cells() {
    let mut grid = OccupancyGrid::new(8, 8).unwrap();
    grid.set_blocked((2, 1), true);
    grid.set_blocked((4, 6), true);
    for p1 in [(0, 0), (7, 0), (3, 3), (0, 7)] {
        for r in 0..8 {
            for c in 0..8 {
                let p2 = (r, c);
                let free = rasterize(p1, p2).iter().all(|cell| !grid.is_blocked(*cell));
                assert_eq!(line_of_sight(&grid, p1, p2), p1 == p2 || free);
            }
        }
    }
}

#[test]
fn grid_limits() {
    assert_eq!(MAX_SIDE, 0x7fff_ffff);
    assert_eq!(MAX_CELLS, usize::MAX / 16384);
    assert!(OccupancyGrid::new(MAX_SIDE + 1, 1).is_none());
    assert!(OccupancyGrid::new(1, MAX_SIDE + 1).is_none());
    assert!(OccupancyGrid::new(0, 0).is_some());
    assert!(OccupancyGrid::new(0, 5).is_some());
}

#[test]
fn layers_have_the_shape_of_the_grid() {
    let grid = OccupancyGrid::new(3, 5).unwrap();
    assert_eq!(grid.size(), 15);
    let layer = grid.layer(7u8);
    assert_eq!(layer.rows(), 3);
    assert_eq!(layer.cols(), 5);
    assert_eq!(layer.size(), 15);
    assert!(layer.contains((2, 4)));
    assert!(!layer.contains((3, 4)));
    assert!(!layer.contains((2, 5)));
    assert_eq!(layer.get((2, 4)), 7);
    let other = layer.same_shape(false);
    assert_eq!(other.rows(), 3);
    assert_eq!(other.cols(), 5);
    assert_eq!(other.into_vec(), vec![false; 15]);
}

#[test]
fn neighbors_by_connectivity() {
    let grid = OccupancyGrid::new(4, 4).unwrap();
    assert_eq!(grid.neighbors((1, 1), false), grid.neighbors4((1, 1)));
    assert_eq!(grid.neighbors((1, 1), true), grid.neighbors8((1, 1)));
    assert_eq!(orthogonal_cells(4, 4, (0, 3)), vec![(0, 2), (1, 3)]);
    assert_eq!(diagonal_cells(4, 4, (0, 3)), vec![(1, 2)]);
    assert_eq!(orthogonal_cells(4, 4, (3, 0)), vec![(3, 1), (2, 0)]);
    assert_eq!(diagonal_cells(4, 4, (3, 0)), vec![(2, 1)]);
}

#[test]
fn neighbors_of_a_position_off_the_grid() {
    let grid = OccupancyGrid::new(3, 3).unwrap();
    assert_eq!(grid.neighbors4((3, 1)), vec![(2, 1)]);
    assert_eq!(grid.neighbors8((3, 3)), vec![(2, 2)]);
    assert!(grid.neighbors8((9, 9)).is_empty());
    assert!(grid.neighbors8((usize::MAX, usize::MAX)).is_empty());
}

#[test]
fn manhattan_distance() {
    assert_eq!(distance((0, 0), (3, 4)), 7);
    assert_eq!(distance((3, 4), (0, 0)), 7);
    assert_eq!(distance((5, 1), (2, 6)), 8);
    assert_eq!(distance((2, 2), (2, 2)), 0);
}
