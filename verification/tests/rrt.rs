use pathfinder::grid::OccupancyGrid;
use pathfinder::plan::Outcome;
use pathfinder::rrt::v1;
use pathfinder::tree::TreeConfig;
use rand::rngs::StdRng;
use rand::SeedableRng;

#[test]
fn first_form_returns_flat_edges() {
    let grid = OccupancyGrid::new(30, 30).unwrap();
    let cfg = TreeConfig::standard();
    let (path, edges, outcome) = v1(&grid, (0, 0), (29, 29), &cfg, &mut StdRng::seed_from_u64(9));
    assert_eq!(edges.len(), 90);
    assert_eq!(edges[0], (0, 0, 0, 0));
    assert_eq!(outcome, Outcome::Found);
    assert_eq!(path[0], (0, 0));
    assert_eq!(*path.last().unwrap(), (29, 29));
    // every edge starts at a node that is in the tree
    for edge in &edges {
        assert!(edges.iter().any(|e| (e.0, e.1) == (edge.2, edge.3)));
    }
}

#[test]
fn first_form_is_repeatable_with_a_fixed_seed() {
    let mut grid = OccupancyGrid::new(30, 30).unwrap();
    for r in 0..20 {
        grid.set_blocked((r, 15), true);
    }
    let cfg = TreeConfig::standard();
    let a = v1(&grid, (0, 0), (29, 29), &cfg, &mut StdRng::seed_from_u64(21));
    let b = v1(&grid, (0, 0), (29, 29), &cfg, &mut StdRng::seed_from_u64(21));
    assert_eq!(a, b);
    for cell in &a.0 {
        assert!(!grid.is_blocked(*cell));
    }
}

#[test]
fn first_form_budget_of_one_and_same_cell() {
    let grid = OccupancyGrid::new(30, 30).unwrap();
    let mut cfg = TreeConfig::standard();
    let (path, edges, outcome) = v1(&grid, (5, 5), (5, 5), &cfg, &mut StdRng::seed_from_u64(2));
    assert_eq!(outcome, Outcome::Found);
    assert_eq!(path, vec![(5, 5)]);
    assert_eq!(edges, vec![(5, 5, 5, 5)]);
    cfg.max_nodes = 1;
    let (path, edges, outcome) = v1(&grid, (5, 5), (25, 25), &cfg, &mut StdRng::seed_from_u64(2));
    assert_eq!(outcome, Outcome::ResourceExhausted);
    assert_eq!(path, vec![(5, 5)]);
    assert_eq!(edges, vec![(5, 5, 5, 5)]);
}

#[test]
fn first_form_rejects_invalid_input() {
    let grid = OccupancyGrid::new(10, 10).unwrap();
    let cfg = TreeConfig::standard();
    let (path, edges, outcome) = v1(&grid, (10, 0), (5, 5), &cfg, &mut StdRng::seed_from_u64(2));
    assert_eq!(outcome, Outcome::InvalidInput);
    assert!(path.is_empty());
    assert!(edges.is_empty());
}
