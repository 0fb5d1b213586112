use pathfinder::grid::OccupancyGrid;
use pathfinder::plan::Outcome;
use pathfinder::tree::{
    extend_tree, find_path, get_range, grow_tree, is_captured, is_in_range, locate, rrt_v1, rrt_v2,
    same_cell, trace, tree_edges, Node, TreeConfig, END_POSITION, MAX_NODES, REWIRE_DISTANCE_FACTOR,
    SAMPLE_LIMIT, STEP_DISTANCE,
};
use rand::rngs::StdRng;
use rand::SeedableRng;

#[test]
fn get_range_is_a_square_around_the_position() {
    assert_eq!(get_range((10, 20), 5), ((5, 15), (15, 25)));
    assert_eq!(get_range((10, 20), 0), ((10, 10), (20, 20)));
}

#[test]
fn get_range_is_cut_off_at_zero() {
    assert_eq!(get_range((3, 0), 5), ((0, 8), (0, 5)));
}

#[test]
fn get_range_is_cut_off_at_the_top() {
    assert_eq!(
        get_range((usize::MAX - 1, 4), 5),
        ((usize::MAX - 6, usize::MAX), (0, 9))
    );
}

#[test]
fn get_range_with_a_negative_radius_is_empty() {
    let range = get_range((10, 10), -2);
    assert_eq!(range, ((12, 8), (12, 8)));
    assert!(!is_in_range((10, 10), range));
}

#[test]
fn is_in_range_includes_the_border() {
    let range = get_range((10, 20), 5);
    assert!(is_in_range((5, 15), range));
    assert!(is_in_range((15, 25), range));
    assert!(is_in_range((10, 20), range));
    assert!(!is_in_range((4, 20), range));
    assert!(!is_in_range((16, 20), range));
    assert!(!is_in_range((10, 14), range));
    assert!(!is_in_range((10, 26), range));
}

#[test]
fn capture_is_a_square_around_the_goal() {
    assert!(is_captured((17, 17), (19, 19), 5));
    assert!(is_captured((14, 24), (19, 19), 5));
    assert!(!is_captured((13, 19), (19, 19), 5));
    assert!(is_captured((19, 19), (19, 19), 0));
    assert!(!is_captured((19, 19), (19, 19), -1));
    assert!(same_cell((3, 4), (3, 4)));
    assert!(!same_cell((3, 4), (4, 3)));
}

#[test]
fn standard_configuration() {
    let cfg = TreeConfig::standard();
    assert_eq!(cfg.max_nodes, MAX_NODES);
    assert_eq!(cfg.max_nodes, 16383);
    assert_eq!(cfg.step_distance, STEP_DISTANCE);
    assert_eq!(cfg.step_distance, 10);
    assert_eq!(cfg.capture_radius, END_POSITION);
    assert_eq!(cfg.capture_radius, 5);
    assert_eq!(cfg.rewire_factor, REWIRE_DISTANCE_FACTOR);
    assert_eq!(cfg.rewire_factor, 2);
    assert_eq!(cfg.sample_limit, SAMPLE_LIMIT);
    assert!(cfg.is_valid());
    let usual = TreeConfig::default();
    assert_eq!(usual.max_nodes, cfg.max_nodes);
    assert_eq!(usual.step_distance, cfg.step_distance);
    assert_eq!(usual.capture_radius, cfg.capture_radius);
    assert_eq!(usual.rewire_factor, cfg.rewire_factor);
    assert_eq!(usual.sample_limit, cfg.sample_limit);
    let mut bad = cfg;
    bad.step_distance = 0;
    assert!(!bad.is_valid());
    bad.step_distance = 0x1_0000;
    assert!(!bad.is_valid());
    bad.step_distance = 10;
    bad.rewire_factor = 0x8000;
    assert!(!bad.is_valid());
}

#[test]
fn tree_grows_towards_given_targets() {
    let grid = OccupancyGrid::new(20, 20).unwrap();
    let cfg = TreeConfig::standard();
    let targets = vec![(0, 15), (19, 10), (19, 19)];
    let res = grow_tree(&grid, (0, 0), (19, 19), &cfg, &targets, false, true);
    assert_eq!(res.outcome, Outcome::Found);
    assert_eq!(res.path, vec![(0, 0), (0, 10), (10, 10), (19, 19)]);
    assert_eq!(
        res.tree,
        vec![
            ((0, 0), (0, 0)),
            ((0, 10), (0, 0)),
            ((10, 10), (0, 10)),
            ((19, 19), (10, 10)),
        ]
    );
}

#[test]
fn star_tree_hangs_new_nodes_below_the_best_parent() {
    let grid = OccupancyGrid::new(20, 20).unwrap();
    let cfg = TreeConfig::standard();
    let targets = vec![(0, 15), (19, 10), (19, 19)];
    let res = grow_tree(&grid, (0, 0), (19, 19), &cfg, &targets, true, true);
    assert_eq!(res.outcome, Outcome::Found);
    // every node has a clear way to the root, and none is shorter
    assert_eq!(
        res.tree,
        vec![
            ((0, 0), (0, 0)),
            ((0, 10), (0, 0)),
            ((10, 10), (0, 0)),
            ((19, 19), (0, 0)),
        ]
    );
    assert_eq!(res.path, vec![(0, 0), (19, 19)]);
}

#[test]
fn targets_off_the_grid_or_behind_walls_add_nothing() {
    let mut grid = OccupancyGrid::new(20, 20).unwrap();
    grid.set_blocked((0, 1), true);
    grid.set_blocked((1, 1), true);
    grid.set_blocked((1, 0), true);
    let cfg = TreeConfig::standard();
    let targets = vec![(20, 3), (3, 20), (5, 5), (0, 9), (9, 0)];
    let res = grow_tree(&grid, (0, 0), (19, 19), &cfg, &targets, false, true);
    assert_eq!(res.outcome, Outcome::ResourceExhausted);
    assert_eq!(res.tree, vec![((0, 0), (0, 0))]);
    assert_eq!(res.path, vec![(0, 0)]);
}

#[test]
fn a_target_on_a_node_adds_a_node_in_place() {
    let grid = OccupancyGrid::new(20, 20).unwrap();
    let cfg = TreeConfig::standard();
    let res = grow_tree(&grid, (3, 3), (19, 19), &cfg, &vec![(3, 3)], false, true);
    assert_eq!(res.tree, vec![((3, 3), (3, 3)), ((3, 3), (3, 3))]);
    assert_eq!(res.outcome, Outcome::ResourceExhausted);
}

#[test]
fn growth_stops_at_the_node_budget() {
    // 5 x 8 cells at 10 cells a node: 4 nodes
    let grid = OccupancyGrid::new(5, 8).unwrap();
    let mut cfg = TreeConfig::standard();
    cfg.capture_radius = 0;
    let targets = vec![(0, 1), (0, 2), (0, 3), (0, 4), (0, 5), (0, 6)];
    let res = grow_tree(&grid, (0, 0), (4, 7), &cfg, &targets, false, true);
    assert_eq!(res.tree.len(), 4);
    assert_eq!(
        res.tree,
        vec![((0, 0), (0, 0)), ((0, 1), (0, 0)), ((0, 2), (0, 1)), ((0, 3), (0, 2))]
    );
    cfg.max_nodes = 2;
    let res = grow_tree(&grid, (0, 0), (4, 7), &cfg, &targets, false, true);
    assert_eq!(res.tree, vec![((0, 0), (0, 0)), ((0, 1), (0, 0))]);
}

#[test]
fn nodes_on_the_goal_grow_only_when_asked_to() {
    let grid = OccupancyGrid::new(10, 30).unwrap();
    let mut cfg = TreeConfig::standard();
    cfg.capture_radius = 0;
    let targets = vec![(0, 5), (0, 12)];
    let skipping = grow_tree(&grid, (0, 0), (0, 5), &cfg, &targets, false, true);
    assert_eq!(
        skipping.tree,
        vec![((0, 0), (0, 0)), ((0, 5), (0, 0)), ((0, 10), (0, 0))]
    );
    let growing = grow_tree(&grid, (0, 0), (0, 5), &cfg, &targets, false, false);
    assert_eq!(
        growing.tree,
        vec![((0, 0), (0, 0)), ((0, 5), (0, 0)), ((0, 12), (0, 5))]
    );
    assert_eq!(skipping.outcome, Outcome::Found);
    assert_eq!(skipping.path, vec![(0, 0), (0, 5)]);
}

fn root_at(pos: (usize, usize)) -> Node {
    Node { pos, parent: 0, distance: 0 }
}

#[test]
fn rewiring_shortens_the_way_of_a_node_nearby() {
    let grid = OccupancyGrid::new(20, 20).unwrap();
    let cfg = TreeConfig::standard();
    let mut nodes = vec![root_at((5, 0)), Node { pos: (5, 10), parent: 0, distance: 30000 }];
    extend_tree(&grid, &cfg, (19, 19), &mut nodes, (5, 5), true, true);
    assert_eq!(nodes.len(), 3);
    assert_eq!(nodes[2].pos, (5, 5));
    assert_eq!(nodes[2].parent, 0);
    assert_eq!(nodes[2].distance, 5120);
    assert_eq!(nodes[1].pos, (5, 10));
    assert_eq!(nodes[1].parent, 2);
    assert_eq!(nodes[1].distance, 10240);
    assert_eq!(nodes[0].parent, 0);
    assert_eq!(nodes[0].distance, 0);
    assert_eq!(find_path((5, 10), &nodes), vec![(5, 0), (5, 5), (5, 10)]);
}

#[test]
fn rewiring_needs_a_clear_way_and_a_strictly_shorter_one() {
    let mut grid = OccupancyGrid::new(20, 20).unwrap();
    grid.set_blocked((5, 7), true);
    let cfg = TreeConfig::standard();
    // the wall lies between the second node and the new one, not between
    // either and the root
    let mut nodes = vec![root_at((0, 10)), Node { pos: (5, 10), parent: 0, distance: 30000 }];
    extend_tree(&grid, &cfg, (19, 19), &mut nodes, (5, 5), true, true);
    assert_eq!(nodes[2].pos, (5, 5));
    assert_eq!(nodes[2].parent, 0);
    assert_eq!(nodes[2].distance, 7240);
    assert_eq!(nodes[1].parent, 0);
    assert_eq!(nodes[1].distance, 30000);

    let open = OccupancyGrid::new(20, 20).unwrap();
    let mut nodes = vec![root_at((5, 0)), Node { pos: (5, 10), parent: 0, distance: 10240 }];
    extend_tree(&open, &cfg, (19, 19), &mut nodes, (5, 5), true, true);
    assert_eq!(nodes[1].parent, 0);
    assert_eq!(nodes[1].distance, 10240);
}

#[test]
fn rewiring_leaves_nodes_outside_the_radius() {
    let grid = OccupancyGrid::new(20, 40).unwrap();
    let mut cfg = TreeConfig::standard();
    cfg.rewire_factor = 1;
    let mut nodes = vec![root_at((5, 0)), Node { pos: (5, 16), parent: 0, distance: 90000 }];
    extend_tree(&grid, &cfg, (19, 39), &mut nodes, (5, 5), true, true);
    assert_eq!(nodes[2].pos, (5, 5));
    assert_eq!(nodes[1].parent, 0);
    cfg.rewire_factor = 2;
    let mut nodes = vec![root_at((5, 0)), Node { pos: (5, 16), parent: 0, distance: 90000 }];
    extend_tree(&grid, &cfg, (19, 39), &mut nodes, (5, 5), true, true);
    assert_eq!(nodes[1].parent, 2);
    assert_eq!(nodes[1].distance, 5120 + 11264);
}

#[test]
fn a_goal_without_a_clear_way_hangs_below_the_root() {
    let mut grid = OccupancyGrid::new(12, 12).unwrap();
    grid.set_blocked((0, 1), true);
    grid.set_blocked((1, 1), true);
    grid.set_blocked((1, 0), true);
    let cfg = TreeConfig::standard();
    let mut nodes = vec![root_at((8, 8))];
    extend_tree(&grid, &cfg, (0, 0), &mut nodes, (4, 4), true, true);
    assert_eq!(nodes.len(), 2);
    assert_eq!(nodes[1].pos, (0, 0));
    assert_eq!(nodes[1].parent, 0);
    assert_eq!(nodes[1].distance, 11585);
}

#[test]
fn the_nearest_node_grows_and_the_first_wins_a_tie() {
    let grid = OccupancyGrid::new(30, 30).unwrap();
    let cfg = TreeConfig::standard();
    let mut nodes = vec![
        root_at((10, 10)),
        Node { pos: (10, 20), parent: 0, distance: 0 },
        Node { pos: (20, 10), parent: 0, distance: 0 },
    ];
    // (20, 20) is as far from the second node as from the third
    extend_tree(&grid, &cfg, (29, 29), &mut nodes, (20, 20), false, true);
    assert_eq!(nodes.len(), 4);
    assert_eq!(nodes[3].pos, (20, 20));
    assert_eq!(nodes[3].parent, 1);
    assert_eq!(nodes[3].distance, 0);
    // (25, 12) is nearest to the third
    extend_tree(&grid, &cfg, (29, 29), &mut nodes, (25, 12), false, true);
    assert_eq!(nodes[4].pos, (25, 12));
    assert_eq!(nodes[4].parent, 2);
}

#[test]
fn a_node_behind_a_wall_is_passed_over() {
    let mut grid = OccupancyGrid::new(30, 30).unwrap();
    for c in 0..20 {
        grid.set_blocked((15, c), true);
    }
    let cfg = TreeConfig::standard();
    // the tree runs around the end of the wall
    let mut nodes = vec![
        root_at((25, 5)),
        Node { pos: (25, 25), parent: 0, distance: 0 },
        Node { pos: (12, 25), parent: 1, distance: 0 },
        Node { pos: (12, 5), parent: 2, distance: 0 },
    ];
    // the last node is nearest to the target, but the wall is in its way
    extend_tree(&grid, &cfg, (29, 29), &mut nodes, (18, 5), false, true);
    assert_eq!(nodes.len(), 5);
    assert_eq!(nodes[4].pos, (18, 5));
    assert_eq!(nodes[4].parent, 0);
}

#[test]
fn locate_trace_and_edges() {
    let nodes = vec![
        root_at((0, 0)),
        Node { pos: (0, 5), parent: 0, distance: 0 },
        Node { pos: (5, 5), parent: 1, distance: 0 },
        Node { pos: (0, 5), parent: 2, distance: 0 },
    ];
    assert_eq!(locate((0, 5), &nodes), Some(1));
    assert_eq!(locate((5, 5), &nodes), Some(2));
    assert_eq!(locate((9, 9), &nodes), None);
    assert_eq!(trace(&nodes, 3), vec![(0, 0), (0, 5), (5, 5), (0, 5)]);
    assert_eq!(trace(&nodes, 0), vec![(0, 0)]);
    assert_eq!(find_path((0, 5), &nodes), vec![(0, 0), (0, 5)]);
    assert_eq!(find_path((9, 9), &nodes), vec![(0, 0)]);
    assert_eq!(
        tree_edges(&nodes),
        vec![((0, 0), (0, 0)), ((0, 5), (0, 0)), ((5, 5), (0, 5)), ((0, 5), (5, 5))]
    );
}

fn wall_column(rows: usize, cols: usize, col: usize) -> OccupancyGrid {
    let mut grid = OccupancyGrid::new(rows, cols).unwrap();
    for r in 0..rows {
        grid.set_blocked((r, col), true);
    }
    grid
}

#[test]
fn fixed_seed_runs_are_repeatable() {
    let mut grid = OccupancyGrid::new(40, 40).unwrap();
    for r in 5..35 {
        grid.set_blocked((r, 20), true);
    }
    let cfg = TreeConfig::standard();
    for seed in [1u64, 7, 42] {
        let a = rrt_v1(&grid, (2, 2), (37, 37), &cfg, &mut StdRng::seed_from_u64(seed));
        let b = rrt_v1(&grid, (2, 2), (37, 37), &cfg, &mut StdRng::seed_from_u64(seed));
        assert_eq!(a.outcome, b.outcome);
        assert_eq!(a.path, b.path);
        assert_eq!(a.tree, b.tree);
        let a = rrt_v2(&grid, (2, 2), (37, 37), &cfg, &mut StdRng::seed_from_u64(seed));
        let b = rrt_v2(&grid, (2, 2), (37, 37), &cfg, &mut StdRng::seed_from_u64(seed));
        assert_eq!(a.outcome, b.outcome);
        assert_eq!(a.path, b.path);
        assert_eq!(a.tree, b.tree);
    }
}

#[test]
fn random_trees_fill_their_budget_on_an_open_grid() {
    let grid = OccupancyGrid::new(30, 30).unwrap();
    let cfg = TreeConfig::standard();
    for res in [
        rrt_v1(&grid, (0, 0), (29, 29), &cfg, &mut StdRng::seed_from_u64(3)),
        rrt_v2(&grid, (0, 0), (29, 29), &cfg, &mut StdRng::seed_from_u64(3)),
    ] {
        // 900 cells at 10 cells a node
        assert_eq!(res.tree.len(), 90);
        assert_eq!(res.tree[0], ((0, 0), (0, 0)));
        assert_eq!(res.outcome, Outcome::Found);
        assert_eq!(res.path[0], (0, 0));
        assert_eq!(*res.path.last().unwrap(), (29, 29));
    }
}

#[test]
fn random_tree_paths_and_nodes_avoid_obstacles() {
    let mut grid = OccupancyGrid::new(40, 40).unwrap();
    for r in 0..30 {
        grid.set_blocked((r, 13), true);
    }
    for r in 10..40 {
        grid.set_blocked((r, 26), true);
    }
    let cfg = TreeConfig::standard();
    for seed in 0..5u64 {
        for res in [
            rrt_v1(&grid, (0, 0), (39, 39), &cfg, &mut StdRng::seed_from_u64(seed)),
            rrt_v2(&grid, (0, 0), (39, 39), &cfg, &mut StdRng::seed_from_u64(seed)),
        ] {
            assert!(res.tree.len() <= 160);
            for cell in &res.path {
                assert!(!grid.is_blocked(*cell));
            }
            for (node, parent) in &res.tree {
                assert!(!grid.is_blocked(*node));
                assert!(!grid.is_blocked(*parent));
            }
            assert_eq!(res.path[0], (0, 0));
            if res.outcome == Outcome::Found {
                assert_eq!(*res.path.last().unwrap(), (39, 39));
            } else {
                assert_eq!(res.outcome, Outcome::ResourceExhausted);
                assert_eq!(res.path, vec![(0, 0)]);
            }
        }
    }
}

#[test]
fn random_tree_start_equals_goal() {
    let grid = OccupancyGrid::new(30, 30).unwrap();
    let cfg = TreeConfig::standard();
    for res in [
        rrt_v1(&grid, (4, 4), (4, 4), &cfg, &mut StdRng::seed_from_u64(1)),
        rrt_v2(&grid, (4, 4), (4, 4), &cfg, &mut StdRng::seed_from_u64(1)),
        grow_tree(&grid, (4, 4), (4, 4), &cfg, &vec![(9, 9), (1, 1)], true, true),
    ] {
        assert_eq!(res.outcome, Outcome::Found);
        assert_eq!(res.path, vec![(4, 4)]);
        assert_eq!(res.tree, vec![((4, 4), (4, 4))]);
    }
}

#[test]
fn random_tree_with_a_budget_of_one_returns_the_start() {
    let grid = OccupancyGrid::new(30, 30).unwrap();
    let mut cfg = TreeConfig::standard();
    cfg.max_nodes = 1;
    for res in [
        rrt_v1(&grid, (0, 0), (29, 29), &cfg, &mut StdRng::seed_from_u64(5)),
        rrt_v2(&grid, (0, 0), (29, 29), &cfg, &mut StdRng::seed_from_u64(5)),
    ] {
        assert_eq!(res.outcome, Outcome::ResourceExhausted);
        assert_eq!(res.path, vec![(0, 0)]);
        assert_eq!(res.tree, vec![((0, 0), (0, 0))]);
    }
    // the same by the size of the grid: 16 cells at 10 cells a node
    let small = OccupancyGrid::new(4, 4).unwrap();
    let res = rrt_v1(&small, (0, 0), (3, 3), &TreeConfig::standard(), &mut StdRng::seed_from_u64(5));
    assert_eq!(res.outcome, Outcome::ResourceExhausted);
    assert_eq!(res.path, vec![(0, 0)]);
}

#[test]
fn random_tree_behind_a_wall_column_exhausts_its_budget() {
    let grid = wall_column(20, 40, 20);
    let cfg = TreeConfig::standard();
    for res in [
        rrt_v1(&grid, (10, 2), (10, 38), &cfg, &mut StdRng::seed_from_u64(11)),
        rrt_v2(&grid, (10, 2), (10, 38), &cfg, &mut StdRng::seed_from_u64(11)),
    ] {
        assert_eq!(res.outcome, Outcome::ResourceExhausted);
        assert_eq!(res.path, vec![(10, 2)]);
        assert_eq!(res.tree.len(), 80);
        for (node, _) in &res.tree {
            assert!(node.1 < 20);
        }
    }
}

#[test]
fn random_tree_gives_up_at_the_sample_limit() {
    let grid = OccupancyGrid::new(30, 30).unwrap();
    let mut cfg = TreeConfig::standard();
    cfg.sample_limit = 0;
    let res = rrt_v1(&grid, (0, 0), (29, 29), &cfg, &mut StdRng::seed_from_u64(5));
    assert_eq!(res.outcome, Outcome::ResourceExhausted);
    assert_eq!(res.tree.len(), 1);
    cfg.sample_limit = 7;
    let res = rrt_v1(&grid, (0, 0), (29, 29), &cfg, &mut StdRng::seed_from_u64(5));
    assert_eq!(res.tree.len(), 8);
}

#[test]
fn random_tree_rejects_invalid_input() {
    let mut grid = OccupancyGrid::new(30, 30).unwrap();
    grid.set_blocked((3, 3), true);
    let cfg = TreeConfig::standard();
    let mut rng = StdRng::seed_from_u64(1);
    for (start, goal) in [((3, 3), (9, 9)), ((9, 9), (3, 3)), ((30, 0), (9, 9)), ((0, 0), (0, 30))] {
        let res = rrt_v1(&grid, start, goal, &cfg, &mut rng);
        assert_eq!(res.outcome, Outcome::InvalidInput);
        assert!(res.path.is_empty());
        assert!(res.tree.is_empty());
        let res = rrt_v2(&grid, start, goal, &cfg, &mut rng);
        assert_eq!(res.outcome, Outcome::InvalidInput);
    }
    let mut bad = cfg;
    bad.step_distance = 0;
    assert_eq!(rrt_v1(&grid, (0, 0), (9, 9), &bad, &mut rng).outcome, Outcome::InvalidInput);
    assert_eq!(
        grow_tree(&grid, (0, 0), (9, 9), &bad, &vec![(1, 1)], false, true).outcome,
        Outcome::InvalidInput
    );
}
