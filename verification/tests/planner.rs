use microduck::grid::OccupancyGrid;
use microduck::line::line_of_sight;
use microduck::planner::{
    astar, inflated_obstacles, is_countable, nearest_free, octile, plan, simplify_path,
    PlannerConfig,
};

/// A 30 by 30 grid with a vertical wall from row 7 to row 22 in column 15, and a gap
/// further north.
fn small_grid_with_wall() -> OccupancyGrid {
    let mut log = vec![0i16; 30 * 30];
    for i in 7..23 {
        log[i * 30 + 15] = 500;
    }
    OccupancyGrid::from_cells(30, 30, log).unwrap()
}

#[test]
fn plans_around_wall() {
    let g = small_grid_with_wall();
    let path = plan(
        &g,
        Some((15, 3)),
        Some((15, 27)),
        PlannerConfig {
            inflate_cells: 1,
            max_expansions: 50_000,
            ..Default::default()
        },
    )
    .expect("path should exist via north gap");
    assert!(path.len() >= 2);
    assert_eq!(path[0], (15, 3));
    assert_eq!(*path.last().unwrap(), (15, 27));
    assert!(
        path.iter().any(|&(i, _)| i > 22 || i < 7),
        "expected detour around wall, got {path:?}"
    );
}

#[test]
fn no_path_returns_none() {
    let g = small_grid_with_wall();
    assert!(plan(&g, Some((15, 15)), None, PlannerConfig::default()).is_none());
    assert!(plan(&g, None, Some((15, 15)), PlannerConfig::default()).is_none());
}

#[test]
fn line_of_sight_refuses_diagonal_corner_squeeze() {
    let w = 4usize;
    let h = 4usize;
    let mut blocked = vec![false; w * h];
    blocked[w + 2] = true;
    blocked[2 * w + 1] = true;
    assert!(
        !line_of_sight(&blocked, w, h, (0, 0), (3, 3)),
        "diagonal corner squeeze must be blocked"
    );
    let clear = vec![false; w * h];
    assert!(line_of_sight(&clear, w, h, (0, 0), (3, 3)));
}

#[test]
fn simplified_path_respects_corners() {
    let mut log = vec![0i16; 30 * 30];
    for j in 2..15 {
        log[14 * 30 + j] = 500;
    }
    for j in 15..28 {
        log[15 * 30 + j] = 500;
    }
    let g = OccupancyGrid::from_cells(30, 30, log).unwrap();
    let cfg = PlannerConfig {
        inflate_cells: 0,
        max_expansions: 50_000,
        ..Default::default()
    };
    let path = plan(&g, Some((9, 3)), Some((21, 27)), cfg).unwrap();
    let blocked = inflated_obstacles(&g, 0, cfg.occ_threshold_fp);
    for pair in path.windows(2) {
        assert!(
            line_of_sight(&blocked, g.width(), g.height(), pair[0], pair[1]),
            "simplified segment {:?} to {:?} violates line of sight",
            pair[0],
            pair[1]
        );
    }
}

#[test]
fn default_config_is_the_documented_one() {
    let cfg = PlannerConfig::default();
    assert_eq!(cfg.inflate_cells, 3);
    assert_eq!(cfg.max_expansions, 100_000);
    assert_eq!(cfg.occ_threshold_fp, 150);
}

#[test]
fn octile_counts_diagonals_first() {
    assert_eq!(octile((0, 0), (0, 0)), 0);
    assert_eq!(octile((0, 0), (0, 5)), 5000);
    assert_eq!(octile((2, 7), (5, 1)), 3 * 1414 + 3 * 1000);
}

#[test]
fn inflation_is_round() {
    let mut log = vec![0i16; 7 * 7];
    log[3 * 7 + 3] = 151;
    let g = OccupancyGrid::from_cells(7, 7, log).unwrap();
    let blocked = inflated_obstacles(&g, 2, 150);
    assert_eq!(blocked.iter().filter(|b| **b).count(), 13);
    assert!(blocked[3 * 7 + 5] && blocked[4 * 7 + 4]);
    assert!(!blocked[5 * 7 + 5] && !blocked[4 * 7 + 5]);
    assert!(inflated_obstacles(&g, 2, 151).iter().all(|b| !*b));
}

#[test]
fn nearest_free_takes_the_innermost_ring_in_reading_order() {
    let mut blocked = vec![true; 25];
    assert_eq!(nearest_free(&blocked, 5, 5, (2, 2), 4), None);
    blocked[2 * 5 + 4] = false;
    assert_eq!(nearest_free(&blocked, 5, 5, (2, 2), 4), Some((2, 4)));
    assert_eq!(nearest_free(&blocked, 5, 5, (2, 2), 1), None);
    blocked[3 * 5 + 1] = false;
    blocked[5 + 3] = false;
    assert_eq!(nearest_free(&blocked, 5, 5, (2, 2), 4), Some((1, 3)));
    assert_eq!(nearest_free(&blocked, 5, 5, (2, 4), 0), Some((2, 4)));
}

#[test]
fn astar_finds_a_cheapest_way_and_none_where_there_is_none() {
    let mut blocked = vec![false; 25];
    for i in 0..4 {
        blocked[i * 5 + 2] = true;
    }
    let path = astar(&blocked, 5, 5, (0, 0), (0, 4), 1000).unwrap();
    assert_eq!(path[0], (0, 0));
    assert_eq!(*path.last().unwrap(), (0, 4));
    // Down one side, straight through the gap past both corners, and up the other.
    let cost: i32 = path.windows(2).map(|p| octile(p[0], p[1])).sum();
    assert_eq!(cost, 8 * 1000 + 2 * 1000 + 2 * 1000 - 2 * 586);
    blocked[4 * 5 + 2] = true;
    assert!(astar(&blocked, 5, 5, (0, 0), (0, 4), 1000).is_none());
    blocked[4 * 5 + 2] = false;
    assert!(astar(&blocked, 5, 5, (0, 0), (0, 4), 3).is_none());
    assert_eq!(astar(&blocked, 5, 5, (1, 1), (1, 1), 0).unwrap(), vec![(1, 1)]);
}

#[test]
fn a_straight_path_is_thinned_to_its_ends() {
    let blocked = vec![false; 36];
    let path: Vec<(usize, usize)> = (0..6).map(|i| (i, i)).collect();
    assert_eq!(simplify_path(&blocked, 6, 6, &path), vec![(0, 0), (5, 5)]);
    assert_eq!(simplify_path(&blocked, 6, 6, &path[..2]), path[..2].to_vec());
}

fn cost(path: &[(usize, usize)]) -> i32 {
    path.windows(2)
        .map(|p| if p[0].0 != p[1].0 && p[0].1 != p[1].1 { 1414 } else { 1000 })
        .sum()
}

#[test]
fn the_octile_distance_is_the_cost_on_free_ground() {
    let (w, h) = (9, 7);
    let free = vec![false; w * h];
    for (a, b) in [((0, 0), (6, 8)), ((3, 8), (5, 0)), ((2, 2), (2, 2)), ((6, 1), (0, 1))] {
        assert_eq!(octile(a, b), octile(b, a));
        assert_eq!(octile(a, b) == 0, a == b);
        let path = astar(&free, w, h, a, b, w * h).unwrap();
        assert_eq!(cost(&path), octile(a, b));
    }
    let mut wall = free.clone();
    for i in 0..6 {
        wall[i * w + 4] = true;
    }
    let path = astar(&wall, w, h, (0, 0), (0, 8), w * h).unwrap();
    assert!(cost(&path) > octile((0, 0), (0, 8)));
}

#[test]
fn a_long_corridor_is_walked_to_its_end() {
    let w = 800_000;
    assert!(is_countable(w, 1));
    let path = astar(&vec![false; w], w, 1, (0, 0), (0, w - 1), w).unwrap();
    assert_eq!(path.len(), w);
    assert_eq!(path[w - 1], (0, w - 1));
}

#[test]
fn grids_on_which_distances_cannot_be_counted_are_told() {
    assert!(is_countable(2_147_484, 1));
    assert!(!is_countable(2_147_485, 1));
    assert!(is_countable(65_535, 65_535));
    assert!(!is_countable(65_536, 65_537));
    assert!(is_countable(0, 0));
}
