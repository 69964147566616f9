use microduck::grid::OccupancyGrid;
use microduck::ieee::Single;
use microduck::loop_closer::Gap;
use microduck::relocalize::{
    cell_at, coarse_centres, coarse_top, count_on_map, fate_of, free_cells, is_searchable,
    judged_cells, pick_seeds, rank, refine, refine_cells, relocalize_against_grid, score_pose,
    yaw_bins, Fate, Patch, RelocalizeConfig, RelocalizeResult, Sighting,
};
use microduck::submap::{Beam, Point, Pose2, Scan};

fn s(x: f32) -> Single {
    Single { bits: x.to_bits() }
}

fn at(x: f32) -> Pose2 {
    Pose2 { x: s(x), y: s(0.0), yaw: s(0.0) }
}

fn scan(n: usize) -> Scan {
    let o = Point { x: s(0.0), y: s(0.0) };
    Scan { beams: vec![Beam { origin: o, end: o }; n] }
}

fn seen(x: f32, mean: f32, n: u32) -> Sighting {
    Sighting { pose: at(x), mean: s(mean), n }
}

fn result(x: f32, mean: f32) -> RelocalizeResult {
    RelocalizeResult { pose: at(x), mean_residual_m: s(mean), n_beams_used: 30, accepted: false }
}

/// Six columns and three rows, with a wall in the middle of the middle row.
fn strip() -> OccupancyGrid {
    let mut log = vec![-100i16; 18];
    log[6 + 3] = 400;
    log[6 + 5] = 0;
    OccupancyGrid::from_cells(6, 3, log).unwrap()
}

#[test]
fn cells_off_the_map_have_no_position() {
    let g = strip();
    assert_eq!(cell_at(&g, (1, 2)), Some(8));
    assert_eq!(cell_at(&g, (-1, 2)), None);
    assert_eq!(cell_at(&g, (3, 0)), None);
    assert_eq!(cell_at(&g, (0, 6)), None);
}

#[test]
fn beams_through_walls_and_off_the_map_count_against_a_pose() {
    let g = strip();
    assert_eq!(fate_of(&g, (1, 9), (1, 3), 300), Fate::Off);
    assert_eq!(fate_of(&g, (1, 5), (1, 3), 300), Fate::Through);
    assert_eq!(fate_of(&g, (1, 5), (1, 3), 400), Fate::Lands(11));
    assert_eq!(fate_of(&g, (1, 4), (1, 3), 300), Fate::Lands(10));
    assert_eq!(count_on_map(&[Fate::Off, Fate::Through, Fate::Lands(1)]), 2);
}

#[test]
fn only_cells_with_an_opinion_judge() {
    let g = strip();
    let ends = [(1, 3), (1, 5), (0, 0), (-4, 0)];
    assert_eq!(judged_cells(&g, &ends, 50), vec![9, 0]);
    let a = score_pose(&g, &scan(4), &ends, 50, s(0.2));
    assert_eq!((a.n_observed, a.n_beams), (2, 4));
    assert_eq!(a.mean_residual_m, s(0.2));
    let blind = score_pose(&g, &scan(1), &[(1, 5)], 50, s(0.2));
    assert_eq!(blind.n_observed, 0);
    assert_eq!(blind.mean_residual_m, s(0.0));
}

#[test]
fn a_thin_scan_is_not_searched() {
    let cfg = RelocalizeConfig::default();
    assert!(!is_searchable(23, &cfg));
    assert!(is_searchable(24, &cfg));
}

#[test]
fn free_cells_come_in_reading_order() {
    let mut free = vec![true; 12];
    free[5] = false;
    let all = Patch { i_from: 0, i_to: 3, j_from: 0, j_to: 4, stride: 2 };
    assert_eq!(free_cells(&free, 4, 3, all), vec![(0, 0), (0, 2), (2, 0), (2, 2)]);
    let cfg = RelocalizeConfig { coarse_xy_stride: 0, ..RelocalizeConfig::default() };
    assert_eq!(coarse_centres(&free, 4, 3, &cfg).len(), 11);
    let near = RelocalizeConfig { refine_xy_radius: 1, ..RelocalizeConfig::default() };
    assert_eq!(refine_cells(&free, 4, 3, (0, 0), &near), vec![(0, 0), (0, 1), (1, 0)]);
    assert!(refine_cells(&free, 4, 3, (-9, 40), &near).is_empty());
}

#[test]
fn workers_take_every_heading_once() {
    assert_eq!(yaw_bins(0, 3, 7), vec![0, 3, 6]);
    assert_eq!(yaw_bins(1, 3, 7), vec![1, 4]);
    assert_eq!(yaw_bins(2, 3, 7), vec![2, 5]);
    assert!(yaw_bins(4, 9, 2).is_empty());
}

#[test]
fn a_heading_sends_on_its_best_four() {
    let cfg = RelocalizeConfig::default();
    let all = [
        seen(0.0, 0.5, 30),
        seen(1.0, 0.1, 30),
        seen(2.0, 0.01, 23),
        seen(3.0, 0.3, 30),
        seen(4.0, 0.2, 30),
        seen(5.0, 0.4, 30),
    ];
    let top = coarse_top(&all, &cfg);
    let means: Vec<Single> = top.iter().map(|c| c.mean_residual_m).collect();
    assert_eq!(means, vec![s(0.1), s(0.2), s(0.3), s(0.4)]);
}

#[test]
fn a_ranking_sorts_and_keeps_equals_in_order() {
    let list = rank(&[result(1.0, 0.3), result(2.0, 0.1), result(3.0, 0.3), result(4.0, 0.2)]);
    let xs: Vec<Single> = list.iter().map(|c| c.pose.x).collect();
    assert_eq!(xs, vec![s(2.0), s(4.0), s(1.0), s(3.0)]);
}

#[test]
fn seeds_are_different_places() {
    let gap = |xy: f32, yaw: f32| Gap { xy: s(xy), yaw: s(yaw) };
    // The second repeats the first; the third is turned away from it; the fourth is far.
    let gaps = vec![
        vec![],
        vec![gap(0.01, 0.1)],
        vec![gap(0.01, 0.7), gap(0.01, 0.1)],
        vec![gap(0.17, 0.0), gap(0.0, 0.0), gap(0.17, 0.0)],
    ];
    assert_eq!(pick_seeds(&gaps), vec![0, 2, 3]);
    let apart: Vec<Vec<Gap>> = (0..8).map(|k| vec![gap(9.0, 0.0); k]).collect();
    assert_eq!(pick_seeds(&apart), vec![0, 1, 2, 3, 4]);
}

#[test]
fn refining_keeps_the_first_of_equals_and_ignores_thin_sightings() {
    let cfg = RelocalizeConfig::default();
    let best = refine(None, &[seen(1.0, 0.2, 30), seen(2.0, 0.1, 3), seen(3.0, 0.2, 30)], &cfg);
    assert_eq!(best.unwrap().pose, at(1.0));
    assert!(refine(None, &[seen(2.0, 0.1, 3)], &cfg).is_none());
}

#[test]
fn a_search_accepts_by_residual_and_beams() {
    let cfg = RelocalizeConfig::default();
    let far = Gap { xy: s(9.0), yaw: s(0.0) };
    let coarse = [result(8.0, 0.4), result(9.0, 0.3)];
    let gaps = vec![vec![], vec![far]];
    let good = vec![vec![seen(1.0, 0.2, 30)], vec![seen(2.0, 0.04, 30)]];
    let r = relocalize_against_grid(&coarse, &gaps, &good, &cfg).unwrap();
    assert!(r.accepted);
    assert_eq!(r.pose, at(2.0));
    let one = [result(9.0, 0.3)];
    let poor = vec![vec![seen(1.0, 0.06, 30)]];
    assert!(!relocalize_against_grid(&one, &[vec![]], &poor, &cfg).unwrap().accepted);
    let nothing = vec![vec![], vec![seen(2.0, 0.04, 3)]];
    let fallback = relocalize_against_grid(&coarse, &gaps, &nothing, &cfg).unwrap();
    assert_eq!(fallback.pose, at(9.0), "the best of the coarse search");
    assert!(!fallback.accepted);
    assert!(relocalize_against_grid(&[], &[], &[], &cfg).is_none());
}
