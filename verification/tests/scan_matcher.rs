use microduck::ieee::Single;
use microduck::scan_matcher::{
    advance, begin, corner_cells, is_informative, match_scan, Landing, ScanMatchConfig, Step,
};
use microduck::submap::{Beam, Point, Pose2, Scan};

fn s(x: f32) -> Single {
    Single { bits: x.to_bits() }
}

fn f(x: Single) -> f32 {
    f32::from_bits(x.bits)
}

fn pose(x: f32) -> Pose2 {
    Pose2 {
        x: s(x),
        y: s(0.0),
        yaw: s(0.0),
    }
}

fn step(x: f32, dx: f32) -> Option<Step> {
    Some(Step {
        pose: pose(x),
        dx: s(dx),
        dy: s(0.0),
        dyaw: s(-0.0005),
    })
}

fn scan(n: usize) -> Scan {
    let o = Point { x: s(0.0), y: s(0.0) };
    Scan { beams: vec![Beam { origin: o, end: o }; n] }
}

#[test]
fn a_refinement_converges_on_a_short_step() {
    let cfg = ScanMatchConfig::default();
    let r = begin(&cfg, pose(0.0));
    assert!(!r.done);
    let r = advance(&cfg, r, &[s(0.1)], step(0.5, 0.5));
    assert!(!r.done && !r.converged);
    let r = advance(&cfg, r, &[s(9.0), s(0.1)], step(0.4999, -0.0001));
    assert!(r.done && r.converged);
    assert_eq!((r.iterations, f(r.pose.x)), (2, 0.4999));
}

#[test]
fn a_refinement_that_sees_nothing_stays() {
    let cfg = ScanMatchConfig::default();
    let far = [s(9.0), s(f32::INFINITY), s(f32::NAN)];
    let none: [Single; 0] = [];
    for (distances, solved) in [
        (&far[..], step(0.5, 0.5)),
        (&none[..], step(0.5, 0.5)),
        (&[s(0.1)][..], None),
    ] {
        let r = advance(&cfg, begin(&cfg, pose(1.0)), distances, solved);
        assert!(r.done && !r.converged);
        assert_eq!((r.iterations, r.pose), (1, pose(1.0)));
    }
}

#[test]
fn a_refinement_runs_out_of_rounds() {
    let cfg = ScanMatchConfig::default();
    let mut r = begin(&cfg, pose(0.0));
    while !r.done {
        r = advance(&cfg, r, &[s(0.1)], step(1.0, 1.0));
    }
    assert_eq!(r.iterations, 12);
    assert!(!r.converged);
    let none = ScanMatchConfig { max_iters: 0, ..cfg };
    assert!(begin(&none, pose(0.0)).done);
}

#[test]
fn beams_count_by_distance_and_by_what_the_map_knows() {
    let cfg = ScanMatchConfig::default();
    let landing = |d: f32, log: Option<i16>| Landing { distance: s(d), log };
    let r = advance(&cfg, begin(&cfg, pose(0.0)), &[s(0.1)], None);
    let result = match_scan(
        r,
        &scan(6),
        &[
            landing(0.1, Some(50)),
            landing(0.3, Some(-50)),
            landing(0.31, Some(200)),
            landing(f32::INFINITY, Some(200)),
            landing(0.0, Some(49)),
            landing(0.0, None),
        ],
        &cfg,
        s(0.07),
    );
    assert_eq!(result.n_beams_valid, 6);
    assert_eq!(result.n_beams_used, 4);
    assert_eq!(result.n_beams_observed, 3);
    assert_eq!(f(result.residual_m), 0.07);
    let blind = match_scan(r, &scan(1), &[landing(1.0, None)], &cfg, s(0.07));
    assert_eq!(f(blind.residual_m), f32::INFINITY);
    assert!(is_informative(s(0.3), s(0.3)));
    assert!(!is_informative(s(f32::NAN), s(0.3)));
}

#[test]
fn the_corners_of_a_point_are_four_cells() {
    assert_eq!(corner_cells(1, 2, 4, 5), Some([7, 8, 12, 13]));
    assert_eq!(corner_cells(3, 0, 4, 5), None);
    assert_eq!(corner_cells(0, 4, 4, 5), None);
    assert_eq!(corner_cells(-1, 0, 4, 5), None);
    assert_eq!(corner_cells(i32::MAX, i32::MAX, 4, 5), None);
    assert_eq!(corner_cells(0, 0, 0, 0), None);
}
