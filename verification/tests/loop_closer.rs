use microduck::ieee::Single;
use microduck::loop_closer::{
    candidates, closure_for, coarse_search, detect_loops, is_credible, pick_witnesses, Evidence,
    Gap, LoopCloserConfig, Scored, Testimony, Trial,
};
use microduck::submap::{Beam, Point, Pose2, RawScan, Scan};

fn s(x: f32) -> Single {
    Single { bits: x.to_bits() }
}

fn f(x: Single) -> f32 {
    f32::from_bits(x.bits)
}

fn pose(x: f32) -> Pose2 {
    Pose2 {
        x: s(x),
        y: s(0.0),
        yaw: s(0.0),
    }
}

fn raw(beams: usize, at: f32) -> RawScan {
    RawScan {
        pose_in_submap: pose(at),
        scan: Scan {
            beams: (0..beams)
                .map(|k| Beam {
                    origin: Point { x: s(0.0), y: s(0.0) },
                    end: Point { x: s(k as f32), y: s(1.0) },
                })
                .collect(),
        },
    }
}

fn good() -> Testimony {
    Testimony {
        residual_m: s(0.05),
        n_beams_used: 200,
        coverage: s(0.8),
    }
}

fn gap(xy: f32, yaw: f32) -> Gap {
    Gap { xy: s(xy), yaw: s(yaw) }
}

fn evidence() -> Evidence {
    Evidence {
        testimonies: vec![
            good(),
            Testimony {
                residual_m: s(0.07),
                n_beams_used: 90,
                ..good()
            },
        ],
        spread: vec![gap(0.01, 0.01), gap(0.02, 0.01)],
        correction: gap(0.1, 0.02),
        allowed: gap(0.3, 0.14),
        measurement: pose(4.0),
    }
}

#[test]
fn empty_or_single_submap_returns_no_loops() {
    let cfg = LoopCloserConfig::default();
    assert!(candidates(0, 0, 0, &cfg).is_empty());
    assert!(candidates(1, 0, 3, &cfg).is_empty());
    assert!(detect_loops(0, 0, &[], &[], &cfg).is_empty());
    let scans = [raw(9, 0.0), raw(9, 1.0), raw(9, 2.0)];
    assert!(detect_loops(1, 0, &scans, &[], &cfg).is_empty());
}

#[test]
fn the_submaps_right_before_are_left_out() {
    let cfg = LoopCloserConfig::default();
    assert_eq!(candidates(6, 5, 1, &cfg), vec![0, 1, 2]);
    assert_eq!(candidates(6, 2, 1, &cfg), Vec::<usize>::new());
    assert_eq!(candidates(6, 5, 0, &cfg), Vec::<usize>::new());
    assert_eq!(candidates(5, 5, 1, &cfg), Vec::<usize>::new());
}

#[test]
fn the_largest_scans_testify_and_none_twice() {
    let cfg = LoopCloserConfig {
        min_witness_beams: 3,
        ..LoopCloserConfig::default()
    };
    let scans = [raw(2, 0.0), raw(5, 0.0), raw(9, 1.0), raw(5, 0.0), raw(5, 2.0), raw(4, 0.0)];
    assert_eq!(pick_witnesses(&scans, &cfg), vec![2, 1, 4]);
    let one = LoopCloserConfig {
        verify_scans: 0,
        ..cfg
    };
    assert_eq!(pick_witnesses(&scans, &one), vec![2]);
    assert!(pick_witnesses(&[], &cfg).is_empty());
    // A pose that is not a number equals nothing, so such scans never repeat.
    let nan = || raw(5, f32::NAN);
    assert_eq!(pick_witnesses(&[nan(), nan()], &cfg), vec![0, 1]);
}

#[test]
fn good_evidence_closes_the_loop() {
    let cfg = LoopCloserConfig::default();
    let c = closure_for(1, 6, &evidence(), &cfg).expect("a closure");
    assert_eq!((c.from_idx, c.to_idx, c.n_beams_used), (1, 6, 90));
    assert_eq!((f(c.residual_m), c.measurement), (0.07, pose(4.0)));
}

#[test]
fn every_gate_can_refuse() {
    let cfg = LoopCloserConfig::default();
    let refused = |e: Evidence| assert!(closure_for(1, 6, &e, &cfg).is_none());
    let mut e = evidence();
    e.testimonies.pop();
    e.spread.pop();
    refused(e);
    let mut e = evidence();
    e.testimonies[1].residual_m = s(0.11);
    refused(e);
    let mut e = evidence();
    e.testimonies[0].residual_m = s(f32::INFINITY);
    refused(e);
    let mut e = evidence();
    e.testimonies[0].n_beams_used = 15;
    refused(e);
    let mut e = evidence();
    e.testimonies[0].coverage = s(0.39);
    refused(e);
    let mut e = evidence();
    e.spread[1] = gap(0.07, 0.0);
    refused(e);
    let mut e = evidence();
    e.spread[1] = gap(0.0, 0.06);
    refused(e);
    let mut e = evidence();
    e.allowed = gap(0.09, 0.14);
    refused(e);
    assert!(is_credible(&cfg, good()));
}

#[test]
fn agreeing_evidence_has_nothing_to_fix() {
    let cfg = LoopCloserConfig::default();
    let mut e = evidence();
    e.correction = gap(0.03, 0.02);
    assert!(closure_for(1, 6, &e, &cfg).is_none());
    e.correction = gap(0.03, 0.04);
    assert!(closure_for(1, 6, &e, &cfg).is_some());
}

#[test]
fn loops_are_found_per_candidate() {
    let cfg = LoopCloserConfig::default();
    let trial = |older_idx: usize, distance: f32, evidence: Option<Evidence>| Trial {
        older_idx,
        distance: s(distance),
        evidence,
    };
    let scans = [raw(400, 0.0), raw(400, 1.0)];
    assert_eq!(pick_witnesses(&scans, &cfg).len(), 2);
    let mut unheard = evidence();
    unheard.testimonies.pop();
    unheard.spread.pop();
    unheard.testimonies[0].coverage = s(0.1);
    let trials = [
        trial(0, 1.0, Some(evidence())),
        trial(1, 1.6, None),
        trial(2, 0.5, Some(unheard)),
        trial(3, 1.5, Some(evidence())),
    ];
    let loops = detect_loops(7, 6, &scans, &trials, &cfg);
    let from: Vec<usize> = loops.iter().map(|c| c.from_idx).collect();
    assert_eq!(from, vec![0, 3]);
}

#[test]
fn one_scan_cannot_close_a_loop() {
    let cfg = LoopCloserConfig::default();
    let scans = [raw(400, 0.0), raw(400, 0.0)];
    assert_eq!(pick_witnesses(&scans, &cfg).len(), 1, "the second repeats the first");
    let nothing = Evidence { testimonies: vec![], spread: vec![], ..evidence() };
    let trials = [Trial { older_idx: 0, distance: s(0.5), evidence: Some(nothing) }];
    assert!(detect_loops(4, 3, &scans, &trials, &cfg).is_empty());
}

#[test]
fn the_coarse_search_takes_the_first_of_the_best() {
    let scored = |x: f32, score: f32| Scored {
        pose: pose(x),
        score: s(score),
    };
    let seed = pose(-1.0);
    let scan = raw(1, 0.0).scan;
    assert_eq!(coarse_search(&scan, seed, &[]), seed);
    assert_eq!(coarse_search(&raw(0, 0.0).scan, seed, &[scored(1.0, 0.3)]), seed);
    assert_eq!(
        coarse_search(
            &scan,
            seed,
            &[scored(1.0, 0.3), scored(2.0, 0.2), scored(3.0, 0.2), scored(4.0, f32::NAN)]
        ),
        pose(2.0)
    );
    assert_eq!(coarse_search(&scan, seed, &[scored(1.0, f32::INFINITY)]), seed);
}

#[test]
fn the_stock_closer_settings_are_these() {
    let cfg = LoopCloserConfig::default();
    assert_eq!((f(cfg.radius_m), f(cfg.max_residual_m)), (1.5, 0.10));
    assert_eq!(f(cfg.coarse_yaw_half_rad), 20.0_f32.to_radians());
    assert_eq!(f(cfg.coarse_yaw_step_rad), 5.0_f32.to_radians());
    assert_eq!((f(cfg.sm.prior_sigma_xy), f(cfg.sm.prior_sigma_yaw)), (0.50, 0.35));
    assert_eq!((f(cfg.min_correction_m), f(cfg.max_correction_cap_rad)), (0.04, 0.45));
    assert_eq!((cfg.verify_scans, cfg.max_probe_beams), (3, 512));
}
