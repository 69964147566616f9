use microduck::ieee::Single;
use microduck::pose_graph::{PoseEdge, PoseGraph};
use microduck::submap::{rays, Beam, Point, Pose2, Reading, Scan, Submap, MAX_RAW_SCANS};
use microduck::submap_manager::{Progress, SubmapManager, SubmapManagerConfig, TickOutcome};

fn s(x: f32) -> Single {
    Single { bits: x.to_bits() }
}

fn f(x: Single) -> f32 {
    f32::from_bits(x.bits)
}

fn pose(x: f32, y: f32, yaw: f32) -> Pose2 {
    Pose2 {
        x: s(x),
        y: s(y),
        yaw: s(yaw),
    }
}

fn sc() -> Scan {
    Scan::from_polar(
        &[Reading {
            angle: s(0.0),
            range: s(1.0),
            end: Point { x: s(1.0), y: s(0.0) },
        }],
        Point { x: s(0.0), y: s(0.0) },
        s(0.0),
    )
}

/// Ticks a manager with the progress measured as the distance from the active
/// submap's anchor and the time since its clock started.
fn tick(mgr: &mut SubmapManager<u32>, now: f32, at: Pose2) -> TickOutcome {
    let progress = match mgr.current() {
        Some(cur) => {
            let a = cur.anchor_pose();
            let (dx, dy) = (f(at.x) - f(a.x), f(at.y) - f(a.y));
            Progress {
                travel: s((dx * dx + dy * dy).sqrt()),
                age: s(now - mgr.started().map_or(now, f)),
            }
        }
        None => Progress {
            travel: s(0.0),
            age: s(0.0),
        },
    };
    mgr.tick(s(now), at, progress, 0)
}

fn ink(mgr: &mut SubmapManager<u32>, at: Pose2) {
    mgr.current_mut()
        .unwrap()
        .integrate_scan_weighted(at, at, &sc(), true);
}

fn config(max_age_s: f32, max_travel_m: f32) -> SubmapManagerConfig {
    SubmapManagerConfig {
        max_age_s: s(max_age_s),
        max_travel_m: s(max_travel_m),
        ..SubmapManagerConfig::default()
    }
}

#[test]
fn empty_submaps_reanchor_instead_of_freezing() {
    let mut mgr = SubmapManager::new(config(5.0, 1000.0));
    assert_eq!(tick(&mut mgr, 0.0, pose(0.0, 0.0, 0.0)), TickOutcome::Opened);
    assert_eq!(
        tick(&mut mgr, 6.0, pose(1.0, 0.0, 0.0)),
        TickOutcome::Reanchored
    );
    assert_eq!(mgr.n_frozen(), 0, "an empty submap must not freeze");
    assert_eq!(f(mgr.current().unwrap().anchor_pose().x), 1.0);
    ink(&mut mgr, pose(1.0, 0.0, 0.0));
    assert_eq!(tick(&mut mgr, 12.0, pose(1.2, 0.0, 0.0)), TickOutcome::Opened);
    assert_eq!(mgr.n_frozen(), 1);
}

#[test]
fn restored_submap_ages_out() {
    let current = Some(Submap::new_at(pose(0.0, 0.0, 0.0), 0));
    let mut mgr = SubmapManager::from_parts(config(10.0, 1000.0), Vec::new(), current);
    ink(&mut mgr, pose(0.0, 0.0, 0.0));
    assert_eq!(tick(&mut mgr, 100.0, pose(0.2, 0.0, 0.0)), TickOutcome::Idle);
    assert_eq!(mgr.n_frozen(), 0);
    assert_eq!(tick(&mut mgr, 109.0, pose(0.2, 0.0, 0.0)), TickOutcome::Idle);
    assert_eq!(
        tick(&mut mgr, 110.5, pose(0.2, 0.0, 0.0)),
        TickOutcome::Opened,
        "restored submap never aged out"
    );
    assert_eq!(mgr.n_frozen(), 1);
}

#[test]
fn standing_still_does_not_age_freeze() {
    let mut mgr = SubmapManager::new(config(5.0, 1000.0));
    tick(&mut mgr, 0.0, pose(0.0, 0.0, 0.0));
    ink(&mut mgr, pose(0.0, 0.0, 0.0));
    for t in 1..60 {
        assert_eq!(
            tick(&mut mgr, t as f32, pose(0.0, 0.0, 0.0)),
            TickOutcome::Idle,
            "a standing robot minted a submap at t={t}"
        );
    }
    assert_eq!(mgr.n_total(), 1);
}

#[test]
fn first_tick_creates_a_submap() {
    let mut mgr = SubmapManager::new(SubmapManagerConfig::default());
    assert_eq!(mgr.n_total(), 0);
    let opened = tick(&mut mgr, 0.0, pose(0.0, 0.0, 0.0));
    assert_eq!(opened, TickOutcome::Opened);
    assert_eq!(mgr.n_total(), 1);
    assert_eq!(mgr.n_frozen(), 0);
}

#[test]
fn travel_triggers_switch() {
    let mut mgr = SubmapManager::new(config(1000.0, 1.0));
    tick(&mut mgr, 0.0, pose(0.0, 0.0, 0.0));
    ink(&mut mgr, pose(0.0, 0.0, 0.0));
    assert_eq!(mgr.n_frozen(), 0);
    tick(&mut mgr, 1.0, pose(0.5, 0.0, 0.0));
    assert_eq!(mgr.n_frozen(), 0, "0.5 m < threshold should not trigger");
    tick(&mut mgr, 2.0, pose(1.5, 0.0, 0.0));
    assert_eq!(mgr.n_frozen(), 1, "1.5 m ≥ threshold should switch");
    assert_eq!(mgr.n_total(), 2);
    assert_eq!(mgr.all().len(), 2);
}

#[test]
fn age_triggers_switch() {
    let mut mgr = SubmapManager::new(config(5.0, 1000.0));
    tick(&mut mgr, 0.0, pose(0.0, 0.0, 0.0));
    ink(&mut mgr, pose(0.0, 0.0, 0.0));
    tick(&mut mgr, 3.0, pose(0.2, 0.0, 0.0));
    assert_eq!(mgr.n_frozen(), 0);
    tick(&mut mgr, 6.0, pose(0.2, 0.0, 0.0));
    assert_eq!(mgr.n_frozen(), 1);
}

#[test]
fn new_submap_anchor_equals_tracked_pose_at_switch() {
    let mut mgr = SubmapManager::new(config(1000.0, 0.5));
    tick(&mut mgr, 0.0, pose(0.0, 0.0, 0.0));
    ink(&mut mgr, pose(0.0, 0.0, 0.0));
    let switch_pose = pose(1.0, 0.5, 0.7);
    tick(&mut mgr, 1.0, switch_pose);
    assert_eq!(mgr.current().unwrap().anchor_pose(), switch_pose);
}

#[test]
fn first_added_node_is_fixed_by_default() {
    let mut g = PoseGraph::new();
    let i0 = g.add_node(pose(0.0, 0.0, 0.0), 0);
    let i1 = g.add_node(pose(1.0, 0.0, 0.0), 1);
    assert_eq!(i0, 0);
    assert_eq!(i1, 1);
    assert!(g.nodes()[0].fixed);
    assert!(!g.nodes()[1].fixed);
    g.fix_node(1);
    g.fix_node(7);
    assert!(g.nodes()[1].fixed);
    g.add_edge(PoseEdge {
        from: 0,
        to: 1,
        measurement: pose(1.0, 0.0, 0.0),
        information: [[s(0.0); 3]; 3],
    });
    g.edges_mut()[0].to = 0;
    g.nodes_mut()[1].submap_idx = 9;
    assert_eq!((g.edges()[0].to, g.nodes()[1].submap_idx), (0, 9));
}

#[test]
fn the_stock_limits_are_these() {
    let cfg = SubmapManagerConfig::default();
    assert_eq!(
        (f(cfg.max_age_s), f(cfg.max_travel_m), f(cfg.min_travel_for_age_m)),
        (20.0, 2.0, 0.15)
    );
}

fn long_scan(n: usize) -> Scan {
    Scan {
        beams: (0..n)
            .map(|k| Beam {
                origin: Point { x: s(0.0), y: s(0.0) },
                end: Point { x: s(k as f32), y: s(0.0) },
            })
            .collect(),
    }
}

#[test]
fn a_thinned_scan_keeps_every_so_many_beams() {
    let ends = |scan: &Scan| -> Vec<f32> {
        scan.endpoints_body().iter().map(|e| f(e.x)).collect()
    };
    assert_eq!(ends(&long_scan(10).decimated(10)).len(), 10);
    assert_eq!(ends(&long_scan(10).decimated(4)), vec![0.0, 3.0, 6.0, 9.0]);
    assert_eq!(ends(&long_scan(9).decimated(4)), vec![0.0, 3.0, 6.0]);
    assert_eq!(ends(&long_scan(5).decimated(0)), vec![0.0]);
    assert_eq!(ends(&long_scan(0).decimated(0)).len(), 0);
    for n in 0..40usize {
        for most in 1..12 {
            let want: Vec<f32> = (0..n)
                .step_by(if n <= most { 1 } else { n.div_ceil(most) })
                .map(|k| k as f32)
                .collect();
            assert_eq!(ends(&long_scan(n).decimated(most)), want, "{n} to {most}");
        }
    }
}

#[test]
fn readings_that_are_not_numbers_or_too_short_are_dropped() {
    let reading = |angle: f32, range: f32| Reading {
        angle: s(angle),
        range: s(range),
        end: Point { x: s(range), y: s(angle) },
    };
    let scan = Scan::from_polar(
        &[
            reading(0.0, 1.0),
            reading(f32::NAN, 1.0),
            reading(0.0, f32::INFINITY),
            reading(0.0, 0.19),
            reading(0.5, 0.2),
        ],
        Point { x: s(0.1), y: s(0.0) },
        s(0.2),
    );
    assert_eq!(scan.n_valid(), 2);
    assert_eq!(f(scan.beams[1].end.y), 0.5);
    assert_eq!(f(scan.beams[1].origin.x), 0.1);
}

#[test]
fn beams_shorter_than_a_cell_are_not_cast() {
    let sq = |x: f32| s(x * x);
    assert_eq!(
        rays(&[sq(0.04), sq(0.05), sq(1.0), s(f32::NAN)], sq(0.05)),
        vec![1, 2, 3]
    );
}

#[test]
fn a_submap_remembers_scans_that_reached_its_grid() {
    let mut map = Submap::new_at(pose(0.0, 0.0, 0.0), 7u32);
    assert_eq!(*map.grid(), 7);
    *map.grid_mut() = 8;
    assert_eq!(*map.grid(), 8);
    assert!(!map.has_content());
    let here = pose(1.0, 0.0, 0.0);
    map.integrate_scan_weighted(here, here, &sc(), false);
    assert!(!map.has_content(), "a scan clipped to nothing is no content");
    map.integrate_scan_weighted(pose(f32::NAN, 0.0, 0.0), here, &sc(), true);
    assert!(!map.has_content(), "nor is one from nowhere");
    for _ in 0..20 {
        map.integrate_scan_weighted(here, here, &sc(), true);
    }
    assert_eq!(map.raw_scans().len(), MAX_RAW_SCANS);
    assert_eq!(map.raw_scans()[0].pose_in_submap, here);
    assert_eq!(map.raw_scans()[0].scan.n_valid(), 1);
    assert_eq!(map.casts(here, 0), 1);
    assert_eq!(map.casts(here, 2), 2);
    assert_eq!(map.casts(pose(0.0, f32::INFINITY, 0.0), 2), 0);
    map.set_anchor_pose(here);
    assert_eq!(map.anchor_pose(), here);
    assert_eq!(map.raw_scans().len(), MAX_RAW_SCANS);
}
