use microduck::accumulator::{AccumulatorConfig, Sight, WindowAccumulator};
use microduck::ieee::Single;
use microduck::submap::{Beam, Point, Pose2, Reading, Scan};

fn s(x: f32) -> Single {
    Single { bits: x.to_bits() }
}

fn f(x: Single) -> f32 {
    f32::from_bits(x.bits)
}

fn pose(x: f32, y: f32, yaw: f32) -> Pose2 {
    Pose2 {
        x: s(x),
        y: s(y),
        yaw: s(yaw),
    }
}

fn point(x: f32, y: f32) -> Point {
    Point { x: s(x), y: s(y) }
}

fn one_beam_scan(angle: f32, range: f32) -> Scan {
    Scan::from_polar(
        &[Reading {
            angle: s(angle),
            range: s(range),
            end: point(range * angle.cos(), range * angle.sin()),
        }],
        point(0.0, 0.0),
        s(0.0),
    )
}

/// The sights of the open window, in the frame of its middle pose.
fn finish(acc: &mut WindowAccumulator) -> Option<(Pose2, Scan)> {
    let cfg = acc.config();
    let inv = 1.0 / f(cfg.cell_m).max(1e-6);
    let Some(rep) = acc.middle() else {
        return acc.finish(&[], s(0.0));
    };
    let (rs, rc) = (f(rep.yaw).sin(), f(rep.yaw).cos());
    let (rx, ry) = (f(rep.x), f(rep.y));
    let sights: Vec<Vec<Sight>> = acc
        .frames()
        .iter()
        .map(|(p, scan)| {
            let (sy, cy) = f(p.yaw).sin_cos();
            let world = |q: Point| {
                (
                    f(p.x) + cy * f(q.x) - sy * f(q.y),
                    f(p.y) + sy * f(q.x) + cy * f(q.y),
                )
            };
            scan.beams
                .iter()
                .map(|b| {
                    let dx = f(b.end.x) - f(b.origin.x);
                    let dy = f(b.end.y) - f(b.origin.y);
                    let (ox, oy) = world(b.origin);
                    let (ex, ey) = world(b.end);
                    let local = |x: f32, y: f32| {
                        point(
                            rc * (x - rx) + rs * (y - ry),
                            -rs * (x - rx) + rc * (y - ry),
                        )
                    };
                    Sight {
                        length_sq: s(dx * dx + dy * dy),
                        cell: ((ex * inv).floor() as i32, (ey * inv).floor() as i32),
                        beam: Beam {
                            origin: local(ox, oy),
                            end: local(ex, ey),
                        },
                    }
                })
                .collect()
        })
        .collect();
    let max_range = f(cfg.max_range_m);
    acc.finish(&sights, s(max_range * max_range))
}

#[test]
fn persistent_returns_survive_and_transients_die() {
    let mut acc = WindowAccumulator::new(AccumulatorConfig::default());
    for i in 0..10 {
        let mut scan = one_beam_scan(0.0, 1.0);
        scan.merge(&one_beam_scan(1.0, 0.5 + 0.2 * i as f32));
        acc.push(pose(0.0, 0.0, 0.0), scan);
    }
    let (at, out) = finish(&mut acc).expect("a composite");
    assert_eq!(at, pose(0.0, 0.0, 0.0));
    assert_eq!(out.n_valid(), 10, "10 wall votes, 0 legs: {:?}", out.beams);
    for b in &out.beams {
        assert!((f(b.end.x) - 1.0).abs() < 0.01 && f(b.end.y).abs() < 0.01);
    }
    assert!(acc.is_empty());
}

#[test]
fn the_far_range_tail_is_dropped() {
    let mut acc = WindowAccumulator::new(AccumulatorConfig::default());
    for _ in 0..10 {
        let mut scan = one_beam_scan(0.0, 1.0);
        scan.merge(&one_beam_scan(0.5, 3.5));
        acc.push(pose(0.0, 0.0, 0.0), scan);
    }
    let (_, out) = finish(&mut acc).expect("a composite");
    assert!(out
        .beams
        .iter()
        .all(|b| (f(b.end.x) * f(b.end.x) + f(b.end.y) * f(b.end.y)).sqrt() < 2.1));
    assert_eq!(out.n_valid(), 10);
}

#[test]
fn short_windows_pass_through() {
    let mut acc = WindowAccumulator::new(AccumulatorConfig::default());
    acc.push(pose(0.0, 0.0, 0.0), one_beam_scan(0.0, 1.0));
    let (_, out) = finish(&mut acc).expect("a composite");
    assert_eq!(out.n_valid(), 1);
}

#[test]
fn the_merge_is_exact_across_poses() {
    let mut acc = WindowAccumulator::new(AccumulatorConfig {
        min_frames: 3,
        ..AccumulatorConfig::default()
    });
    for i in 0..9 {
        let y = -0.01 + 0.0025 * i as f32;
        let angle = (-y / 1.0).atan2(1.0);
        let range = (1.0 + y * y).sqrt();
        acc.push(pose(0.0, y, 0.0), one_beam_scan(angle, range));
    }
    let (rep, out) = finish(&mut acc).expect("a composite");
    assert!(out.n_valid() >= 9);
    for b in &out.beams {
        let (sy, cy) = f(rep.yaw).sin_cos();
        let wx = f(rep.x) + cy * f(b.end.x) - sy * f(b.end.y);
        let wy = f(rep.y) + sy * f(b.end.x) + cy * f(b.end.y);
        assert!(
            (wx - 1.0).abs() < 0.01 && wy.abs() < 0.02,
            "merged endpoint drifted: ({wx}, {wy})"
        );
    }
}

#[test]
fn an_empty_window_gives_nothing() {
    let mut acc = WindowAccumulator::new(AccumulatorConfig::default());
    assert!(acc.is_empty());
    assert_eq!(acc.len(), 0);
    assert!(finish(&mut acc).is_none());
}

#[test]
fn a_wall_on_a_cell_line_keeps_its_votes() {
    // Five frames on either side of the line between two cells, which take six.
    let mut acc = WindowAccumulator::new(AccumulatorConfig {
        min_frames: 5,
        ..AccumulatorConfig::default()
    });
    for k in 0..10 {
        let range = if k % 2 == 0 { 0.999 } else { 1.001 };
        acc.push(pose(0.0, 0.0, 0.0), one_beam_scan(0.01, range));
    }
    let (_, out) = finish(&mut acc).expect("a composite");
    assert_eq!(out.n_valid(), 10);
}

#[test]
fn the_stock_window_settings_are_these() {
    let cfg = AccumulatorConfig::default();
    assert_eq!((f(cfg.cell_m), f(cfg.max_range_m)), (0.05, 2.0));
    assert_eq!((cfg.min_frames, cfg.min_window_frames), (3, 6));
}

#[test]
fn cells_at_the_edge_of_counting_have_fewer_neighbours() {
    let mut acc = WindowAccumulator::new(AccumulatorConfig::default());
    let mut sights: Vec<Vec<Sight>> = Vec::new();
    for k in 0..6 {
        acc.push(pose(0.0, 0.0, 0.0), one_beam_scan(0.0, 1.0));
        let cell = if k < 3 { (i32::MAX, i32::MIN) } else { (i32::MAX - 1, i32::MIN) };
        let beam = Beam { origin: point(0.0, 0.0), end: point(1.0, 0.0) };
        sights.push(vec![Sight { length_sq: s(1.0), cell, beam }]);
    }
    let (_, out) = acc.finish(&sights, s(4.0)).expect("a composite");
    assert_eq!(out.n_valid(), 6);
}
