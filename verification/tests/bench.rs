use microduck::bench::{
    composite, halves, is_hit, is_usable, joins, probes, quantiles, reached, runs, sorted,
    usable_ranges, wall_cells, Counts, Mode, Moment, Placing, Plan, Stretch,
};
use microduck::grid::OccupancyGrid;
use microduck::ieee::{Double, Single};
use microduck::loop_closer::Gap;
use microduck::mapper::Note;
use microduck::picture::{certain_walls, likely_walls, pgm};
use microduck::protocol::{census, doubt, Census, Doubt, Timeline};
use microduck::replay::TofRecord;
use microduck::submap::{Beam, Point, Pose2, Scan};

fn s(x: f32) -> Single {
    Single { bits: x.to_bits() }
}

fn at(x: f32) -> Pose2 {
    Pose2 { x: s(x), y: s(0.0), yaw: s(0.0) }
}

fn gap(xy: f32, yaw: f32) -> Gap {
    Gap { xy: s(xy), yaw: s(yaw) }
}

#[test]
fn zones_count_when_the_chip_vouches_for_them() {
    assert!(is_usable(s(1.0), Some(5)));
    assert!(is_usable(s(1.0), Some(9)));
    assert!(!is_usable(s(1.0), Some(4)));
    assert!(is_usable(s(1.0), None));
    assert!(!is_usable(s(0.0), Some(5)));
    assert!(!is_usable(s(f32::NAN), None));
    assert!(!is_usable(s(f32::INFINITY), None));
    let mut frame = TofRecord {
        ts_us: 0,
        sender_ts_s: Double { bits: 0 },
        ranges_m: [[s(1.0); 8]; 8],
        status: [[5; 8]; 8],
    };
    frame.ranges_m[1][2] = s(-1.0);
    frame.status[0][3] = 255;
    let with = usable_ranges(&frame, true);
    let without = usable_ranges(&frame, false);
    assert_eq!(with.len(), 64);
    assert_eq!(with.iter().filter(|r| r.is_some()).count(), 62);
    assert_eq!((with[3], with[10], with[0]), (None, None, Some(s(1.0))));
    assert_eq!((without[3], without[10]), (Some(s(1.0)), None));
}

#[test]
fn a_stretch_is_half_a_second_long() {
    let mut stretch = Stretch::new();
    assert!(stretch.ends().is_none());
    stretch.push(Moment { ts_us: 0, odom: at(0.0) });
    stretch.push(Moment { ts_us: 500_000, odom: at(1.0) });
    assert_eq!(stretch.ends().unwrap().0.odom, at(0.0));
    stretch.push(Moment { ts_us: 500_001, odom: at(2.0) });
    let (first, last) = stretch.ends().unwrap();
    assert_eq!((first.odom, last.odom), (at(1.0), at(2.0)));
    stretch.push(Moment { ts_us: 9_000_000, odom: at(f32::NAN) });
    assert_eq!(stretch.ends().unwrap().1.odom, at(2.0));
}

#[test]
fn frames_are_planned_by_mode_and_stillness() {
    let windows = Mode { continuous: false, unfiltered: false };
    let every = Mode { continuous: true, unfiltered: false };
    let raw = Mode { continuous: false, unfiltered: true };
    let mut c = Counts::new();
    assert_eq!(c.frame(windows, false, Some(gap(0.0, 0.0))), Plan::Skip);
    assert_eq!(c.frame(windows, true, None), Plan::Skip);
    assert_eq!(c.frame(windows, true, Some(gap(0.02, 0.0))), Plan::Flush);
    assert_eq!(c.frame(windows, true, Some(gap(0.0, 0.05))), Plan::Flush);
    assert_eq!(c.frame(windows, true, Some(gap(0.005, 0.01))), Plan::Reproject);
    assert_eq!(c.frame(every, true, Some(gap(1.0, 1.0))), Plan::Reproject);
    assert_eq!((c.frames, c.still), (6, 1));
    assert_eq!(c.reprojected(windows, 0), Placing::Skip);
    assert_eq!(c.reprojected(windows, 10), Placing::Hold);
    assert_eq!(c.reprojected(raw, 5), Placing::Ink);
    assert_eq!(c.reprojected(every, 1), Placing::Ink);
    c.window();
    assert_eq!((c.inked, c.beams), (3, 16));
}

#[test]
fn runs_cover_every_frame_in_order() {
    assert!(joins(gap(0.029, 0.049)));
    assert!(!joins(gap(0.03, 0.0)));
    assert!(runs(&[]).is_empty());
    assert_eq!(runs(&[true, true, false, true]), vec![(0, 2), (2, 4)]);
    assert_eq!(runs(&[false, false]), vec![(0, 1), (1, 2)]);
}

#[test]
fn a_run_makes_one_wide_scan() {
    let p = |x: f32| Point { x: s(x), y: s(0.0) };
    let beam = |x: f32| Beam { origin: p(0.0), end: p(x) };
    let frames: Vec<(Pose2, Scan)> = (0..3)
        .map(|k| (at(k as f32), Scan { beams: vec![beam(k as f32)] }))
        .collect();
    let (pose, scan) = composite(&frames, 1, 3);
    assert_eq!(pose, at(1.0));
    assert_eq!(scan.beams, vec![beam(1.0), beam(2.0)]);
}

#[test]
fn halves_alternate() {
    assert!(halves(3, 22).is_none());
    let (even, odd) = halves(3, 24).unwrap();
    assert_eq!((even.len(), odd.len()), (11, 10));
    assert_eq!((even[0], even[10], odd[0], odd[9]), (3, 23, 4, 22));
}

#[test]
fn probes_come_from_the_later_half() {
    assert!(probes(0).is_empty());
    assert_eq!(probes(5), vec![2, 3, 4]);
    assert_eq!(probes(100), vec![50, 55, 60, 65, 70, 75, 80, 85, 90, 95]);
    assert!(is_hit(gap(0.29, 0.34)));
    assert!(!is_hit(gap(0.30, 0.0)));
    assert!(!is_hit(gap(0.0, 0.35)));
}

#[test]
fn beams_reach_unless_a_wall_is_in_the_way() {
    let g = OccupancyGrid::from_cells(3, 1, vec![0, 300, 0]).unwrap();
    assert_eq!(reached(&g, (0, 2), (0, 1), 200), None);
    assert_eq!(reached(&g, (0, 2), (0, 1), 300), Some(2));
    assert_eq!(reached(&g, (0, 2), (5, 1), 200), Some(2));
    assert_eq!(reached(&g, (0, 3), (0, 0), 200), None);
    assert_eq!(wall_cells(&g, 150), vec![(0, 1)]);
    assert!(wall_cells(&g, 300).is_empty());
}

#[test]
fn values_sort_in_the_total_order() {
    let xs = [s(2.0), s(-1.0), s(f32::NAN), s(0.5), s(-0.0), s(0.0)];
    let expected = vec![s(-1.0), s(-0.0), s(0.0), s(0.5), s(2.0), s(f32::NAN)];
    assert_eq!(sorted(&xs), expected);
    assert_eq!(quantiles(0), None);
    assert_eq!(quantiles(1), Some((0, 0)));
    assert_eq!(quantiles(10), Some((5, 9)));
}

#[test]
fn a_picture_has_its_header_and_the_last_row_on_top() {
    let g = OccupancyGrid::from_cells(2, 2, vec![200, 0, -60, 100]).unwrap();
    let mut expected = b"P5 2 2 255\n".to_vec();
    expected.extend([230, 160, 0, 160]);
    assert_eq!(pgm(&g, certain_walls(), None), expected);
    let mut marked = b"P5 2 2 255\n".to_vec();
    marked.extend([230, 160, 0, 70]);
    assert_eq!(pgm(&g, certain_walls(), Some(&[false, true, false, false])), marked);
    let mut likely = b"P5 2 2 255\n".to_vec();
    likely.extend([230, 0, 0, 128]);
    assert_eq!(pgm(&g, likely_walls(), None), likely);
}

#[test]
fn the_first_long_sit_is_the_carry() {
    let mut l = Timeline::new();
    assert!(!l.odom(s(0.0), at(0.0), false, at(0.0), None));
    assert!(l.odom(s(1.0), at(1.0), true, at(1.5), None));
    assert!(!l.odom(s(2.0), at(1.0), true, at(1.5), Some(s(1.0))));
    assert!(!l.odom(s(3.0), at(1.0), false, at(1.5), Some(s(2.0))));
    assert_eq!(l.carry, None);
    assert!(l.odom(s(4.0), at(2.0), true, at(2.5), None));
    assert!(!l.odom(s(7.0), at(2.0), false, at(2.5), Some(s(3.0))));
    assert_eq!(l.carry, Some((s(4.0), s(7.0))));
    assert!(!l.odom(s(8.0), at(3.0), true, at(3.5), None));
    assert!(!l.odom(s(20.0), at(3.0), false, at(3.5), Some(s(12.0))));
    assert_eq!(l.carry, Some((s(4.0), s(7.0))));
    assert_eq!(l.at_sit.unwrap().tracked_pose, at(2.5));
    assert_eq!(l.first_odom, Some(at(0.0)));
}

fn carried() -> Timeline {
    Timeline { carry: Some((s(4.0), s(7.0))), ..Timeline::new() }
}

fn inked() -> Note {
    Note::WindowIntegrated {
        beams: 100,
        windows: 1,
        mean_residual_m: s(0.0),
        n_observed: 0,
        n_beams: 100,
    }
}

#[test]
fn notes_before_the_carry_count_for_nothing_but_the_sit() {
    let mut l = Timeline::new();
    l.note(s(1.0), inked());
    l.note(s(1.0), Note::LostTracking { mean_residual_m: s(0.3), n_observed: 200 });
    l.note(s(1.0), Note::Relocalized { pose: at(1.0), mean_residual_m: s(0.1) });
    l.note(s(1.0), Note::RelocalizeRejected { best_pose: at(1.0), mean_residual_m: s(0.1) });
    assert_eq!(l, Timeline::new());
    l.note(s(4.0), Note::SuspectAfterSit);
    assert_eq!(l.lost_at, Some(s(4.0)));
    assert_eq!(doubt(&l, s(7.0)), Doubt::AtTheSit);
}

#[test]
fn notes_after_the_carry_are_scored() {
    let mut l = carried();
    assert_eq!(doubt(&l, s(7.0)), Doubt::Never);
    l.note(s(8.0), inked());
    l.note(s(9.0), Note::LostTracking { mean_residual_m: s(0.3), n_observed: 200 });
    l.note(s(10.0), inked());
    l.note(s(11.0), Note::RelocalizeRejected { best_pose: at(1.0), mean_residual_m: s(0.1) });
    l.note(s(12.0), Note::Relocalized { pose: at(2.0), mean_residual_m: s(0.05) });
    l.note(s(13.0), Note::Relocalized { pose: at(3.0), mean_residual_m: s(0.05) });
    assert_eq!((l.inked_while_wrong, l.rejections), (1, 1));
    assert_eq!(l.lost_at, Some(s(9.0)));
    assert_eq!(l.found.unwrap().pose, at(2.0));
    assert_eq!(doubt(&l, s(7.0)), Doubt::Later);
}

#[test]
fn a_census_counts_every_beam_once() {
    let g = OccupancyGrid::from_cells(3, 1, vec![51, -51, 50]).unwrap();
    let ends = [(0, 0), (0, 1), (0, 2), (0, 3), (-1, 0), (0, 0)];
    assert_eq!(census(&g, &ends), Census { on_wall: 2, in_free: 1, unknown: 1, off_map: 2 });
}
