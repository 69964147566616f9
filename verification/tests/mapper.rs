use microduck::ieee::Single;
use microduck::loop_closer::Gap;
use microduck::mapper::{
    check_candidate, step, Ask, Belief, Candidate, Check, Event, Kept, Mapper, MapperConfig,
    MapperSample, Note, Verdict,
};
use microduck::relocalize::{PoseAgreement, RelocalizeResult};
use microduck::submap::{Beam, Point, Pose2, Scan};

fn s(x: f32) -> Single {
    Single { bits: x.to_bits() }
}

fn at(x: f32) -> Pose2 {
    Pose2 { x: s(x), y: s(0.0), yaw: s(0.0) }
}

/// A window of a thousand beams, so many of them judged, at this mean residual.
fn check(n_observed: u32, residual: f32) -> Check {
    Check {
        at: at(1.0),
        agreement: PoseAgreement { mean_residual_m: s(residual), n_observed, n_beams: 1000 },
        observed: s(n_observed as f32),
        weak_floor: s(50.0),
        strong_floor: s(300.0),
    }
}

fn lost() -> Belief {
    Belief {
        lost: true,
        suspect: 0,
        pending_reloc: None,
        soft_seed: Some(Candidate { pose: at(0.0), then: at(0.0) }),
        unjudged: 0,
        seed_agreed: 0,
        windows: 3,
    }
}

fn on_track() -> Belief {
    Belief { lost: false, soft_seed: None, ..lost() }
}

fn seed(b: Belief, c: Check) -> (Belief, Ask, Option<Note>) {
    let m = step(&MapperConfig::default(), b, Event::SeedChecked { check: c, now: at(2.0) });
    (m.belief, m.ask, m.note)
}

#[test]
fn a_candidate_is_judged_by_share_and_residual() {
    let cfg = MapperConfig::default();
    assert_eq!(check_candidate(&cfg, &check(400, 0.05)), Verdict::Confirmed);
    assert_eq!(check_candidate(&cfg, &check(400, 0.15)), Verdict::Refuted);
    assert_eq!(check_candidate(&cfg, &check(150, 0.40)), Verdict::Refuted);
    assert_eq!(check_candidate(&cfg, &check(150, 0.05)), Verdict::Ambiguous);
    assert_eq!(check_candidate(&cfg, &check(99, 0.40)), Verdict::Unjudgeable);
}

#[test]
fn a_small_window_is_discarded() {
    let closed = Event::Closed { beams: 59, has_map: true, has_stand: true };
    let m = step(&MapperConfig::default(), on_track(), closed);
    assert_eq!(m.ask, Ask::Nothing);
    assert!(matches!(m.note, Some(Note::WindowDiscarded { beams: 59 })));
    assert_eq!(m.belief, on_track());
}

#[test]
fn the_first_window_inks_without_a_map_to_watch() {
    let closed = Event::Closed { beams: 100, has_map: false, has_stand: false };
    let m = step(&MapperConfig::default(), on_track(), closed);
    assert_eq!(m.ask, Ask::Ink);
    assert_eq!(m.belief.windows, 4);
}

#[test]
fn a_window_is_watched_when_a_stand_has_a_map() {
    let closed = Event::Closed { beams: 100, has_map: true, has_stand: true };
    assert_eq!(step(&MapperConfig::default(), on_track(), closed).ask, Ask::Watch);
}

#[test]
fn a_lost_robot_without_a_map_waits() {
    let closed = Event::Closed { beams: 100, has_map: false, has_stand: false };
    let m = step(&MapperConfig::default(), lost(), closed);
    assert_eq!(m.ask, Ask::Nothing);
    assert_eq!(m.belief, lost());
}

#[test]
fn two_contradictions_in_a_row_lose_tracking_and_ink_nothing() {
    let cfg = MapperConfig::default();
    let watched = |b: Belief| step(&cfg, b, Event::Watched { check: check(500, 0.4), beams: 1000 });
    let first = watched(on_track());
    assert_eq!(first.ask, Ask::Nothing);
    assert!(!first.belief.lost);
    assert!(matches!(first.note, Some(Note::WindowQuarantined { n_observed: 500, .. })));
    let second = watched(first.belief);
    assert_eq!(second.ask, Ask::Nothing);
    assert!(second.belief.lost);
    assert_eq!(second.belief.windows, 3);
    assert!(matches!(second.note, Some(Note::LostTracking { n_observed: 500, .. })));
}

#[test]
fn an_agreeing_window_clears_the_count() {
    let cfg = MapperConfig::default();
    let b = Belief { suspect: 1, ..on_track() };
    let m = step(&cfg, b, Event::Watched { check: check(500, 0.05), beams: 1000 });
    assert_eq!(m.ask, Ask::Ink);
    assert_eq!(m.belief.suspect, 0);
    assert_eq!(m.belief.windows, 4);
}

#[test]
fn the_seed_needs_two_agreeing_windows_in_a_row() {
    let (b, ask, note) = seed(lost(), check(400, 0.05));
    assert_eq!(ask, Ask::Nothing);
    assert!(b.lost && b.seed_agreed == 1);
    assert!(matches!(note, Some(Note::RelocalizeCandidate { .. })));
    assert_eq!(b.soft_seed, Some(Candidate { pose: at(1.0), then: at(2.0) }));
    let (b2, ask2, note2) = seed(b, check(400, 0.05));
    assert_eq!(ask2, Ask::Resume(at(1.0)));
    assert!(!b2.lost && b2.windows == 4);
    assert!(matches!(note2, Some(Note::Relocalized { .. })));
    let (b3, _, _) = seed(b, check(150, 0.05));
    assert_eq!(b3.seed_agreed, 0);
}

#[test]
fn a_refuted_seed_is_gone_and_the_map_is_searched() {
    let (b, ask, _) = seed(lost(), check(400, 0.3));
    assert_eq!(b.soft_seed, None);
    assert_eq!(ask, Ask::Search);
    let cfg = MapperConfig::default();
    let closed = Event::Closed { beams: 100, has_map: true, has_stand: false };
    assert_eq!(step(&cfg, b, closed).ask, Ask::Search);
}

#[test]
fn patience_is_spent_on_unjudgeable_windows_only() {
    let mut b = lost();
    for k in 1..10u32 {
        let (next, ask, _) = seed(b, check(10, 0.0));
        assert_eq!(ask, Ask::Search);
        assert_eq!(next.unjudged, k);
        b = next;
    }
    let (judged, _, _) = seed(b, check(150, 0.05));
    assert_eq!(judged.unjudged, 9);
    let (over, ask, note) = seed(b, check(10, 0.0));
    assert_eq!(ask, Ask::Resume(at(1.0)));
    assert!(!over.lost);
    assert!(matches!(note, Some(Note::ResumedUnverified { .. })));
}

#[test]
fn a_found_pose_must_be_confirmed_by_the_next_window() {
    let cfg = MapperConfig::default();
    let found = RelocalizeResult {
        pose: at(4.0),
        mean_residual_m: s(0.03),
        n_beams_used: 200,
        accepted: true,
    };
    let b = Belief { soft_seed: None, ..lost() };
    let m = step(&cfg, b, Event::Searched { result: Some(found), now: at(2.0) });
    assert_eq!(m.ask, Ask::Nothing);
    let pending = Candidate { pose: at(4.0), then: at(2.0) };
    assert_eq!(m.belief.pending_reloc, Some(pending));
    let closed = Event::Closed { beams: 100, has_map: true, has_stand: false };
    assert_eq!(step(&cfg, m.belief, closed).ask, Ask::CheckPending(pending));
    let yes = step(&cfg, m.belief, Event::PendingChecked { check: check(400, 0.05) });
    assert_eq!(yes.ask, Ask::Resume(at(1.0)));
    let no = step(&cfg, m.belief, Event::PendingChecked { check: check(10, 0.0) });
    assert_eq!(no.ask, Ask::Search);
    assert_eq!(no.belief.pending_reloc, None);
}

#[test]
fn a_rejected_search_is_noted_and_nothing_more() {
    let cfg = MapperConfig::default();
    let found = RelocalizeResult {
        pose: at(4.0),
        mean_residual_m: s(0.2),
        n_beams_used: 200,
        accepted: false,
    };
    let m = step(&cfg, lost(), Event::Searched { result: Some(found), now: at(2.0) });
    assert_eq!(m.belief, lost());
    assert!(matches!(m.note, Some(Note::RelocalizeRejected { .. })));
    let none = step(&cfg, lost(), Event::Searched { result: None, now: at(2.0) });
    assert!(none.note.is_none());
}

fn sample(moving: bool, sitting: bool) -> MapperSample {
    MapperSample { odom: at(0.0), moving, sitting, fallen: false }
}

fn scan() -> Scan {
    let p = |x: f32| Point { x: s(x), y: s(0.0) };
    Scan { beams: vec![Beam { origin: p(0.0), end: p(1.0) }] }
}

fn no_gap() -> Option<Gap> {
    Some(Gap { xy: s(0.0), yaw: s(0.0) })
}

#[test]
fn frames_wait_for_a_stand() {
    let mut m: Mapper<u8> = Mapper::new(MapperConfig::default(), 0, at(0.0));
    assert!(m.tracking());
    assert!(matches!(m.frame(s(0.0), at(0.0), scan()), Kept::Dropped));
    let stand = m.observe(sample(false, false), no_gap(), None);
    assert!(stand.snapshot && !stand.flush);
    assert!(m.still());
    assert!(matches!(m.frame(s(0.1), at(0.0), scan()), Kept::Held));
    assert_eq!(m.window_frames(), 1);
    let over = m.observe(sample(true, false), no_gap(), Some(s(0.2)));
    assert!(over.flush && !over.snapshot);
}

#[test]
fn a_ripe_window_closes_while_the_stand_goes_on() {
    let mut m: Mapper<u8> = Mapper::new(MapperConfig::default(), 0, at(0.0));
    m.observe(sample(false, false), no_gap(), None);
    m.frame(s(0.0), at(0.0), scan());
    let green = m.observe(sample(false, false), no_gap(), Some(s(2.9)));
    assert!(!green.flush);
    let ripe = m.observe(sample(false, false), no_gap(), Some(s(3.0)));
    assert!(ripe.flush && !ripe.snapshot);
}

#[test]
fn a_continuous_mapper_inks_every_frame_until_it_is_lost() {
    let cfg = MapperConfig { continuous: true, ..MapperConfig::default() };
    let mut m: Mapper<u8> = Mapper::new(cfg, 0, at(0.0));
    assert!(matches!(m.frame(s(0.0), at(0.0), scan()), Kept::Ink(_)));
    let mut notes = Vec::new();
    m.doubt(sample(false, true), at(0.0), &mut notes);
    assert!(!m.tracking());
    assert!(matches!(notes[0], Note::SuspectAfterSit));
    assert!(matches!(m.frame(s(0.1), at(0.0), scan()), Kept::Dropped));
    m.doubt(sample(false, true), at(0.0), &mut notes);
    assert_eq!(notes.len(), 1);
}

#[test]
fn a_resumed_map_starts_in_doubt() {
    let m: Mapper<u8> = Mapper::new(MapperConfig::default(), 1, at(0.0));
    assert!(!m.tracking());
}

#[test]
fn sitting_is_never_a_stand() {
    let mut m: Mapper<u8> = Mapper::new(MapperConfig::default(), 0, at(0.0));
    m.observe(sample(false, true), no_gap(), None);
    assert!(!m.still());
}

#[test]
fn a_loop_starts_the_window_over() {
    let mut m: Mapper<u8> = Mapper::new(MapperConfig::default(), 0, at(0.0));
    m.observe(sample(false, false), no_gap(), None);
    m.frame(s(0.0), at(0.0), scan());
    let mut notes = Vec::new();
    assert!(!m.loops_closed(1, 1, s(0.0), s(0.0), s(0.0), &mut notes));
    assert_eq!(m.window_frames(), 1);
    assert!(m.loops_closed(1, 2, s(0.1), s(0.0), s(0.0), &mut notes));
    assert_eq!(m.window_frames(), 0);
    assert!(matches!(notes[0], Note::LoopClosed { n_loops: 2, .. }));
}

#[test]
fn old_marks_are_dropped() {
    let mut m: Mapper<u8> = Mapper::new(MapperConfig::default(), 0, at(0.0));
    m.mark(s(0.0), at(0.0), &[s(0.0)]);
    m.mark(s(0.4), at(0.1), &[s(0.4), s(0.0)]);
    assert_eq!(m.odom_window().len(), 2);
    m.mark(s(0.8), at(0.2), &[s(0.8), s(0.4), s(0.0)]);
    assert_eq!(m.odom_window().len(), 2);
    assert_eq!(m.odom_window()[0].odom, at(0.1));
}
