//! When to map, when to doubt, and how to find back: stillness, windows, the tracking
//! watchdog and recovery after a kidnap.
//!
//! Scans are inked only through vetted still windows. Before a window inks it is
//! scored against the map as it stood when the stand began; a window that the map can
//! judge and flatly contradicts is set aside, and a run of them means that the robot is
//! not where it thinks. While it is lost nothing inks: every window either confirms
//! a pose or is searched for a new one. A sit, a fall or a restart only raises a
//! suspicion, which two agreeing windows settle.
//!
//! The caller runs the loop: it does what is asked, and hands back what came of it.

use vstd::prelude::*;
use crate::accumulator::{AccumulatorConfig, Sight, WindowAccumulator};
use crate::accumulator::{composite, middle_of, seen_from};
use crate::ieee::Single;
use crate::loop_closer::Gap;
use crate::relocalize::{PoseAgreement, RelocalizeConfig, RelocalizeResult};
use crate::submap::{Pose2, Scan};

verus! {

/// When the robot counts as standing still, by its own odometry: one pushed by hand
/// moves whatever it was told.
#[derive(Debug, Clone, Copy, PartialEq, Eq, Structural)]
pub struct StillConfig {
    /// How long a stretch of odometry is looked at, in seconds.
    pub window_s: Single,
    /// Less than this far across it, in metres and in radians.
    pub max_dxy_m: Single,
    pub max_dyaw_rad: Single,
}

/// When a window contradicts the map. The bar is high: a robot wrongly thought lost
/// stops mapping until it has found itself.
#[derive(Debug, Clone, Copy, PartialEq, Eq, Structural)]
pub struct WatchdogConfig {
    /// The map must be able to judge this many beams,
    pub min_observed_beams: u32,
    /// and this share of them; not many, for a robot carried off paints mostly new
    /// ground, and the verdict lies in the beams that can be judged.
    pub min_observed_fraction: Single,
    /// Mean residual above which a window contradicts.
    pub max_mean_residual_m: Single,
    /// No beam counts for more than this.
    pub clamp_m: Single,
    /// Log-odds above which a cell is a wall.
    pub wall_threshold_fp: i16,
    /// Log-odds from which on, either way, a cell can judge.
    pub observed_fp: i16,
    /// How many contradictions in a row mean that the robot is lost.
    pub lost_after_windows: u32,
}

#[derive(Debug, Clone, Copy, PartialEq, Eq, Structural)]
pub struct MapperConfig {
    /// Ink every frame as it comes, instead of windows: more coverage, blurrier walls.
    pub continuous: bool,
    pub accumulator: AccumulatorConfig,
    pub still: StillConfig,
    /// A window closes after this long even if the stand goes on, in seconds.
    pub window_flush_after_s: Single,
    /// Windows with fewer beams are thrown away.
    pub min_window_beams: usize,
    /// How often a window is inked.
    pub window_ink_passes: usize,
    pub watchdog: WatchdogConfig,
    pub relocalize: RelocalizeConfig,
    /// Searches use at most this many beams of a window.
    pub relocalize_max_beams: usize,
    /// A pose is confirmed by a window with at most this mean residual,
    pub relocalize_confirm_max_residual_m: Single,
    /// of which the map can judge this share: through a narrow view a bit of wall looks
    /// like any other.
    pub relocalize_confirm_min_fraction: Single,
    /// A mere suspicion is dropped after this many windows that could not be judged.
    pub suspect_give_up_windows: u32,
}

/// The stock settings.
pub open spec fn stock_config() -> MapperConfig {
    MapperConfig {
        continuous: false,
        accumulator: crate::accumulator::stock_config(),
        still: StillConfig {
            window_s: Single { bits: 0x3F00_0000 },
            max_dxy_m: Single { bits: 0x3C23_D70A },
            max_dyaw_rad: Single { bits: 0x3D4C_CCCD },
        },
        window_flush_after_s: Single { bits: 0x4040_0000 },
        min_window_beams: 60,
        window_ink_passes: 2,
        watchdog: WatchdogConfig {
            min_observed_beams: 100,
            min_observed_fraction: Single { bits: 0x3D4C_CCCD },
            max_mean_residual_m: Single { bits: 0x3E80_0000 },
            clamp_m: Single { bits: 0x3F00_0000 },
            wall_threshold_fp: 150,
            observed_fp: 50,
            lost_after_windows: 2,
        },
        relocalize: RelocalizeConfig {
            wall_threshold_fp: 150,
            min_beams_used: 60,
            ..crate::relocalize::stock_config()
        },
        relocalize_max_beams: 256,
        relocalize_confirm_max_residual_m: Single { bits: 0x3DCC_CCCD },
        relocalize_confirm_min_fraction: Single { bits: 0x3E99_999A },
        suspect_give_up_windows: 10,
    }
}

impl Default for StillConfig {
    /// Half a second, a centimetre, three degrees.
    fn default() -> (cfg: Self)
        ensures
            cfg == stock_config().still,
    {
        StillConfig {
            window_s: Single { bits: 0x3F00_0000 },
            max_dxy_m: Single { bits: 0x3C23_D70A },
            max_dyaw_rad: Single { bits: 0x3D4C_CCCD },
        }
    }
}

impl Default for WatchdogConfig {
    /// A hundred beams, a twentieth of them, a quarter of a metre, twice in a row.
    fn default() -> (cfg: Self)
        ensures
            cfg == stock_config().watchdog,
    {
        WatchdogConfig {
            min_observed_beams: 100,
            min_observed_fraction: Single { bits: 0x3D4C_CCCD },
            max_mean_residual_m: Single { bits: 0x3E80_0000 },
            clamp_m: Single { bits: 0x3F00_0000 },
            wall_threshold_fp: 150,
            observed_fp: 50,
            lost_after_windows: 2,
        }
    }
}

impl Default for MapperConfig {
    fn default() -> (cfg: Self)
        ensures
            cfg == stock_config(),
    {
        let mut relocalize = RelocalizeConfig::default();
        relocalize.wall_threshold_fp = 150;
        relocalize.min_beams_used = 60;
        MapperConfig {
            continuous: false,
            accumulator: AccumulatorConfig::default(),
            still: StillConfig::default(),
            window_flush_after_s: Single { bits: 0x4040_0000 },
            min_window_beams: 60,
            window_ink_passes: 2,
            watchdog: WatchdogConfig::default(),
            relocalize,
            relocalize_max_beams: 256,
            relocalize_confirm_max_residual_m: Single { bits: 0x3DCC_CCCD },
            relocalize_confirm_min_fraction: Single { bits: 0x3E99_999A },
            suspect_give_up_windows: 10,
        }
    }
}

/// One tick's worth of the robot.
#[derive(Debug, Clone, Copy, PartialEq, Eq, Structural)]
pub struct MapperSample {
    pub odom: Pose2,
    /// The robot is doing something.
    pub moving: bool,
    /// It sits: from there the sensor sees knees and floor.
    pub sitting: bool,
    /// It has fallen over.
    pub fallen: bool,
}

/// What happened, for the log.
#[derive(Debug, Clone, Copy, PartialEq, Eq, Structural)]
pub enum Note {
    WindowIntegrated {
        beams: usize,
        windows: u32,
        mean_residual_m: Single,
        n_observed: u32,
        n_beams: u32,
    },
    WindowDiscarded { beams: usize },
    /// A window contradicted the map; not enough of them yet to be lost.
    WindowQuarantined { mean_residual_m: Single, n_observed: u32 },
    /// A pose that the next window must confirm.
    RelocalizeCandidate { pose: Pose2, mean_residual_m: Single },
    SuspectAfterSit,
    SuspectAfterFall,
    /// Nothing could judge the pose either way for too long, so it was taken as it is.
    ResumedUnverified { pose: Pose2 },
    LostTracking { mean_residual_m: Single, n_observed: u32 },
    Relocalized { pose: Pose2, mean_residual_m: Single },
    RelocalizeRejected { best_pose: Pose2, mean_residual_m: Single },
    LoopClosed { n_loops: usize, dx: Single, dy: Single, dyaw: Single },
}

/// A pose awaiting confirmation, and the tracked pose when it was proposed: the
/// odometry since then carries it along.
#[derive(Debug, Clone, Copy, PartialEq, Eq, Structural)]
pub struct Candidate {
    pub pose: Pose2,
    pub then: Pose2,
}

/// What the mapper believes about its own pose.
#[derive(Debug, Clone, Copy, PartialEq, Eq)]
pub struct Belief {
    /// The tracked pose is a guess.
    pub lost: bool,
    /// Contradicting windows in a row so far.
    pub suspect: u32,
    /// What the last search proposed.
    pub pending_reloc: Option<Candidate>,
    /// "I was not moved", as long as nothing has refuted it.
    pub soft_seed: Option<Candidate>,
    /// Windows since the suspicion that could not be judged.
    pub unjudged: u32,
    /// Windows in a row that agreed with the seed.
    pub seed_agreed: u32,
    /// Windows inked so far.
    pub windows: u32,
}

/// A window scored at a pose: the pose, the agreement there, and what it is held
/// against. `observed` is the number of beams that the map could judge, and the
/// floors are the shares of all beams that a weak and a strong verdict take.
#[derive(Debug, Clone, Copy, PartialEq, Eq, Structural)]
pub struct Check {
    pub at: Pose2,
    pub agreement: PoseAgreement,
    pub observed: Single,
    pub weak_floor: Single,
    pub strong_floor: Single,
}

/// How a pose fared against a window.
#[derive(Debug, Clone, Copy, PartialEq, Eq, Structural)]
pub enum Verdict {
    /// The window agrees.
    Confirmed,
    /// The map judged it and said no: evidence that the robot was moved.
    Refuted,
    /// The map judged it, and the verdict fell in between.
    Ambiguous,
    /// The map has no opinion on what the window shows.
    Unjudgeable,
}

/// The map can judge enough of the window to refute a pose.
pub open spec fn weak(cfg: MapperConfig, c: Check) -> bool {
    c.agreement.n_observed >= cfg.watchdog.min_observed_beams && c.weak_floor.at_most(c.observed)
}

/// The map can judge enough of the window to confirm a pose.
pub open spec fn strong(cfg: MapperConfig, c: Check) -> bool {
    c.agreement.n_observed >= cfg.watchdog.min_observed_beams && c.strong_floor.at_most(c.observed)
}

/// The window contradicts the pose.
pub open spec fn contradicts(cfg: MapperConfig, c: Check) -> bool {
    weak(cfg, c) && cfg.watchdog.max_mean_residual_m.below(c.agreement.mean_residual_m)
}

/// The verdict on a candidate pose. To confirm takes more than to refute: agreement on
/// a sliver of the beams is a coincidence, but contradiction on it is not.
pub open spec fn verdict(cfg: MapperConfig, c: Check) -> Verdict {
    if strong(cfg, c) && c.agreement.mean_residual_m.at_most(
        cfg.relocalize_confirm_max_residual_m,
    ) {
        Verdict::Confirmed
    } else if strong(cfg, c) || contradicts(cfg, c) {
        Verdict::Refuted
    } else if weak(cfg, c) {
        Verdict::Ambiguous
    } else {
        Verdict::Unjudgeable
    }
}

/// Judges a candidate pose by a fresh window.
pub fn check_candidate(cfg: &MapperConfig, c: &Check) -> (v: Verdict)
    ensures
        v == verdict(*cfg, *c),
{
    let enough = c.agreement.n_observed >= cfg.watchdog.min_observed_beams;
    let is_strong = enough && c.strong_floor.le(c.observed);
    let is_weak = enough && c.weak_floor.le(c.observed);
    let residual = c.agreement.mean_residual_m;
    if is_strong && residual.le(cfg.relocalize_confirm_max_residual_m) {
        Verdict::Confirmed
    } else if is_strong || (is_weak && cfg.watchdog.max_mean_residual_m.lt(residual)) {
        Verdict::Refuted
    } else if is_weak {
        Verdict::Ambiguous
    } else {
        Verdict::Unjudgeable
    }
}

/// What came of the last thing asked, or that a window closed.
#[derive(Debug, Clone, Copy)]
pub enum Event {
    /// A window of so many beams closed. There is a map to search, and one that was
    /// kept when the stand began.
    Closed { beams: usize, has_map: bool, has_stand: bool },
    /// The seed, carried along, was scored against the window; with the pose tracked
    /// now.
    SeedChecked { check: Check, now: Pose2 },
    /// The search's candidate was.
    PendingChecked { check: Check },
    /// The window was searched.
    Searched { result: Option<RelocalizeResult>, now: Pose2 },
    /// The window was scored at the tracked pose against the map of the stand.
    Watched { check: Check, beams: usize },
}

/// What is to be done next about a closed window.
#[derive(Debug, Clone, Copy, PartialEq, Eq, Structural)]
pub enum Ask {
    /// Nothing: the window is dealt with.
    Nothing,
    /// Score the seed against it.
    CheckSeed(Candidate),
    /// Score the pending candidate against it.
    CheckPending(Candidate),
    /// Search it for a pose.
    Search,
    /// Score it at the tracked pose, against the map of the stand.
    Watch,
    /// Ink it.
    Ink,
    /// Track from this pose on: overwrite the tracked pose, let the submaps see the
    /// jump, and ink the window there.
    Resume(Pose2),
}

/// A belief, what is asked next, and what there is to note.
#[derive(Debug, Clone, Copy)]
pub struct Move {
    pub belief: Belief,
    pub ask: Ask,
    pub note: Option<Note>,
}

/// Suspicion that nothing has confirmed: the tracked pose is a guess, with "I was not
/// moved" to be tested.
pub open spec fn suspicious(b: Belief, here: Pose2) -> Belief {
    Belief {
        lost: true,
        suspect: 0,
        pending_reloc: None,
        soft_seed: Some(Candidate { pose: here, then: here }),
        unjudged: 0,
        seed_agreed: 0,
        windows: b.windows,
    }
}

/// Tracking again, with one more window inked.
pub open spec fn trusting(b: Belief) -> Belief {
    Belief {
        lost: false,
        suspect: 0,
        pending_reloc: None,
        soft_seed: None,
        unjudged: 0,
        seed_agreed: 0,
        windows: (b.windows + 1) as u32,
    }
}

/// What to do when the seed did not settle it: the search's candidate, if there is
/// one, or a search.
pub open spec fn look_further(b: Belief) -> Ask {
    match b.pending_reloc {
        Some(c) => Ask::CheckPending(c),
        None => Ask::Search,
    }
}

pub open spec fn after_closed(
    cfg: MapperConfig,
    b: Belief,
    beams: usize,
    has_map: bool,
    has_stand: bool,
) -> Move {
    if beams < cfg.min_window_beams {
        Move { belief: b, ask: Ask::Nothing, note: Some(Note::WindowDiscarded { beams }) }
    } else if b.lost {
        if !has_map {
            Move { belief: b, ask: Ask::Nothing, note: None }
        } else {
            Move {
                belief: b,
                ask: match b.soft_seed {
                    Some(c) => Ask::CheckSeed(c),
                    None => look_further(b),
                },
                note: None,
            }
        }
    } else if has_stand {
        Move { belief: b, ask: Ask::Watch, note: None }
    } else {
        let windows = (b.windows + 1) as u32;
        Move {
            belief: Belief { windows, ..b },
            ask: Ask::Ink,
            note: Some(
                Note::WindowIntegrated {
                    beams,
                    windows,
                    mean_residual_m: Single { bits: 0 },
                    n_observed: 0,
                    n_beams: beams as u32,
                },
            ),
        }
    }
}

pub open spec fn after_seed(cfg: MapperConfig, b: Belief, c: Check, now: Pose2) -> Move {
    let kept = Some(Candidate { pose: c.at, then: now });
    match verdict(cfg, c) {
        Verdict::Confirmed => if b.seed_agreed + 1 >= 2 {
            Move {
                belief: trusting(b),
                ask: Ask::Resume(c.at),
                note: Some(
                    Note::Relocalized {
                        pose: c.at,
                        mean_residual_m: c.agreement.mean_residual_m,
                    },
                ),
            }
        } else {
            Move {
                belief: Belief {
                    seed_agreed: (b.seed_agreed + 1) as u32,
                    soft_seed: kept,
                    ..b
                },
                ask: Ask::Nothing,
                note: Some(
                    Note::RelocalizeCandidate {
                        pose: c.at,
                        mean_residual_m: c.agreement.mean_residual_m,
                    },
                ),
            }
        },
        Verdict::Refuted => Move {
            belief: Belief { seed_agreed: 0, soft_seed: None, ..b },
            ask: look_further(b),
            note: None,
        },
        Verdict::Ambiguous => Move {
            belief: Belief { seed_agreed: 0, soft_seed: kept, ..b },
            ask: look_further(b),
            note: None,
        },
        Verdict::Unjudgeable => if b.unjudged + 1 >= cfg.suspect_give_up_windows {
            Move {
                belief: trusting(b),
                ask: Ask::Resume(c.at),
                note: Some(Note::ResumedUnverified { pose: c.at }),
            }
        } else {
            Move {
                belief: Belief {
                    seed_agreed: 0,
                    unjudged: (b.unjudged + 1) as u32,
                    soft_seed: kept,
                    ..b
                },
                ask: look_further(b),
                note: None,
            }
        },
    }
}

pub open spec fn after_pending(cfg: MapperConfig, b: Belief, c: Check) -> Move {
    if verdict(cfg, c) is Confirmed {
        Move {
            belief: trusting(b),
            ask: Ask::Resume(c.at),
            note: Some(
                Note::Relocalized { pose: c.at, mean_residual_m: c.agreement.mean_residual_m },
            ),
        }
    } else {
        Move { belief: Belief { pending_reloc: None, ..b }, ask: Ask::Search, note: None }
    }
}

pub open spec fn after_search(b: Belief, result: Option<RelocalizeResult>, now: Pose2) -> Move {
    match result {
        Some(r) => if r.accepted {
            Move {
                belief: Belief {
                    pending_reloc: Some(Candidate { pose: r.pose, then: now }),
                    ..b
                },
                ask: Ask::Nothing,
                note: Some(
                    Note::RelocalizeCandidate { pose: r.pose, mean_residual_m: r.mean_residual_m },
                ),
            }
        } else {
            Move {
                belief: b,
                ask: Ask::Nothing,
                note: Some(
                    Note::RelocalizeRejected {
                        best_pose: r.pose,
                        mean_residual_m: r.mean_residual_m,
                    },
                ),
            }
        },
        None => Move { belief: b, ask: Ask::Nothing, note: None },
    }
}

pub open spec fn after_watch(cfg: MapperConfig, b: Belief, c: Check, beams: usize) -> Move {
    if contradicts(cfg, c) {
        let residual = c.agreement.mean_residual_m;
        let n_observed = c.agreement.n_observed;
        if b.suspect + 1 >= cfg.watchdog.lost_after_windows {
            Move {
                belief: Belief { lost: true, suspect: 0, pending_reloc: None, ..b },
                ask: Ask::Nothing,
                note: Some(Note::LostTracking { mean_residual_m: residual, n_observed }),
            }
        } else {
            Move {
                belief: Belief { suspect: (b.suspect + 1) as u32, ..b },
                ask: Ask::Nothing,
                note: Some(Note::WindowQuarantined { mean_residual_m: residual, n_observed }),
            }
        }
    } else {
        let windows = (b.windows + 1) as u32;
        Move {
            belief: Belief { suspect: 0, windows, ..b },
            ask: Ask::Ink,
            note: Some(
                Note::WindowIntegrated {
                    beams,
                    windows,
                    mean_residual_m: c.agreement.mean_residual_m,
                    n_observed: c.agreement.n_observed,
                    n_beams: c.agreement.n_beams,
                },
            ),
        }
    }
}

/// What follows an event. Answers to what was not asked change nothing.
pub open spec fn after(cfg: MapperConfig, b: Belief, e: Event) -> Move {
    match e {
        Event::Closed { beams, has_map, has_stand } => after_closed(
            cfg,
            b,
            beams,
            has_map,
            has_stand,
        ),
        Event::SeedChecked { check, now } => if b.lost && b.soft_seed is Some {
            after_seed(cfg, b, check, now)
        } else {
            Move { belief: b, ask: Ask::Nothing, note: None }
        },
        Event::PendingChecked { check } => if b.lost && b.pending_reloc is Some {
            after_pending(cfg, b, check)
        } else {
            Move { belief: b, ask: Ask::Nothing, note: None }
        },
        Event::Searched { result, now } => if b.lost {
            after_search(b, result, now)
        } else {
            Move { belief: b, ask: Ask::Nothing, note: None }
        },
        Event::Watched { check, beams } => if !b.lost {
            after_watch(cfg, b, check, beams)
        } else {
            Move { belief: b, ask: Ask::Nothing, note: None }
        },
    }
}

/// The counters are where the rules leave them: the seed has been agreed with once at
/// most, and neither limit has been reached without consequence.
pub open spec fn sane(cfg: MapperConfig, b: Belief) -> bool {
    &&& b.seed_agreed <= 1
    &&& b.suspect == 0 || b.suspect < cfg.watchdog.lost_after_windows
    &&& b.unjudged == 0 || b.unjudged < cfg.suspect_give_up_windows
}

/// The counters stay there.
pub proof fn law_counters_stay_sane(cfg: MapperConfig, b: Belief, e: Event, here: Pose2)
    requires
        sane(cfg, b),
    ensures
        sane(cfg, after(cfg, b, e).belief),
        sane(cfg, suspicious(b, here)),
{
}

/// While the robot is lost nothing inks: no event asks for it, and the count of inked
/// windows stands still, unless the event ends in tracking again.
pub proof fn law_nothing_inks_while_lost(cfg: MapperConfig, b: Belief, e: Event)
    requires
        b.lost,
    ensures
        after(cfg, b, e).ask != Ask::Ink,
        after(cfg, b, e).belief.lost ==> after(cfg, b, e).belief.windows == b.windows,
        !after(cfg, b, e).belief.lost <==> after(cfg, b, e).ask is Resume,
{
}

/// A window that contradicts the map is never inked.
pub proof fn law_contradicting_windows_are_not_inked(
    cfg: MapperConfig,
    b: Belief,
    check: Check,
    beams: usize,
)
    requires
        contradicts(cfg, check),
    ensures
        after(cfg, b, Event::Watched { check, beams }).ask == Ask::Nothing,
        after(cfg, b, Event::Watched { check, beams }).belief.windows == b.windows,
{
}

/// Resuming on the seed takes two agreeing windows in a row: the first only keeps it,
/// and any window that does not agree starts the count anew.
pub proof fn law_the_seed_must_agree_twice(
    cfg: MapperConfig,
    b: Belief,
    check: Check,
    now: Pose2,
)
    requires
        b.lost,
        b.soft_seed is Some,
    ensures
        verdict(cfg, check) is Confirmed && b.seed_agreed == 0 ==> {
            &&& after(cfg, b, Event::SeedChecked { check, now }).ask == Ask::Nothing
            &&& after(cfg, b, Event::SeedChecked { check, now }).belief.lost
            &&& after(cfg, b, Event::SeedChecked { check, now }).belief.seed_agreed == 1
        },
        !(verdict(cfg, check) is Confirmed) ==> after(
            cfg,
            b,
            Event::SeedChecked { check, now },
        ).belief.seed_agreed == 0,
{
}

/// The beliefs along some events.
pub open spec fn along(cfg: MapperConfig, b: Belief, events: Seq<Event>) -> Belief
    decreases events.len(),
{
    if events.len() == 0 {
        b
    } else {
        after(cfg, along(cfg, b, events.drop_last()), events.last()).belief
    }
}

/// Once the seed has been refuted, the robot never resumes unverified: whatever
/// happens, as long as it stays lost there is no seed to give up on, and the event
/// that ends it is a pose confirmed by a window.
pub proof fn law_no_giving_up_after_evidence(
    cfg: MapperConfig,
    b: Belief,
    events: Seq<Event>,
    e: Event,
)
    requires
        b.lost,
        b.soft_seed is None,
        forall|n: int|
            0 <= n <= events.len() ==> (#[trigger] along(cfg, b, events.take(n))).lost,
    ensures
        along(cfg, b, events).soft_seed is None,
        !(after(cfg, along(cfg, b, events), e).note matches Some(note)
            && note is ResumedUnverified),
        after(cfg, along(cfg, b, events), e).ask is Resume ==> (e matches Event::PendingChecked {
            check,
        } && verdict(cfg, check) is Confirmed),
    decreases events.len(),
{
    assert(events.take(events.len() as int) =~= events);
    if events.len() > 0 {
        let fewer = events.drop_last();
        assert forall|n: int| 0 <= n <= fewer.len() implies (#[trigger] along(
            cfg,
            b,
            fewer.take(n),
        )).lost by {
            assert(fewer.take(n) =~= events.take(n));
        }
        law_no_giving_up_after_evidence(cfg, b, fewer, events.last());
        let was = along(cfg, b, fewer);
        assert(fewer =~= events.take(events.len() - 1));
        assert(along(cfg, b, events).lost);
    }
}

/// Only a window that the map could not judge counts toward giving up.
pub proof fn law_judged_windows_spend_no_patience(
    cfg: MapperConfig,
    b: Belief,
    check: Check,
    now: Pose2,
)
    requires
        b.lost,
        b.soft_seed is Some,
        !(verdict(cfg, check) is Unjudgeable),
    ensures
        after(cfg, b, Event::SeedChecked { check, now }).belief.lost ==> after(
            cfg,
            b,
            Event::SeedChecked { check, now },
        ).belief.unjudged == b.unjudged,
{
}

/// One agreeing window clears all suspicion that contradicting ones raised.
pub proof fn law_an_agreeing_window_clears_suspicion(
    cfg: MapperConfig,
    b: Belief,
    check: Check,
    beams: usize,
)
    requires
        !b.lost,
        !contradicts(cfg, check),
    ensures
        after(cfg, b, Event::Watched { check, beams }).belief.suspect == 0,
        !after(cfg, b, Event::Watched { check, beams }).belief.lost,
        after(cfg, b, Event::Watched { check, beams }).ask == Ask::Ink,
{
}

fn suspect_pose(b: Belief, here: Pose2) -> (out: Belief)
    ensures
        out == suspicious(b, here),
{
    Belief {
        lost: true,
        suspect: 0,
        pending_reloc: None,
        soft_seed: Some(Candidate { pose: here, then: here }),
        unjudged: 0,
        seed_agreed: 0,
        windows: b.windows,
    }
}

fn trust(b: Belief) -> (out: Belief)
    requires
        b.windows < u32::MAX,
    ensures
        out == trusting(b),
{
    Belief {
        lost: false,
        suspect: 0,
        pending_reloc: None,
        soft_seed: None,
        unjudged: 0,
        seed_agreed: 0,
        windows: b.windows + 1,
    }
}

fn further(b: &Belief) -> (ask: Ask)
    ensures
        ask == look_further(*b),
{
    match b.pending_reloc {
        Some(c) => Ask::CheckPending(c),
        None => Ask::Search,
    }
}

fn seed_checked(cfg: &MapperConfig, b: Belief, c: Check, now: Pose2) -> (m: Move)
    requires
        sane(*cfg, b),
        b.windows < u32::MAX,
    ensures
        m == after_seed(*cfg, b, c, now),
{
    let kept = Some(Candidate { pose: c.at, then: now });
    let residual = c.agreement.mean_residual_m;
    match check_candidate(cfg, &c) {
        Verdict::Confirmed => {
            if b.seed_agreed + 1 >= 2 {
                Move {
                    belief: trust(b),
                    ask: Ask::Resume(c.at),
                    note: Some(Note::Relocalized { pose: c.at, mean_residual_m: residual }),
                }
            } else {
                Move {
                    belief: Belief { seed_agreed: b.seed_agreed + 1, soft_seed: kept, ..b },
                    ask: Ask::Nothing,
                    note: Some(Note::RelocalizeCandidate { pose: c.at, mean_residual_m: residual }),
                }
            }
        },
        Verdict::Refuted => Move {
            belief: Belief { seed_agreed: 0, soft_seed: None, ..b },
            ask: further(&b),
            note: None,
        },
        Verdict::Ambiguous => Move {
            belief: Belief { seed_agreed: 0, soft_seed: kept, ..b },
            ask: further(&b),
            note: None,
        },
        Verdict::Unjudgeable => {
            if b.unjudged >= u32::MAX || b.unjudged + 1 >= cfg.suspect_give_up_windows {
                Move {
                    belief: trust(b),
                    ask: Ask::Resume(c.at),
                    note: Some(Note::ResumedUnverified { pose: c.at }),
                }
            } else {
                Move {
                    belief: Belief {
                        seed_agreed: 0,
                        unjudged: b.unjudged + 1,
                        soft_seed: kept,
                        ..b
                    },
                    ask: further(&b),
                    note: None,
                }
            }
        },
    }
}

fn watched(cfg: &MapperConfig, b: Belief, c: Check, beams: usize) -> (m: Move)
    requires
        sane(*cfg, b),
        b.windows < u32::MAX,
    ensures
        m == after_watch(*cfg, b, c, beams),
{
    let residual = c.agreement.mean_residual_m;
    let n_observed: u32 = c.agreement.n_observed;
    if n_observed >= cfg.watchdog.min_observed_beams && c.weak_floor.le(c.observed)
        && cfg.watchdog.max_mean_residual_m.lt(residual) {
        if b.suspect >= u32::MAX || b.suspect + 1 >= cfg.watchdog.lost_after_windows {
            Move {
                belief: Belief { lost: true, suspect: 0, pending_reloc: None, ..b },
                ask: Ask::Nothing,
                note: Some(Note::LostTracking { mean_residual_m: residual, n_observed }),
            }
        } else {
            Move {
                belief: Belief { suspect: b.suspect + 1, ..b },
                ask: Ask::Nothing,
                note: Some(Note::WindowQuarantined { mean_residual_m: residual, n_observed }),
            }
        }
    } else {
        let windows: u32 = b.windows + 1;
        Move {
            belief: Belief { suspect: 0, windows, ..b },
            ask: Ask::Ink,
            note: Some(
                Note::WindowIntegrated {
                    beams,
                    windows,
                    mean_residual_m: residual,
                    n_observed,
                    n_beams: c.agreement.n_beams,
                },
            ),
        }
    }
}

fn closed(cfg: &MapperConfig, b: Belief, beams: usize, has_map: bool, has_stand: bool) -> (m: Move)
    requires
        b.windows < u32::MAX,
    ensures
        m == after_closed(*cfg, b, beams, has_map, has_stand),
{
    if beams < cfg.min_window_beams {
        return Move {
            belief: b,
            ask: Ask::Nothing,
            note: Some(Note::WindowDiscarded { beams }),
        };
    }
    if b.lost {
        if !has_map {
            return Move { belief: b, ask: Ask::Nothing, note: None };
        }
        let ask = match b.soft_seed {
            Some(c) => Ask::CheckSeed(c),
            None => further(&b),
        };
        return Move { belief: b, ask, note: None };
    }
    if has_stand {
        return Move { belief: b, ask: Ask::Watch, note: None };
    }
    let windows: u32 = b.windows + 1;
    Move {
        belief: Belief { windows, ..b },
        ask: Ask::Ink,
        note: Some(
            Note::WindowIntegrated {
                beams,
                windows,
                mean_residual_m: Single { bits: 0 },
                n_observed: 0,
                n_beams: beams as u32,
            },
        ),
    }
}

fn searched(b: Belief, result: Option<RelocalizeResult>, now: Pose2) -> (m: Move)
    ensures
        m == after_search(b, result, now),
{
    match result {
        Some(r) => {
            if r.accepted {
                Move {
                    belief: Belief {
                        pending_reloc: Some(Candidate { pose: r.pose, then: now }),
                        ..b
                    },
                    ask: Ask::Nothing,
                    note: Some(
                        Note::RelocalizeCandidate {
                            pose: r.pose,
                            mean_residual_m: r.mean_residual_m,
                        },
                    ),
                }
            } else {
                Move {
                    belief: b,
                    ask: Ask::Nothing,
                    note: Some(
                        Note::RelocalizeRejected {
                            best_pose: r.pose,
                            mean_residual_m: r.mean_residual_m,
                        },
                    ),
                }
            }
        },
        None => Move { belief: b, ask: Ask::Nothing, note: None },
    }
}

/// What follows an event.
pub fn step(cfg: &MapperConfig, b: Belief, e: Event) -> (m: Move)
    requires
        sane(*cfg, b),
        b.windows < u32::MAX,
    ensures
        m == after(*cfg, b, e),
        sane(*cfg, m.belief),
{
    let idle = Move { belief: b, ask: Ask::Nothing, note: None };
    match e {
        Event::Closed { beams, has_map, has_stand } => closed(cfg, b, beams, has_map, has_stand),
        Event::SeedChecked { check, now } => {
            if b.lost && b.soft_seed.is_some() {
                seed_checked(cfg, b, check, now)
            } else {
                idle
            }
        },
        Event::PendingChecked { check } => {
            if b.lost && b.pending_reloc.is_some() {
                match check_candidate(cfg, &check) {
                    Verdict::Confirmed => Move {
                        belief: trust(b),
                        ask: Ask::Resume(check.at),
                        note: Some(
                            Note::Relocalized {
                                pose: check.at,
                                mean_residual_m: check.agreement.mean_residual_m,
                            },
                        ),
                    },
                    _ => Move {
                        belief: Belief { pending_reloc: None, ..b },
                        ask: Ask::Search,
                        note: None,
                    },
                }
            } else {
                idle
            }
        },
        Event::Searched { result, now } => {
            if b.lost {
                searched(b, result, now)
            } else {
                idle
            }
        },
        Event::Watched { check, beams } => {
            if !b.lost {
                watched(cfg, b, check, beams)
            } else {
                idle
            }
        },
    }
}

/// A moment of the odometry.
#[derive(Debug, Clone, Copy, PartialEq, Eq, Structural)]
pub struct Mark {
    pub t_s: Single,
    pub odom: Pose2,
}

/// The marks that are recent enough, given the age of each.
pub open spec fn recent(marks: Seq<Mark>, ages: Seq<Single>, horizon: Single) -> Seq<Mark>
    decreases marks.len(),
{
    if marks.len() == 0 {
        Seq::empty()
    } else {
        let rest = recent(marks.drop_last(), ages, horizon);
        if ages[marks.len() - 1].at_most(horizon) {
            rest.push(marks.last())
        } else {
            rest
        }
    }
}

/// The robot stands still: it does nothing, is on its feet, and its odometry has hardly
/// changed since the oldest recent mark.
pub open spec fn stands_still(
    cfg: MapperConfig,
    sample: MapperSample,
    displaced: Option<Gap>,
) -> bool {
    &&& !sample.moving && !sample.sitting && !sample.fallen
    &&& displaced matches Some(d) && d.xy.below(cfg.still.max_dxy_m)
        && d.yaw.without_sign().below(cfg.still.max_dyaw_rad)
}

/// What is to be done at a tick: close the open window, and keep a map of how things
/// stand now.
#[derive(Debug, Clone, Copy, PartialEq, Eq, Structural)]
pub struct Stand {
    pub flush: bool,
    pub snapshot: bool,
}

/// What a tick asks for, by whether the robot stood still and does now, how many frames
/// the window holds and for how long it has been open.
pub open spec fn stand_of(
    cfg: MapperConfig,
    was_still: bool,
    still: bool,
    held: nat,
    open_for: Option<Single>,
) -> Stand {
    let ripe = open_for matches Some(t) && cfg.window_flush_after_s.at_most(t);
    Stand { flush: ((was_still && !still) || ripe) && held > 0, snapshot: still && !was_still }
}

/// The belief after a sit or a fall, if there was one.
pub open spec fn doubted(b: Belief, sample: MapperSample, here: Pose2) -> Belief {
    if (sample.sitting || sample.fallen) && !b.lost {
        suspicious(b, here)
    } else {
        b
    }
}

/// What becomes of a frame.
pub enum Kept {
    /// It is to be inked as it is.
    Ink(Scan),
    /// It waits in the window.
    Held,
    Dropped,
}

pub struct Mapper<S> {
    cfg: MapperConfig,
    belief: Belief,
    acc: WindowAccumulator,
    odom_window: Vec<Mark>,
    was_still: bool,
    window_opened: Option<Single>,
    stand_grid: Option<S>,
    last_window: Option<(Pose2, Scan)>,
}

/// What a mapper believes at the start: a resumed session cannot vouch for its pose,
/// a fresh one has nothing to doubt.
pub open spec fn first_belief(n_submaps: int, here: Pose2) -> Belief {
    let fresh = Belief {
        lost: false,
        suspect: 0,
        pending_reloc: None,
        soft_seed: None,
        unjudged: 0,
        seed_agreed: 0,
        windows: 0,
    };
    if n_submaps > 0 {
        suspicious(fresh, here)
    } else {
        fresh
    }
}

impl<S> Mapper<S> {
    pub closed spec fn settings(&self) -> MapperConfig {
        self.cfg
    }

    pub closed spec fn beliefs(&self) -> Belief {
        self.belief
    }

    /// The open window.
    pub closed spec fn window(&self) -> WindowAccumulator {
        self.acc
    }

    /// The recent odometry.
    pub closed spec fn marks(&self) -> Seq<Mark> {
        self.odom_window@
    }

    pub closed spec fn standing(&self) -> bool {
        self.was_still
    }

    /// When the open window got its first frame.
    pub closed spec fn opened(&self) -> Option<Single> {
        self.window_opened
    }

    /// The map as it stood when the stand began.
    pub closed spec fn kept_map(&self) -> Option<S> {
        self.stand_grid
    }

    /// The last window that closed with something in it.
    pub closed spec fn last_closed(&self) -> Option<(Pose2, Scan)> {
        self.last_window
    }

    /// The counters are sane, and the window collects as the settings say.
    pub open spec fn well_formed(&self) -> bool {
        &&& sane(self.settings(), self.beliefs())
        &&& self.window().settings() == self.settings().accumulator
    }

    pub fn new(cfg: MapperConfig, n_submaps: usize, here: Pose2) -> (m: Self)
        ensures
            m.well_formed(),
            m.settings() == cfg,
            m.beliefs() == first_belief(n_submaps as int, here),
            m.window().held().len() == 0,
            m.marks().len() == 0,
            !m.standing(),
            m.opened() is None,
            m.kept_map() is None,
            m.last_closed() is None,
    {
        let fresh = Belief {
            lost: false,
            suspect: 0,
            pending_reloc: None,
            soft_seed: None,
            unjudged: 0,
            seed_agreed: 0,
            windows: 0,
        };
        let belief = if n_submaps > 0 {
            suspect_pose(fresh, here)
        } else {
            fresh
        };
        Mapper {
            cfg,
            belief,
            acc: WindowAccumulator::new(cfg.accumulator),
            odom_window: Vec::new(),
            was_still: false,
            window_opened: None,
            stand_grid: None,
            last_window: None,
        }
    }

    pub fn config(&self) -> (cfg: MapperConfig)
        ensures
            cfg == self.settings(),
    {
        self.cfg
    }

    /// Windows inked so far.
    pub fn windows(&self) -> (n: u32)
        ensures
            n == self.beliefs().windows,
    {
        self.belief.windows
    }

    pub fn still(&self) -> (r: bool)
        ensures
            r == self.standing(),
    {
        self.was_still
    }

    /// Whether the tracked pose can be trusted. While it cannot, the submaps must not
    /// be let age: that would launder a guess into the graph.
    pub fn tracking(&self) -> (r: bool)
        ensures
            r == !self.beliefs().lost,
    {
        !self.belief.lost
    }

    /// Frames in the open window.
    pub fn window_frames(&self) -> (n: usize)
        ensures
            n == self.window().held().len(),
    {
        self.acc.len()
    }

    /// The open window, for the caller to take its sights.
    pub fn open_window(&self) -> (acc: &WindowAccumulator)
        ensures
            *acc == self.window(),
    {
        &self.acc
    }

    pub fn last_window(&self) -> (w: Option<&(Pose2, Scan)>)
        ensures
            w is Some <==> self.last_closed() is Some,
            w matches Some(x) ==> *x == self.last_closed()->0,
    {
        self.last_window.as_ref()
    }

    /// The recent odometry, for the caller to tell ages and the displacement.
    pub fn odom_window(&self) -> (marks: &[Mark])
        ensures
            marks@ == self.marks(),
    {
        self.odom_window.as_slice()
    }

    /// When the open window got its first frame, for the caller to tell how long ago.
    pub fn window_opened(&self) -> (t: Option<Single>)
        ensures
            t == self.opened(),
    {
        self.window_opened
    }

    /// The map of the stand, to score windows against.
    pub fn stand_grid(&mut self) -> (g: Option<&mut S>)
        ensures
            g is Some <==> old(self).kept_map() is Some,
            g matches Some(x) ==> {
                &&& *x == old(self).kept_map()->0
                &&& final(self).kept_map() == Some(*final(x))
            },
            g is None ==> final(self).kept_map() is None,
            final(self).settings() == old(self).settings(),
            final(self).beliefs() == old(self).beliefs(),
            final(self).window() == old(self).window(),
            final(self).marks() == old(self).marks(),
            final(self).standing() == old(self).standing(),
            final(self).opened() == old(self).opened(),
            final(self).last_closed() == old(self).last_closed(),
    {
        self.stand_grid.as_mut()
    }

    /// Keeps a map for the stand, or notes that there is none.
    pub fn keep_map(&mut self, grid: Option<S>)
        ensures
            final(self).kept_map() == grid,
            final(self).settings() == old(self).settings(),
            final(self).beliefs() == old(self).beliefs(),
            final(self).window() == old(self).window(),
            final(self).marks() == old(self).marks(),
            final(self).standing() == old(self).standing(),
            final(self).opened() == old(self).opened(),
            final(self).last_closed() == old(self).last_closed(),
    {
        self.stand_grid = grid;
    }

    /// Everything but the belief, the window and the stand is as it was.
    pub open spec fn same_rest(&self, other: &Mapper<S>) -> bool {
        &&& self.settings() == other.settings()
        &&& self.kept_map() == other.kept_map()
    }

    /// Takes in an odometry reading; `ages` are those of the marks so far and of this
    /// one. Marks that are too old are dropped.
    pub fn mark(&mut self, t_s: Single, odom: Pose2, ages: &[Single])
        requires
            ages@.len() == old(self).marks().len() + 1,
        ensures
            final(self).marks() == recent(
                old(self).marks().push((Mark { t_s, odom })),
                ages@,
                old(self).settings().still.window_s,
            ),
            final(self).same_rest(old(self)),
            final(self).beliefs() == old(self).beliefs(),
            final(self).window() == old(self).window(),
            final(self).standing() == old(self).standing(),
            final(self).opened() == old(self).opened(),
            final(self).last_closed() == old(self).last_closed(),
    {
        let horizon = self.cfg.still.window_s;
        self.odom_window.push(Mark { t_s, odom });
        let ghost all = self.odom_window@;
        let mut kept: Vec<Mark> = Vec::new();
        let mut i: usize = 0;
        while i < self.odom_window.len()
            invariant
                i <= all.len(),
                self.odom_window@ == all,
                ages@.len() == all.len(),
                kept@ == recent(all.take(i as int), ages@, horizon),
            decreases self.odom_window.len() - i,
        {
            assert(all.take(i + 1).drop_last() =~= all.take(i as int));
            if ages[i].le(horizon) {
                kept.push(self.odom_window[i]);
            }
            i += 1;
        }
        assert(all.take(i as int) =~= all);
        self.odom_window = kept;
    }

    /// Decides about the stand. `displaced` tells how far the odometry is from the
    /// oldest recent mark, and `open_for` how long the window has been open. A window
    /// closes when the stand ends, or once it is ripe; and a stand that begins calls
    /// for the map to be kept, so that what is inked during it never testifies for it.
    pub fn observe(
        &mut self,
        sample: MapperSample,
        displaced: Option<Gap>,
        open_for: Option<Single>,
    ) -> (stand: Stand)
        requires
            open_for is Some <==> old(self).opened() is Some,
        ensures
            stand == stand_of(
                old(self).settings(),
                old(self).standing(),
                stands_still(old(self).settings(), sample, displaced),
                old(self).window().held().len(),
                open_for,
            ),
            ({
                let still = stands_still(old(self).settings(), sample, displaced);
                let ended = old(self).standing() && !still;
                let ripe = open_for matches Some(t)
                    && old(self).settings().window_flush_after_s.at_most(t);
                &&& final(self).standing() == still
                &&& stand.flush == ((ended || ripe) && old(self).window().held().len() > 0)
                &&& stand.snapshot == (still && !old(self).standing())
                &&& final(self).opened() == if stand.flush || ended {
                    None
                } else {
                    old(self).opened()
                }
            }),
            final(self).same_rest(old(self)),
            final(self).beliefs() == old(self).beliefs(),
            final(self).window() == old(self).window(),
            final(self).marks() == old(self).marks(),
            final(self).last_closed() == old(self).last_closed(),
    {
        let near = match displaced {
            Some(d) => d.xy.lt(self.cfg.still.max_dxy_m) && d.yaw.abs().lt(
                self.cfg.still.max_dyaw_rad,
            ),
            None => false,
        };
        let still = !sample.moving && !sample.sitting && !sample.fallen && near;
        let stand_ended = self.was_still && !still;
        let ripe = match open_for {
            Some(t) => self.cfg.window_flush_after_s.le(t),
            None => false,
        };
        let flush = (stand_ended || ripe) && !self.acc.is_empty();
        if flush || stand_ended {
            self.window_opened = None;
        }
        let snapshot = still && !self.was_still;
        self.was_still = still;
        Stand { flush, snapshot }
    }

    /// Closes the open window: see [`WindowAccumulator::finish`]. What is left of it is
    /// kept as the last window, and what to do about it is asked. `has_map` says that
    /// there is a map to search.
    pub fn absorb_window(
        &mut self,
        sights: &[Vec<Sight>],
        max_range_sq: Single,
        has_map: bool,
        notes: &mut Vec<Note>,
    ) -> (ask: Ask)
        requires
            old(self).well_formed(),
            seen_from(old(self).window().held(), sights@),
            old(self).beliefs().windows < u32::MAX,
        ensures
            final(self).well_formed(),
            final(self).window().held().len() == 0,
            final(self).same_rest(old(self)),
            final(self).marks() == old(self).marks(),
            final(self).standing() == old(self).standing(),
            final(self).opened() == old(self).opened(),
            ({
                let beams = composite(
                    old(self).settings().accumulator,
                    sights@,
                    max_range_sq,
                    sights@.len() as int,
                );
                let moved = after(
                    old(self).settings(),
                    old(self).beliefs(),
                    Event::Closed {
                        beams: beams.len() as usize,
                        has_map,
                        has_stand: old(self).kept_map() is Some,
                    },
                );
                if beams.len() > 0 {
                    &&& final(self).beliefs() == moved.belief
                    &&& ask == moved.ask
                    &&& final(notes)@ == noted(old(notes)@, moved.note)
                    &&& final(self).last_closed() matches Some(w) && Some(w.0) == middle_of(
                        old(self).window().held(),
                    ) && w.1.beams@ == beams
                } else {
                    &&& final(self).beliefs() == old(self).beliefs()
                    &&& ask == Ask::Nothing
                    &&& final(notes)@ == old(notes)@
                    &&& final(self).last_closed() == old(self).last_closed()
                }
            }),
    {
        let has_stand = self.stand_grid.is_some();
        match self.acc.finish(sights, max_range_sq) {
            Some((pose, scan)) => {
                let beams: usize = scan.n_valid();
                self.last_window = Some((pose, scan));
                let m = step(&self.cfg, self.belief, Event::Closed { beams, has_map, has_stand });
                self.belief = m.belief;
                match m.note {
                    Some(note) => notes.push(note),
                    None => {},
                }
                m.ask
            },
            None => Ask::Nothing,
        }
    }

    /// Takes in what came of the last thing asked, and asks the next.
    pub fn answer(&mut self, e: Event, notes: &mut Vec<Note>) -> (ask: Ask)
        requires
            old(self).well_formed(),
            old(self).beliefs().windows < u32::MAX,
        ensures
            final(self).well_formed(),
            ({
                let moved = after(old(self).settings(), old(self).beliefs(), e);
                &&& final(self).beliefs() == moved.belief
                &&& ask == moved.ask
                &&& final(notes)@ == noted(old(notes)@, moved.note)
            }),
            final(self).same_rest(old(self)),
            final(self).window() == old(self).window(),
            final(self).marks() == old(self).marks(),
            final(self).standing() == old(self).standing(),
            final(self).opened() == old(self).opened(),
            final(self).last_closed() == old(self).last_closed(),
    {
        let m = step(&self.cfg, self.belief, e);
        self.belief = m.belief;
        match m.note {
            Some(note) => notes.push(note),
            None => {},
        }
        m.ask
    }

    /// A sit or a fall makes the pose suspect: the robot cannot feel being carried. This
    /// comes after the window that closes at the sit has been dealt with, for that one
    /// shows the world from before.
    pub fn doubt(&mut self, sample: MapperSample, here: Pose2, notes: &mut Vec<Note>)
        requires
            old(self).well_formed(),
        ensures
            final(self).well_formed(),
            final(self).beliefs() == doubted(old(self).beliefs(), sample, here),
            (sample.sitting || sample.fallen) && !old(self).beliefs().lost ==> {
                &&& final(self).beliefs() == suspicious(old(self).beliefs(), here)
                &&& final(notes)@ == old(notes)@.push(
                    if sample.fallen {
                        Note::SuspectAfterFall
                    } else {
                        Note::SuspectAfterSit
                    },
                )
            },
            !((sample.sitting || sample.fallen) && !old(self).beliefs().lost) ==> {
                &&& final(self).beliefs() == old(self).beliefs()
                &&& final(notes)@ == old(notes)@
            },
            final(self).same_rest(old(self)),
            final(self).window() == old(self).window(),
            final(self).marks() == old(self).marks(),
            final(self).standing() == old(self).standing(),
            final(self).opened() == old(self).opened(),
            final(self).last_closed() == old(self).last_closed(),
    {
        if (sample.sitting || sample.fallen) && !self.belief.lost {
            self.belief = suspect_pose(self.belief, here);
            notes.push(
                if sample.fallen {
                    Note::SuspectAfterFall
                } else {
                    Note::SuspectAfterSit
                },
            );
        }
    }

    /// Takes in how many loops the map had closed before and after a tick, and by how
    /// much the tracked pose moved. A closure moves every anchor: frames already held
    /// carry poses from before, so the window starts over, and during a stand the map
    /// is to be kept anew, which the result says.
    pub fn loops_closed(
        &mut self,
        before: usize,
        n_loops: usize,
        dx: Single,
        dy: Single,
        dyaw: Single,
        notes: &mut Vec<Note>,
    ) -> (snapshot: bool)
        requires
            old(self).well_formed(),
        ensures
            final(self).well_formed(),
            snapshot == (n_loops > before && old(self).standing()),
            n_loops > before ==> {
                &&& final(notes)@ == old(notes)@.push(
                    (Note::LoopClosed { n_loops, dx, dy, dyaw }),
                )
                &&& final(self).window().held().len() == 0
                &&& final(self).opened() == if old(self).window().held().len() > 0 {
                    None
                } else {
                    old(self).opened()
                }
            },
            n_loops <= before ==> {
                &&& final(notes)@ == old(notes)@
                &&& final(self).window() == old(self).window()
                &&& final(self).opened() == old(self).opened()
            },
            final(self).same_rest(old(self)),
            final(self).beliefs() == old(self).beliefs(),
            final(self).marks() == old(self).marks(),
            final(self).standing() == old(self).standing(),
            final(self).last_closed() == old(self).last_closed(),
    {
        if n_loops <= before {
            return false;
        }
        notes.push(Note::LoopClosed { n_loops, dx, dy, dyaw });
        if !self.acc.is_empty() {
            self.acc = WindowAccumulator::new(self.cfg.accumulator);
            self.window_opened = None;
        }
        self.was_still
    }

    /// Takes in a frame, already in the body frame, at the tracked pose `here`. While
    /// the robot is lost even a continuous mapper collects windows, or it would have
    /// no way back.
    pub fn frame(&mut self, t_s: Single, here: Pose2, scan: Scan) -> (kept: Kept)
        ensures
            old(self).settings().continuous && !old(self).beliefs().lost ==> {
                &&& kept == Kept::Ink(scan)
                &&& final(self).window() == old(self).window()
                &&& final(self).opened() == old(self).opened()
            },
            !(old(self).settings().continuous && !old(self).beliefs().lost) && !old(
                self,
            ).standing() ==> {
                &&& kept == Kept::Dropped
                &&& final(self).window() == old(self).window()
                &&& final(self).opened() == old(self).opened()
            },
            !(old(self).settings().continuous && !old(self).beliefs().lost) && old(
                self,
            ).standing() ==> {
                &&& kept == Kept::Held
                &&& final(self).window().held() == old(self).window().held().push((here, scan))
                &&& final(self).window().settings() == old(self).window().settings()
                &&& final(self).opened() == if old(self).window().held().len() == 0 {
                    Some(t_s)
                } else {
                    old(self).opened()
                }
            },
            final(self).same_rest(old(self)),
            final(self).beliefs() == old(self).beliefs(),
            final(self).marks() == old(self).marks(),
            final(self).standing() == old(self).standing(),
            final(self).last_closed() == old(self).last_closed(),
    {
        if self.cfg.continuous && !self.belief.lost {
            return Kept::Ink(scan);
        }
        if !self.was_still {
            return Kept::Dropped;
        }
        if self.acc.is_empty() {
            self.window_opened = Some(t_s);
        }
        self.acc.push(here, scan);
        Kept::Held
    }
}

/// The notes with one more, if there is one.
pub open spec fn noted(notes: Seq<Note>, note: Option<Note>) -> Seq<Note> {
    match note {
        Some(n) => notes.push(n),
        None => notes,
    }
}

/// A robot on its seat or on its side does not stand still, whatever its odometry says.
pub proof fn law_no_mapping_from_the_floor(
    cfg: MapperConfig,
    sample: MapperSample,
    displaced: Option<Gap>,
)
    requires
        sample.sitting || sample.fallen,
    ensures
        !stands_still(cfg, sample, displaced),
{
}

/// A window contradicts the map exactly if the map can judge enough of its beams, in
/// number and as a share, and the mean residual over those is above the limit.
pub proof fn law_contradiction_takes_beams_and_misfit(cfg: MapperConfig, c: Check)
    ensures
        c.agreement.n_observed < cfg.watchdog.min_observed_beams ==> !contradicts(cfg, c),
        c.observed.below(c.weak_floor) ==> !contradicts(cfg, c),
        c.agreement.mean_residual_m.at_most(cfg.watchdog.max_mean_residual_m) ==> !contradicts(
            cfg,
            c,
        ),
        c.agreement.n_observed >= cfg.watchdog.min_observed_beams && c.weak_floor.at_most(
            c.observed,
        ) && cfg.watchdog.max_mean_residual_m.below(c.agreement.mean_residual_m) ==> contradicts(
            cfg,
            c,
        ),
{
}

/// The verdict on a candidate: with too few beams judged there is none; with a strong share
/// it is confirmed by a good fit and refuted by anything else; with only a weak share it
/// can be refuted by a contradiction, and is open otherwise.
pub proof fn law_confirming_takes_more_than_refuting(cfg: MapperConfig, c: Check)
    ensures
        c.agreement.n_observed < cfg.watchdog.min_observed_beams ==> verdict(cfg, c) is Unjudgeable,
        c.observed.below(c.weak_floor) && c.observed.below(c.strong_floor) ==> verdict(
            cfg,
            c,
        ) is Unjudgeable,
        c.agreement.n_observed >= cfg.watchdog.min_observed_beams && c.strong_floor.at_most(
            c.observed,
        ) ==> {
            &&& c.agreement.mean_residual_m.at_most(cfg.relocalize_confirm_max_residual_m)
                ==> verdict(cfg, c) is Confirmed
            &&& cfg.relocalize_confirm_max_residual_m.below(c.agreement.mean_residual_m) ==> verdict(
                cfg,
                c,
            ) is Refuted
        },
        c.agreement.n_observed >= cfg.watchdog.min_observed_beams && c.weak_floor.at_most(c.observed)
            && c.observed.below(c.strong_floor) ==> {
            &&& cfg.watchdog.max_mean_residual_m.below(c.agreement.mean_residual_m) ==> verdict(
                cfg,
                c,
            ) is Refuted
            &&& c.agreement.mean_residual_m.at_most(cfg.watchdog.max_mean_residual_m) ==> verdict(
                cfg,
                c,
            ) is Ambiguous
        },
{
}

/// While tracking, each contradicting window in a row is counted and set aside, and the
/// one that makes as many as it takes means that the robot is lost.
pub proof fn law_contradictions_in_a_row_lose_the_robot(
    cfg: MapperConfig,
    b: Belief,
    events: Seq<Event>,
)
    requires
        !b.lost,
        b.suspect == 0,
        cfg.watchdog.lost_after_windows >= 1,
        0 < events.len() <= cfg.watchdog.lost_after_windows,
        forall|k: int|
            0 <= k < events.len() ==> (#[trigger] events[k] matches Event::Watched { check, .. }
                && contradicts(cfg, check)),
    ensures
        events.len() == cfg.watchdog.lost_after_windows ==> along(cfg, b, events).lost,
        events.len() < cfg.watchdog.lost_after_windows ==> !along(cfg, b, events).lost && along(
            cfg,
            b,
            events,
        ).suspect == events.len(),
        along(cfg, b, events).windows == b.windows,
    decreases events.len(),
{
    let front = events.drop_last();
    assert(events[events.len() - 1] == events.last());
    if front.len() > 0 {
        assert forall|k: int| 0 <= k < front.len() implies (
        #[trigger] front[k] matches Event::Watched { check, .. } && contradicts(cfg, check)) by {
            assert(front[k] == events[k]);
        }
        law_contradictions_in_a_row_lose_the_robot(cfg, b, front);
    } else {
        assert(along(cfg, b, front) == b);
    }
}

/// What a closed window leads to: with too few beams it is thrown away; while tracking it
/// is scored against the map of the stand, or inked where there is none; while lost it is
/// never inked, and tests the seed before anything else.
pub proof fn law_a_closed_window_is_vetted_before_it_inks(
    cfg: MapperConfig,
    b: Belief,
    beams: usize,
    has_map: bool,
    has_stand: bool,
)
    requires
        b.windows < u32::MAX,
    ensures
        ({
            let m = after(cfg, b, Event::Closed { beams, has_map, has_stand });
            &&& beams < cfg.min_window_beams ==> {
                &&& m.ask == Ask::Nothing
                &&& m.belief == b
                &&& m.note == Some(Note::WindowDiscarded { beams })
            }
            &&& beams >= cfg.min_window_beams && !b.lost && has_stand ==> {
                &&& m.ask == Ask::Watch
                &&& m.belief == b
            }
            &&& beams >= cfg.min_window_beams && !b.lost && !has_stand ==> {
                &&& m.ask == Ask::Ink
                &&& m.belief.windows == b.windows + 1
                &&& !m.belief.lost
                &&& m.belief.suspect == b.suspect
            }
            &&& beams >= cfg.min_window_beams && b.lost ==> {
                &&& m.belief == b
                &&& !has_map ==> m.ask == Ask::Nothing
                &&& has_map ==> (b.soft_seed matches Some(c) ==> m.ask == Ask::CheckSeed(c))
                &&& has_map && b.soft_seed is None ==> (b.pending_reloc matches Some(c) ==> m.ask
                    == Ask::CheckPending(c))
                &&& has_map && b.soft_seed is None && b.pending_reloc is None ==> m.ask
                    == Ask::Search
            }
        }),
{
}

/// How the seed is dealt with: two agreeing windows resume at the pose that was scored,
/// the first only carries it along; a refuted seed is gone for good; and one that nothing
/// can judge is given up on exactly at the limit.
pub proof fn law_the_seed_is_settled_by_windows(
    cfg: MapperConfig,
    b: Belief,
    check: Check,
    now: Pose2,
)
    requires
        b.lost,
        b.soft_seed is Some,
        b.seed_agreed <= 1,
        b.unjudged < u32::MAX,
        b.windows < u32::MAX,
    ensures
        ({
            let m = after(cfg, b, Event::SeedChecked { check, now });
            let kept = Some(Candidate { pose: check.at, then: now });
            &&& verdict(cfg, check) is Confirmed && b.seed_agreed == 1 ==> {
                &&& m.ask == Ask::Resume(check.at)
                &&& !m.belief.lost
                &&& m.belief.windows == b.windows + 1
            }
            &&& verdict(cfg, check) is Confirmed && b.seed_agreed == 0 ==> {
                &&& m.ask == Ask::Nothing
                &&& m.belief.lost
                &&& m.belief.soft_seed == kept
                &&& m.belief.seed_agreed == 1
            }
            &&& verdict(cfg, check) is Refuted ==> {
                &&& m.belief.lost
                &&& m.belief.soft_seed is None
                &&& m.belief.seed_agreed == 0
                &&& !(m.ask is Resume)
            }
            &&& verdict(cfg, check) is Ambiguous ==> {
                &&& m.belief.lost
                &&& m.belief.soft_seed == kept
                &&& m.belief.unjudged == b.unjudged
                &&& !(m.ask is Resume)
            }
            &&& verdict(cfg, check) is Unjudgeable ==> {
                &&& b.unjudged + 1 >= cfg.suspect_give_up_windows ==> m.ask == Ask::Resume(check.at)
                    && !m.belief.lost && m.note == Some(
                    Note::ResumedUnverified { pose: check.at },
                )
                &&& b.unjudged + 1 < cfg.suspect_give_up_windows ==> m.belief.lost
                    && m.belief.unjudged == b.unjudged + 1 && m.belief.soft_seed == kept && !(
                m.ask is Resume)
            }
            &&& m.belief.lost && !(m.ask is Nothing) ==> (match b.pending_reloc {
                Some(c) => m.ask == Ask::CheckPending(c),
                None => m.ask == Ask::Search,
            })
        }),
{
}

/// A pose that a search proposed is taken only once another window has confirmed it;
/// anything else drops it and searches anew.
pub proof fn law_a_proposed_pose_must_be_confirmed(cfg: MapperConfig, b: Belief, check: Check)
    requires
        b.lost,
        b.pending_reloc is Some,
        b.windows < u32::MAX,
    ensures
        ({
            let m = after(cfg, b, Event::PendingChecked { check });
            &&& verdict(cfg, check) is Confirmed ==> m.ask == Ask::Resume(check.at)
                && !m.belief.lost && m.belief.windows == b.windows + 1
            &&& !(verdict(cfg, check) is Confirmed) ==> m.ask == Ask::Search && m.belief.lost
                && m.belief.pending_reloc is None && m.belief.soft_seed == b.soft_seed
                && m.belief.windows == b.windows
        }),
{
}

/// A search that accepts a pose proposes it, with the pose tracked now; one that does not
/// changes nothing. Neither ends being lost.
pub proof fn law_a_search_only_proposes(
    cfg: MapperConfig,
    b: Belief,
    r: RelocalizeResult,
    now: Pose2,
)
    requires
        b.lost,
    ensures
        ({
            let m = after(cfg, b, Event::Searched { result: Some(r), now });
            &&& m.ask == Ask::Nothing
            &&& m.belief.lost
            &&& m.belief.windows == b.windows
            &&& r.accepted ==> m.belief.pending_reloc == Some(
                Candidate { pose: r.pose, then: now },
            )
            &&& !r.accepted ==> m.belief == b
        }),
        after(cfg, b, Event::Searched { result: None, now }).belief == b,
        after(cfg, b, Event::Searched { result: None, now }).ask == Ask::Nothing,
{
}

/// A suspicion keeps the pose as a seed and nothing else but the count of windows; trust
/// clears everything and counts one more window.
pub proof fn law_suspicion_and_trust_start_over(b: Belief, here: Pose2)
    requires
        b.windows < u32::MAX,
    ensures
        suspicious(b, here).lost,
        suspicious(b, here).soft_seed == Some(Candidate { pose: here, then: here }),
        suspicious(b, here).pending_reloc is None,
        suspicious(b, here).suspect == 0,
        suspicious(b, here).unjudged == 0,
        suspicious(b, here).seed_agreed == 0,
        suspicious(b, here).windows == b.windows,
        !trusting(b).lost,
        trusting(b).soft_seed is None,
        trusting(b).pending_reloc is None,
        trusting(b).suspect == 0,
        trusting(b).unjudged == 0,
        trusting(b).seed_agreed == 0,
        trusting(b).windows == b.windows + 1,
{
}

/// A session that starts with a map doubts its pose; one without has nothing to doubt.
pub proof fn law_a_resumed_session_starts_in_doubt(n_submaps: int, here: Pose2)
    requires
        0 <= n_submaps,
    ensures
        first_belief(n_submaps, here).lost <==> n_submaps > 0,
        n_submaps > 0 ==> first_belief(n_submaps, here).soft_seed == Some(
            Candidate { pose: here, then: here },
        ),
        first_belief(n_submaps, here).windows == 0,
        first_belief(n_submaps, here).suspect == 0,
{
}

/// A robot stands still exactly if it does nothing, neither sits nor lies, and its odometry
/// has moved by less than both limits since the oldest recent mark, turned either way.
pub proof fn law_standing_still_takes_all_of_it(
    cfg: MapperConfig,
    sample: MapperSample,
    d: Gap,
)
    ensures
        !stands_still(cfg, sample, None),
        sample.moving || sample.sitting || sample.fallen ==> !stands_still(cfg, sample, Some(d)),
        cfg.still.max_dxy_m.at_most(d.xy) ==> !stands_still(cfg, sample, Some(d)),
        cfg.still.max_dyaw_rad.at_most(d.yaw.without_sign()) ==> !stands_still(
            cfg,
            sample,
            Some(d),
        ),
        !sample.moving && !sample.sitting && !sample.fallen && d.xy.below(cfg.still.max_dxy_m)
            && d.yaw.without_sign().below(cfg.still.max_dyaw_rad) ==> stands_still(
            cfg,
            sample,
            Some(d),
        ),
{
}

/// The marks kept are those not older than the horizon, in their order.
pub proof fn law_old_marks_are_dropped(
    marks: Seq<Mark>,
    mark: Mark,
    ages: Seq<Single>,
    horizon: Single,
)
    requires
        ages.len() == marks.len() + 1,
    ensures
        recent(Seq::<Mark>::empty(), ages, horizon).len() == 0,
        ages.last().at_most(horizon) ==> recent(marks.push(mark), ages, horizon) == recent(
            marks,
            ages,
            horizon,
        ).push(mark),
        !ages.last().at_most(horizon) ==> recent(marks.push(mark), ages, horizon) == recent(
            marks,
            ages,
            horizon,
        ),
{
    assert(marks.push(mark).drop_last() =~= marks);
}

/// A window closes when the stand ends or once it has been open for long enough, if it
/// holds anything, and at no other time; the map is kept exactly when a stand begins.
pub proof fn law_a_window_closes_with_its_stand(
    cfg: MapperConfig,
    was_still: bool,
    still: bool,
    held: nat,
    open_for: Option<Single>,
)
    ensures
        ({
            let s = stand_of(cfg, was_still, still, held, open_for);
            &&& held == 0 ==> !s.flush
            &&& held > 0 && was_still && !still ==> s.flush
            &&& open_for matches Some(t) ==> held > 0 && cfg.window_flush_after_s.at_most(t)
                ==> s.flush
            &&& (still || !was_still) && open_for is None ==> !s.flush
            &&& open_for matches Some(t) ==> (still || !was_still) && t.below(
                cfg.window_flush_after_s,
            ) ==> !s.flush
            &&& s.snapshot <==> still && !was_still
        }),
{
}

/// A sit or a fall makes a trusted pose suspect, and changes nothing about one that is
/// suspect already; a robot on its feet raises no doubt.
pub proof fn law_a_sit_or_a_fall_raises_doubt(b: Belief, sample: MapperSample, here: Pose2)
    ensures
        (sample.sitting || sample.fallen) && !b.lost ==> doubted(b, sample, here).lost && doubted(
            b,
            sample,
            here,
        ).soft_seed == Some(Candidate { pose: here, then: here }),
        b.lost ==> doubted(b, sample, here) == b,
        !sample.sitting && !sample.fallen ==> doubted(b, sample, here) == b,
        doubted(b, sample, here).windows == b.windows,
{
}

/// A note is added behind those that were there.
pub proof fn law_notes_are_added_at_the_end(notes: Seq<Note>, note: Note)
    ensures
        noted(notes, None) == notes,
        noted(notes, Some(note)) == notes.push(note),
{
}

/// What the stock settings take for a contradiction and for a confirmation, residuals
/// told by their bits: a quarter of a metre or more over a hundred judged beams, and a
/// tenth of a metre or less; two contradicting windows lose the robot, and ten that
/// cannot be judged end the wait.
pub proof fn law_stock_watchdog(c: Check)
    requires
        c.agreement.mean_residual_m.bits < 0x7F80_0000,
    ensures
        contradicts(stock_config(), c) ==> c.agreement.n_observed >= 100
            && c.agreement.mean_residual_m.bits > 0x3E80_0000,
        c.agreement.n_observed >= 100 && c.weak_floor.at_most(c.observed)
            && c.agreement.mean_residual_m.bits > 0x3E80_0000 ==> contradicts(stock_config(), c),
        verdict(stock_config(), c) is Confirmed ==> c.agreement.n_observed >= 100
            && c.agreement.mean_residual_m.bits <= 0x3DCC_CCCD,
        c.agreement.n_observed >= 100 && c.strong_floor.at_most(c.observed)
            && c.agreement.mean_residual_m.bits <= 0x3DCC_CCCD ==> verdict(stock_config(), c)
            is Confirmed,
        stock_config().watchdog.lost_after_windows == 2,
        stock_config().suspect_give_up_windows == 10,
{
}

/// The stock window: what stands still, how long a window lasts and how many beams it
/// needs.
pub proof fn law_stock_window()
    ensures
        ({
            let cfg = stock_config();
            &&& !cfg.continuous
            &&& cfg.still.window_s.bits == 0x3F00_0000
            &&& cfg.still.max_dxy_m.bits == 0x3C23_D70A
            &&& cfg.still.max_dyaw_rad.bits == 0x3D4C_CCCD
            &&& cfg.window_flush_after_s.bits == 0x4040_0000
            &&& cfg.still.window_s.below(cfg.window_flush_after_s)
            &&& cfg.min_window_beams == 60
            &&& cfg.window_ink_passes == 2
            &&& cfg.watchdog.min_observed_fraction.bits == 0x3D4C_CCCD
            &&& cfg.relocalize_confirm_min_fraction.bits == 0x3E99_999A
            &&& cfg.watchdog.min_observed_fraction.below(cfg.relocalize_confirm_min_fraction)
            &&& cfg.watchdog.clamp_m.bits == 0x3F00_0000
            &&& cfg.watchdog.wall_threshold_fp == 150
            &&& cfg.watchdog.observed_fp == 50
            &&& cfg.relocalize.wall_threshold_fp == 150
            &&& cfg.relocalize.min_beams_used == 60
            &&& cfg.relocalize_max_beams == 256
        }),
{
}

} // verus!
