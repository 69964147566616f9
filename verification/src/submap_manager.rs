//! The submaps of a session, and when to open the next one.
//!
//! The active submap is closed once it has been live for a while and the robot has
//! left its anchor, or as soon as the robot has walked far enough from it. The
//! next one is anchored at the pose tracked at that moment, so the rendered map
//! has no jump in it.

use vstd::prelude::*;
use crate::ieee::Single;
use crate::submap::{Pose2, Submap};

verus! {

/// What one tick did.
#[derive(Debug, Clone, Copy, PartialEq, Eq, Structural)]
pub enum TickOutcome {
    /// Nothing changed.
    Idle,
    /// A new submap opened; the previous one, if there was one, froze.
    Opened,
    /// The submap due for a change was empty, so it was anchored anew at the current
    /// pose: an empty frozen submap would be a dead node in the pose graph.
    Reanchored,
}

#[derive(Debug, Clone, Copy, PartialEq, Eq, Structural)]
pub struct SubmapManagerConfig {
    /// Longest life of a submap, in seconds.
    pub max_age_s: Single,
    /// Longest way from a submap's anchor, in metres.
    pub max_travel_m: Single,
    /// Age closes a submap only this far from its anchor: a standing robot drifts
    /// nowhere, and closing would mint one identical submap after another.
    pub min_travel_for_age_m: Single,
}

pub const DEFAULT_MAX_AGE_BITS: u32 = 0x41A0_0000;

pub const DEFAULT_MAX_TRAVEL_BITS: u32 = 0x4000_0000;

pub const DEFAULT_MIN_TRAVEL_FOR_AGE_BITS: u32 = 0x3E19_999A;

impl Default for SubmapManagerConfig {
    /// Twenty seconds, two metres, and fifteen centimetres before age counts.
    fn default() -> (cfg: Self)
        ensures
            cfg.max_age_s.bits == DEFAULT_MAX_AGE_BITS,
            cfg.max_travel_m.bits == DEFAULT_MAX_TRAVEL_BITS,
            cfg.min_travel_for_age_m.bits == DEFAULT_MIN_TRAVEL_FOR_AGE_BITS,
            cfg.max_age_s.bits == 0x41A0_0000,
            cfg.max_travel_m.bits == 0x4000_0000,
            cfg.min_travel_for_age_m.bits == 0x3E19_999A,
    {
        SubmapManagerConfig {
            max_age_s: Single { bits: DEFAULT_MAX_AGE_BITS },
            max_travel_m: Single { bits: DEFAULT_MAX_TRAVEL_BITS },
            min_travel_for_age_m: Single { bits: DEFAULT_MIN_TRAVEL_FOR_AGE_BITS },
        }
    }
}

/// How far the tracked pose is from the active submap's anchor, and how long that
/// submap has been live: no time at all while its clock is not running.
#[derive(Debug, Clone, Copy, PartialEq, Eq, Structural)]
pub struct Progress {
    pub travel: Single,
    pub age: Single,
}

impl SubmapManagerConfig {
    /// Whether a submap with this progress is due for a change.
    pub open spec fn switches(self, p: Progress) -> bool {
        ||| self.max_age_s.at_most(p.age) && self.min_travel_for_age_m.at_most(p.travel)
        ||| self.max_travel_m.at_most(p.travel)
    }

    pub fn should_switch(self, p: Progress) -> (r: bool)
        ensures
            r == self.switches(p),
    {
        if self.max_age_s.le(p.age) && self.min_travel_for_age_m.le(p.travel) {
            return true;
        }
        self.max_travel_m.le(p.travel)
    }
}

pub struct SubmapManager<G> {
    cfg: SubmapManagerConfig,
    frozen: Vec<Submap<G>>,
    current: Option<Submap<G>>,
    current_started_s: Option<Single>,
}

/// What a tick does to a manager with this active submap.
pub open spec fn outcome_of<G>(
    cfg: SubmapManagerConfig,
    current: Option<Submap<G>>,
    p: Progress,
) -> TickOutcome {
    match current {
        None => TickOutcome::Opened,
        Some(map) => if !cfg.switches(p) {
            TickOutcome::Idle
        } else if map.inked() {
            TickOutcome::Opened
        } else {
            TickOutcome::Reanchored
        },
    }
}

impl<G> SubmapManager<G> {
    pub closed spec fn settings(&self) -> SubmapManagerConfig {
        self.cfg
    }

    /// The frozen submaps, oldest first.
    pub closed spec fn closed_maps(&self) -> Seq<Submap<G>> {
        self.frozen@
    }

    /// The active submap.
    pub closed spec fn active(&self) -> Option<Submap<G>> {
        self.current
    }

    /// When the active submap's clock started.
    pub closed spec fn clock(&self) -> Option<Single> {
        self.current_started_s
    }

    /// All submaps, the active one last.
    pub open spec fn maps(&self) -> Seq<Submap<G>> {
        match self.active() {
            Some(map) => self.closed_maps().push(map),
            None => self.closed_maps(),
        }
    }

    pub fn new(cfg: SubmapManagerConfig) -> (mgr: Self)
        ensures
            mgr.settings() == cfg,
            mgr.closed_maps() == Seq::<Submap<G>>::empty(),
            mgr.active() is None,
            mgr.clock() is None,
    {
        SubmapManager { cfg, frozen: Vec::new(), current: None, current_started_s: None }
    }

    /// A manager over the submaps of a saved session. The active one's clock is not
    /// running; the first tick starts it.
    pub fn from_parts(
        cfg: SubmapManagerConfig,
        frozen: Vec<Submap<G>>,
        current: Option<Submap<G>>,
    ) -> (mgr: Self)
        ensures
            mgr.settings() == cfg,
            mgr.closed_maps() == frozen@,
            mgr.active() == current,
            mgr.clock() is None,
    {
        SubmapManager { cfg, frozen, current, current_started_s: None }
    }

    pub fn config(&self) -> (cfg: SubmapManagerConfig)
        ensures
            cfg == self.settings(),
    {
        self.cfg
    }

    /// When the active submap's clock started, for the caller to tell its age.
    pub fn started(&self) -> (s: Option<Single>)
        ensures
            s == self.clock(),
    {
        self.current_started_s
    }

    /// Number of frozen submaps.
    pub fn n_frozen(&self) -> (n: usize)
        ensures
            n == self.closed_maps().len(),
    {
        self.frozen.len()
    }

    /// Number of submaps, the active one included.
    pub fn n_total(&self) -> (n: usize)
        requires
            self.closed_maps().len() < usize::MAX,
        ensures
            n == self.maps().len(),
    {
        if self.current.is_some() {
            self.frozen.len() + 1
        } else {
            self.frozen.len()
        }
    }

    pub fn frozen(&self) -> (maps: &[Submap<G>])
        ensures
            maps@ == self.closed_maps(),
    {
        self.frozen.as_slice()
    }

    pub fn current(&self) -> (map: Option<&Submap<G>>)
        ensures
            map is Some <==> self.active() is Some,
            map matches Some(m) ==> *m == self.active()->0,
    {
        self.current.as_ref()
    }

    pub fn current_mut(&mut self) -> (map: Option<&mut Submap<G>>)
        ensures
            map is Some <==> old(self).active() is Some,
            map matches Some(m) ==> {
                &&& *m == old(self).active()->0
                &&& final(self).active() == Some(*final(m))
            },
            map is None ==> final(self).active() is None,
            final(self).settings() == old(self).settings(),
            final(self).closed_maps() == old(self).closed_maps(),
            final(self).clock() == old(self).clock(),
    {
        self.current.as_mut()
    }

    pub fn frozen_mut(&mut self) -> (maps: &mut [Submap<G>])
        ensures
            maps@ == old(self).closed_maps(),
            final(self).closed_maps() == final(maps)@,
            final(self).active() == old(self).active(),
            final(self).settings() == old(self).settings(),
            final(self).clock() == old(self).clock(),
    {
        self.frozen.as_mut_slice()
    }

    /// Frozen and active submaps, in that order.
    pub fn all(&self) -> (maps: Vec<&Submap<G>>)
        ensures
            maps@.len() == self.maps().len(),
            forall|i: int| 0 <= i < maps@.len() ==> *maps@[i] == self.maps()[i],
    {
        let mut maps: Vec<&Submap<G>> = Vec::new();
        let mut i: usize = 0;
        while i < self.frozen.len()
            invariant
                i <= self.frozen.len(),
                maps@.len() == i,
                forall|k: int| 0 <= k < i ==> *maps@[k] == self.frozen@[k],
            decreases self.frozen.len() - i,
        {
            maps.push(&self.frozen[i]);
            i += 1;
        }
        match &self.current {
            Some(map) => maps.push(map),
            None => {},
        }
        maps
    }

    /// Moves the anchor of the submap at position `i`, the active one coming after
    /// the frozen ones.
    pub(crate) fn move_anchor(&mut self, i: usize, pose: Pose2)
        ensures
            final(self).settings() == old(self).settings(),
            final(self).clock() == old(self).clock(),
            i < old(self).closed_maps().len() ==> {
                &&& final(self).closed_maps() == old(self).closed_maps().update(
                    i as int,
                    (Submap { anchor_pose: pose, ..old(self).closed_maps()[i as int] }),
                )
                &&& final(self).active() == old(self).active()
            },
            i >= old(self).closed_maps().len() ==> {
                &&& final(self).closed_maps() == old(self).closed_maps()
                &&& final(self).active() == match old(self).active() {
                    Some(map) => Some(Submap { anchor_pose: pose, ..map }),
                    None => None,
                }
            },
    {
        if i < self.frozen.len() {
            self.frozen[i].set_anchor_pose(pose);
        } else {
            match self.current.as_mut() {
                Some(map) => map.set_anchor_pose(pose),
                None => {},
            }
        }
    }

    /// One tick at time `now_s` with the robot tracked at `tracked_pose`. `fresh` is
    /// an empty grid for the submap that may open.
    ///
    /// A submap restored without a running clock gets its clock started here, so it
    /// lives as long from now as a new one would.
    pub fn tick(&mut self, now_s: Single, tracked_pose: Pose2, progress: Progress, fresh: G) -> (
        outcome: TickOutcome)
        ensures
            outcome == outcome_of(old(self).settings(), old(self).active(), progress),
            ticked(*old(self), *final(self), now_s, tracked_pose, progress, fresh),
    {
        if self.current.is_none() {
            self.start_new(tracked_pose, now_s, fresh);
            return TickOutcome::Opened;
        }
        if self.current_started_s.is_none() {
            self.current_started_s = Some(now_s);
        }
        if !self.cfg.should_switch(progress) {
            return TickOutcome::Idle;
        }
        match self.current.take() {
            Some(map) => {
                let inked = map.has_content();
                if inked {
                    self.frozen.push(map);
                }
                self.start_new(tracked_pose, now_s, fresh);
                if inked {
                    TickOutcome::Opened
                } else {
                    TickOutcome::Reanchored
                }
            },
            None => TickOutcome::Idle,
        }
    }

    fn start_new(&mut self, anchor_pose: Pose2, now_s: Single, fresh: G)
        ensures
            final(self).cfg == old(self).cfg,
            final(self).frozen == old(self).frozen,
            final(self).current matches Some(map) && map.grid == fresh && map.anchor_pose
                == anchor_pose && !map.inked(),
            final(self).current_started_s == Some(now_s),
    {
        self.current = Some(Submap::new_at(anchor_pose, fresh));
        self.current_started_s = Some(now_s);
    }
}

/// `after` is what a tick leaves of `before`.
pub open spec fn ticked<G>(
    before: SubmapManager<G>,
    after: SubmapManager<G>,
    now_s: Single,
    pose: Pose2,
    p: Progress,
    fresh: G,
) -> bool {
    let outcome = outcome_of(before.settings(), before.active(), p);
    &&& after.settings() == before.settings()
    &&& outcome is Idle ==> {
        &&& after.closed_maps() == before.closed_maps()
        &&& after.active() == before.active()
        &&& after.clock() == match before.clock() {
            Some(t) => Some(t),
            None => Some(now_s),
        }
    }
    &&& !(outcome is Idle) ==> {
        &&& after.active() matches Some(map) && map.grid == fresh && map.anchor_pose == pose
            && !map.inked()
        &&& after.clock() == Some(now_s)
    }
    &&& outcome is Reanchored ==> after.closed_maps() == before.closed_maps()
    &&& outcome is Opened ==> after.closed_maps() == before.maps()
}

/// Only submaps with something in them freeze: a manager whose frozen submaps all
/// hold something is left by a tick with frozen submaps that all hold something.
pub proof fn law_only_inked_submaps_freeze<G>(
    before: SubmapManager<G>,
    after: SubmapManager<G>,
    now_s: Single,
    pose: Pose2,
    p: Progress,
    fresh: G,
)
    requires
        ticked(before, after, now_s, pose, p, fresh),
        forall|i: int|
            0 <= i < before.closed_maps().len() ==> (#[trigger] before.closed_maps()[i]).inked(),
    ensures
        forall|i: int|
            0 <= i < after.closed_maps().len() ==> (#[trigger] after.closed_maps()[i]).inked(),
{
}

/// A robot that stays near the anchor never closes its submap, however old.
pub proof fn law_standing_still_never_switches(cfg: SubmapManagerConfig, p: Progress)
    requires
        p.travel.below(cfg.min_travel_for_age_m),
        cfg.min_travel_for_age_m.at_most(cfg.max_travel_m),
    ensures
        !cfg.switches(p),
{
}

/// A submap is due exactly if the robot is as far from its anchor as a submap may reach,
/// or the submap is as old as it may get and the robot has left its anchor.
pub proof fn law_age_and_travel_close_a_submap(cfg: SubmapManagerConfig, p: Progress)
    ensures
        cfg.max_travel_m.at_most(p.travel) ==> cfg.switches(p),
        cfg.max_age_s.at_most(p.age) && cfg.min_travel_for_age_m.at_most(p.travel) ==> cfg.switches(
            p,
        ),
        p.travel.below(cfg.max_travel_m) && p.age.below(cfg.max_age_s) ==> !cfg.switches(p),
        p.travel.below(cfg.max_travel_m) && p.travel.below(cfg.min_travel_for_age_m)
            ==> !cfg.switches(p),
{
}

/// Without an active submap a tick opens one. With one, it does nothing until that is due;
/// then one that holds something freezes and a new one opens, and one that is empty is
/// anchored anew.
pub proof fn law_a_tick_opens_freezes_or_reanchors<G>(
    cfg: SubmapManagerConfig,
    current: Option<Submap<G>>,
    p: Progress,
)
    ensures
        current is None ==> outcome_of(cfg, current, p) is Opened,
        current is Some && !cfg.switches(p) ==> outcome_of(cfg, current, p) is Idle,
        current matches Some(map) ==> cfg.switches(p) && map.raw_scans@.len() > 0 ==> outcome_of(
            cfg,
            current,
            p,
        ) is Opened,
        current matches Some(map) ==> cfg.switches(p) && map.raw_scans@.len() == 0 ==> outcome_of(
            cfg,
            current,
            p,
        ) is Reanchored,
{
}

/// No tick loses a submap or changes a frozen one, and each leaves an active one with its
/// clock running. A submap that opens is empty, at the tracked pose, from now on.
pub proof fn law_no_tick_loses_a_submap<G>(
    before: SubmapManager<G>,
    after: SubmapManager<G>,
    now_s: Single,
    pose: Pose2,
    p: Progress,
    fresh: G,
    i: int,
)
    requires
        ticked(before, after, now_s, pose, p, fresh),
        0 <= i < before.closed_maps().len(),
    ensures
        after.settings() == before.settings(),
        after.closed_maps().len() >= before.closed_maps().len(),
        after.closed_maps()[i] == before.closed_maps()[i],
        after.active() is Some,
        after.clock() is Some,
        before.active() matches Some(map) ==> map.raw_scans@.len() > 0 ==> after.active()
            == before.active() || after.closed_maps() == before.closed_maps().push(map),
        after.active() != before.active() ==> {
            &&& after.clock() == Some(now_s)
            &&& after.active()->0.anchor_pose == pose
            &&& after.active()->0.raw_scans@.len() == 0
            &&& after.active()->0.grid == fresh
        },
{
}

/// A submap that is not due stays the active one, and a clock that runs keeps running from
/// when it started.
pub proof fn law_a_submap_that_is_not_due_stays<G>(
    before: SubmapManager<G>,
    after: SubmapManager<G>,
    now_s: Single,
    pose: Pose2,
    p: Progress,
    fresh: G,
)
    requires
        ticked(before, after, now_s, pose, p, fresh),
        before.active() is Some,
        p.travel.below(before.settings().max_travel_m),
        p.age.below(before.settings().max_age_s) || p.travel.below(
            before.settings().min_travel_for_age_m,
        ),
    ensures
        after.active() == before.active(),
        after.closed_maps() == before.closed_maps(),
        before.clock() is Some ==> after.clock() == before.clock(),
        before.clock() is None ==> after.clock() == Some(now_s),
{
}

/// All submaps are the frozen ones, oldest first, and then the active one.
pub proof fn law_the_active_submap_comes_last<G>(mgr: SubmapManager<G>)
    ensures
        mgr.active() is None ==> mgr.maps() == mgr.closed_maps(),
        mgr.active() matches Some(map) ==> mgr.maps().len() == mgr.closed_maps().len() + 1
            && mgr.maps().last() == map && mgr.maps().drop_last() == mgr.closed_maps(),
{
    if mgr.active() is Some {
        assert(mgr.maps().drop_last() =~= mgr.closed_maps());
    }
}

} // verus!
