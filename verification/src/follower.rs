//! Following a planned path: turn, then go.
//!
//! The command is a velocity, not a step: the caller's tick length has no part in
//! it. Reached waypoints are consumed at once, so every command steers at one still
//! ahead.

use vstd::prelude::*;
use crate::ieee::Single;
use crate::submap::Point;

verus! {

pub struct FollowerState {
    waypoints: Vec<Point>,
    idx: usize,
    going: bool,
}

/// The bits of the heading error below which the robot sets off.
pub const GO_ENTER_BITS: u32 = 0x3E80_0000;

/// The bits of the heading error above which it stops to turn.
pub const GO_EXIT_BITS: u32 = 0x3EE6_6666;

/// The bits of the gain from heading error to turn rate.
pub const YAW_GAIN_BITS: u32 = 0x4040_0000;

/// A body-frame velocity command.
#[derive(Debug, Clone, Copy, PartialEq, Eq, Structural)]
pub struct FollowCommand {
    /// Forward, in metres per second, never backward.
    pub vx: Single,
    /// Turn rate, in radians per second.
    pub wz: Single,
}

/// Stand still.
pub open spec fn standstill() -> FollowCommand {
    FollowCommand { vx: Single { bits: 0 }, wz: Single { bits: 0 } }
}

impl Default for FollowCommand {
    fn default() -> (c: Self)
        ensures
            c == standstill(),
    {
        FollowCommand { vx: Single { bits: 0 }, wz: Single { bits: 0 } }
    }
}

/// The first waypoint from `from` on that is not within the radius, or the end of the
/// path.
pub open spec fn first_ahead(dists: Seq<Single>, radius: Single, from: int) -> int
    decreases dists.len() - from,
{
    if from >= dists.len() || !dists[from].below(radius) {
        from
    } else {
        first_ahead(dists, radius, from + 1)
    }
}

impl FollowerState {
    /// The whole path.
    pub closed spec fn path(&self) -> Seq<Point> {
        self.waypoints@
    }

    /// How many waypoints are behind.
    pub closed spec fn consumed(&self) -> int {
        self.idx as int
    }

    /// Whether the robot may move forward.
    pub closed spec fn under_way(&self) -> bool {
        self.going
    }

    pub fn new(waypoints: Vec<Point>) -> (s: Self)
        ensures
            s.path() == waypoints@,
            s.consumed() == 0,
            !s.under_way(),
    {
        FollowerState { waypoints, idx: 0, going: false }
    }

    /// A path with nowhere to go.
    pub fn empty() -> (s: Self)
        ensures
            s.path() == Seq::<Point>::empty(),
            s.consumed() == 0,
            !s.under_way(),
    {
        FollowerState { waypoints: Vec::new(), idx: 0, going: false }
    }

    pub fn done(&self) -> (r: bool)
        ensures
            r == (self.consumed() >= self.path().len()),
    {
        self.idx >= self.waypoints.len()
    }

    /// The waypoint to steer at.
    pub fn current(&self) -> (p: Option<Point>)
        ensures
            p == if self.consumed() < self.path().len() {
                Some(self.path()[self.consumed()])
            } else {
                None
            },
    {
        if self.idx < self.waypoints.len() {
            Some(self.waypoints[self.idx])
        } else {
            None
        }
    }

    pub fn waypoints(&self) -> (path: &[Point])
        ensures
            path@ == self.path(),
    {
        self.waypoints.as_slice()
    }

    /// Consumes the waypoints that have been reached. `dists` holds the distance to
    /// every waypoint of the path.
    pub fn arrive(&mut self, dists: &[Single], arrive_radius: Single)
        requires
            dists@.len() == old(self).path().len(),
        ensures
            final(self).path() == old(self).path(),
            final(self).under_way() == old(self).under_way(),
            final(self).consumed() == first_ahead(dists@, arrive_radius, old(self).consumed()),
    {
        let ghost from = self.idx as int;
        while self.idx < self.waypoints.len() && dists[self.idx].lt(arrive_radius)
            invariant
                self.waypoints == old(self).waypoints,
                self.going == old(self).going,
                dists@.len() == self.waypoints@.len(),
                first_ahead(dists@, arrive_radius, from) == first_ahead(
                    dists@,
                    arrive_radius,
                    self.idx as int,
                ),
            decreases self.waypoints.len() - self.idx,
        {
            self.idx += 1;
        }
    }
}

/// The way to the current waypoint: how far the heading is off, the turn rate that
/// calls for, and the forward speed that this heading allows.
#[derive(Debug, Clone, Copy, PartialEq, Eq, Structural)]
pub struct Aim {
    pub yaw_err: Single,
    pub turn: Single,
    pub forward: Single,
}

/// Whether the robot may move forward with this heading error: it sets off below one
/// threshold and stops above a higher one, so that the wobble of its gait does not
/// make it stutter.
pub open spec fn may_go(going: bool, yaw_err: Single) -> bool {
    if going {
        !Single { bits: GO_EXIT_BITS }.below(yaw_err.without_sign())
    } else {
        yaw_err.without_sign().below(Single { bits: GO_ENTER_BITS })
    }
}

/// The command that an aim calls for: the turn rate it asks for, within the limits, and
/// the forward speed it allows, if the robot may move forward at all.
pub open spec fn command_for(
    going: bool,
    aim: Aim,
    min_turn: Single,
    max_turn: Single,
) -> FollowCommand {
    FollowCommand {
        vx: if going {
            aim.forward
        } else {
            Single { bits: 0 }
        },
        wz: aim.turn.clamped(min_turn, max_turn),
    }
}

/// The command toward the current waypoint, which `aim` describes; with none left,
/// stand still. Turn rates are kept between `min_turn` and `max_turn`, the same rate
/// either way.
pub fn follow_step(
    state: &mut FollowerState,
    aim: Option<Aim>,
    min_turn: Single,
    max_turn: Single,
) -> (command: FollowCommand)
    requires
        (aim is None) == (old(state).consumed() >= old(state).path().len()),
        min_turn == max_turn.negated(),
        min_turn.at_most(max_turn),
    ensures
        final(state).path() == old(state).path(),
        final(state).consumed() == old(state).consumed(),
        old(state).consumed() >= old(state).path().len() ==> {
            &&& command == standstill()
            &&& final(state).under_way() == old(state).under_way()
        },
        aim matches Some(a) ==> command == command_for(
            may_go(old(state).under_way(), a.yaw_err),
            a,
            min_turn,
            max_turn,
        ),
        aim matches Some(a) ==> {
            &&& final(state).under_way() == may_go(old(state).under_way(), a.yaw_err)
            &&& command.wz == a.turn.clamped(min_turn, max_turn)
            &&& command.vx == if final(state).under_way() {
                a.forward
            } else {
                Single { bits: 0 }
            }
        },
{
    let a = match aim {
        Some(a) => a,
        None => return FollowCommand { vx: Single { bits: 0 }, wz: Single { bits: 0 } },
    };
    let off = a.yaw_err.abs();
    let exit = Single { bits: GO_EXIT_BITS };
    let enter = Single { bits: GO_ENTER_BITS };
    if state.going {
        if exit.lt(off) {
            state.going = false;
        }
    } else if off.lt(enter) {
        state.going = true;
    }
    FollowCommand {
        vx: if state.going {
            a.forward
        } else {
            Single { bits: 0 }
        },
        wz: a.turn.clamp(min_turn, max_turn),
    }
}

proof fn lemma_first_ahead(dists: Seq<Single>, radius: Single, from: int)
    requires
        0 <= from <= dists.len(),
    ensures
        from <= first_ahead(dists, radius, from) <= dists.len(),
        forall|k: int|
            from <= k < first_ahead(dists, radius, from) ==> (#[trigger] dists[k]).below(radius),
        first_ahead(dists, radius, from) < dists.len() ==> !dists[first_ahead(
            dists,
            radius,
            from,
        )].below(radius),
    decreases dists.len() - from,
{
    if from < dists.len() && dists[from].below(radius) {
        lemma_first_ahead(dists, radius, from + 1);
    }
}

/// Every waypoint consumed was within the radius, none that was consumed comes back,
/// and the one steered at is not within it.
pub proof fn law_only_reached_waypoints_are_consumed(
    dists: Seq<Single>,
    radius: Single,
    from: int,
    k: int,
)
    requires
        0 <= from <= dists.len(),
    ensures
        from <= first_ahead(dists, radius, from) <= dists.len(),
        from <= k < first_ahead(dists, radius, from) ==> dists[k].below(radius),
        k == first_ahead(dists, radius, from) && k < dists.len() ==> !dists[k].below(radius),
{
    lemma_first_ahead(dists, radius, from);
}

/// A heading error between the two thresholds changes nothing.
pub proof fn law_small_wobble_keeps_going(going: bool, yaw_err: Single)
    requires
        (Single { bits: GO_ENTER_BITS }).at_most(yaw_err.without_sign()),
        yaw_err.without_sign().at_most((Single { bits: GO_EXIT_BITS })),
    ensures
        may_go(going, yaw_err) == going,
{
}

/// The heading at which the robot sets off is a quarter of a radian, that at which it
/// stops to turn 0.45, and the gain is three.
pub proof fn law_setting_off_is_stricter_than_going_on()
    ensures
        GO_ENTER_BITS == 0x3E80_0000,
        GO_EXIT_BITS == 0x3EE6_6666,
        YAW_GAIN_BITS == 0x4040_0000,
        GO_ENTER_BITS < GO_EXIT_BITS,
{
}

/// A heading error beyond the higher threshold, to either side, stops the robot, and one
/// within the lower threshold, to either side, sets it off.
pub proof fn law_heading_decides_to_either_side(going: bool, yaw_err: Single)
    ensures
        going && 0x3EE6_6666 < yaw_err.bits <= 0x7F80_0000 ==> !may_go(going, yaw_err),
        going && 0xBEE6_6666 < yaw_err.bits <= 0xFF80_0000 ==> !may_go(going, yaw_err),
        going && yaw_err.bits <= 0x3EE6_6666 ==> may_go(going, yaw_err),
        going && 0x8000_0000 <= yaw_err.bits <= 0xBEE6_6666 ==> may_go(going, yaw_err),
        !going && yaw_err.bits < 0x3E80_0000 ==> may_go(going, yaw_err),
        !going && 0x8000_0000 <= yaw_err.bits < 0xBE80_0000 ==> may_go(going, yaw_err),
        !going && 0x3E80_0000 <= yaw_err.bits < 0x8000_0000 ==> !may_go(going, yaw_err),
        !going && 0xBE80_0000 <= yaw_err.bits ==> !may_go(going, yaw_err),
{
}

/// Whether the robot goes does not depend on the side that its heading is off to.
pub proof fn law_left_and_right_are_alike(going: bool, left: Single, right: Single)
    requires
        left.bits % 0x8000_0000 == right.bits % 0x8000_0000,
    ensures
        may_go(going, left) == may_go(going, right),
{
}

/// A smaller heading error never stops a robot that a larger one lets go.
pub proof fn law_better_heading_never_stops(going: bool, near: Single, far: Single)
    requires
        near.bits % 0x8000_0000 <= far.bits % 0x8000_0000,
        far.bits % 0x8000_0000 <= 0x7F80_0000,
        may_go(going, far),
    ensures
        may_go(going, near),
        may_go(true, near),
{
}

/// A robot whose heading is off by more than the higher threshold, to either side, gets no
/// forward speed, and one that has not set off gets none at the lower threshold; the turn
/// rate is what was asked for where that is within the limits, and never outside them.
pub proof fn law_a_robot_that_must_turn_does_not_drive(
    going: bool,
    a: Aim,
    min_turn: Single,
    max_turn: Single,
)
    requires
        min_turn.at_most(max_turn),
        !a.turn.nan(),
    ensures
        ({
            let c = command_for(may_go(going, a.yaw_err), a, min_turn, max_turn);
            &&& 0x3EE6_6666 < a.yaw_err.bits % 0x8000_0000 <= 0x7F80_0000 ==> c.vx.bits == 0
            &&& !going && 0x3E80_0000 <= a.yaw_err.bits % 0x8000_0000 ==> c.vx.bits == 0
            &&& going && a.yaw_err.bits % 0x8000_0000 <= 0x3EE6_6666 ==> c.vx == a.forward
            &&& a.yaw_err.bits % 0x8000_0000 < 0x3E80_0000 ==> c.vx == a.forward
            &&& min_turn.at_most(c.wz)
            &&& c.wz.at_most(max_turn)
            &&& min_turn.at_most(a.turn) && a.turn.at_most(max_turn) ==> c.wz == a.turn
            &&& max_turn.below(a.turn) ==> c.wz == max_turn
            &&& a.turn.below(min_turn) ==> c.wz == min_turn
        }),
{
}

/// Standing still is neither driving nor turning.
pub proof fn law_standstill_is_no_motion()
    ensures
        standstill().vx.bits == 0,
        standstill().wz.bits == 0,
{
}

} // verus!
