//! The safety authority.
//!
//! It owns the only handle to the robot: nothing above it holds a [`RobotIo`], so
//! nothing above it can command a motor. Two rules, unconditional:
//!
//!  - A target that is not finite is not clamped, it is refused outright.
//!  - Targets are held inside the actuator's travel.
//!
//! Plus a deadman on the command itself: if intents stop arriving, the velocity goes
//! to zero. Stop is not limp: losing comms makes the robot stand still.
//!
//! The fall verdict is a report, not a rule. It is tracked every tick and preempts
//! nothing.

use vstd::prelude::*;
use crate::ieee::Double;
use crate::io::{IoError, JointTargets, Order, RobotIo, Sensors};
use crate::model::NUM_JOINTS;
use crate::span::Span;
use crate::span::MAX_NANOS;

verus! {

/// Bits of minus pi: one end of the actuator's travel, one turn, centred.
pub const ACTUATOR_MIN_BITS: u64 = 0xC009_21FB_5444_2D18;

/// Bits of pi: the other end.
pub const ACTUATOR_MAX_BITS: u64 = 0x4009_21FB_5444_2D18;

/// Bits of minus one half.
pub const FALL_GRAVITY_Z_BITS: u64 = 0xBFE0_0000_0000_0000;

pub open spec fn travel_min() -> Double {
    Double { bits: ACTUATOR_MIN_BITS }
}

pub open spec fn travel_max() -> Double {
    Double { bits: ACTUATOR_MAX_BITS }
}

/// What the robot is asked to do this tick.
#[derive(Debug, Clone, Copy, PartialEq, Eq)]
pub struct Command {
    /// Forward and left velocity, and yaw rate.
    pub twist: [Double; 3],
    /// Head joint targets.
    pub head: [Double; 4],
}

impl Default for Command {
    fn default() -> (command: Self)
        ensures
            forall|i: int| 0 <= i < 3 ==> (#[trigger] command.twist@[i]).bits == 0,
            forall|i: int| 0 <= i < 4 ==> (#[trigger] command.head@[i]).bits == 0,
    {
        Command { twist: [Double { bits: 0 };3], head: [Double { bits: 0 };4] }
    }
}

#[derive(Debug, Clone, Copy, PartialEq, Eq)]
pub struct SafetyConfig {
    /// Projected-gravity z above which the robot counts as falling. Upright reads
    /// about -1 and a robot on its side reads near 0.
    pub fall_gravity_z: Double,
    /// How long that must hold before it counts, so that a hard footfall is not a
    /// fall.
    pub fall_debounce: Span,
    /// Intent age past which the velocity command is zeroed.
    pub deadman: Span,
    /// Gain while running.
    pub gain_running: u16,
    /// Gain at which the robot stops pushing back.
    pub gain_limp: u16,
}

impl Default for SafetyConfig {
    fn default() -> (config: Self)
        ensures
            config.fall_gravity_z.bits == FALL_GRAVITY_Z_BITS,
            config.fall_gravity_z.bits == 0xBFE0_0000_0000_0000,
            config.fall_debounce.spec_nanos() == 200_000_000,
            config.deadman.spec_nanos() == 500_000_000,
            config.gain_running == 200,
            config.gain_limp == 50,
    {
        SafetyConfig {
            fall_gravity_z: Double { bits: FALL_GRAVITY_Z_BITS },
            fall_debounce: Span::from_millis(200),
            deadman: Span::from_millis(500),
            gain_running: 200,
            gain_limp: 50,
        }
    }
}

/// Why a commanded value was not applied as asked.
#[derive(Debug, Clone, Copy, PartialEq, Eq, Structural)]
pub enum Limit {
    /// Intents went stale; the velocity was zeroed.
    Deadman,
    /// A target was outside the actuator's travel.
    Range,
    /// A target was not a number or infinite.
    NotFinite,
}

/// What safety did with a tick's worth of targets.
#[derive(Debug, Clone, PartialEq, Eq)]
pub struct Applied {
    pub limits: Vec<Limit>,
}

impl Default for Applied {
    fn default() -> (applied: Self)
        ensures
            applied.limits@ == Seq::<Limit>::empty(),
    {
        Applied { limits: Vec::new() }
    }
}

impl Applied {
    pub fn limited_by(&self, limit: Limit) -> (r: bool)
        ensures
            r == self.limits@.contains(limit),
    {
        let mut i: usize = 0;
        while i < self.limits.len()
            invariant
                i <= self.limits.len(),
                forall|j: int| 0 <= j < i ==> self.limits@[j] != limit,
            decreases self.limits.len() - i,
        {
            if self.limits[i] == limit {
                assert(self.limits@.contains(limit));
                return true;
            }
            i = i + 1;
        }
        false
    }
}

/// How often a limit that keeps firing is said again: at 50 Hz, once a second.
pub const LIMIT_LOG_EVERY: u64 = 50;

/// How many ticks running each limit has tripped.
///
/// Three counters because the three limits are independent events. Each is cleared
/// by a tick that reaches that limit's check and does not trip it. A tick refused as
/// not finite returns before the clamp is reached, so it leaves `range` standing.
#[derive(Debug, Clone, Copy, PartialEq, Eq, Structural)]
pub struct LimitRuns {
    pub deadman: u64,
    pub range: u64,
    pub not_finite: u64,
}

impl Default for LimitRuns {
    fn default() -> (runs: Self)
        ensures
            runs == (LimitRuns { deadman: 0, range: 0, not_finite: 0 }),
    {
        LimitRuns { deadman: 0, range: 0, not_finite: 0 }
    }
}

/// A run of `n` is the first or a round number of trips.
pub open spec fn is_news(n: u64) -> bool {
    n == 1 || n % LIMIT_LOG_EVERY == 0
}

impl LimitRuns {
    /// Whether a run of `n` has reached a point worth writing down.
    pub fn worth_logging(n: u64) -> (r: bool)
        ensures
            r == is_news(n),
    {
        n == 1 || n % LIMIT_LOG_EVERY == 0
    }
}

/// What the layer remembers from tick to tick.
pub struct Ledger {
    pub config: SafetyConfig,
    /// How long gravity has been past the threshold, in nanoseconds. Reset by any
    /// upright sample.
    pub falling_for: u128,
    pub fallen: bool,
    /// The last gain written, so that an unchanged one is not rewritten every tick.
    pub gain: Option<u16>,
    pub runs: LimitRuns,
    /// Whether an intent has ever arrived inside the deadman.
    pub deadman_armed: bool,
}

/// The joints that had to be moved into the actuator's travel.
pub struct Clamped {
    pub safe: [Double; NUM_JOINTS],
    /// How many there were.
    pub joints: u32,
    /// The lowest one.
    pub first: Option<usize>,
}

pub open spec fn all_finite(targets: Seq<Double>) -> bool {
    forall|i: int| 0 <= i < targets.len() ==> (#[trigger] targets[i]).finite()
}

/// The targets, each held inside the actuator's travel.
pub open spec fn held_in_travel(targets: Seq<Double>) -> Seq<Double> {
    Seq::new(targets.len(), |i: int| targets[i].clamped(travel_min(), travel_max()))
}

/// A target outside the actuator's travel.
pub open spec fn out_of_travel(v: Double) -> bool {
    v.below(travel_min()) || travel_max().below(v)
}

pub open spec fn any_out_of_travel(targets: Seq<Double>) -> bool {
    exists|i: int| 0 <= i < targets.len() && out_of_travel(#[trigger] targets[i])
}

/// How many of the first `n` targets lie outside the actuator's travel.
pub open spec fn count_out(targets: Seq<Double>, n: int) -> int
    decreases n,
{
    if n <= 0 {
        0
    } else if out_of_travel(targets[n - 1]) {
        count_out(targets, n - 1) + 1
    } else {
        count_out(targets, n - 1)
    }
}

fn is_all_finite(targets: &[Double; NUM_JOINTS]) -> (r: bool)
    ensures
        r == all_finite(targets@),
{
    let mut i: usize = 0;
    while i < NUM_JOINTS
        invariant
            i <= NUM_JOINTS,
            forall|j: int| 0 <= j < i ==> (#[trigger] targets@[j]).finite(),
        decreases NUM_JOINTS - i,
    {
        if !targets[i].is_finite() {
            return false;
        }
        i = i + 1;
    }
    true
}

/// Holds every target inside the actuator's travel, and says which were not.
pub fn clamp_targets(targets: [Double; NUM_JOINTS]) -> (c: Clamped)
    ensures
        c.safe@ == held_in_travel(targets@),
        c.joints == count_out(targets@, NUM_JOINTS as int),
        match c.first {
            Some(first) => first < NUM_JOINTS && out_of_travel(targets@[first as int]) && forall|
                j: int,
            |
                0 <= j < first ==> !out_of_travel(#[trigger] targets@[j]),
            None => !any_out_of_travel(targets@),
        },
{
    let lo = Double { bits: ACTUATOR_MIN_BITS };
    let hi = Double { bits: ACTUATOR_MAX_BITS };
    let mut safe = targets;
    let mut joints: u32 = 0;
    let mut first: Option<usize> = None;
    let mut i: usize = 0;
    while i < NUM_JOINTS
        invariant
            i <= NUM_JOINTS,
            lo == travel_min(),
            hi == travel_max(),
            joints == count_out(targets@, i as int),
            joints <= i,
            forall|j: int|
                0 <= j < i ==> safe@[j] == (#[trigger] targets@[j]).clamped(
                    travel_min(),
                    travel_max(),
                ),
            forall|j: int| i <= j < NUM_JOINTS ==> safe@[j] == targets@[j],
            match first {
                Some(f) => f < i && out_of_travel(targets@[f as int]) && forall|j: int|
                    0 <= j < f ==> !out_of_travel(#[trigger] targets@[j]),
                None => forall|j: int| 0 <= j < i ==> !out_of_travel(#[trigger] targets@[j]),
            },
        decreases NUM_JOINTS - i,
    {
        let value = targets[i];
        if value.lt(lo) || hi.lt(value) {
            joints = joints + 1;
            if first.is_none() {
                first = Some(i);
            }
            safe[i] = value.clamp(lo, hi);
        }
        i = i + 1;
    }
    assert(safe@ =~= held_in_travel(targets@));
    Clamped { safe, joints, first }
}

/// What the fall watch makes of a sample.
pub open spec fn observed(before: Ledger, ready: bool, gravity_z: Double, dt: Span) -> Ledger {
    if !ready {
        before
    } else if before.config.fall_gravity_z.below(gravity_z) {
        let sum = before.falling_for + dt.spec_nanos();
        let falling_for = if sum > MAX_NANOS {
            MAX_NANOS as int
        } else {
            sum
        };
        Ledger {
            falling_for: falling_for as u128,
            fallen: before.fallen || falling_for >= before.config.fall_debounce.spec_nanos(),
            ..before
        }
    } else {
        Ledger { falling_for: 0, fallen: false, ..before }
    }
}

/// The gain writes that a tick makes: none when the gain is already that.
pub open spec fn gain_orders(before: Ledger, gain: u16) -> Seq<Order> {
    if before.gain == Some(gain) {
        Seq::empty()
    } else {
        seq![Order::Gain(gain)]
    }
}

/// What the gain writes of a tick are answered when the gain is set.
pub open spec fn gain_granted(before: Ledger, gain: u16) -> Seq<Result<(), IoError>> {
    if before.gain == Some(gain) {
        Seq::empty()
    } else {
        seq![Ok::<(), IoError>(())]
    }
}

/// The limits that these targets trip.
pub open spec fn limits_of(targets: Seq<Double>) -> Seq<Limit> {
    if !all_finite(targets) {
        seq![Limit::NotFinite]
    } else if any_out_of_travel(targets) {
        seq![Limit::Range]
    } else {
        Seq::empty()
    }
}

/// The positions written for these targets: the hold pose when one of them is not
/// finite, otherwise each held inside the actuator's travel.
pub open spec fn positions_for(targets: Seq<Double>, hold: Seq<Double>) -> Seq<Double> {
    if !all_finite(targets) {
        hold
    } else {
        held_in_travel(targets)
    }
}

/// The run counters after these targets.
pub open spec fn runs_after(runs: LimitRuns, targets: Seq<Double>) -> LimitRuns {
    if !all_finite(targets) {
        LimitRuns { not_finite: (runs.not_finite + 1) as u64, ..runs }
    } else if any_out_of_travel(targets) {
        LimitRuns { not_finite: 0, range: (runs.range + 1) as u64, ..runs }
    } else {
        LimitRuns { not_finite: 0, range: 0, ..runs }
    }
}

/// A command has been through the deadman.
pub open spec fn gated_as(
    before: Ledger,
    after: Ledger,
    command: Command,
    age: Span,
    gated: (Command, Option<Limit>),
) -> bool {
    if age.spec_nanos() <= before.config.deadman.spec_nanos() {
        &&& gated == (command, None::<Limit>)
        &&& after == (Ledger {
            runs: LimitRuns { deadman: 0, ..before.runs },
            deadman_armed: true,
            ..before
        })
    } else {
        &&& gated.1 == Some(Limit::Deadman)
        &&& gated.0.head == command.head
        &&& forall|i: int| 0 <= i < 3 ==> (#[trigger] gated.0.twist@[i]).bits == 0
        &&& after == (Ledger {
            runs: LimitRuns { deadman: (before.runs.deadman + 1) as u64, ..before.runs },
            ..before
        })
    }
}

/// The safety layer around a robot.
pub struct Safety<T: RobotIo> {
    io: T,
    state: Ledger,
}

impl<T: RobotIo> Safety<T> {
    pub closed spec fn device(&self) -> T {
        self.io
    }

    pub closed spec fn ledger(&self) -> Ledger {
        self.state
    }

    pub fn new(io: T, config: SafetyConfig) -> (safety: Self)
        ensures
            safety.device() == io,
            safety.ledger() == (Ledger {
                config,
                falling_for: 0,
                fallen: false,
                gain: None,
                runs: LimitRuns { deadman: 0, range: 0, not_finite: 0 },
                deadman_armed: false,
            }),
    {
        Safety {
            io,
            state: Ledger {
                config,
                falling_for: 0,
                fallen: false,
                gain: None,
                runs: LimitRuns::default(),
                deadman_armed: false,
            },
        }
    }

    /// Reads the robot. Commands nothing.
    pub fn read(&mut self) -> (sample: Result<Sensors, IoError>)
        ensures
            final(self).ledger() == old(self).ledger(),
            final(self).device().orders() == old(self).device().orders(),
            final(self).device().answers() == old(self).device().answers(),
            final(self).device().samples() == old(self).device().samples().push(sample),
    {
        self.io.read()
    }

    /// Borrows the wrapped robot, to look at and not to command.
    pub fn io(&self) -> (io: &T)
        ensures
            *io == self.device(),
    {
        &self.io
    }

    pub fn imu_ready(&self) -> (ready: bool)
        ensures
            call_ensures(T::imu_ready, (&self.device(),), ready),
    {
        self.io.imu_ready()
    }

    pub fn fallen(&self) -> (r: bool)
        ensures
            r == self.ledger().fallen,
    {
        self.state.fallen
    }

    /// Powers the joints, so that the positions written can actually be held. Every
    /// rule still applies to what gets written.
    pub fn set_torque(&mut self, on: bool) -> (done: Result<(), IoError>)
        ensures
            final(self).ledger() == old(self).ledger(),
            final(self).device().orders() == old(self).device().orders().push(Order::Torque(on)),
            final(self).device().answers() == old(self).device().answers().push(done),
            done is Ok <==> final(self).device().answers().last() is Ok,
            final(self).device().samples() == old(self).device().samples(),
    {
        self.io.set_torque(on)
    }

    /// The gain last written to the servos, or `None` before the first write.
    pub fn gain(&self) -> (gain: Option<u16>)
        ensures
            gain == self.ledger().gain,
    {
        self.state.gain
    }

    /// How long each limit has been tripping.
    pub fn runs(&self) -> (runs: LimitRuns)
        ensures
            runs == self.ledger().runs,
    {
        self.state.runs
    }

    /// Updates the fall verdict from a fresh sample. Call every tick, before
    /// [`Self::apply`]. An orientation filter that has not converged does not get a
    /// vote: the previous verdict is held.
    pub fn observe(&mut self, sensors: &Sensors, dt: Span)
        ensures
            final(self).device() == old(self).device(),
            exists|ready: bool|
                #![trigger call_ensures(T::imu_ready, (&old(self).device(),), ready)]
                call_ensures(T::imu_ready, (&old(self).device(),), ready) && final(self).ledger()
                    == observed(old(self).ledger(), ready, sensors.imu.gravity@[2], dt),
    {
        let ready = self.io.imu_ready();
        assert(call_ensures(T::imu_ready, (&old(self).device(),), ready));
        self.observe_with(ready, sensors.imu.gravity[2], dt);
    }

    /// Updates the fall verdict, `ready` being what the orientation filter says of
    /// itself. Down for the debounce time counts as fallen; one upright sample clears
    /// it.
    pub fn observe_with(&mut self, ready: bool, gravity_z: Double, dt: Span)
        ensures
            final(self).device() == old(self).device(),
            final(self).ledger() == observed(old(self).ledger(), ready, gravity_z, dt),
    {
        if !ready {
            return ;
        }
        if self.state.config.fall_gravity_z.lt(gravity_z) {
            let step: u128 = dt.nanos();
            let sum: u128 = if self.state.falling_for > MAX_NANOS - step {
                MAX_NANOS
            } else {
                self.state.falling_for + step
            };
            self.state.falling_for = sum;
            if sum >= self.state.config.fall_debounce.nanos() {
                self.state.fallen = true;
            }
        } else {
            self.state.falling_for = 0;
            self.state.fallen = false;
        }
    }

    /// Applies the deadman to a command. Zeroes the twist only: a stale head pose is
    /// harmless, while a stale velocity walks the robot into a wall.
    pub fn gate(&mut self, command: Command, intent_age: Span) -> (gated: (Command, Option<Limit>))
        requires
            old(self).ledger().runs.deadman < u64::MAX,
        ensures
            final(self).device() == old(self).device(),
            gated_as(old(self).ledger(), final(self).ledger(), command, intent_age, gated),
            if intent_age.spec_nanos() <= old(self).ledger().config.deadman.spec_nanos() {
                &&& gated == (command, None::<Limit>)
                &&& final(self).ledger() == (Ledger {
                    runs: LimitRuns { deadman: 0, ..old(self).ledger().runs },
                    deadman_armed: true,
                    ..old(self).ledger()
                })
            } else {
                &&& gated.1 == Some(Limit::Deadman)
                &&& gated.0.head == command.head
                &&& forall|i: int| 0 <= i < 3 ==> (#[trigger] gated.0.twist@[i]).bits == 0
                &&& final(self).ledger() == (Ledger {
                    runs: LimitRuns {
                        deadman: (old(self).ledger().runs.deadman + 1) as u64,
                        ..old(self).ledger().runs
                    },
                    ..old(self).ledger()
                })
            },
    {
        if intent_age.at_most(self.state.config.deadman) {
            self.state.runs.deadman = 0;
            self.state.deadman_armed = true;
            return (command, None);
        }
        self.state.runs.deadman = self.state.runs.deadman + 1;
        let stopped = Command { twist: [Double { bits: 0 };3], head: command.head };
        (stopped, Some(Limit::Deadman))
    }

    /// Whether a stale intent is worth saying anything about. Never, on a robot that
    /// has not had a driver since it started: losing one is news, having none is not.
    pub fn deadman_is_news(&self) -> (r: bool)
        ensures
            r == (self.ledger().deadman_armed && is_news(self.ledger().runs.deadman)),
    {
        self.state.deadman_armed && LimitRuns::worth_logging(self.state.runs.deadman)
    }

    /// The only path to the motors.
    ///
    /// `hold` is what to command when the targets must not be: normally the pose the
    /// robot is already in. `running_gain` is what the caller wants.
    pub fn apply(
        &mut self,
        targets: [Double; NUM_JOINTS],
        hold: [Double; NUM_JOINTS],
        running_gain: u16,
    ) -> (applied: Result<Applied, IoError>)
        requires
            old(self).ledger().runs.range < u64::MAX,
            old(self).ledger().runs.not_finite < u64::MAX,
        ensures
            applied_as(
                *old(self),
                *final(self),
                targets@,
                hold@,
                running_gain,
                applied,
            ),
            applied is Ok <==> final(self).device().answers().last() is Ok,
            final(self).device().samples() == old(self).device().samples(),
    {
        let mut applied = Applied::default();
        let ghost before = *self;
        let ghost orders = self.io.orders();
        let ghost answers = self.io.answers();
        let ghost gain = gain_orders(self.state, running_gain);
        match self.set_gain(running_gain) {
            Ok(unit) => {
                assert(unit == ());
            },
            Err(e) => {
                assert(orders + gain =~= orders.push(Order::Gain(running_gain)));
                return Err(e);
            },
        }
        let ghost granted = answers + gain_granted(before.state, running_gain);
        let ghost told = orders + gain;
        assert(self.io.orders() =~= told);
        assert(self.io.answers() =~= granted);
        if !is_all_finite(&targets) {
            self.state.runs.not_finite = self.state.runs.not_finite + 1;
            applied.limits.push(Limit::NotFinite);
            assert(applied.limits@ =~= limits_of(targets@));
            match self.io.write(&JointTargets::new(hold)) {
                Ok(unit) => {
                    assert(unit == ());
                },
                Err(e) => {
                    assert(self.io.orders().drop_last() =~= told);
                    return Err(e);
                },
            }
            assert(self.io.orders().drop_last() =~= told);
            return Ok(applied);
        }
        self.state.runs.not_finite = 0;
        let clamped = clamp_targets(targets);
        if clamped.first.is_some() {
            self.state.runs.range = self.state.runs.range + 1;
            applied.limits.push(Limit::Range);
        } else {
            self.state.runs.range = 0;
        }
        assert(applied.limits@ =~= limits_of(targets@));
        match self.io.write(&JointTargets::new(clamped.safe)) {
            Ok(unit) => {
                assert(unit == ());
            },
            Err(e) => {
                assert(self.io.orders().drop_last() =~= told);
                return Err(e);
            },
        }
        assert(self.io.orders().drop_last() =~= told);
        Ok(applied)
    }

    fn set_gain(&mut self, kp: u16) -> (done: Result<(), IoError>)
        ensures
            old(self).ledger().gain == Some(kp) ==> done is Ok && *final(self) == *old(self),
            old(self).ledger().gain != Some(kp) ==> {
                &&& final(self).device().orders() == old(self).device().orders().push(
                    Order::Gain(kp),
                )
                &&& final(self).device().answers() == old(self).device().answers().push(done)
            },
            final(self).device().samples() == old(self).device().samples(),
            final(self).ledger() == if done is Ok {
                Ledger { gain: Some(kp), ..old(self).ledger() }
            } else {
                old(self).ledger()
            },
    {
        if let Some(gain) = self.state.gain {
            if gain == kp {
                return Ok(());
            }
        }
        let done = self.io.set_gain(kp);
        if done.is_ok() {
            self.state.gain = Some(kp);
        }
        done
    }
}

/// A tick's targets have been applied to the robot, or an order was not carried out.
///
/// The gain is set first, unless it is that already. If the robot refuses it, nothing
/// else is tried and nothing is remembered. Otherwise exactly one set of positions is
/// sent, and the robot's answer to that decides the result.
pub open spec fn applied_as<T: RobotIo>(
    before: Safety<T>,
    after: Safety<T>,
    targets: Seq<Double>,
    hold: Seq<Double>,
    gain: u16,
    applied: Result<Applied, IoError>,
) -> bool {
    let gain_set = gain_orders(before.ledger(), gain);
    let granted = gain_granted(before.ledger(), gain);
    ||| {
        &&& gain_set.len() > 0
        &&& applied matches Err(e) && after.device().answers()
            == before.device().answers().push(Err(e))
        &&& after.device().orders() == before.device().orders() + gain_set
        &&& after.ledger() == before.ledger()
    }
    ||| {
        &&& after.device().orders().len() > 0
        &&& after.device().orders().drop_last() == before.device().orders() + gain_set
        &&& after.device().orders().last() matches Order::Positions(sent) && sent.positions@
            == positions_for(targets, hold)
        &&& match applied {
            Ok(a) => {
                &&& after.device().answers() == (before.device().answers() + granted).push(Ok(()))
                &&& a.limits@ == limits_of(targets)
            },
            Err(e) => after.device().answers() == (before.device().answers() + granted).push(
                Err(e),
            ),
        }
        &&& after.ledger() == (Ledger {
            gain: Some(gain),
            runs: runs_after(before.ledger().runs, targets),
            ..before.ledger()
        })
    }
}

/// Whether a tick's targets were applied is what the robot last answered: the error is
/// the one it gave, and a robot that carries out what it is told lets every tick succeed,
/// with one set of positions sent and the limits that its targets trip.
pub proof fn law_the_robot_answers_for_the_tick<T: RobotIo>(
    before: Safety<T>,
    after: Safety<T>,
    targets: Seq<Double>,
    hold: Seq<Double>,
    gain: u16,
    applied: Result<Applied, IoError>,
)
    requires
        applied_as(before, after, targets, hold, gain, applied),
    ensures
        after.device().answers().len() > before.device().answers().len(),
        applied is Ok <==> after.device().answers().last() is Ok,
        applied matches Err(e) ==> after.device().answers().last() == Err::<(), IoError>(e),
        applied is Ok ==> {
            &&& after.ledger().gain == Some(gain)
            &&& applied->Ok_0.limits@ == limits_of(targets)
            &&& after.device().orders().last() matches Order::Positions(sent) && sent.positions@
                == positions_for(targets, hold)
        },
{
}

/// How many of the orders set the gain.
pub open spec fn gains_sent(orders: Seq<Order>) -> nat
    decreases orders.len(),
{
    if orders.len() == 0 {
        0
    } else {
        gains_sent(orders.drop_last()) + if orders.last() is Gain {
            1nat
        } else {
            0nat
        }
    }
}

/// How many of the orders send positions.
pub open spec fn positions_sent(orders: Seq<Order>) -> nat
    decreases orders.len(),
{
    if orders.len() == 0 {
        0
    } else {
        positions_sent(orders.drop_last()) + if orders.last() is Positions {
            1nat
        } else {
            0nat
        }
    }
}

/// One tick: what was asked for, and what came of it.
pub struct Tick {
    pub targets: Seq<Double>,
    pub hold: Seq<Double>,
    pub applied: Result<Applied, IoError>,
}

/// Ticks one after the other, all at the same gain: `states` holds one more than `ticks`.
pub open spec fn ticks_at<T: RobotIo>(
    states: Seq<Safety<T>>,
    ticks: Seq<Tick>,
    gain: u16,
) -> bool {
    &&& states.len() == ticks.len() + 1
    &&& forall|k: int|
        0 <= k < ticks.len() ==> applied_as(
            states[k],
            states[k + 1],
            (#[trigger] ticks[k]).targets,
            ticks[k].hold,
            gain,
            ticks[k].applied,
        )
}

/// The gain is written before anything else, and only when it changes. A tick whose gain
/// is refused sends nothing and remembers nothing; any other leaves the robot at that
/// gain, also when its positions are then refused.
pub proof fn law_gain_is_written_when_it_changes<T: RobotIo>(
    before: Safety<T>,
    after: Safety<T>,
    targets: Seq<Double>,
    hold: Seq<Double>,
    gain: u16,
    applied: Result<Applied, IoError>,
)
    requires
        applied_as(before, after, targets, hold, gain, applied),
    ensures
        ({
            let o0 = before.device().orders();
            let o1 = after.device().orders();
            &&& before.ledger().gain == Some(gain) ==> gains_sent(o1) == gains_sent(o0)
            &&& before.ledger().gain != Some(gain) ==> gains_sent(o1) == gains_sent(o0) + 1
                && o1[o0.len() as int] == Order::Gain(gain)
            &&& positions_sent(o1) == positions_sent(o0) || positions_sent(o1) == positions_sent(o0)
                + 1 && after.ledger().gain == Some(gain)
            &&& positions_sent(o1) == positions_sent(o0) ==> applied is Err
                && before.ledger().gain != Some(gain) && after.ledger() == before.ledger()
        }),
{
    let o0 = before.device().orders();
    let o1 = after.device().orders();
    let set = gain_orders(before.ledger(), gain);
    let mid = o0 + set;
    if before.ledger().gain == Some(gain) {
        assert(mid =~= o0);
    } else {
        assert(mid =~= o0.push(Order::Gain(gain)));
        assert(mid.drop_last() =~= o0);
        assert(gains_sent(mid) == gains_sent(o0) + 1);
        assert(positions_sent(mid) == positions_sent(o0));
        assert(mid[o0.len() as int] == Order::Gain(gain));
    }
    if o1 != mid {
        assert(o1.drop_last() == mid);
        assert(gains_sent(o1) == gains_sent(mid));
        assert(positions_sent(o1) == positions_sent(mid) + 1);
        if before.ledger().gain != Some(gain) {
            assert(o1.drop_last()[o0.len() as int] == mid[o0.len() as int]);
        }
    }
}

/// However many equal ticks succeed, each sends one set of positions, and the gain is
/// written once at most: before the first, unless the robot already ran at it.
pub proof fn law_equal_gains_are_written_once<T: RobotIo>(
    states: Seq<Safety<T>>,
    ticks: Seq<Tick>,
    gain: u16,
)
    requires
        ticks_at(states, ticks, gain),
        forall|k: int| 0 <= k < ticks.len() ==> (#[trigger] ticks[k]).applied is Ok,
    ensures
        positions_sent(states.last().device().orders()) == positions_sent(
            states[0].device().orders(),
        ) + ticks.len(),
        gains_sent(states.last().device().orders()) == gains_sent(states[0].device().orders())
            + if ticks.len() > 0 && states[0].ledger().gain != Some(gain) {
            1int
        } else {
            0
        },
        ticks.len() > 0 ==> states.last().ledger().gain == Some(gain),
    decreases ticks.len(),
{
    if ticks.len() > 0 {
        let n = ticks.len() - 1;
        let fewer = states.drop_last();
        let first = ticks.drop_last();
        assert forall|k: int| 0 <= k < first.len() implies applied_as(
            fewer[k],
            fewer[k + 1],
            (#[trigger] first[k]).targets,
            first[k].hold,
            gain,
            first[k].applied,
        ) by {
            assert(first[k] == ticks[k]);
        }
        assert forall|k: int| 0 <= k < first.len() implies (
        #[trigger] first[k]).applied is Ok by {
            assert(first[k] == ticks[k]);
        }
        law_equal_gains_are_written_once(fewer, first, gain);
        let last = ticks[n];
        assert(last.applied is Ok);
        law_gain_is_written_when_it_changes(
            states[n],
            states[n + 1],
            last.targets,
            last.hold,
            gain,
            last.applied,
        );
    }
}

/// Whatever the targets, every position sent is finite and inside the actuator's
/// travel, as long as the hold pose is.
pub proof fn law_sent_positions_are_safe(targets: Seq<Double>, hold: Seq<Double>, i: int)
    requires
        targets.len() == hold.len(),
        all_finite(hold),
        !any_out_of_travel(hold),
        0 <= i < hold.len(),
    ensures
        positions_for(targets, hold)[i].finite(),
        !out_of_travel(positions_for(targets, hold)[i]),
{
    assert(hold[i].finite());
    assert(!out_of_travel(hold[i]));
    if all_finite(targets) {
        assert(targets[i].finite());
    }
}

/// Targets that trip no limit are sent unchanged.
pub proof fn law_ordinary_targets_pass_unchanged(targets: Seq<Double>, hold: Seq<Double>)
    requires
        limits_of(targets).len() == 0,
    ensures
        positions_for(targets, hold) == targets,
{
    assert(all_finite(targets));
    assert forall|i: int| 0 <= i < targets.len() implies held_in_travel(targets)[i]
        == targets[i] by {
        assert(!out_of_travel(targets[i]));
    }
    assert(held_in_travel(targets) =~= targets);
}

/// A fall preempts nothing: what a tick sends depends on its targets, the hold pose
/// and the gain, not on the verdict.
pub proof fn law_fall_does_not_preempt(before: Ledger, fallen: bool, gain: u16)
    ensures
        gain_orders(before, gain) == gain_orders(Ledger { fallen, ..before }, gain),
{
}

/// Down for less than the debounce since the last upright sample is not a fall.
pub proof fn law_brief_tilt_is_not_a_fall(
    before: Ledger,
    upright: Double,
    tilted: Double,
    dt: Span,
    down: Span,
)
    requires
        !before.config.fall_gravity_z.below(upright),
        down.spec_nanos() < before.config.fall_debounce.spec_nanos(),
        down.spec_nanos() >= 0,
    ensures
        !observed(observed(before, true, upright, dt), true, tilted, down).fallen,
{
}

/// An orientation filter that has not converged changes nothing.
pub proof fn law_unconverged_imu_holds_the_verdict(before: Ledger, gravity_z: Double, dt: Span)
    ensures
        observed(before, false, gravity_z, dt) == before,
{
}

/// The fall watch's ledger after converged samples, one after the other: gravity's z, and
/// for how long.
pub open spec fn watched(before: Ledger, samples: Seq<(Double, Span)>) -> Ledger
    decreases samples.len(),
{
    if samples.len() == 0 {
        before
    } else {
        observed(
            watched(before, samples.drop_last()),
            true,
            samples.last().0,
            samples.last().1,
        )
    }
}

/// How long samples took, taken together.
pub open spec fn total_time(samples: Seq<(Double, Span)>) -> int
    decreases samples.len(),
{
    if samples.len() == 0 {
        0
    } else {
        total_time(samples.drop_last()) + samples.last().1.spec_nanos()
    }
}

/// A converged sample with gravity's z above the threshold, however far above, adds its
/// time to the time down and never withdraws the verdict; only one that is not above it
/// does, and then the time down starts anew.
pub proof fn law_any_gravity_above_the_threshold_counts_as_down(
    before: Ledger,
    gravity_z: Double,
    dt: Span,
)
    requires
        0 <= dt.spec_nanos(),
        before.falling_for + dt.spec_nanos() <= MAX_NANOS,
    ensures
        ({
            let after = observed(before, true, gravity_z, dt);
            &&& before.config.fall_gravity_z.below(gravity_z) ==> {
                &&& after.falling_for == before.falling_for + dt.spec_nanos()
                &&& before.fallen ==> after.fallen
                &&& before.falling_for + dt.spec_nanos() >= before.config.fall_debounce.spec_nanos()
                    ==> after.fallen
                &&& before.falling_for + dt.spec_nanos() < before.config.fall_debounce.spec_nanos()
                    ==> after.fallen == before.fallen
            }
            &&& !before.config.fall_gravity_z.below(gravity_z) ==> after.falling_for == 0
                && !after.fallen
            &&& after.config == before.config
            &&& after.gain == before.gain
            &&& after.runs == before.runs
            &&& after.deadman_armed == before.deadman_armed
        }),
{
}

/// Lying on its back or on its side, a robot reads gravity at or above zero: with a
/// threshold below zero that is down, and a robot that stands, below it, is not.
pub proof fn law_upside_down_is_down(before: Ledger, gravity_z: Double, dt: Span)
    requires
        0x8000_0000_0000_0000 < before.config.fall_gravity_z.bits <= 0xFFF0_0000_0000_0000,
        before.config.fall_debounce.spec_nanos() <= dt.spec_nanos() <= MAX_NANOS,
    ensures
        gravity_z.bits <= 0x7FF0_0000_0000_0000 ==> observed(before, true, gravity_z, dt).fallen,
        gravity_z.bits == 0x8000_0000_0000_0000 ==> observed(before, true, gravity_z, dt).fallen,
        0x8000_0000_0000_0000 < gravity_z.bits < before.config.fall_gravity_z.bits ==> observed(
            before,
            true,
            gravity_z,
            dt,
        ).fallen,
        before.config.fall_gravity_z.bits <= gravity_z.bits <= 0xFFF0_0000_0000_0000 ==> !observed(
            before,
            true,
            gravity_z,
            dt,
        ).fallen,
{
}

/// Samples above the threshold whose times add up to the debounce end in a fall.
pub proof fn law_down_for_the_debounce_is_a_fall(before: Ledger, samples: Seq<(Double, Span)>)
    requires
        samples.len() > 0,
        before.config.fall_debounce.spec_nanos() <= MAX_NANOS,
        before.falling_for <= MAX_NANOS,
        forall|k: int|
            #![trigger samples[k]]
            0 <= k < samples.len() ==> before.config.fall_gravity_z.below(samples[k].0) && 0
                <= samples[k].1.spec_nanos(),
    ensures
        before.falling_for + total_time(samples) >= before.config.fall_debounce.spec_nanos()
            ==> watched(before, samples).fallen,
        before.fallen ==> watched(before, samples).fallen,
        before.falling_for + total_time(samples) < before.config.fall_debounce.spec_nanos()
            ==> watched(before, samples).fallen == before.fallen,
{
    lemma_watched(before, samples);
}

proof fn lemma_watched(before: Ledger, samples: Seq<(Double, Span)>)
    requires
        before.config.fall_debounce.spec_nanos() <= MAX_NANOS,
        before.falling_for <= MAX_NANOS,
        forall|k: int|
            #![trigger samples[k]]
            0 <= k < samples.len() ==> before.config.fall_gravity_z.below(samples[k].0) && 0
                <= samples[k].1.spec_nanos(),
    ensures
        watched(before, samples).config == before.config,
        0 <= total_time(samples),
        watched(before, samples).falling_for <= MAX_NANOS,
        watched(before, samples).falling_for == before.falling_for + total_time(samples)
            || watched(before, samples).falling_for == MAX_NANOS && before.falling_for + total_time(
            samples,
        ) >= MAX_NANOS,
        samples.len() > 0 && before.falling_for + total_time(samples)
            >= before.config.fall_debounce.spec_nanos() ==> watched(before, samples).fallen,
        before.fallen ==> watched(before, samples).fallen,
        before.falling_for + total_time(samples) < before.config.fall_debounce.spec_nanos()
            ==> watched(before, samples).fallen == before.fallen,
    decreases samples.len(),
{
    if samples.len() > 0 {
        let front = samples.drop_last();
        assert forall|k: int|
            #![trigger front[k]]
            0 <= k < front.len() implies before.config.fall_gravity_z.below(front[k].0) && 0
            <= front[k].1.spec_nanos() by {
            assert(front[k] == samples[k]);
        }
        lemma_watched(before, front);
        assert(samples[samples.len() - 1] == samples.last());
    }
}

/// One sample that is not above the threshold clears whatever came before it.
pub proof fn law_one_upright_sample_clears_the_verdict(
    before: Ledger,
    samples: Seq<(Double, Span)>,
    upright: Double,
    dt: Span,
)
    requires
        upright.at_most(before.config.fall_gravity_z),
    ensures
        !watched(before, samples.push((upright, dt))).fallen,
        watched(before, samples.push((upright, dt))).falling_for == 0,
{
    assert(samples.push((upright, dt)).drop_last() =~= samples);
    lemma_watching_keeps_settings(before, samples);
}

proof fn lemma_watching_keeps_settings(before: Ledger, samples: Seq<(Double, Span)>)
    ensures
        watched(before, samples).config == before.config,
    decreases samples.len(),
{
    if samples.len() > 0 {
        lemma_watching_keeps_settings(before, samples.drop_last());
    }
}

/// The actuator's travel is from minus pi to pi; a target is out of it exactly if it is
/// beyond either end.
pub proof fn law_travel_is_one_turn(v: Double)
    ensures
        0x4009_21FB_5444_2D18 < v.bits <= 0x7FF0_0000_0000_0000 ==> out_of_travel(v),
        0xC009_21FB_5444_2D18 < v.bits <= 0xFFF0_0000_0000_0000 ==> out_of_travel(v),
        v.bits <= 0x4009_21FB_5444_2D18 ==> !out_of_travel(v),
        0x8000_0000_0000_0000 <= v.bits <= 0xC009_21FB_5444_2D18 ==> !out_of_travel(v),
{
}

/// What is sent for each joint: where all targets are finite, a target beyond an end of
/// the travel becomes that end, and any other is sent as it is; where one is not finite,
/// all joints hold.
pub proof fn law_each_joint_is_held_in_its_travel(
    targets: Seq<Double>,
    hold: Seq<Double>,
    i: int,
    bad: int,
)
    requires
        targets.len() == hold.len(),
        0 <= i < targets.len(),
    ensures
        positions_for(targets, hold).len() == targets.len(),
        0 <= bad < targets.len() && targets[bad].bits % 0x8000_0000_0000_0000
            >= 0x7FF0_0000_0000_0000 ==> positions_for(targets, hold)[i] == hold[i],
        (forall|j: int|
            0 <= j < targets.len() ==> (#[trigger] targets[j]).bits % 0x8000_0000_0000_0000
                < 0x7FF0_0000_0000_0000) ==> positions_for(targets, hold)[i].bits
            == if 0x4009_21FB_5444_2D18 < targets[i].bits < 0x8000_0000_0000_0000 {
            0x4009_21FB_5444_2D18
        } else if 0xC009_21FB_5444_2D18 < targets[i].bits {
            0xC009_21FB_5444_2D18
        } else {
            targets[i].bits
        },
{
    if 0 <= bad < targets.len() && targets[bad].bits % 0x8000_0000_0000_0000
        >= 0x7FF0_0000_0000_0000 {
        assert(!targets[bad].finite());
    }
    if forall|j: int|
        0 <= j < targets.len() ==> (#[trigger] targets[j]).bits % 0x8000_0000_0000_0000
            < 0x7FF0_0000_0000_0000 {
        assert forall|j: int| 0 <= j < targets.len() implies (#[trigger] targets[j]).finite() by {
            assert(targets[j].bits % 0x8000_0000_0000_0000 < 0x7FF0_0000_0000_0000);
        }
        assert(targets[i].bits % 0x8000_0000_0000_0000 < 0x7FF0_0000_0000_0000);
    }
}

/// Which limit targets trip, and what becomes of the run counters: one target that is not
/// finite trips that limit alone and leaves the other counter standing, one beyond the
/// travel trips the range, and a tick that trips nothing clears both.
pub proof fn law_limits_name_what_was_wrong(targets: Seq<Double>, runs: LimitRuns, i: int)
    requires
        0 <= i < targets.len(),
        runs.range < u64::MAX,
        runs.not_finite < u64::MAX,
    ensures
        targets[i].bits % 0x8000_0000_0000_0000 >= 0x7FF0_0000_0000_0000 ==> {
            &&& limits_of(targets) == seq![Limit::NotFinite]
            &&& runs_after(runs, targets).not_finite == runs.not_finite + 1
            &&& runs_after(runs, targets).range == runs.range
        },
        (forall|j: int|
            0 <= j < targets.len() ==> (#[trigger] targets[j]).bits % 0x8000_0000_0000_0000
                < 0x7FF0_0000_0000_0000) && targets[i].bits % 0x8000_0000_0000_0000
            > 0x4009_21FB_5444_2D18 ==> {
            &&& limits_of(targets) == seq![Limit::Range]
            &&& runs_after(runs, targets).not_finite == 0
            &&& runs_after(runs, targets).range == runs.range + 1
        },
        (forall|j: int|
            0 <= j < targets.len() ==> (#[trigger] targets[j]).bits % 0x8000_0000_0000_0000
                <= 0x4009_21FB_5444_2D18) ==> {
            &&& limits_of(targets).len() == 0
            &&& runs_after(runs, targets).not_finite == 0
            &&& runs_after(runs, targets).range == 0
        },
        runs_after(runs, targets).deadman == runs.deadman,
{
    if targets[i].bits % 0x8000_0000_0000_0000 >= 0x7FF0_0000_0000_0000 {
        assert(!targets[i].finite());
    }
    if forall|j: int|
        0 <= j < targets.len() ==> (#[trigger] targets[j]).bits % 0x8000_0000_0000_0000
            < 0x7FF0_0000_0000_0000 {
        assert forall|j: int| 0 <= j < targets.len() implies (#[trigger] targets[j]).finite() by {
            assert(targets[j].bits % 0x8000_0000_0000_0000 < 0x7FF0_0000_0000_0000);
        }
        if targets[i].bits % 0x8000_0000_0000_0000 > 0x4009_21FB_5444_2D18 {
            assert(targets[i].bits % 0x8000_0000_0000_0000 < 0x7FF0_0000_0000_0000);
            assert(out_of_travel(targets[i]));
        }
    }
    if forall|j: int|
        0 <= j < targets.len() ==> (#[trigger] targets[j]).bits % 0x8000_0000_0000_0000
            <= 0x4009_21FB_5444_2D18 {
        assert forall|j: int| 0 <= j < targets.len() implies (#[trigger] targets[j]).finite()
            && !out_of_travel(targets[j]) by {
            assert(targets[j].bits % 0x8000_0000_0000_0000 <= 0x4009_21FB_5444_2D18);
        }
    }
}

/// The count of joints out of travel takes in each joint once.
pub proof fn law_joints_out_of_travel_are_counted(targets: Seq<Double>, n: int)
    requires
        0 <= n < targets.len(),
    ensures
        count_out(targets, 0) == 0,
        count_out(targets, n + 1) == count_out(targets, n) + if (0x4009_21FB_5444_2D18
            < targets[n].bits <= 0x7FF0_0000_0000_0000) || (0xC009_21FB_5444_2D18 < targets[n].bits
            <= 0xFFF0_0000_0000_0000) {
            1int
        } else {
            0
        },
{
}

/// A fresh intent passes as it is and arms the deadman. A stale one has its velocity set
/// to zero and its head kept, is named as such, and lengthens the run.
pub proof fn law_stale_intents_stop_the_robot(
    before: Ledger,
    after: Ledger,
    command: Command,
    age: Span,
    gated: (Command, Option<Limit>),
    i: int,
)
    requires
        gated_as(before, after, command, age, gated),
        before.runs.deadman < u64::MAX,
        0 <= i < 3,
    ensures
        age.spec_nanos() > before.config.deadman.spec_nanos() ==> {
            &&& gated.0.twist@[i].bits == 0
            &&& gated.0.head == command.head
            &&& gated.1 == Some(Limit::Deadman)
            &&& after.runs.deadman == before.runs.deadman + 1
            &&& after.deadman_armed == before.deadman_armed
        },
        age.spec_nanos() <= before.config.deadman.spec_nanos() ==> {
            &&& gated.0 == command
            &&& gated.1 is None
            &&& after.runs.deadman == 0
            &&& after.deadman_armed
        },
        after.fallen == before.fallen,
        after.falling_for == before.falling_for,
        after.gain == before.gain,
        after.config == before.config,
        after.runs.range == before.runs.range,
        after.runs.not_finite == before.runs.not_finite,
{
}

/// A run is said at its first trip, and at every fiftieth.
pub proof fn law_a_run_is_said_once_in_fifty(k: u64)
    ensures
        is_news(1),
        k < 0x100_0000_0000 ==> is_news((k * 50) as u64),
        k < 0x100_0000_0000 ==> forall|r: u64|
            1 <= r < 50 && k + r > 1 ==> !#[trigger] is_news((k * 50 + r) as u64),
{
}

/// A gain that is already set is not written; any other is, once.
pub proof fn law_a_set_gain_is_not_written_again(before: Ledger, gain: u16, other: u16)
    ensures
        before.gain is None ==> gain_orders(before, gain) == seq![Order::Gain(gain)],
        before.gain == Some(other) && other != gain ==> gain_orders(before, gain)
            == seq![Order::Gain(gain)],
        before.gain == Some(gain) ==> gain_orders(before, gain).len() == 0,
        gain_granted(before, gain).len() == gain_orders(before, gain).len(),
{
}

} // verus!
