use microduck::ieee::Double;
use microduck::io::{FakeIo, ImuData, IoError, Sensors};
use microduck::model::{default_position, NUM_JOINTS};
use microduck::safety::{
    Command, Limit, LimitRuns, Safety, SafetyConfig, ACTUATOR_MAX_BITS, ACTUATOR_MIN_BITS,
    LIMIT_LOG_EVERY,
};
use microduck::span::Span;

fn d(x: f64) -> Double {
    Double { bits: x.to_bits() }
}

fn upright() -> Sensors {
    Sensors::default()
}

fn on_its_side() -> Sensors {
    Sensors {
        imu: ImuData { gravity: [d(-1.0), d(0.0), d(0.0)] },
        ..Sensors::default()
    }
}

fn safety() -> Safety<FakeIo> {
    Safety::new(FakeIo::at(default_position()), SafetyConfig::default())
}

fn gain() -> u16 {
    SafetyConfig::default().gain_running
}

fn over_travel() -> [Double; NUM_JOINTS] {
    [d(std::f64::consts::PI + 1.0); NUM_JOINTS]
}

fn not_numbers() -> [Double; NUM_JOINTS] {
    [d(f64::NAN); NUM_JOINTS]
}

#[test]
fn the_actuator_travel_is_one_turn() {
    assert_eq!(f64::from_bits(ACTUATOR_MAX_BITS), std::f64::consts::PI);
    assert_eq!(f64::from_bits(ACTUATOR_MIN_BITS), -std::f64::consts::PI);
    let config = SafetyConfig::default();
    assert_eq!(f64::from_bits(config.fall_gravity_z.bits), -0.5);
    assert_eq!(config.fall_debounce, Span::from_millis(200));
    assert_eq!(config.deadman, Span::from_millis(500));
    assert_eq!((config.gain_running, config.gain_limp), (200, 50));
}

#[test]
fn a_brief_tilt_is_not_a_fall() {
    let mut s = safety();
    s.observe(&on_its_side(), Span::from_millis(100));
    assert!(!s.fallen(), "100ms is under the 200ms debounce");
    s.observe(&upright(), Span::from_millis(20));
    s.observe(&on_its_side(), Span::from_millis(100));
    assert!(!s.fallen(), "an upright sample must reset the accumulator");
}

#[test]
fn a_sustained_tilt_is_a_fall() {
    let mut s = safety();
    for _ in 0..11 {
        s.observe(&on_its_side(), Span::from_millis(20));
    }
    assert!(s.fallen());
}

#[test]
fn an_unconverged_imu_cannot_declare_a_fall() {
    let mut io = FakeIo::at(default_position());
    io.imu_ready = false;
    let mut safety = Safety::new(io, SafetyConfig::default());

    let mut sensors = Sensors::default();
    sensors.imu.gravity = [d(0.0), d(0.0), d(0.0)];

    for _ in 0..50 {
        safety.observe(&sensors, Span::from_millis(20));
    }
    assert!(
        !safety.fallen(),
        "a robot was called fallen on an orientation filter that had not converged"
    );
}

#[test]
fn a_converged_imu_still_detects_a_fall() {
    let mut io = FakeIo::at(default_position());
    io.imu_ready = true;
    let mut safety = Safety::new(io, SafetyConfig::default());

    let mut sensors = Sensors::default();
    sensors.imu.gravity = [d(0.0), d(0.0), d(0.0)];

    for _ in 0..50 {
        safety.observe(&sensors, Span::from_millis(20));
    }
    assert!(safety.fallen(), "a converged filter must still report a fall");
}

#[test]
fn by_default_a_fall_reports_but_does_not_preempt() {
    let mut s = safety();
    for _ in 0..11 {
        s.observe(&on_its_side(), Span::from_millis(20));
    }
    assert!(s.fallen(), "the verdict is still tracked");

    let mut wanted = default_position();
    wanted[0] = d(0.9);
    let applied = s.apply(wanted, default_position(), gain()).unwrap();
    assert!(applied.limits.is_empty(), "{:?}", applied.limits);
    assert_eq!(
        s.io().last_written.unwrap().positions,
        wanted,
        "the policy keeps driving"
    );
    assert_eq!(s.io().last_gain, Some(SafetyConfig::default().gain_running));
}

#[test]
fn a_fall_does_not_preempt_the_caller() {
    let mut s = safety();
    for _ in 0..11 {
        s.observe(&on_its_side(), Span::from_millis(20));
    }
    assert!(s.fallen(), "the verdict is still tracked");

    let mut wanted = default_position();
    wanted[0] = d(0.9);
    let applied = s.apply(wanted, default_position(), gain()).unwrap();

    assert!(applied.limits.is_empty(), "{:?}", applied.limits);
    assert_eq!(
        s.io().last_written.unwrap().positions,
        wanted,
        "the caller keeps driving a robot that is down"
    );
    assert_eq!(s.io().last_gain, Some(SafetyConfig::default().gain_running));
}

#[test]
fn a_caller_that_asks_for_the_limp_gain_gets_it() {
    let mut s = safety();
    s.observe(&upright(), Span::from_millis(20));
    let limp = SafetyConfig::default().gain_limp;

    s.apply(default_position(), default_position(), limp).unwrap();
    assert_eq!(s.io().last_gain, Some(limp));
    assert_eq!(s.gain(), Some(limp), "and it is reported as what is running");
}

#[test]
fn a_non_finite_target_is_refused_not_clamped() {
    let mut s = safety();
    s.observe(&upright(), Span::from_millis(20));

    let mut poisoned = default_position();
    poisoned[3] = d(f64::NAN);
    let applied = s.apply(poisoned, default_position(), gain()).unwrap();

    assert!(applied.limited_by(Limit::NotFinite));
    assert!(!applied.limited_by(Limit::Range), "must not be clamped");
    assert_eq!(s.io().last_written.unwrap().positions, default_position());
}

#[test]
fn out_of_range_targets_are_clamped_and_reported() {
    let mut s = safety();
    s.observe(&upright(), Span::from_millis(20));

    let mut wild = default_position();
    wild[2] = d(100.0);
    wild[7] = d(-100.0);
    let applied = s.apply(wild, default_position(), gain()).unwrap();

    assert!(applied.limited_by(Limit::Range));
    let written = s.io().last_written.unwrap().positions;
    assert_eq!(written[2].bits, ACTUATOR_MAX_BITS);
    assert_eq!(written[7].bits, ACTUATOR_MIN_BITS);
}

#[test]
fn an_ordinary_target_passes_through_unchanged() {
    let mut s = safety();
    s.observe(&upright(), Span::from_millis(20));

    let applied = s.apply(default_position(), default_position(), gain()).unwrap();
    assert!(applied.limits.is_empty(), "{:?}", applied.limits);
    assert_eq!(s.io().last_written.unwrap().positions, default_position());
    assert_eq!(s.io().last_gain, Some(SafetyConfig::default().gain_running));
}

#[test]
fn the_deadman_zeroes_the_twist_only() {
    let mut s = safety();
    let command = Command {
        twist: [d(0.5), d(0.0), d(0.3)],
        head: [d(0.1), d(0.2), d(0.3), d(0.4)],
    };

    let (fresh, limit) = s.gate(command, Span::from_millis(100));
    assert_eq!(fresh, command, "a fresh intent passes through");
    assert!(limit.is_none());

    let (stale, limit) = s.gate(command, Span::from_secs(5));
    assert_eq!(stale.twist, [d(0.0); 3], "velocity must stop");
    assert_eq!(stale.head, command.head, "head is harmless when stale");
    assert_eq!(limit, Some(Limit::Deadman));
}

#[test]
fn the_gain_is_only_written_when_it_changes() {
    let mut s = safety();
    s.observe(&upright(), Span::from_millis(20));
    s.apply(default_position(), default_position(), gain()).unwrap();
    s.apply(default_position(), default_position(), gain()).unwrap();
    s.apply(default_position(), default_position(), gain()).unwrap();

    assert_eq!(s.io().writes, 3);
    assert_eq!(s.io().last_gain, Some(SafetyConfig::default().gain_running));
    assert_eq!(s.gain(), Some(SafetyConfig::default().gain_running));
}

#[test]
fn a_limit_that_keeps_firing_is_reported_periodically_not_per_tick() {
    assert!(LimitRuns::worth_logging(1), "the first trip is always news");
    assert!(!LimitRuns::worth_logging(2), "not the second");
    assert!(!LimitRuns::worth_logging(LIMIT_LOG_EVERY - 1));
    assert!(LimitRuns::worth_logging(LIMIT_LOG_EVERY));
    assert!(!LimitRuns::worth_logging(LIMIT_LOG_EVERY + 1));
    assert!(LimitRuns::worth_logging(LIMIT_LOG_EVERY * 3));
}

#[test]
fn a_limit_run_resets_when_the_limit_stops_firing() {
    let mut s = safety();

    s.apply(over_travel(), default_position(), gain()).unwrap();
    s.apply(over_travel(), default_position(), gain()).unwrap();
    assert_eq!(s.runs().range, 2, "two clamped ticks in a row");

    s.apply(default_position(), default_position(), gain()).unwrap();
    assert_eq!(s.runs().range, 0, "a clean tick ends the run");

    s.gate(Command::default(), Span::from_secs(5));
    s.gate(Command::default(), Span::from_secs(5));
    assert_eq!(s.runs().deadman, 2);
    s.gate(Command::default(), Span::from_millis(10));
    assert_eq!(s.runs().deadman, 0, "fresh intents end the run");
}

#[test]
fn the_three_limits_are_counted_separately() {
    let mut s = safety();

    s.apply(over_travel(), default_position(), gain()).unwrap();
    s.apply(over_travel(), default_position(), gain()).unwrap();
    s.apply(not_numbers(), default_position(), gain()).unwrap();
    s.gate(Command::default(), Span::from_secs(5));
    s.gate(Command::default(), Span::from_secs(5));
    s.gate(Command::default(), Span::from_secs(5));

    assert_eq!(s.runs().range, 2, "clamped twice, then refused as NaN");
    assert_eq!(s.runs().not_finite, 1, "the NaN tick is its own run");
    assert_eq!(s.runs().deadman, 3);
}

#[test]
fn a_plain_tick_trips_no_limit() {
    let mut s = safety();
    s.observe(&upright(), Span::from_millis(20));

    let applied = s.apply(default_position(), default_position(), gain()).unwrap();
    let (command, limit) = s.gate(Command::default(), Span::from_millis(10));

    assert!(applied.limits.is_empty(), "{:?}", applied.limits);
    assert!(limit.is_none());
    assert_eq!(s.runs(), LimitRuns::default());
    assert_eq!(command, Command::default());
    assert!(!s.fallen());
}

#[test]
fn limits_are_reported_without_changing_what_is_applied() {
    let mut s = safety();

    s.apply(not_numbers(), default_position(), gain()).unwrap();
    assert_eq!(
        s.io().last_written.unwrap().positions,
        default_position(),
        "a refused target must not reach the servos"
    );

    s.apply(over_travel(), default_position(), gain()).unwrap();
    let written = s.io().last_written.unwrap().positions;
    assert!(
        written.iter().all(|v| f64::from_bits(v.bits) <= std::f64::consts::PI),
        "nothing past the actuator's travel: {written:?}"
    );
    assert_eq!(written, [d(std::f64::consts::PI); NUM_JOINTS]);
}

#[test]
fn a_robot_that_has_never_been_driven_reports_no_deadman() {
    let mut s = safety();

    for _ in 0..200 {
        assert!(!s.deadman_is_news(), "never driven: nothing to say");
        s.gate(Command::default(), Span::from_secs(5));
    }
    assert_eq!(s.runs().deadman, 200, "counted, but not worth saying");

    s.gate(Command::default(), Span::from_millis(10));
    assert!(s.deadman_is_news(), "a driver that goes quiet is different");
}

#[test]
fn a_refused_tick_does_not_end_a_range_run() {
    let mut s = safety();

    s.apply(over_travel(), default_position(), gain()).unwrap();
    assert_eq!(s.runs().range, 1);

    s.apply(not_numbers(), default_position(), gain()).unwrap();
    assert_eq!(s.runs().range, 1, "the refused tick leaves the run standing");
    assert_eq!(s.runs().not_finite, 1, "and is its own run");
}

#[test]
fn a_robot_that_takes_everything_lets_every_tick_succeed() {
    let mut s = safety();
    let done = s.apply(over_travel(), default_position(), gain()).unwrap();
    assert_eq!(done.limits, vec![Limit::Range]);
    let done = s.apply(not_numbers(), default_position(), gain()).unwrap();
    assert_eq!(done.limits, vec![Limit::NotFinite]);
    assert_eq!(s.io().writes, 2);
    assert_eq!(s.io().last_written.unwrap().positions, default_position());
}

#[test]
fn reads_and_torque_hand_on_the_answer() {
    let mut io = FakeIo::at(default_position());
    io.fail_next_read = true;
    let mut s = Safety::new(io, SafetyConfig::default());
    assert_eq!(s.read(), Err(IoError::Simulated));
    assert_eq!(s.read().unwrap().positions, default_position());
    assert_eq!(s.io().reads, 1);
    assert_eq!(s.set_torque(false), Ok(()));
}
