use microduck::ieee::Double;
use microduck::io::{FakeIo, IoError, JointTargets, RobotIo};
use microduck::model::default_position;

fn d(x: f64) -> Double {
    Double { bits: x.to_bits() }
}

#[test]
fn fake_io_tracks_what_was_written() {
    let mut io = FakeIo::at(default_position());
    assert_eq!(io.read().unwrap().positions, default_position());

    let mut moved = default_position();
    moved[0] = d(0.5);
    io.write(&JointTargets::new(moved)).unwrap();
    assert_eq!(io.read().unwrap().positions, moved);
    assert_eq!(io.writes, 1);
}

#[test]
fn frozen_fake_io_ignores_writes() {
    let mut io = FakeIo::at(default_position()).frozen();
    let mut moved = default_position();
    moved[0] = d(0.5);
    io.write(&JointTargets::new(moved)).unwrap();
    assert_eq!(io.read().unwrap().positions, default_position());
}

#[test]
fn simulated_read_failure_clears_itself() {
    let mut io = FakeIo::new();
    io.fail_next_read = true;
    assert!(io.read().is_err());
    assert!(io.read().is_ok());
}

#[test]
fn io_errors_say_what_went_wrong() {
    assert_eq!(
        IoError::Port { path: "/dev/ttyS1".into(), source: "no such device".into() }.describe(),
        "serial port /dev/ttyS1: no such device"
    );
    assert_eq!(
        IoError::Bus("checksum".into()).describe(),
        "bus transaction failed: checksum"
    );
    assert_eq!(
        IoError::ShortRead { what: "blocks", expected: 16, got: 7 }.describe(),
        "blocks: expected 16, got 7"
    );
    assert_eq!(IoError::Simulated.describe(), "simulated failure");
}
