use microduck::follower::{
    follow_step, Aim, FollowCommand, FollowerState, GO_ENTER_BITS, GO_EXIT_BITS, YAW_GAIN_BITS,
};
use microduck::ieee::Single;
use microduck::submap::Point;

fn s(x: f32) -> Single {
    Single { bits: x.to_bits() }
}

fn f(x: Single) -> f32 {
    f32::from_bits(x.bits)
}

fn path(points: &[(f32, f32)]) -> Vec<Point> {
    points.iter().map(|p| Point { x: s(p.0), y: s(p.1) }).collect()
}

fn follow(
    state: &mut FollowerState,
    pos: (f32, f32),
    yaw: f32,
    lin_speed: f32,
    yaw_speed: f32,
    radius: f32,
) -> FollowCommand {
    let dists: Vec<Single> = state
        .waypoints()
        .iter()
        .map(|p| {
            let (dx, dy) = (f(p.x) - pos.0, f(p.y) - pos.1);
            s((dx * dx + dy * dy).sqrt())
        })
        .collect();
    state.arrive(&dists, s(radius));
    let aim = state.current().map(|p| {
        let mut err = (f(p.y) - pos.1).atan2(f(p.x) - pos.0) - yaw;
        while err > std::f32::consts::PI {
            err -= 2.0 * std::f32::consts::PI;
        }
        while err < -std::f32::consts::PI {
            err += 2.0 * std::f32::consts::PI;
        }
        Aim {
            yaw_err: s(err),
            turn: s(f32::from_bits(YAW_GAIN_BITS) * err),
            forward: s(lin_speed * err.cos().max(0.0)),
        }
    });
    follow_step(state, aim, s(-yaw_speed), s(yaw_speed))
}

#[test]
fn turns_first_then_drives() {
    let mut st = FollowerState::new(path(&[(0.0, 1.0)]));
    let cmd = follow(&mut st, (0.0, 0.0), 0.0, 0.5, 1.0, 0.05);
    assert!(f(cmd.vx).abs() < 1e-6);
    assert!(f(cmd.wz) > 0.0);
    assert!(f(cmd.wz) <= 1.0 + 1e-6);
    assert_eq!(f(cmd.wz), 1.0);
}

#[test]
fn translates_when_aimed() {
    let mut st = FollowerState::new(path(&[(1.0, 0.0)]));
    let cmd = follow(&mut st, (0.0, 0.0), 0.0, 0.5, 1.0, 0.05);
    assert!(f(cmd.vx) > 0.0);
    assert!(f(cmd.vx) <= 0.5 + 1e-6);
}

#[test]
fn arrives_and_steers_at_next_without_dead_tick() {
    let mut st = FollowerState::new(path(&[(0.01, 0.0), (1.0, 0.0)]));
    let cmd = follow(&mut st, (0.0, 0.0), 0.0, 0.5, 1.0, 0.05);
    assert_eq!(st.current(), Some(Point { x: s(1.0), y: s(0.0) }));
    assert!(!st.done());
    assert!(f(cmd.vx) > 0.0);
}

#[test]
fn hysteresis_keeps_going_through_small_wobble() {
    let mut st = FollowerState::new(path(&[(1.0, 0.0)]));
    let c1 = follow(&mut st, (0.0, 0.0), 0.0, 0.5, 1.0, 0.05);
    assert!(f(c1.vx) > 0.0);
    let c2 = follow(&mut st, (0.0, 0.0), 0.35, 0.5, 1.0, 0.05);
    assert!(f(c2.vx) > 0.0, "0.35 rad wobble must not stop translation");
    let c3 = follow(&mut st, (0.0, 0.0), 0.60, 0.5, 1.0, 0.05);
    assert!(f(c3.vx).abs() < 1e-6, "0.60 rad error must gate translation");
    let c4 = follow(&mut st, (0.0, 0.0), 0.35, 0.5, 1.0, 0.05);
    assert!(f(c4.vx).abs() < 1e-6, "and keep it gated inside the band");
}

#[test]
fn empty_path_commands_zero() {
    let mut st = FollowerState::empty();
    let cmd = follow(&mut st, (0.0, 0.0), 0.0, 0.5, 1.0, 0.05);
    assert!(f(cmd.vx) == 0.0 && f(cmd.wz) == 0.0);
    assert_eq!(cmd, FollowCommand::default());
    assert!(st.done());
}

#[test]
fn the_thresholds_are_these() {
    assert_eq!(f32::from_bits(GO_ENTER_BITS), 0.25);
    assert_eq!(f32::from_bits(GO_EXIT_BITS), 0.45);
    assert_eq!(f32::from_bits(YAW_GAIN_BITS), 3.0);
}
