use microduck::model::{
    default_position, joint_index, BAUD_RATE, EXPECTED_REGISTERS, IMU_DXL_ID, JOINT_IDS, JOINT_NAMES, MOUTH_INDEX, NUM_JOINTS,
};

#[test]
fn tables_agree_on_length() {
    assert_eq!(JOINT_IDS.len(), NUM_JOINTS);
    assert_eq!(JOINT_NAMES.len(), NUM_JOINTS);
    assert_eq!(default_position().len(), NUM_JOINTS);
}

#[test]
fn ids_are_unique() {
    let mut seen = JOINT_IDS;
    seen.sort_unstable();
    seen.windows(2)
        .for_each(|w| assert_ne!(w[0], w[1], "duplicate Dynamixel ID {}", w[0]));
}

#[test]
fn imu_id_does_not_collide_with_a_joint() {
    assert!(!JOINT_IDS.contains(&IMU_DXL_ID));
}

#[test]
fn mouth_index_names_the_mouth() {
    assert_eq!(JOINT_NAMES[MOUTH_INDEX], "mouth");
    assert_eq!(joint_index("mouth"), Some(MOUTH_INDEX));
}

#[test]
fn home_pose_legs_are_mirrored() {
    for (left, right) in [
        ("left_hip_roll", "right_hip_roll"),
        ("left_hip_pitch", "right_hip_pitch"),
        ("left_knee", "right_knee"),
        ("left_ankle", "right_ankle"),
    ] {
        let l = f64::from_bits(default_position()[joint_index(left).unwrap()].bits);
        let r = f64::from_bits(default_position()[joint_index(right).unwrap()].bits);
        assert!(
            (l + r).abs() < 1e-9,
            "{left} ({l}) and {right} ({r}) should be equal and opposite"
        );
    }
}

#[test]
fn home_pose_holds_the_measured_angles() {
    let expected = [
        0.0, -0.0873, -0.4579, -0.0049, 0.4530, 0.3491, 0.3491, 0.0, 0.0, 0.0, 0.0, 0.0873, 0.4579,
        0.0049, -0.4530,
    ];
    for (joint, angle) in expected.iter().enumerate() {
        assert_eq!(f64::from_bits(default_position()[joint].bits), *angle);
    }
}

#[test]
fn every_joint_is_found_by_its_name() {
    for (i, name) in JOINT_NAMES.iter().enumerate() {
        assert_eq!(joint_index(name), Some(i));
    }
    assert_eq!(joint_index("left_wing"), None);
    assert_eq!(joint_index(""), None);
}

#[test]
fn the_registers_answer_at_once_at_the_bus_rate() {
    assert_eq!(
        EXPECTED_REGISTERS,
        [("return_delay_time", 0), ("baud_rate", 3), ("pwm_slope", 255), ("shutdown", 52)]
    );
    assert_eq!(BAUD_RATE, 1_000_000);
}
