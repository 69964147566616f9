//! The robot, as data.
//!
//! One set of tables, for the one robot there is. They are indexed by the same
//! integer everywhere.

use vstd::prelude::*;
use crate::ieee::Double;
use crate::text::same_text;

verus! {

/// Left leg (5), neck, head and mouth (5), right leg (5).
pub const NUM_JOINTS: usize = 15;

/// Bus IDs, indexed as [`JOINT_NAMES`].
pub const JOINT_IDS: [u8; NUM_JOINTS] = [20, 21, 22, 23, 24, 30, 31, 32, 33, 34, 10, 11, 12, 13, 14];

pub const JOINT_NAMES: [&'static str; NUM_JOINTS] = [
    "left_hip_yaw",
    "left_hip_roll",
    "left_hip_pitch",
    "left_knee",
    "left_ankle",
    "neck_pitch",
    "head_pitch",
    "head_yaw",
    "head_roll",
    "mouth",
    "right_hip_yaw",
    "right_hip_roll",
    "right_hip_pitch",
    "right_knee",
    "right_ankle",
];

/// The mouth is absent from every policy: the action vector skips this index.
pub const MOUTH_INDEX: usize = 9;

/// Home pose as the bits of its joint angles in radians. Policies are trained
/// against these angles and observe joint positions relative to them.
pub const DEFAULT_POSITION_BITS: [u64; NUM_JOINTS] = [
    0x0000000000000000, // left_hip_yaw, 0.0000 rad
    0xBFB6594AF4F0D845, // left_hip_roll, -0.0873 rad
    0xBFDD4E3BCD35A858, // left_hip_pitch, -0.4579 rad
    0xBF741205BC01A36E, // left_knee, -0.0049 rad
    0x3FDCFDF3B645A1CB, // left_ankle, 0.4530 rad
    0x3FD657A786C22681, // neck_pitch, 0.3491 rad
    0x3FD657A786C22681, // head_pitch, 0.3491 rad
    0x0000000000000000, // head_yaw, 0.0000 rad
    0x0000000000000000, // head_roll, 0.0000 rad
    0x0000000000000000, // mouth, 0.0000 rad
    0x0000000000000000, // right_hip_yaw, 0.0000 rad
    0x3FB6594AF4F0D845, // right_hip_roll, 0.0873 rad
    0x3FDD4E3BCD35A858, // right_hip_pitch, 0.4579 rad
    0x3F741205BC01A36E, // right_knee, 0.0049 rad
    0xBFDCFDF3B645A1CB, // right_ankle, -0.4530 rad
];

/// The orientation board's bus ID. It rides the motor bus and is read in the same
/// transaction as the servos.
pub const IMU_DXL_ID: u8 = 200;

pub const BAUD_RATE: u32 = 1_000_000;

/// EEPROM registers asserted, and corrected, at startup. The delay counts most: servos
/// come with one that costs most of a tick, over all of them.
pub const EXPECTED_REGISTERS: [(&'static str, u8); 4] = [
    ("return_delay_time", 0),
    ("baud_rate", 3),
    ("pwm_slope", 255),
    ("shutdown", 52),
];

/// The home pose.
pub open spec fn home_pose() -> Seq<Double> {
    Seq::new(15, |i: int| Double { bits: DEFAULT_POSITION_BITS@[i] })
}

/// The home pose.
pub fn default_position() -> (pose: [Double; NUM_JOINTS])
    ensures
        pose@ == home_pose(),
{
    let mut pose = [Double { bits: 0 };NUM_JOINTS];
    let mut i: usize = 0;
    while i < NUM_JOINTS
        invariant
            i <= NUM_JOINTS,
            forall|j: int| 0 <= j < i ==> pose@[j].bits == DEFAULT_POSITION_BITS@[j],
        decreases NUM_JOINTS - i,
    {
        pose[i] = Double { bits: DEFAULT_POSITION_BITS[i] };
        i = i + 1;
    }
    assert(pose@ =~= home_pose());
    pose
}

/// Index of a joint by name.
pub fn joint_index(name: &str) -> (index: Option<usize>)
    ensures
        match index {
            Some(i) => i < NUM_JOINTS && JOINT_NAMES@[i as int]@ == name@ && forall|j: int|
                0 <= j < NUM_JOINTS && (#[trigger] JOINT_NAMES@[j])@ == name@ ==> j == i,
            None => forall|j: int|
                0 <= j < NUM_JOINTS ==> (#[trigger] JOINT_NAMES@[j])@ != name@,
        },
{
    let mut i: usize = 0;
    while i < NUM_JOINTS
        invariant
            i <= NUM_JOINTS,
            forall|j: int| 0 <= j < i ==> (#[trigger] JOINT_NAMES@[j])@ != name@,
        decreases NUM_JOINTS - i,
    {
        if same_text(JOINT_NAMES[i], name) {
            proof {
                assert forall|j: int|
                    0 <= j < NUM_JOINTS && (#[trigger] JOINT_NAMES@[j])@ == name@ implies j == i by {
                    law_joint_names_are_unique(i as int, j);
                }
            }
            return Some(i);
        }
        i = i + 1;
    }
    None
}

spec fn mark(name: Seq<char>) -> (int, char, char) {
    (name.len() as int, name[0], name[name.len() - 3])
}

spec fn joint_marked(m: (int, char, char)) -> int {
    if m == (12int, 'l', 'y') {
        0
    } else if m == (13int, 'l', 'o') {
        1
    } else if m == (14int, 'l', 't') {
        2
    } else if m == (9int, 'l', 'n') {
        3
    } else if m == (10int, 'l', 'k') {
        4
    } else if m == (10int, 'n', 't') {
        5
    } else if m == (10int, 'h', 't') {
        6
    } else if m == (8int, 'h', 'y') {
        7
    } else if m == (9int, 'h', 'o') {
        8
    } else if m == (5int, 'm', 'u') {
        9
    } else if m == (13int, 'r', 'y') {
        10
    } else if m == (14int, 'r', 'o') {
        11
    } else if m == (15int, 'r', 't') {
        12
    } else if m == (10int, 'r', 'n') {
        13
    } else if m == (11int, 'r', 'k') {
        14
    } else {
        -1
    }
}

proof fn lemma_joint_mark(i: int)
    requires
        0 <= i < NUM_JOINTS,
    ensures
        joint_marked(mark(JOINT_NAMES@[i]@)) == i,
{
    if i == 0 {
        reveal_strlit("left_hip_yaw");
        assert(JOINT_NAMES@[0]@ == "left_hip_yaw"@);
    } else if i == 1 {
        reveal_strlit("left_hip_roll");
        assert(JOINT_NAMES@[1]@ == "left_hip_roll"@);
    } else if i == 2 {
        reveal_strlit("left_hip_pitch");
        assert(JOINT_NAMES@[2]@ == "left_hip_pitch"@);
    } else if i == 3 {
        reveal_strlit("left_knee");
        assert(JOINT_NAMES@[3]@ == "left_knee"@);
    } else if i == 4 {
        reveal_strlit("left_ankle");
        assert(JOINT_NAMES@[4]@ == "left_ankle"@);
    } else if i == 5 {
        reveal_strlit("neck_pitch");
        assert(JOINT_NAMES@[5]@ == "neck_pitch"@);
    } else if i == 6 {
        reveal_strlit("head_pitch");
        assert(JOINT_NAMES@[6]@ == "head_pitch"@);
    } else if i == 7 {
        reveal_strlit("head_yaw");
        assert(JOINT_NAMES@[7]@ == "head_yaw"@);
    } else if i == 8 {
        reveal_strlit("head_roll");
        assert(JOINT_NAMES@[8]@ == "head_roll"@);
    } else if i == 9 {
        reveal_strlit("mouth");
        assert(JOINT_NAMES@[9]@ == "mouth"@);
    } else if i == 10 {
        reveal_strlit("right_hip_yaw");
        assert(JOINT_NAMES@[10]@ == "right_hip_yaw"@);
    } else if i == 11 {
        reveal_strlit("right_hip_roll");
        assert(JOINT_NAMES@[11]@ == "right_hip_roll"@);
    } else if i == 12 {
        reveal_strlit("right_hip_pitch");
        assert(JOINT_NAMES@[12]@ == "right_hip_pitch"@);
    } else if i == 13 {
        reveal_strlit("right_knee");
        assert(JOINT_NAMES@[13]@ == "right_knee"@);
    } else if i == 14 {
        reveal_strlit("right_ankle");
        assert(JOINT_NAMES@[14]@ == "right_ankle"@);
    }
}

/// No two joints share a name.
pub proof fn law_joint_names_are_unique(i: int, j: int)
    requires
        0 <= i < NUM_JOINTS,
        0 <= j < NUM_JOINTS,
        JOINT_NAMES@[i]@ == JOINT_NAMES@[j]@,
    ensures
        i == j,
{
    lemma_joint_mark(i);
    lemma_joint_mark(j);
}

/// No two joints share a bus ID, and none has that of the orientation board.
pub proof fn law_bus_ids_are_unique(i: int, j: int)
    requires
        0 <= i < NUM_JOINTS,
        0 <= j < NUM_JOINTS,
    ensures
        JOINT_IDS@[i] == JOINT_IDS@[j] ==> i == j,
        JOINT_IDS@[i] != IMU_DXL_ID,
{
}

/// The index that the action vector skips is that of the mouth.
pub proof fn law_mouth_index_names_the_mouth()
    ensures
        JOINT_NAMES@[MOUTH_INDEX as int]@ == "mouth"@,
{
}

/// The legs' home angles are mirrored: equal and opposite, the hip yaws both zero.
pub proof fn law_home_pose_is_mirrored(k: int)
    requires
        0 <= k < 5,
    ensures
        home_pose()[k].place() == -home_pose()[k + 10].place(),
{
}

} // verus!
