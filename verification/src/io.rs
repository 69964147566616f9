//! The seam between the control loop and the physical world.
//!
//! Everything between [`RobotIo::read`] and [`RobotIo::write`] is pure computation
//! over plain data. [`Sensors`] carries joints and orientation together because
//! that is what the hardware does.

use vstd::prelude::*;
use crate::ieee::Double;
use crate::model::NUM_JOINTS;
use crate::text::push_decimal;
use crate::text::decimal;

verus! {

/// What the orientation board says.
#[derive(Debug, Clone, Copy, PartialEq, Eq)]
pub struct ImuData {
    /// Projected gravity in the trunk frame. Upright is about `[0, 0, -1]`.
    pub gravity: [Double; 3],
}

impl Default for ImuData {
    fn default() -> (imu: Self)
        ensures
            imu.gravity@ == seq![
                (Double { bits: 0 }),
                (Double { bits: 0 }),
                (Double { bits: 0xBFF0_0000_0000_0000 }),
            ],
    {
        let imu = ImuData {
            gravity: [
                Double { bits: 0 },
                Double { bits: 0 },
                Double { bits: 0xBFF0_0000_0000_0000 },
            ],
        };
        assert(imu.gravity@ =~= seq![
            (Double { bits: 0 }),
            (Double { bits: 0 }),
            (Double { bits: 0xBFF0_0000_0000_0000 }),
        ]);
        imu
    }
}

/// One atomic sample of the robot.
#[derive(Debug, Clone, Copy, PartialEq, Eq)]
pub struct Sensors {
    /// Joint angles in radians, indexed as the joint names.
    pub positions: [Double; NUM_JOINTS],
    /// Joint velocities, radians per second.
    pub velocities: [Double; NUM_JOINTS],
    /// Present current magnitude, milliamperes.
    pub currents_ma: [Double; NUM_JOINTS],
    pub imu: ImuData,
}

impl Default for Sensors {
    fn default() -> (sensors: Self)
        ensures
            forall|i: int| 0 <= i < NUM_JOINTS ==> (#[trigger] sensors.positions@[i]).bits == 0,
            forall|i: int| 0 <= i < NUM_JOINTS ==> (#[trigger] sensors.velocities@[i]).bits == 0,
            forall|i: int| 0 <= i < NUM_JOINTS ==> (#[trigger] sensors.currents_ma@[i]).bits == 0,
            sensors.imu.gravity@ == seq![
                (Double { bits: 0 }),
                (Double { bits: 0 }),
                (Double { bits: 0xBFF0_0000_0000_0000 }),
            ],
    {
        Sensors {
            positions: [Double { bits: 0 };NUM_JOINTS],
            velocities: [Double { bits: 0 };NUM_JOINTS],
            currents_ma: [Double { bits: 0 };NUM_JOINTS],
            imu: ImuData::default(),
        }
    }
}

/// What the loop commands. Position control only.
#[derive(Debug, Clone, Copy, PartialEq, Eq)]
pub struct JointTargets {
    pub positions: [Double; NUM_JOINTS],
}

impl JointTargets {
    pub fn new(positions: [Double; NUM_JOINTS]) -> (targets: Self)
        ensures
            targets.positions == positions,
    {
        JointTargets { positions }
    }
}

#[derive(Debug, Clone, PartialEq, Eq)]
pub enum IoError {
    /// The serial port could not be used; `source` is the system's complaint.
    Port { path: String, source: String },
    /// A bus transaction failed.
    Bus(String),
    /// A device did not answer, or not in full. Reported rather than papered over: a
    /// silently short read would leave stale values in half the joint array.
    ShortRead { what: &'static str, expected: usize, got: usize },
    /// A failure made up for a test.
    Simulated,
}

impl IoError {
    /// The line that the error is reported with.
    pub open spec fn line(self) -> Seq<char> {
        match self {
            IoError::Port { path, source } => "serial port "@ + path@ + ": "@ + source@,
            IoError::Bus(what) => "bus transaction failed: "@ + what@,
            IoError::ShortRead { what, expected, got } => what@ + ": expected "@ + decimal(
                expected as nat,
            ) + ", got "@ + decimal(got as nat),
            IoError::Simulated => "simulated failure"@,
        }
    }

    pub fn describe(&self) -> (line: String)
        ensures
            line@ == self.line(),
    {
        match self {
            IoError::Port { path, source } => {
                let mut line = "serial port ".to_owned();
                line.append(path.as_str());
                line.append(": ");
                line.append(source.as_str());
                line
            },
            IoError::Bus(what) => {
                let mut line = "bus transaction failed: ".to_owned();
                line.append(what.as_str());
                line
            },
            IoError::ShortRead { what, expected, got } => {
                let mut line = (*what).to_owned();
                line.append(": expected ");
                push_decimal(&mut line, *expected as u64);
                line.append(", got ");
                push_decimal(&mut line, *got as u64);
                line
            },
            IoError::Simulated => "simulated failure".to_owned(),
        }
    }
}

/// Something that the robot was told to do.
pub enum Order {
    Positions(JointTargets),
    Gain(u16),
    Torque(bool),
}

/// The robot, as the control loop reaches it.
///
/// `orders` is what the robot has been told so far, whether or not the bus carried
/// it, and `answers` what came of each, in the same order. Only the three commanding
/// methods add to them. `samples` is what the reads so far have given.
pub trait RobotIo {
    spec fn orders(&self) -> Seq<Order>;

    spec fn answers(&self) -> Seq<Result<(), IoError>>;

    spec fn samples(&self) -> Seq<Result<Sensors, IoError>>;

    /// One transaction: joints and orientation together.
    fn read(&mut self) -> (sample: Result<Sensors, IoError>)
        ensures
            final(self).orders() == old(self).orders(),
            final(self).answers() == old(self).answers(),
            final(self).samples() == old(self).samples().push(sample),
    ;

    fn write(&mut self, targets: &JointTargets) -> (done: Result<(), IoError>)
        ensures
            final(self).orders() == old(self).orders().push(Order::Positions(*targets)),
            final(self).answers() == old(self).answers().push(done),
            final(self).samples() == old(self).samples(),
    ;

    /// Sets the position gain of all joints.
    fn set_gain(&mut self, kp: u16) -> (done: Result<(), IoError>)
        ensures
            final(self).orders() == old(self).orders().push(Order::Gain(kp)),
            final(self).answers() == old(self).answers().push(done),
            final(self).samples() == old(self).samples(),
    ;

    /// Powers the joints, or lets them go.
    fn set_torque(&mut self, on: bool) -> (done: Result<(), IoError>)
        ensures
            final(self).orders() == old(self).orders().push(Order::Torque(on)),
            final(self).answers() == old(self).answers().push(done),
            final(self).samples() == old(self).samples(),
    ;

    /// Has the orientation filter converged?
    fn imu_ready(&self) -> bool;
}

/// A robot made of nothing, for tests.
///
/// Positions echo back whatever was last written, so a loop driving it behaves like
/// a servo that tracks perfectly.
pub struct FakeIo {
    pub sensors: Sensors,
    /// Set to make the next read fail, then cleared.
    pub fail_next_read: bool,
    /// What [`RobotIo::imu_ready`] says.
    pub imu_ready: bool,
    pub last_written: Option<JointTargets>,
    pub last_gain: Option<u16>,
    pub reads: usize,
    pub writes: usize,
    pub track_targets: bool,
    pub orders: Ghost<Seq<Order>>,
    pub answers: Ghost<Seq<Result<(), IoError>>>,
    pub samples: Ghost<Seq<Result<Sensors, IoError>>>,
}

impl Default for FakeIo {
    fn default() -> (io: Self)
        ensures
            io.is_new(),
    {
        FakeIo::new()
    }
}

impl FakeIo {
    /// A robot that nothing was done to yet.
    pub open spec fn is_new(&self) -> bool {
        &&& self.track_targets
        &&& !self.fail_next_read
        &&& self.imu_ready
        &&& self.last_written is None
        &&& self.last_gain is None
        &&& self.reads == 0
        &&& self.writes == 0
        &&& self.orders() == Seq::<Order>::empty()
        &&& self.answers() == Seq::<Result<(), IoError>>::empty()
        &&& self.samples() == Seq::<Result<Sensors, IoError>>::empty()
        &&& forall|i: int| 0 <= i < NUM_JOINTS ==> (#[trigger] self.sensors.velocities@[i]).bits == 0
        &&& forall|i: int|
            0 <= i < NUM_JOINTS ==> (#[trigger] self.sensors.currents_ma@[i]).bits == 0
        &&& self.sensors.imu.gravity@ == seq![
            (Double { bits: 0 }),
            (Double { bits: 0 }),
            (Double { bits: 0xBFF0_0000_0000_0000 }),
        ]
    }

    pub fn new() -> (io: Self)
        ensures
            io.is_new(),
            forall|i: int| 0 <= i < NUM_JOINTS ==> (#[trigger] io.sensors.positions@[i]).bits == 0,
    {
        FakeIo {
            sensors: Sensors::default(),
            fail_next_read: false,
            imu_ready: true,
            last_written: None,
            last_gain: None,
            reads: 0,
            writes: 0,
            track_targets: true,
            orders: Ghost(Seq::empty()),
            answers: Ghost(Seq::empty()),
            samples: Ghost(Seq::empty()),
        }
    }

    /// Starts from a known pose.
    pub fn at(positions: [Double; NUM_JOINTS]) -> (io: Self)
        ensures
            io.is_new(),
            io.sensors.positions == positions,
    {
        let mut io = FakeIo::new();
        io.sensors.positions = positions;
        io
    }

    /// Reported positions ignore what is written. Models a robot whose servos are
    /// limp, or one being pushed around by hand.
    pub fn frozen(self) -> (io: Self)
        ensures
            !io.track_targets,
            io.sensors == self.sensors,
            io.fail_next_read == self.fail_next_read,
            io.imu_ready == self.imu_ready,
            io.last_written == self.last_written,
            io.last_gain == self.last_gain,
            io.reads == self.reads,
            io.writes == self.writes,
            io.orders() == self.orders(),
            io.answers() == self.answers(),
            io.samples() == self.samples(),
    {
        FakeIo { track_targets: false, ..self }
    }

    pub fn set_imu(&mut self, imu: ImuData)
        ensures
            final(self).sensors == (Sensors { imu, ..old(self).sensors }),
            final(self).track_targets == old(self).track_targets,
            final(self).fail_next_read == old(self).fail_next_read,
            final(self).imu_ready == old(self).imu_ready,
            final(self).last_written == old(self).last_written,
            final(self).last_gain == old(self).last_gain,
            final(self).reads == old(self).reads,
            final(self).writes == old(self).writes,
            final(self).orders() == old(self).orders(),
            final(self).answers() == old(self).answers(),
            final(self).samples() == old(self).samples(),
    {
        self.sensors.imu = imu;
    }

    pub fn positions(&self) -> (positions: [Double; NUM_JOINTS])
        ensures
            positions == self.sensors.positions,
    {
        self.sensors.positions
    }

    /// What stays as it is when the robot is told something.
    pub open spec fn same_but_for_orders(&self, other: &FakeIo) -> bool {
        &&& self.track_targets == other.track_targets
        &&& self.fail_next_read == other.fail_next_read
        &&& self.imu_ready == other.imu_ready
        &&& self.reads == other.reads
    }
}

impl RobotIo for FakeIo {
    open spec fn orders(&self) -> Seq<Order> {
        self.orders@
    }

    open spec fn answers(&self) -> Seq<Result<(), IoError>> {
        self.answers@
    }

    open spec fn samples(&self) -> Seq<Result<Sensors, IoError>> {
        self.samples@
    }

    fn read(&mut self) -> (sample: Result<Sensors, IoError>)
        ensures
            sample == if old(self).fail_next_read {
                Err::<Sensors, IoError>(IoError::Simulated)
            } else {
                Ok(old(self).sensors)
            },
            !final(self).fail_next_read,
            final(self).sensors == old(self).sensors,
            final(self).track_targets == old(self).track_targets,
            final(self).imu_ready == old(self).imu_ready,
            final(self).last_written == old(self).last_written,
            final(self).last_gain == old(self).last_gain,
            final(self).writes == old(self).writes,
            final(self).reads == if old(self).fail_next_read {
                old(self).reads
            } else {
                old(self).reads.wrapping_add(1)
            },
    {
        if self.fail_next_read {
            self.fail_next_read = false;
            proof {
                self.samples@ = self.samples@.push(Err(IoError::Simulated));
            }
            return Err(IoError::Simulated);
        }
        self.reads = self.reads.wrapping_add(1);
        proof {
            self.samples@ = self.samples@.push(Ok(self.sensors));
        }
        Ok(self.sensors)
    }

    fn write(&mut self, targets: &JointTargets) -> (done: Result<(), IoError>)
        ensures
            done is Ok,
            final(self).same_but_for_orders(old(self)),
            final(self).last_written == Some(*targets),
            final(self).writes == old(self).writes.wrapping_add(1),
            final(self).last_gain == old(self).last_gain,
            final(self).sensors == if old(self).track_targets {
                Sensors { positions: targets.positions, ..old(self).sensors }
            } else {
                old(self).sensors
            },
    {
        self.writes = self.writes.wrapping_add(1);
        self.last_written = Some(*targets);
        if self.track_targets {
            self.sensors.positions = targets.positions;
        }
        proof {
            self.orders@ = self.orders@.push(Order::Positions(*targets));
            self.answers@ = self.answers@.push(Ok(()));
        }
        Ok(())
    }

    fn set_gain(&mut self, kp: u16) -> (done: Result<(), IoError>)
        ensures
            done is Ok,
            final(self).same_but_for_orders(old(self)),
            final(self).last_gain == Some(kp),
            final(self).last_written == old(self).last_written,
            final(self).sensors == old(self).sensors,
            final(self).writes == old(self).writes,
    {
        self.last_gain = Some(kp);
        proof {
            self.orders@ = self.orders@.push(Order::Gain(kp));
            self.answers@ = self.answers@.push(Ok(()));
        }
        Ok(())
    }

    fn set_torque(&mut self, on: bool) -> (done: Result<(), IoError>)
        ensures
            done is Ok,
            final(self).same_but_for_orders(old(self)),
            final(self).last_gain == old(self).last_gain,
            final(self).last_written == old(self).last_written,
            final(self).sensors == old(self).sensors,
            final(self).writes == old(self).writes,
    {
        proof {
            self.orders@ = self.orders@.push(Order::Torque(on));
            self.answers@ = self.answers@.push(Ok(()));
        }
        Ok(())
    }

    fn imu_ready(&self) -> (ready: bool)
        ensures
            ready == self.imu_ready,
    {
        self.imu_ready
    }
}

/// The line about an error carries the words that came with it.
pub proof fn law_error_lines_carry_the_cause(path: String, source: String)
    ensures
        IoError::Bus(source).line().len() == "bus transaction failed: "@.len() + source@.len(),
        IoError::Bus(source).line().skip("bus transaction failed: "@.len() as int) == source@,
        (IoError::Port { path, source }).line() == "serial port "@ + path@ + ": "@ + source@,
{
    let head = "bus transaction failed: "@;
    assert(IoError::Bus(source).line().skip(head.len() as int) =~= source@);
}

/// A short read is reported with what was expected and then what came.
pub proof fn law_short_reads_say_both_counts(what: &'static str, expected: usize, got: usize)
    ensures
        (IoError::ShortRead { what, expected, got }).line() == what@ + ": expected "@ + decimal(
            expected as nat,
        ) + ", got "@ + decimal(got as nat),
{
}

} // verus!
