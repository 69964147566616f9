//! Writing `.mdlg` session logs.
//!
//! Little-endian throughout:
//!
//! ```text
//! header (16 B):
//!   magic         : 4 bytes  "MDLG"
//!   version       : u32      2
//!   epoch_unix_ms : u64      capture start (ms since Unix epoch)
//!
//! record (until the end):
//!   ts_us         : u64      microseconds since recorder start
//!   stream_id     : u8       0 = ToF, 2 = odom
//!   size          : u32      payload size
//!   payload       : u8[size]
//! ```
//!
//! Odom payload (45 B): odometry x, y and yaw, projected gravity, trunk height and
//! four head joints, each an f32, then a byte of flags: bit 0 moving, bit 1 sitting,
//! bit 2 fallen. The file and the clock are the caller's.

use vstd::prelude::*;
use crate::ieee::{Double, Single};

verus! {

pub const MAGIC: [u8; 4] = [77, 68, 76, 71];

pub const VERSION: u32 = 2;

pub const STREAM_TOF: u8 = 0;

pub const STREAM_ODOM: u8 = 2;

pub const FLAG_MOVING: u8 = 1;

pub const FLAG_SITTING: u8 = 2;

pub const FLAG_FALLEN: u8 = 4;

/// The `n` low bytes of a number, lowest first.
pub open spec fn le_bytes(x: nat, n: nat) -> Seq<u8>
    decreases n,
{
    if n == 0 {
        Seq::empty()
    } else {
        seq![(x % 256) as u8] + le_bytes(x / 256, (n - 1) as nat)
    }
}

/// The number that some bytes make up, lowest first.
pub open spec fn from_le(s: Seq<u8>) -> nat
    decreases s.len(),
{
    if s.len() == 0 {
        0
    } else {
        s[0] as nat + 256 * from_le(s.skip(1))
    }
}

/// 256 to the n-th.
pub open spec fn pow256(n: nat) -> nat
    decreases n,
{
    if n == 0 {
        1
    } else {
        256 * pow256((n - 1) as nat)
    }
}

pub proof fn lemma_le_len(x: nat, n: nat)
    ensures
        le_bytes(x, n).len() == n,
    decreases n,
{
    if n > 0 {
        lemma_le_len(x / 256, (n - 1) as nat);
    }
}

/// A number that fits reads back from its bytes.
pub proof fn lemma_le_round_trip(x: nat, n: nat)
    requires
        x < pow256(n),
    ensures
        from_le(le_bytes(x, n)) == x,
        le_bytes(x, n).len() == n,
    decreases n,
{
    if n > 0 {
        assert(x / 256 < pow256((n - 1) as nat));
        lemma_le_round_trip(x / 256, (n - 1) as nat);
        assert(le_bytes(x, n).skip(1) =~= le_bytes(x / 256, (n - 1) as nat));
    }
}

pub proof fn lemma_from_le_bound(s: Seq<u8>)
    ensures
        from_le(s) < pow256(s.len()),
    decreases s.len(),
{
    if s.len() > 0 {
        lemma_from_le_bound(s.skip(1));
    }
}

pub proof fn lemma_pow256()
    ensures
        pow256(4) == 0x1_0000_0000,
        pow256(8) == 0x1_0000_0000_0000_0000,
{
    reveal_with_fuel(pow256, 9);
}

/// Appends the four bytes of a number.
pub fn push_u32(out: &mut Vec<u8>, x: u32)
    ensures
        final(out)@ == old(out)@ + le_bytes(x as nat, 4),
{
    let ghost before = out@;
    let mut rest: u32 = x;
    let mut i: u32 = 0;
    assert(before + le_bytes(x as nat, 4) =~= out@ + le_bytes(rest as nat, (4 - i) as nat));
    while i < 4
        invariant
            i <= 4,
            before + le_bytes(x as nat, 4) == out@ + le_bytes(rest as nat, (4 - i) as nat),
        decreases 4 - i,
    {
        let ghost tail = le_bytes(rest as nat, (4 - i) as nat);
        let ghost sofar = out@;
        out.push((rest % 256) as u8);
        proof {
            assert(tail =~= seq![(rest as nat % 256) as u8] + le_bytes(
                rest as nat / 256,
                (3 - i) as nat,
            ));
            assert(sofar + tail =~= out@ + le_bytes(rest as nat / 256, (3 - i) as nat));
        }
        rest = rest / 256;
        i = i + 1;
    }
    assert(out@ + le_bytes(rest as nat, 0) =~= out@);
}

/// Appends the eight bytes of a number.
pub fn push_u64(out: &mut Vec<u8>, x: u64)
    ensures
        final(out)@ == old(out)@ + le_bytes(x as nat, 8),
{
    let ghost before = out@;
    let mut rest: u64 = x;
    let mut i: u32 = 0;
    assert(before + le_bytes(x as nat, 8) =~= out@ + le_bytes(rest as nat, (8 - i) as nat));
    while i < 8
        invariant
            i <= 8,
            before + le_bytes(x as nat, 8) == out@ + le_bytes(rest as nat, (8 - i) as nat),
        decreases 8 - i,
    {
        let ghost tail = le_bytes(rest as nat, (8 - i) as nat);
        let ghost sofar = out@;
        out.push((rest % 256) as u8);
        proof {
            assert(tail =~= seq![(rest as nat % 256) as u8] + le_bytes(
                rest as nat / 256,
                (7 - i) as nat,
            ));
            assert(sofar + tail =~= out@ + le_bytes(rest as nat / 256, (7 - i) as nat));
        }
        rest = rest / 256;
        i = i + 1;
    }
    assert(out@ + le_bytes(rest as nat, 0) =~= out@);
}

fn push_all(out: &mut Vec<u8>, bytes: &[u8])
    ensures
        final(out)@ == old(out)@ + bytes@,
{
    let ghost before = out@;
    let mut i: usize = 0;
    while i < bytes.len()
        invariant
            i <= bytes.len(),
            out@ == before + bytes@.take(i as int),
        decreases bytes.len() - i,
    {
        out.push(bytes[i]);
        i = i + 1;
        assert(bytes@.take(i as int) =~= bytes@.take(i - 1).push(bytes@[i - 1]));
    }
    assert(bytes@.take(bytes.len() as int) =~= bytes@);
}

/// The bytes of a sequence of singles.
pub open spec fn singles_bytes(values: Seq<Single>) -> Seq<u8>
    decreases values.len(),
{
    if values.len() == 0 {
        Seq::empty()
    } else {
        singles_bytes(values.drop_last()) + le_bytes(values.last().bits as nat, 4)
    }
}

fn push_singles(out: &mut Vec<u8>, values: &[Single])
    ensures
        final(out)@ == old(out)@ + singles_bytes(values@),
{
    let ghost before = out@;
    let mut i: usize = 0;
    while i < values.len()
        invariant
            i <= values.len(),
            out@ == before + singles_bytes(values@.take(i as int)),
        decreases values.len() - i,
    {
        push_u32(out, values[i].bits);
        i = i + 1;
        proof {
            let t = values@.take(i as int);
            assert(t.drop_last() =~= values@.take(i - 1));
            assert(out@ =~= before + singles_bytes(t));
        }
    }
    assert(values@.take(values.len() as int) =~= values@);
}

/// The file header.
pub open spec fn header_bytes(epoch_unix_ms: u64) -> Seq<u8> {
    MAGIC@ + le_bytes(VERSION as nat, 4) + le_bytes(epoch_unix_ms as nat, 8)
}

/// A record with its framing.
pub open spec fn framed(ts_us: u64, stream_id: u8, payload: Seq<u8>) -> Seq<u8> {
    le_bytes(ts_us as nat, 8) + seq![stream_id] + le_bytes(payload.len(), 4) + payload
}

/// A depth frame's payload.
pub open spec fn tof_payload(
    sender_ts_s: Double,
    rows: u8,
    cols: u8,
    ranges_m: Seq<Single>,
    status: Seq<u8>,
) -> Seq<u8> {
    le_bytes(sender_ts_s.bits as nat, 8) + seq![rows, cols, 0u8, 0u8] + singles_bytes(ranges_m)
        + status
}

pub proof fn lemma_singles_len(values: Seq<Single>)
    ensures
        singles_bytes(values).len() == 4 * values.len(),
    decreases values.len(),
{
    if values.len() > 0 {
        lemma_singles_len(values.drop_last());
        lemma_le_len(values.last().bits as nat, 4);
    }
}

/// What a control-loop tick's worth of robot state says, the time aside.
#[derive(Debug, Clone, Copy, PartialEq, Eq)]
pub struct OdomState {
    pub odom_x: Single,
    pub odom_y: Single,
    pub odom_yaw: Single,
    /// Projected gravity, body frame.
    pub gravity: [Single; 3],
    /// Trunk height above the floor, metres.
    pub trunk_z: Single,
    /// neck_pitch, head_pitch, head_yaw, head_roll.
    pub head: [Single; 4],
    /// The control loop's verdict.
    pub moving: bool,
    pub sitting: bool,
    pub fallen: bool,
}

impl OdomState {
    /// The numbers in the order of the layout.
    pub open spec fn numbers(self) -> Seq<Single> {
        seq![
            self.odom_x,
            self.odom_y,
            self.odom_yaw,
            self.gravity@[0],
            self.gravity@[1],
            self.gravity@[2],
            self.trunk_z,
            self.head@[0],
            self.head@[1],
            self.head@[2],
            self.head@[3],
        ]
    }

    /// The byte of flags.
    pub open spec fn flags(self) -> u8 {
        let moving: int = if self.moving {
            1
        } else {
            0
        };
        let sitting: int = if self.sitting {
            2
        } else {
            0
        };
        let fallen: int = if self.fallen {
            4
        } else {
            0
        };
        (moving + sitting + fallen) as u8
    }
}

/// An odom record's payload.
pub open spec fn odom_payload(state: OdomState) -> Seq<u8> {
    singles_bytes(state.numbers()).push(state.flags())
}

/// The zones of a depth frame are not as many as its rows times its columns.
#[derive(Debug, Clone, Copy, PartialEq, Eq, Structural)]
pub struct ZoneMismatch;

/// Appends records to one log. What was recorded waits here until it is flushed.
pub struct SessionRecorder {
    pending: Vec<u8>,
}

impl View for SessionRecorder {
    type V = Seq<u8>;

    /// The bytes recorded since the last flush.
    closed spec fn view(&self) -> Seq<u8> {
        self.pending@
    }
}

impl SessionRecorder {
    /// Starts a log with its header; `epoch_unix_ms` is when the capture starts.
    pub fn create(epoch_unix_ms: u64) -> (recorder: Self)
        ensures
            recorder@ == header_bytes(epoch_unix_ms),
    {
        let mut out: Vec<u8> = Vec::new();
        push_all(&mut out, &MAGIC);
        assert(out@ =~= MAGIC@);
        push_u32(&mut out, VERSION);
        push_u64(&mut out, epoch_unix_ms);
        SessionRecorder { pending: out }
    }

    fn frame(&mut self, ts_us: u64, stream_id: u8, payload: &[u8])
        requires
            payload.len() <= u32::MAX,
        ensures
            final(self)@ == old(self)@ + framed(ts_us, stream_id, payload@),
    {
        let ghost before = self.pending@;
        push_u64(&mut self.pending, ts_us);
        self.pending.push(stream_id);
        push_u32(&mut self.pending, payload.len() as u32);
        push_all(&mut self.pending, payload);
        assert(self.pending@ =~= before + framed(ts_us, stream_id, payload@));
    }

    /// One depth frame, raw: every zone's range in metres alongside its status byte.
    /// Filtering is the reader's decision. Nothing is recorded of a frame whose zones
    /// are not rows times columns.
    pub fn tof(
        &mut self,
        ts_us: u64,
        sender_ts_s: Double,
        rows: u8,
        cols: u8,
        ranges_m: &[Single],
        status: &[u8],
    ) -> (done: Result<(), ZoneMismatch>)
        ensures
            done is Ok <==> ranges_m@.len() == rows * cols && status@.len() == rows * cols,
            final(self)@ == if done is Ok {
                old(self)@ + framed(
                    ts_us,
                    STREAM_TOF,
                    tof_payload(sender_ts_s, rows, cols, ranges_m@, status@),
                )
            } else {
                old(self)@
            },
    {
        assert(rows * cols <= 255 * 255) by (nonlinear_arith)
            requires
                rows <= 255,
                cols <= 255,
        ;
        let n: usize = rows as usize * cols as usize;
        if ranges_m.len() != n || status.len() != n {
            return Err(ZoneMismatch);
        }
        let mut payload: Vec<u8> = Vec::new();
        push_u64(&mut payload, sender_ts_s.bits);
        payload.push(rows);
        payload.push(cols);
        payload.push(0);
        payload.push(0);
        push_singles(&mut payload, ranges_m);
        push_all(&mut payload, status);
        proof {
            assert(payload@ =~= tof_payload(sender_ts_s, rows, cols, ranges_m@, status@));
            lemma_singles_len(ranges_m@);
            lemma_le_len(sender_ts_s.bits as nat, 8);
        }
        self.frame(ts_us, STREAM_TOF, &payload);
        Ok(())
    }

    /// One control-loop tick's worth of robot state.
    pub fn odom(&mut self, ts_us: u64, state: &OdomState)
        ensures
            final(self)@ == old(self)@ + framed(ts_us, STREAM_ODOM, odom_payload(*state)),
    {
        let mut numbers: Vec<Single> = Vec::new();
        numbers.push(state.odom_x);
        numbers.push(state.odom_y);
        numbers.push(state.odom_yaw);
        numbers.push(state.gravity[0]);
        numbers.push(state.gravity[1]);
        numbers.push(state.gravity[2]);
        numbers.push(state.trunk_z);
        numbers.push(state.head[0]);
        numbers.push(state.head[1]);
        numbers.push(state.head[2]);
        numbers.push(state.head[3]);
        assert(numbers@ =~= state.numbers());
        let mut payload: Vec<u8> = Vec::new();
        push_singles(&mut payload, &numbers);
        let mut flags: u8 = 0;
        if state.moving {
            flags = flags + FLAG_MOVING;
        }
        if state.sitting {
            flags = flags + FLAG_SITTING;
        }
        if state.fallen {
            flags = flags + FLAG_FALLEN;
        }
        payload.push(flags);
        proof {
            assert(payload@ =~= odom_payload(*state));
            lemma_singles_len(state.numbers());
        }
        self.frame(ts_us, STREAM_ODOM, &payload);
    }

    /// Hands over what is to be written to the file.
    pub fn flush(&mut self) -> (bytes: Vec<u8>)
        ensures
            bytes@ == old(self)@,
            final(self)@ == Seq::<u8>::empty(),
    {
        let mut bytes: Vec<u8> = Vec::new();
        bytes.append(&mut self.pending);
        assert(bytes@ =~= old(self)@);
        bytes
    }
}

/// Numbers are written lowest byte first.
pub proof fn law_numbers_are_little_endian(x: u64)
    ensures
        le_bytes(x as nat, 8).len() == 8,
        le_bytes(x as nat, 4).len() == 4,
        le_bytes(x as nat, 4)[0] == x % 256,
        le_bytes(x as nat, 4)[1] == (x / 0x100) % 256,
        le_bytes(x as nat, 4)[2] == (x / 0x1_0000) % 256,
        le_bytes(x as nat, 4)[3] == (x / 0x100_0000) % 256,
        le_bytes(x as nat, 8)[0] == x % 256,
        le_bytes(x as nat, 8)[1] == (x / 0x100) % 256,
        le_bytes(x as nat, 8)[2] == (x / 0x1_0000) % 256,
        le_bytes(x as nat, 8)[3] == (x / 0x100_0000) % 256,
        le_bytes(x as nat, 8)[4] == (x / 0x1_0000_0000) % 256,
        le_bytes(x as nat, 8)[5] == (x / 0x100_0000_0000) % 256,
        le_bytes(x as nat, 8)[6] == (x / 0x1_0000_0000_0000) % 256,
        le_bytes(x as nat, 8)[7] == (x / 0x100_0000_0000_0000) % 256,
{
    let x0 = x as nat;
    let x1 = x0 / 256;
    let x2 = x1 / 256;
    let x3 = x2 / 256;
    let x4 = x3 / 256;
    let x5 = x4 / 256;
    let x6 = x5 / 256;
    let x7 = x6 / 256;
    lemma_first_byte(x0, 4);
    lemma_first_byte(x1, 3);
    lemma_first_byte(x2, 2);
    lemma_first_byte(x3, 1);
    lemma_first_byte(x0, 8);
    lemma_first_byte(x1, 7);
    lemma_first_byte(x2, 6);
    lemma_first_byte(x3, 5);
    lemma_first_byte(x4, 4);
    lemma_first_byte(x5, 3);
    lemma_first_byte(x6, 2);
    lemma_first_byte(x7, 1);
    assert(x2 == x0 / 0x1_0000);
    assert(x3 == x0 / 0x100_0000);
    assert(x4 == x0 / 0x1_0000_0000);
    assert(x5 == x0 / 0x100_0000_0000);
    assert(x6 == x0 / 0x1_0000_0000_0000);
    assert(x7 == x0 / 0x100_0000_0000_0000);
    let (four, eight) = (le_bytes(x0, 4), le_bytes(x0, 8));
    assert(four[1] == le_bytes(x1, 3)[0]);
    assert(four[2] == le_bytes(x1, 3)[1] == le_bytes(x2, 2)[0]);
    assert(four[3] == le_bytes(x1, 3)[2] == le_bytes(x2, 2)[1] == le_bytes(x3, 1)[0]);
    assert(eight[1] == le_bytes(x1, 7)[0]);
    assert(eight[2] == le_bytes(x1, 7)[1] == le_bytes(x2, 6)[0]);
    assert(eight[3] == le_bytes(x1, 7)[2] == le_bytes(x2, 6)[1] == le_bytes(x3, 5)[0]);
    assert(eight[4] == le_bytes(x1, 7)[3] == le_bytes(x2, 6)[2] == le_bytes(x3, 5)[1] == le_bytes(
        x4,
        4,
    )[0]);
    assert(eight[5] == le_bytes(x1, 7)[4] == le_bytes(x2, 6)[3] == le_bytes(x3, 5)[2] == le_bytes(
        x4,
        4,
    )[1] == le_bytes(x5, 3)[0]);
    assert(eight[6] == le_bytes(x1, 7)[5] == le_bytes(x2, 6)[4] == le_bytes(x3, 5)[3] == le_bytes(
        x4,
        4,
    )[2] == le_bytes(x5, 3)[1] == le_bytes(x6, 2)[0]);
    assert(eight[7] == le_bytes(x1, 7)[6] == le_bytes(x2, 6)[5] == le_bytes(x3, 5)[4] == le_bytes(
        x4,
        4,
    )[3] == le_bytes(x5, 3)[2] == le_bytes(x6, 2)[1] == le_bytes(x7, 1)[0]);
}

// The first byte is the lowest, and the others are those of the rest.
proof fn lemma_first_byte(x: nat, n: nat)
    requires
        n > 0,
    ensures
        le_bytes(x, n).len() == n,
        le_bytes(x, n)[0] == x % 256,
        forall|i: int|
            1 <= i < n ==> #[trigger] le_bytes(x, n)[i] == le_bytes(x / 256, (n - 1) as nat)[i - 1],
{
    lemma_le_len(x, n);
    lemma_le_len(x / 256, (n - 1) as nat);
}

/// The bytes of a log's header: the magic, version two, and the time of capture.
pub proof fn law_a_header_has_magic_version_and_time(epoch_unix_ms: u64)
    ensures
        header_bytes(epoch_unix_ms).len() == 16,
        header_bytes(epoch_unix_ms)[0] == 77,
        header_bytes(epoch_unix_ms)[1] == 68,
        header_bytes(epoch_unix_ms)[2] == 76,
        header_bytes(epoch_unix_ms)[3] == 71,
        header_bytes(epoch_unix_ms)[4] == 2,
        header_bytes(epoch_unix_ms)[5] == 0,
        header_bytes(epoch_unix_ms)[6] == 0,
        header_bytes(epoch_unix_ms)[7] == 0,
        header_bytes(epoch_unix_ms).subrange(8, 16) == le_bytes(epoch_unix_ms as nat, 8),
{
    law_numbers_are_little_endian(2);
    lemma_le_len(epoch_unix_ms as nat, 8);
    assert(header_bytes(epoch_unix_ms).subrange(8, 16) =~= le_bytes(epoch_unix_ms as nat, 8));
}

/// A record is its time in eight bytes, its stream in one, its size in four, and then the
/// payload.
pub proof fn law_a_record_is_framed_by_time_stream_and_size(
    ts_us: u64,
    stream_id: u8,
    payload: Seq<u8>,
)
    ensures
        framed(ts_us, stream_id, payload).len() == 13 + payload.len(),
        framed(ts_us, stream_id, payload).subrange(0, 8) == le_bytes(ts_us as nat, 8),
        framed(ts_us, stream_id, payload)[8] == stream_id,
        framed(ts_us, stream_id, payload).subrange(9, 13) == le_bytes(payload.len(), 4),
        framed(ts_us, stream_id, payload).subrange(13, 13 + payload.len() as int) == payload,
{
    lemma_le_len(ts_us as nat, 8);
    lemma_le_len(payload.len(), 4);
    let f = framed(ts_us, stream_id, payload);
    assert(f.subrange(0, 8) =~= le_bytes(ts_us as nat, 8));
    assert(f.subrange(9, 13) =~= le_bytes(payload.len(), 4));
    assert(f.subrange(13, 13 + payload.len() as int) =~= payload);
}

/// A run of singles takes four bytes each, in order.
pub proof fn law_singles_are_written_in_order(values: Seq<Single>, x: Single)
    ensures
        singles_bytes(Seq::<Single>::empty()).len() == 0,
        singles_bytes(values.push(x)) == singles_bytes(values) + le_bytes(x.bits as nat, 4),
        singles_bytes(values).len() == 4 * values.len(),
{
    assert(values.push(x).drop_last() =~= values);
    lemma_singles_len(values);
}

/// A robot state takes forty-five bytes: place and heading, gravity, height, head, and a
/// byte that says in its lowest three bits whether the robot moves, sits or has fallen.
pub proof fn law_a_robot_state_is_laid_out_in_order(state: OdomState)
    ensures
        odom_payload(state).len() == 45,
        state.numbers().len() == 11,
        state.numbers()[0] == state.odom_x,
        state.numbers()[1] == state.odom_y,
        state.numbers()[2] == state.odom_yaw,
        state.numbers()[3] == state.gravity@[0],
        state.numbers()[4] == state.gravity@[1],
        state.numbers()[5] == state.gravity@[2],
        state.numbers()[6] == state.trunk_z,
        state.numbers()[7] == state.head@[0],
        state.numbers()[8] == state.head@[1],
        state.numbers()[9] == state.head@[2],
        state.numbers()[10] == state.head@[3],
        odom_payload(state).subrange(0, 44) == singles_bytes(state.numbers()),
        odom_payload(state)[44] % 2 == 1 <==> state.moving,
        (odom_payload(state)[44] / 2) % 2 == 1 <==> state.sitting,
        odom_payload(state)[44] / 4 == 1 <==> state.fallen,
        odom_payload(state)[44] < 8,
{
    lemma_singles_len(state.numbers());
    assert(odom_payload(state).subrange(0, 44) =~= singles_bytes(state.numbers()));
}

/// A depth frame is the sender's time, its rows and columns, two empty bytes, the ranges,
/// and the status bytes; the two streams have numbers of their own.
pub proof fn law_a_depth_frame_is_laid_out_in_order(
    sender_ts_s: Double,
    rows: u8,
    cols: u8,
    ranges_m: Seq<Single>,
    status: Seq<u8>,
)
    ensures
        ({
            let p = tof_payload(sender_ts_s, rows, cols, ranges_m, status);
            &&& p.len() == 12 + 4 * ranges_m.len() + status.len()
            &&& p.subrange(0, 8) == le_bytes(sender_ts_s.bits as nat, 8)
            &&& p[8] == rows
            &&& p[9] == cols
            &&& p[10] == 0
            &&& p[11] == 0
            &&& p.subrange(12, 12 + 4 * ranges_m.len() as int) == singles_bytes(ranges_m)
            &&& p.subrange(12 + 4 * ranges_m.len() as int, p.len() as int) == status
        }),
        STREAM_TOF == 0,
        STREAM_ODOM == 2,
{
    lemma_singles_len(ranges_m);
    lemma_le_len(sender_ts_s.bits as nat, 8);
    let p = tof_payload(sender_ts_s, rows, cols, ranges_m, status);
    assert(p.subrange(0, 8) =~= le_bytes(sender_ts_s.bits as nat, 8));
    assert(p.subrange(12, 12 + 4 * ranges_m.len() as int) =~= singles_bytes(ranges_m));
    assert(p.subrange(12 + 4 * ranges_m.len() as int, p.len() as int) =~= status);
}

} // verus!
