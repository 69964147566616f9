//! Reading `.mdlg` session logs.
//!
//! Version 1 holds digital-twin packets, version 2 is what
//! [`crate::record::SessionRecorder`] writes. Both read. A twin packet is 172 bytes,
//! or 180 with the appended contact anchor.

use vstd::prelude::*;
use crate::ieee::{Double, Single};
use crate::record::{FLAG_FALLEN, FLAG_MOVING, FLAG_SITTING, MAGIC, STREAM_ODOM, STREAM_TOF};
use crate::record::OdomState;
use crate::record::{
    framed, from_le, header_bytes, le_bytes, lemma_from_le_bound, lemma_le_len, lemma_le_round_trip,
    lemma_pow256, lemma_singles_len, odom_payload, pow256, singles_bytes, tof_payload,
};
use crate::text::push_decimal;
use crate::text::decimal;

verus! {

pub const STREAM_TWIN: u8 = 1;

pub const TOF_ROWS: usize = 8;

pub const TOF_COLS: usize = 8;

/// Bytes of a depth frame of that many zones.
pub const TOF_SIZE: usize = 332;

/// Twin packet: 8 B timestamp and 41 numbers.
pub const TWIN_PACKET_SIZE_V1: usize = 172;

/// Twin packet with the contact anchor: two numbers more.
pub const TWIN_PACKET_SIZE_V2: usize = 180;

pub const ODOM_PAYLOAD_SIZE: usize = 45;

/// A depth frame.
#[derive(Debug, Clone, Copy, PartialEq, Eq)]
pub struct TofRecord {
    /// Recorder-side timestamp, microseconds since session start.
    pub ts_us: u64,
    /// Sender timestamp, seconds.
    pub sender_ts_s: Double,
    /// Per-zone slant ranges, metres. Not a number means the chip flagged it invalid.
    pub ranges_m: [[Single; TOF_COLS]; TOF_ROWS],
    /// Raw status per zone.
    pub status: [[u8; TOF_COLS]; TOF_ROWS],
}

/// A digital-twin packet.
#[derive(Debug, Clone, Copy, PartialEq, Eq)]
pub struct TwinRecord {
    pub ts_us: u64,
    pub sender_ts_s: Double,
    /// Orientation quaternion, body to world.
    pub quat_wxyz: [Single; 4],
    pub joints: [Single; 15],
    pub motor_currents_ma: [Single; 15],
    pub odom_x: Single,
    pub odom_y: Single,
    /// Ball position; any component may be not a number if it was not detected.
    pub ball_xyz: [Single; 3],
    pub odom_z: Single,
    pub odom_yaw: Single,
    /// `None` on recordings that predate the field.
    pub contact_anchor: Option<(Single, Single)>,
}

/// A control-loop tick's robot state.
#[derive(Debug, Clone, Copy, PartialEq, Eq)]
pub struct OdomRecord {
    pub ts_us: u64,
    pub state: OdomState,
}

#[derive(Debug, Clone, Copy, PartialEq, Eq)]
pub enum Record {
    Tof(TofRecord),
    Twin(TwinRecord),
    Odom(OdomRecord),
}

impl Record {
    pub open spec fn spec_ts_us(self) -> u64 {
        match self {
            Record::Tof(t) => t.ts_us,
            Record::Twin(t) => t.ts_us,
            Record::Odom(o) => o.ts_us,
        }
    }

    pub fn ts_us(&self) -> (ts: u64)
        ensures
            ts == self.spec_ts_us(),
    {
        match self {
            Record::Tof(t) => t.ts_us,
            Record::Twin(t) => t.ts_us,
            Record::Odom(o) => o.ts_us,
        }
    }
}

/// Why a log cannot be read.
#[derive(Debug, Clone, Copy, PartialEq, Eq)]
pub enum LogError {
    /// The bytes end in the middle of something.
    UnexpectedEof,
    /// The first four bytes are not the magic.
    NotALog { magic: (u8, u8, u8, u8) },
    UnsupportedVersion { version: u32 },
    UnknownStream { stream_id: u8 },
    TofHeader,
    TofShape { rows: u8, cols: u8 },
    TofLength { got: usize },
    TwinLength { got: usize },
    OdomLength { got: usize },
}

impl LogError {
    /// The line that the error is reported with.
    pub open spec fn line(self) -> Seq<char> {
        match self {
            LogError::UnexpectedEof => "failed to fill whole buffer"@,
            LogError::NotALog { magic } => "not an mdlg file (magic = ["@ + decimal(magic.0 as nat)
                + ", "@ + decimal(magic.1 as nat) + ", "@ + decimal(magic.2 as nat) + ", "@
                + decimal(magic.3 as nat) + "])"@,
            LogError::UnsupportedVersion { version } => "unsupported mdlg version "@ + decimal(
                version as nat,
            ) + " (this build reads [1, 2])"@,
            LogError::UnknownStream { stream_id } => "unknown stream_id "@ + decimal(
                stream_id as nat,
            ),
            LogError::TofHeader => "ToF payload too short for header"@,
            LogError::TofShape { rows, cols } => "expected 8x8 ToF, got "@ + decimal(rows as nat)
                + "x"@ + decimal(cols as nat),
            LogError::TofLength { got } => "ToF payload "@ + decimal(got as nat)
                + " < expected 332"@,
            LogError::TwinLength { got } => "twin payload "@ + decimal(got as nat)
                + " != expected 172 or 180"@,
            LogError::OdomLength { got } => "odom payload "@ + decimal(got as nat)
                + " != expected 45"@,
        }
    }

    pub fn describe(&self) -> (line: String)
        ensures
            line@ == self.line(),
    {
        match *self {
            LogError::UnexpectedEof => "failed to fill whole buffer".to_owned(),
            LogError::NotALog { magic } => {
                let mut line = "not an mdlg file (magic = [".to_owned();
                push_decimal(&mut line, magic.0 as u64);
                line.append(", ");
                push_decimal(&mut line, magic.1 as u64);
                line.append(", ");
                push_decimal(&mut line, magic.2 as u64);
                line.append(", ");
                push_decimal(&mut line, magic.3 as u64);
                line.append("])");
                line
            },
            LogError::UnsupportedVersion { version } => {
                let mut line = "unsupported mdlg version ".to_owned();
                push_decimal(&mut line, version as u64);
                line.append(" (this build reads [1, 2])");
                line
            },
            LogError::UnknownStream { stream_id } => {
                let mut line = "unknown stream_id ".to_owned();
                push_decimal(&mut line, stream_id as u64);
                line
            },
            LogError::TofHeader => "ToF payload too short for header".to_owned(),
            LogError::TofShape { rows, cols } => {
                let mut line = "expected 8x8 ToF, got ".to_owned();
                push_decimal(&mut line, rows as u64);
                line.append("x");
                push_decimal(&mut line, cols as u64);
                line
            },
            LogError::TofLength { got } => {
                let mut line = "ToF payload ".to_owned();
                push_decimal(&mut line, got as u64);
                line.append(" < expected 332");
                line
            },
            LogError::TwinLength { got } => {
                let mut line = "twin payload ".to_owned();
                push_decimal(&mut line, got as u64);
                line.append(" != expected 172 or 180");
                line
            },
            LogError::OdomLength { got } => {
                let mut line = "odom payload ".to_owned();
                push_decimal(&mut line, got as u64);
                line.append(" != expected 45");
                line
            },
        }
    }
}

// Numbers in bytes

/// The four-byte number at an offset.
pub open spec fn u32_at(b: Seq<u8>, at: int) -> nat {
    from_le(b.subrange(at, at + 4))
}

/// The eight-byte number at an offset.
pub open spec fn u64_at(b: Seq<u8>, at: int) -> nat {
    from_le(b.subrange(at, at + 8))
}

/// The single at an offset.
pub open spec fn single_at(b: Seq<u8>, at: int) -> Single {
    Single { bits: u32_at(b, at) as u32 }
}

proof fn lemma_at_bounds(b: Seq<u8>, at: int)
    ensures
        0 <= at && at + 4 <= b.len() ==> u32_at(b, at) <= u32::MAX,
        0 <= at && at + 8 <= b.len() ==> u64_at(b, at) <= u64::MAX,
{
    lemma_pow256();
    lemma_from_le_bound(b.subrange(at, at + 4));
    lemma_from_le_bound(b.subrange(at, at + 8));
}

/// One byte, or `None` past the end.
pub fn read_u8(bytes: &[u8], at: usize) -> (x: Option<u8>)
    ensures
        x == if at < bytes@.len() {
            Some(bytes@[at as int])
        } else {
            None
        },
{
    if at < bytes.len() {
        Some(bytes[at])
    } else {
        None
    }
}

/// A four-byte number, or `None` where fewer bytes are left.
pub fn read_u32(bytes: &[u8], at: usize) -> (x: Option<u32>)
    ensures
        x is Some <==> at + 4 <= bytes@.len(),
        x matches Some(v) ==> v == u32_at(bytes@, at as int),
{
    if at > bytes.len() || bytes.len() - at < 4 {
        return None;
    }
    let mut x: u32 = 0;
    let mut i: usize = 4;
    proof {
        lemma_pow256();
        assert(bytes@.subrange(at + 4, at + 4) =~= Seq::<u8>::empty());
    }
    while i > 0
        invariant
            i <= 4,
            at + 4 <= bytes.len(),
            x == from_le(bytes@.subrange(at + i, at + 4)),
            pow256(4) == 0x1_0000_0000,
        decreases i,
    {
        proof {
            let tail = bytes@.subrange(at + i, at + 4);
            let longer = bytes@.subrange(at + i - 1, at + 4);
            assert(longer.skip(1) =~= tail);
            lemma_from_le_bound(longer);
            lemma_pow256_grows(longer.len(), 4);
        }
        x = bytes[at + i - 1] as u32 + 256 * x;
        i = i - 1;
    }
    Some(x)
}

/// An eight-byte number, or `None` where fewer bytes are left.
pub fn read_u64(bytes: &[u8], at: usize) -> (x: Option<u64>)
    ensures
        x is Some <==> at + 8 <= bytes@.len(),
        x matches Some(v) ==> v == u64_at(bytes@, at as int),
{
    if at > bytes.len() || bytes.len() - at < 8 {
        return None;
    }
    let mut x: u64 = 0;
    let mut i: usize = 8;
    proof {
        lemma_pow256();
        assert(bytes@.subrange(at + 8, at + 8) =~= Seq::<u8>::empty());
    }
    while i > 0
        invariant
            i <= 8,
            at + 8 <= bytes.len(),
            x == from_le(bytes@.subrange(at + i, at + 8)),
            pow256(8) == 0x1_0000_0000_0000_0000,
        decreases i,
    {
        proof {
            let tail = bytes@.subrange(at + i, at + 8);
            let longer = bytes@.subrange(at + i - 1, at + 8);
            assert(longer.skip(1) =~= tail);
            lemma_from_le_bound(longer);
            lemma_pow256_grows(longer.len(), 8);
        }
        x = bytes[at + i - 1] as u64 + 256 * x;
        i = i - 1;
    }
    Some(x)
}

proof fn lemma_pow256_grows(a: nat, b: nat)
    requires
        a <= b,
    ensures
        pow256(a) <= pow256(b),
        0 < pow256(a),
    decreases b,
{
    if a < b {
        lemma_pow256_grows(a, (b - 1) as nat);
    } else if a > 0 {
        lemma_pow256_grows((a - 1) as nat, (b - 1) as nat);
    }
}

fn single(bytes: &[u8], at: usize) -> (x: Single)
    requires
        at + 4 <= bytes@.len(),
    ensures
        x == single_at(bytes@, at as int),
{
    match read_u32(bytes, at) {
        Some(bits) => Single { bits },
        None => Single { bits: 0 },
    }
}

fn double(bytes: &[u8], at: usize) -> (x: Double)
    requires
        at + 8 <= bytes@.len(),
    ensures
        x.bits == u64_at(bytes@, at as int),
{
    match read_u64(bytes, at) {
        Some(bits) => Double { bits },
        None => Double { bits: 0 },
    }
}

// Decoders

/// The depth frame that a payload holds.
pub open spec fn tof_reads(ts_us: u64, payload: Seq<u8>, t: TofRecord) -> bool {
    &&& t.ts_us == ts_us
    &&& t.sender_ts_s.bits == u64_at(payload, 0)
    &&& forall|r: int, c: int|
        0 <= r < 8 && 0 <= c < 8 ==> (#[trigger] t.ranges_m@[r]@[c]) == single_at(
            payload,
            12 + (r * 8 + c) * 4,
        )
    &&& forall|r: int, c: int|
        0 <= r < 8 && 0 <= c < 8 ==> (#[trigger] t.status@[r]@[c]) == payload[268 + r * 8 + c]
}

/// Why a payload holds no depth frame.
pub open spec fn tof_error(payload: Seq<u8>) -> Option<LogError> {
    if payload.len() < 12 {
        Some(LogError::TofHeader)
    } else if payload[8] != TOF_ROWS || payload[9] != TOF_COLS {
        Some(LogError::TofShape { rows: payload[8], cols: payload[9] })
    } else if payload.len() < TOF_SIZE {
        Some(LogError::TofLength { got: payload.len() as usize })
    } else {
        None
    }
}

/// Reads a depth frame.
pub fn decode_tof(ts_us: u64, payload: &[u8]) -> (t: Result<TofRecord, LogError>)
    ensures
        match tof_error(payload@) {
            Some(e) => t == Err::<TofRecord, LogError>(e),
            None => t matches Ok(rec) && tof_reads(ts_us, payload@, rec),
        },
{
    if payload.len() < 12 {
        return Err(LogError::TofHeader);
    }
    let sender_ts_s = double(payload, 0);
    let rows: u8 = payload[8];
    let cols: u8 = payload[9];
    if rows as usize != TOF_ROWS || cols as usize != TOF_COLS {
        return Err(LogError::TofShape { rows, cols });
    }
    if payload.len() < TOF_SIZE {
        return Err(LogError::TofLength { got: payload.len() });
    }
    let mut ranges_m = [[Single { bits: 0 };TOF_COLS];TOF_ROWS];
    let mut status = [[0u8;TOF_COLS];TOF_ROWS];
    let mut r: usize = 0;
    while r < TOF_ROWS
        invariant
            r <= 8,
            payload@.len() >= TOF_SIZE,
            forall|i: int, c: int|
                0 <= i < r && 0 <= c < 8 ==> (#[trigger] ranges_m@[i]@[c]) == single_at(
                    payload@,
                    12 + (i * 8 + c) * 4,
                ),
            forall|i: int, c: int|
                0 <= i < r && 0 <= c < 8 ==> (#[trigger] status@[i]@[c]) == payload@[268 + i * 8
                    + c],
        decreases 8 - r,
    {
        let mut range_row = [Single { bits: 0 };TOF_COLS];
        let mut status_row = [0u8;TOF_COLS];
        let mut c: usize = 0;
        while c < TOF_COLS
            invariant
                r < 8,
                c <= 8,
                payload@.len() >= TOF_SIZE,
                forall|k: int|
                    0 <= k < c ==> (#[trigger] range_row@[k]) == single_at(
                        payload@,
                        12 + (r * 8 + k) * 4,
                    ),
                forall|k: int|
                    0 <= k < c ==> (#[trigger] status_row@[k]) == payload@[268 + r * 8 + k],
            decreases 8 - c,
        {
            range_row[c] = single(payload, 12 + (r * TOF_COLS + c) * 4);
            status_row[c] = payload[268 + r * TOF_COLS + c];
            c = c + 1;
        }
        ranges_m[r] = range_row;
        status[r] = status_row;
        r = r + 1;
    }
    Ok(TofRecord { ts_us, sender_ts_s, ranges_m, status })
}

/// The number at a place in a twin packet.
pub open spec fn twin_number(payload: Seq<u8>, idx: int) -> Single {
    single_at(payload, 8 + idx * 4)
}

/// The twin packet that a payload holds.
pub open spec fn twin_reads(ts_us: u64, payload: Seq<u8>, t: TwinRecord) -> bool {
    &&& t.ts_us == ts_us
    &&& t.sender_ts_s.bits == u64_at(payload, 0)
    &&& forall|i: int| 0 <= i < 4 ==> (#[trigger] t.quat_wxyz@[i]) == twin_number(payload, i)
    &&& forall|i: int| 0 <= i < 15 ==> (#[trigger] t.joints@[i]) == twin_number(payload, 4 + i)
    &&& forall|i: int|
        0 <= i < 15 ==> (#[trigger] t.motor_currents_ma@[i]) == twin_number(payload, 19 + i)
    &&& t.odom_x == twin_number(payload, 34)
    &&& t.odom_y == twin_number(payload, 35)
    &&& forall|i: int| 0 <= i < 3 ==> (#[trigger] t.ball_xyz@[i]) == twin_number(payload, 36 + i)
    &&& t.odom_z == twin_number(payload, 39)
    &&& t.odom_yaw == twin_number(payload, 40)
    &&& t.contact_anchor == if payload.len() >= TWIN_PACKET_SIZE_V2 {
        Some((twin_number(payload, 41), twin_number(payload, 42)))
    } else {
        None
    }
}

pub open spec fn twin_error(payload: Seq<u8>) -> Option<LogError> {
    if payload.len() != TWIN_PACKET_SIZE_V1 && payload.len() != TWIN_PACKET_SIZE_V2 {
        Some(LogError::TwinLength { got: payload.len() as usize })
    } else {
        None
    }
}

/// Reads a twin packet.
pub fn decode_twin(ts_us: u64, payload: &[u8]) -> (t: Result<TwinRecord, LogError>)
    ensures
        match twin_error(payload@) {
            Some(e) => t == Err::<TwinRecord, LogError>(e),
            None => t matches Ok(rec) && twin_reads(ts_us, payload@, rec),
        },
{
    if payload.len() != TWIN_PACKET_SIZE_V1 && payload.len() != TWIN_PACKET_SIZE_V2 {
        return Err(LogError::TwinLength { got: payload.len() });
    }
    let sender_ts_s = double(payload, 0);
    let quat_wxyz = [
        single(payload, 8),
        single(payload, 12),
        single(payload, 16),
        single(payload, 20),
    ];
    let mut joints = [Single { bits: 0 };15];
    let mut motor_currents_ma = [Single { bits: 0 };15];
    let mut i: usize = 0;
    while i < 15
        invariant
            i <= 15,
            payload@.len() >= TWIN_PACKET_SIZE_V1,
            forall|k: int| 0 <= k < i ==> (#[trigger] joints@[k]) == twin_number(payload@, 4 + k),
            forall|k: int|
                0 <= k < i ==> (#[trigger] motor_currents_ma@[k]) == twin_number(payload@, 19 + k),
        decreases 15 - i,
    {
        joints[i] = single(payload, 8 + (4 + i) * 4);
        motor_currents_ma[i] = single(payload, 8 + (19 + i) * 4);
        i = i + 1;
    }
    let odom_x = single(payload, 144);
    let odom_y = single(payload, 148);
    let ball_xyz = [single(payload, 152), single(payload, 156), single(payload, 160)];
    let odom_z = single(payload, 164);
    let odom_yaw = single(payload, 168);
    let contact_anchor = if payload.len() >= TWIN_PACKET_SIZE_V2 {
        Some((single(payload, 172), single(payload, 176)))
    } else {
        None
    };
    Ok(
        TwinRecord {
            ts_us,
            sender_ts_s,
            quat_wxyz,
            joints,
            motor_currents_ma,
            odom_x,
            odom_y,
            ball_xyz,
            odom_z,
            odom_yaw,
            contact_anchor,
        },
    )
}

/// The robot state that a payload holds.
pub open spec fn odom_reads(ts_us: u64, payload: Seq<u8>, o: OdomRecord) -> bool {
    &&& o.ts_us == ts_us
    &&& o.state.odom_x == single_at(payload, 0)
    &&& o.state.odom_y == single_at(payload, 4)
    &&& o.state.odom_yaw == single_at(payload, 8)
    &&& o.state.gravity@[0] == single_at(payload, 12)
    &&& o.state.gravity@[1] == single_at(payload, 16)
    &&& o.state.gravity@[2] == single_at(payload, 20)
    &&& o.state.trunk_z == single_at(payload, 24)
    &&& o.state.head@[0] == single_at(payload, 28)
    &&& o.state.head@[1] == single_at(payload, 32)
    &&& o.state.head@[2] == single_at(payload, 36)
    &&& o.state.head@[3] == single_at(payload, 40)
    &&& o.state.moving == (payload[44] & FLAG_MOVING != 0)
    &&& o.state.sitting == (payload[44] & FLAG_SITTING != 0)
    &&& o.state.fallen == (payload[44] & FLAG_FALLEN != 0)
}

pub open spec fn odom_error(payload: Seq<u8>) -> Option<LogError> {
    if payload.len() != ODOM_PAYLOAD_SIZE {
        Some(LogError::OdomLength { got: payload.len() as usize })
    } else {
        None
    }
}

/// Reads a robot state.
pub fn decode_odom(ts_us: u64, payload: &[u8]) -> (o: Result<OdomRecord, LogError>)
    ensures
        match odom_error(payload@) {
            Some(e) => o == Err::<OdomRecord, LogError>(e),
            None => o matches Ok(rec) && odom_reads(ts_us, payload@, rec),
        },
{
    if payload.len() != ODOM_PAYLOAD_SIZE {
        return Err(LogError::OdomLength { got: payload.len() });
    }
    let flags: u8 = payload[44];
    Ok(
        OdomRecord {
            ts_us,
            state: OdomState {
                odom_x: single(payload, 0),
                odom_y: single(payload, 4),
                odom_yaw: single(payload, 8),
                gravity: [single(payload, 12), single(payload, 16), single(payload, 20)],
                trunk_z: single(payload, 24),
                head: [
                    single(payload, 28),
                    single(payload, 32),
                    single(payload, 36),
                    single(payload, 40),
                ],
                moving: flags & FLAG_MOVING != 0,
                sitting: flags & FLAG_SITTING != 0,
                fallen: flags & FLAG_FALLEN != 0,
            },
        },
    )
}

/// What a record's payload is read as.
pub open spec fn payload_reads(
    ts_us: u64,
    stream_id: u8,
    payload: Seq<u8>,
    item: Result<Record, LogError>,
) -> bool {
    if stream_id == STREAM_TOF {
        match tof_error(payload) {
            Some(e) => item == Err::<Record, LogError>(e),
            None => item matches Ok(Record::Tof(t)) && tof_reads(ts_us, payload, t),
        }
    } else if stream_id == STREAM_TWIN {
        match twin_error(payload) {
            Some(e) => item == Err::<Record, LogError>(e),
            None => item matches Ok(Record::Twin(t)) && twin_reads(ts_us, payload, t),
        }
    } else if stream_id == STREAM_ODOM {
        match odom_error(payload) {
            Some(e) => item == Err::<Record, LogError>(e),
            None => item matches Ok(Record::Odom(o)) && odom_reads(ts_us, payload, o),
        }
    } else {
        item == Err::<Record, LogError>(LogError::UnknownStream { stream_id })
    }
}

fn decode(ts_us: u64, stream_id: u8, payload: &[u8]) -> (item: Result<Record, LogError>)
    ensures
        payload_reads(ts_us, stream_id, payload@, item),
{
    if stream_id == STREAM_TOF {
        match decode_tof(ts_us, payload) {
            Ok(t) => Ok(Record::Tof(t)),
            Err(e) => Err(e),
        }
    } else if stream_id == STREAM_TWIN {
        match decode_twin(ts_us, payload) {
            Ok(t) => Ok(Record::Twin(t)),
            Err(e) => Err(e),
        }
    } else if stream_id == STREAM_ODOM {
        match decode_odom(ts_us, payload) {
            Ok(o) => Ok(Record::Odom(o)),
            Err(e) => Err(e),
        }
    } else {
        Err(LogError::UnknownStream { stream_id })
    }
}

/// Where the first record starts.
pub const HEADER_SIZE: usize = 16;

/// Why the bytes are no log.
pub open spec fn header_error(bytes: Seq<u8>) -> Option<LogError> {
    if bytes.len() < 4 {
        Some(LogError::UnexpectedEof)
    } else if bytes.take(4) != MAGIC@ {
        Some(LogError::NotALog { magic: (bytes[0], bytes[1], bytes[2], bytes[3]) })
    } else if bytes.len() < 8 {
        Some(LogError::UnexpectedEof)
    } else if u32_at(bytes, 4) != 1 && u32_at(bytes, 4) != 2 {
        Some(LogError::UnsupportedVersion { version: u32_at(bytes, 4) as u32 })
    } else if bytes.len() < 16 {
        Some(LogError::UnexpectedEof)
    } else {
        None
    }
}

/// What reading on from a position gives, and the position after it. Fewer than eight
/// bytes left are the end; a record that does not fit is cut short.
pub open spec fn reads_next(
    bytes: Seq<u8>,
    pos: int,
    item: Option<Result<Record, LogError>>,
    after: int,
) -> bool {
    let left = bytes.len() - pos;
    if left < 8 {
        item is None && after == bytes.len()
    } else if left < 13 || left < 13 + u32_at(bytes, pos + 9) {
        item == Some(Err::<Record, LogError>(LogError::UnexpectedEof)) && after == bytes.len()
    } else {
        let size = u32_at(bytes, pos + 9);
        &&& after == pos + 13 + size
        &&& item matches Some(read) && payload_reads(
            u64_at(bytes, pos) as u64,
            bytes[pos + 8],
            bytes.subrange(pos + 13, pos + 13 + size),
            read,
        )
    }
}

/// Reads the records of a log one after the other.
pub struct SessionReplayer {
    bytes: Vec<u8>,
    pos: usize,
    epoch_unix_ms: u64,
}

impl SessionReplayer {
    /// The bytes of the log.
    pub closed spec fn log(&self) -> Seq<u8> {
        self.bytes@
    }

    /// How far it has been read.
    pub closed spec fn position(&self) -> int {
        self.pos as int
    }

    pub closed spec fn epoch(&self) -> u64 {
        self.epoch_unix_ms
    }

    pub open spec fn well_formed(&self) -> bool {
        0 <= self.position() <= self.log().len()
    }

    /// Starts reading a log, of which `bytes` are all there is.
    pub fn open(bytes: Vec<u8>) -> (replayer: Result<Self, LogError>)
        ensures
            match header_error(bytes@) {
                Some(e) => replayer == Err::<SessionReplayer, LogError>(e),
                None => {
                    &&& replayer matches Ok(r)
                    &&& r.well_formed()
                    &&& r.log() == bytes@
                    &&& r.position() == HEADER_SIZE
                    &&& r.epoch() == u64_at(bytes@, 8)
                },
            },
    {
        if bytes.len() < 4 {
            return Err(LogError::UnexpectedEof);
        }
        let magic = (bytes[0], bytes[1], bytes[2], bytes[3]);
        if magic.0 != MAGIC[0] || magic.1 != MAGIC[1] || magic.2 != MAGIC[2] || magic.3
            != MAGIC[3] {
            assert(bytes@.take(4)[0] != MAGIC@[0] || bytes@.take(4)[1] != MAGIC@[1] || bytes@.take(
                4,
            )[2] != MAGIC@[2] || bytes@.take(4)[3] != MAGIC@[3]);
            return Err(LogError::NotALog { magic });
        }
        assert(bytes@.take(4) =~= MAGIC@);
        let version: u32 = match read_u32(&bytes, 4) {
            Some(version) => version,
            None => {
                return Err(LogError::UnexpectedEof);
            },
        };
        if version != 1 && version != 2 {
            return Err(LogError::UnsupportedVersion { version });
        }
        match read_u64(&bytes, 8) {
            Some(epoch_unix_ms) => Ok(SessionReplayer { bytes, pos: HEADER_SIZE, epoch_unix_ms }),
            None => Err(LogError::UnexpectedEof),
        }
    }

    pub fn epoch_unix_ms(&self) -> (ms: u64)
        ensures
            ms == self.epoch(),
    {
        self.epoch_unix_ms
    }

    /// The next record, or `None` at the end.
    pub fn next(&mut self) -> (item: Option<Result<Record, LogError>>)
        requires
            old(self).well_formed(),
        ensures
            final(self).well_formed(),
            final(self).log() == old(self).log(),
            final(self).epoch() == old(self).epoch(),
            reads_next(old(self).log(), old(self).position(), item, final(self).position()),
    {
        let total: usize = self.bytes.len();
        let start: usize = self.pos;
        let ghost b = self.bytes@;
        proof {
            lemma_at_bounds(b, start as int);
            lemma_at_bounds(b, start + 9);
        }
        let ts_us: u64 = match read_u64(&self.bytes, start) {
            Some(ts_us) => ts_us,
            None => {
                self.pos = total;
                return None;
            },
        };
        let stream_id: u8 = match read_u8(&self.bytes, start + 8) {
            Some(stream_id) => stream_id,
            None => {
                self.pos = total;
                return Some(Err(LogError::UnexpectedEof));
            },
        };
        let size: usize = match read_u32(&self.bytes, start + 9) {
            Some(size) => size as usize,
            None => {
                self.pos = total;
                return Some(Err(LogError::UnexpectedEof));
            },
        };
        let body: usize = start + 13;
        if total - body < size {
            self.pos = total;
            return Some(Err(LogError::UnexpectedEof));
        }
        let mut payload: Vec<u8> = Vec::new();
        let mut i: usize = 0;
        while i < size
            invariant
                i <= size,
                b == self.bytes@,
                body + size <= total,
                total == b.len(),
                payload@ == b.subrange(body as int, body + i),
            decreases size - i,
        {
            payload.push(self.bytes[body + i]);
            i = i + 1;
            assert(b.subrange(body as int, body + i) =~= b.subrange(body as int, body + i - 1).push(
                b[body + i - 1],
            ));
        }
        self.pos = body + size;
        Some(decode(ts_us, stream_id, &payload))
    }
}

// ---------------------------------------------------------------------------
// Reading back what was recorded
// ---------------------------------------------------------------------------

proof fn lemma_u32_within(b: Seq<u8>, at: int, x: nat)
    requires
        0 <= at,
        at + 4 <= b.len(),
        b.subrange(at, at + 4) == le_bytes(x, 4),
        x <= u32::MAX,
    ensures
        u32_at(b, at) == x,
{
    lemma_pow256();
    lemma_le_round_trip(x, 4);
}

proof fn lemma_u64_within(b: Seq<u8>, at: int, x: nat)
    requires
        0 <= at,
        at + 8 <= b.len(),
        b.subrange(at, at + 8) == le_bytes(x, 8),
        x <= u64::MAX,
    ensures
        u64_at(b, at) == x,
{
    lemma_pow256();
    lemma_le_round_trip(x, 8);
}

/// A framed record is taken out of a log whole: its time, its stream and its payload,
/// and reading goes on behind it.
pub proof fn law_framed_record_is_found(
    before: Seq<u8>,
    ts_us: u64,
    stream_id: u8,
    payload: Seq<u8>,
    rest: Seq<u8>,
    item: Option<Result<Record, LogError>>,
    after: int,
)
    requires
        payload.len() <= u32::MAX,
        reads_next(
            before + framed(ts_us, stream_id, payload) + rest,
            before.len() as int,
            item,
            after,
        ),
    ensures
        item matches Some(read) && payload_reads(ts_us, stream_id, payload, read),
        after == before.len() + 13 + payload.len(),
{
    let f = framed(ts_us, stream_id, payload);
    let b = before + f + rest;
    let pos = before.len() as int;
    lemma_le_len(ts_us as nat, 8);
    lemma_le_len(payload.len(), 4);
    assert(f.len() == 13 + payload.len());
    assert(b.subrange(pos, pos + 8) =~= le_bytes(ts_us as nat, 8));
    lemma_u64_within(b, pos, ts_us as nat);
    assert(b[pos + 8] == stream_id);
    assert(b.subrange(pos + 9, pos + 13) =~= le_bytes(payload.len(), 4));
    lemma_u32_within(b, pos + 9, payload.len());
    assert(b.subrange(pos + 13, pos + 13 + payload.len()) =~= payload);
}

proof fn lemma_singles_at(values: Seq<Single>, i: int)
    requires
        0 <= i < values.len(),
    ensures
        singles_bytes(values).len() == 4 * values.len(),
        singles_bytes(values).subrange(4 * i, 4 * i + 4) == le_bytes(values[i].bits as nat, 4),
    decreases values.len(),
{
    lemma_singles_len(values);
    let front = values.drop_last();
    lemma_singles_len(front);
    lemma_le_len(values.last().bits as nat, 4);
    if i == values.len() - 1 {
        assert(singles_bytes(values).subrange(4 * i, 4 * i + 4) =~= le_bytes(
            values[i].bits as nat,
            4,
        ));
    } else {
        lemma_singles_at(front, i);
        assert(singles_bytes(values).subrange(4 * i, 4 * i + 4) =~= singles_bytes(front).subrange(
            4 * i,
            4 * i + 4,
        ));
    }
}

// A run of singles inside a payload reads back one by one.
proof fn lemma_single_within(b: Seq<u8>, at: int, values: Seq<Single>, i: int)
    requires
        0 <= at,
        at + 4 * values.len() <= b.len(),
        b.subrange(at, at + 4 * values.len()) == singles_bytes(values),
        0 <= i < values.len(),
    ensures
        single_at(b, at + 4 * i) == values[i],
{
    lemma_singles_at(values, i);
    let run = b.subrange(at, at + 4 * values.len());
    assert(b.subrange(at + 4 * i, at + 4 * i + 4) =~= run.subrange(4 * i, 4 * i + 4));
    lemma_u32_within(b, at + 4 * i, values[i].bits as nat);
}

/// A recorded robot state reads back as it was.
pub proof fn law_odom_round_trips(ts_us: u64, state: OdomState, read: Result<Record, LogError>)
    requires
        payload_reads(ts_us, STREAM_ODOM, odom_payload(state), read),
    ensures
        read matches Ok(Record::Odom(o)) && o.ts_us == ts_us && o.state.numbers()
            == state.numbers() && o.state.moving == state.moving && o.state.sitting
            == state.sitting && o.state.fallen == state.fallen,
{
    let p = odom_payload(state);
    let n = state.numbers();
    lemma_singles_len(n);
    assert(p.subrange(0, 0 + 4 * n.len() as int) =~= singles_bytes(n));
    assert(p.len() == 45);
    lemma_single_within(p, 0, n, 0);
    lemma_single_within(p, 0, n, 1);
    lemma_single_within(p, 0, n, 2);
    lemma_single_within(p, 0, n, 3);
    lemma_single_within(p, 0, n, 4);
    lemma_single_within(p, 0, n, 5);
    lemma_single_within(p, 0, n, 6);
    lemma_single_within(p, 0, n, 7);
    lemma_single_within(p, 0, n, 8);
    lemma_single_within(p, 0, n, 9);
    lemma_single_within(p, 0, n, 10);
    let flags = state.flags();
    assert(p[44] == flags);
    assert(forall|x: u8|
        x < 8 ==> ((#[trigger] (x & 1) != 0) == (x % 2 == 1)) && ((x & 2 != 0) == ((x / 2) % 2
            == 1)) && ((x & 4 != 0) == ((x / 4) % 2 == 1))) by (bit_vector);
    assert((flags & 1 != 0) == (flags % 2 == 1));
    let o = read->Ok_0->Odom_0;
    assert(o.state.numbers() =~= state.numbers());
}

/// A recorded depth frame of eight by eight zones reads back as it was.
pub proof fn law_tof_round_trips(
    ts_us: u64,
    sender_ts_s: Double,
    ranges_m: Seq<Single>,
    status: Seq<u8>,
    read: Result<Record, LogError>,
)
    requires
        ranges_m.len() == 64,
        status.len() == 64,
        payload_reads(
            ts_us,
            STREAM_TOF,
            tof_payload(sender_ts_s, 8, 8, ranges_m, status),
            read,
        ),
    ensures
        read matches Ok(Record::Tof(t)) && t.ts_us == ts_us && t.sender_ts_s == sender_ts_s
            && forall|r: int, c: int|
            0 <= r < 8 && 0 <= c < 8 ==> (#[trigger] t.ranges_m@[r]@[c]) == ranges_m[r * 8 + c]
                && t.status@[r]@[c] == status[r * 8 + c],
{
    let p = tof_payload(sender_ts_s, 8, 8, ranges_m, status);
    lemma_le_len(sender_ts_s.bits as nat, 8);
    lemma_singles_len(ranges_m);
    assert(p.len() == 332);
    assert(p[8] == 8 && p[9] == 8);
    assert(p.subrange(0, 8) =~= le_bytes(sender_ts_s.bits as nat, 8));
    lemma_u64_within(p, 0, sender_ts_s.bits as nat);
    assert(p.subrange(12, 12 + 4 * ranges_m.len() as int) =~= singles_bytes(ranges_m));
    let t = read->Ok_0->Tof_0;
    assert forall|r: int, c: int| 0 <= r < 8 && 0 <= c < 8 implies (
    #[trigger] t.ranges_m@[r]@[c]) == ranges_m[r * 8 + c] && t.status@[r]@[c] == status[r * 8
        + c] by {
        lemma_single_within(p, 12, ranges_m, r * 8 + c);
        assert(p[268 + r * 8 + c] == status[r * 8 + c]);
        assert(t.status@[r]@[c] == p[268 + r * 8 + c]);
    }
}

/// The header of a recording is accepted, and its time reads back.
pub proof fn law_recorded_header_is_read(epoch_unix_ms: u64, records: Seq<u8>)
    ensures
        header_error(header_bytes(epoch_unix_ms) + records) is None,
        u64_at(header_bytes(epoch_unix_ms) + records, 8) == epoch_unix_ms,
        header_bytes(epoch_unix_ms).len() == HEADER_SIZE,
{
    let h = header_bytes(epoch_unix_ms);
    let b = h + records;
    lemma_le_len(2, 4);
    lemma_le_len(epoch_unix_ms as nat, 8);
    assert(b.take(4) =~= MAGIC@);
    assert(b.subrange(4, 8) =~= le_bytes(2, 4));
    lemma_u32_within(b, 4, 2);
    assert(b.subrange(8, 16) =~= le_bytes(epoch_unix_ms as nat, 8));
    lemma_u64_within(b, 8, epoch_unix_ms as nat);
}

/// Something that was recorded: a depth frame of eight by eight zones, or a robot
/// state.
pub enum Entry {
    Tof { ts_us: u64, sender_ts_s: Double, ranges_m: Seq<Single>, status: Seq<u8> },
    Odom { ts_us: u64, state: OdomState },
}

impl Entry {
    /// A depth frame has a range and a status for each of its zones.
    pub open spec fn complete(self) -> bool {
        self matches Entry::Tof { ranges_m, status, .. } ==> ranges_m.len() == 64 && status.len()
            == 64
    }

    /// What the recorder appends for it.
    pub open spec fn recorded(self) -> Seq<u8> {
        match self {
            Entry::Tof { ts_us, sender_ts_s, ranges_m, status } => framed(
                ts_us,
                STREAM_TOF,
                tof_payload(sender_ts_s, 8, 8, ranges_m, status),
            ),
            Entry::Odom { ts_us, state } => framed(ts_us, STREAM_ODOM, odom_payload(state)),
        }
    }

    /// The record says what was recorded.
    pub open spec fn said_by(self, read: Result<Record, LogError>) -> bool {
        match self {
            Entry::Tof { ts_us, sender_ts_s, ranges_m, status } => {
                &&& read matches Ok(Record::Tof(t))
                &&& t.ts_us == ts_us
                &&& t.sender_ts_s == sender_ts_s
                &&& forall|r: int, c: int|
                    0 <= r < 8 && 0 <= c < 8 ==> (#[trigger] t.ranges_m@[r]@[c]) == ranges_m[r * 8
                        + c] && t.status@[r]@[c] == status[r * 8 + c]
            },
            Entry::Odom { ts_us, state } => {
                &&& read matches Ok(Record::Odom(o))
                &&& o.ts_us == ts_us
                &&& o.state.numbers() == state.numbers()
                &&& o.state.moving == state.moving
                &&& o.state.sitting == state.sitting
                &&& o.state.fallen == state.fallen
            },
        }
    }
}

/// The bytes of some entries, one after the other.
pub open spec fn recording(entries: Seq<Entry>) -> Seq<u8>
    decreases entries.len(),
{
    if entries.len() == 0 {
        Seq::empty()
    } else {
        recording(entries.drop_last()) + entries.last().recorded()
    }
}

proof fn lemma_recording_splits(entries: Seq<Entry>, n: int)
    requires
        0 <= n < entries.len(),
    ensures
        exists|rest: Seq<u8>|
            recording(entries) == recording(entries.take(n)) + entries[n].recorded() + rest,
    decreases entries.len(),
{
    let fewer = entries.drop_last();
    if n == fewer.len() {
        assert(entries.take(n) =~= fewer);
        assert(recording(entries) =~= recording(entries.take(n)) + entries[n].recorded()
            + Seq::<u8>::empty());
    } else {
        lemma_recording_splits(fewer, n);
        assert(fewer.take(n) =~= entries.take(n));
        let rest = choose|rest: Seq<u8>|
            recording(fewer) == recording(fewer.take(n)) + fewer[n].recorded() + rest;
        let longer = rest + entries.last().recorded();
        assert(recording(entries) =~= recording(entries.take(n)) + entries[n].recorded() + longer);
    }
}

/// A session reads back as it was recorded: behind the first `n` entries the next one is
/// read, and reading goes on behind that; after the last comes the end.
pub proof fn law_a_session_reads_back(
    epoch_unix_ms: u64,
    entries: Seq<Entry>,
    n: int,
    item: Option<Result<Record, LogError>>,
    after: int,
)
    requires
        0 <= n <= entries.len(),
        forall|k: int| 0 <= k < entries.len() ==> (#[trigger] entries[k]).complete(),
        reads_next(
            header_bytes(epoch_unix_ms) + recording(entries),
            HEADER_SIZE + recording(entries.take(n)).len(),
            item,
            after,
        ),
    ensures
        n == entries.len() ==> item is None,
        n < entries.len() ==> {
            &&& item matches Some(read) && entries[n].said_by(read)
            &&& after == HEADER_SIZE + recording(entries.take(n + 1)).len()
        },
{
    let h = header_bytes(epoch_unix_ms);
    law_recorded_header_is_read(epoch_unix_ms, recording(entries));
    assert(entries.take(entries.len() as int) =~= entries);
    if n < entries.len() {
        lemma_recording_splits(entries, n);
        let e = entries[n];
        let rest = choose|rest: Seq<u8>|
            recording(entries) == recording(entries.take(n)) + e.recorded() + rest;
        let before = h + recording(entries.take(n));
        assert(h + recording(entries) =~= before + e.recorded() + rest);
        assert(entries.take(n + 1).drop_last() =~= entries.take(n));
        assert(e.complete());
        let read = item->0;
        match e {
            Entry::Tof { ts_us, sender_ts_s, ranges_m, status } => {
                let p = tof_payload(sender_ts_s, 8, 8, ranges_m, status);
                lemma_le_len(sender_ts_s.bits as nat, 8);
                lemma_singles_len(ranges_m);
                law_framed_record_is_found(before, ts_us, STREAM_TOF, p, rest, item, after);
                law_tof_round_trips(ts_us, sender_ts_s, ranges_m, status, read);
                lemma_le_len(ts_us as nat, 8);
                lemma_le_len(p.len(), 4);
            },
            Entry::Odom { ts_us, state } => {
                let p = odom_payload(state);
                lemma_singles_len(state.numbers());
                law_framed_record_is_found(before, ts_us, STREAM_ODOM, p, rest, item, after);
                law_odom_round_trips(ts_us, state, read);
                lemma_le_len(ts_us as nat, 8);
                lemma_le_len(p.len(), 4);
            },
        }
    }
}

/// A number is read lowest byte first.
pub proof fn law_a_number_is_read_lowest_byte_first(b: Seq<u8>, at: int)
    requires
        0 <= at,
        at + 8 <= b.len(),
    ensures
        u32_at(b, at) == b[at] + 0x100 * b[at + 1] + 0x1_0000 * b[at + 2] + 0x100_0000 * b[at + 3],
        u64_at(b, at) == u32_at(b, at) + 0x1_0000_0000 * u32_at(b, at + 4),
        single_at(b, at).bits == u32_at(b, at),
{
    lemma_at_bounds(b, at);
    lemma_four_bytes(b, at);
    lemma_four_bytes(b, at + 4);
    let s = b.subrange(at, at + 8);
    assert(s.skip(1).skip(1).skip(1).skip(1) =~= b.subrange(at + 4, at + 8));
    let s1 = s.skip(1);
    let s2 = s1.skip(1);
    let s3 = s2.skip(1);
    assert(from_le(s) == s[0] + 256 * from_le(s1));
    assert(from_le(s1) == s1[0] + 256 * from_le(s2));
    assert(from_le(s2) == s2[0] + 256 * from_le(s3));
    assert(from_le(s3) == s3[0] + 256 * from_le(s3.skip(1)));
}

proof fn lemma_four_bytes(b: Seq<u8>, at: int)
    requires
        0 <= at,
        at + 4 <= b.len(),
    ensures
        u32_at(b, at) == b[at] + 0x100 * b[at + 1] + 0x1_0000 * b[at + 2] + 0x100_0000 * b[at + 3],
{
    let s = b.subrange(at, at + 4);
    let s1 = s.skip(1);
    let s2 = s1.skip(1);
    let s3 = s2.skip(1);
    assert(s3.skip(1).len() == 0);
    assert(from_le(s) == s[0] + 256 * from_le(s1));
    assert(from_le(s1) == s1[0] + 256 * from_le(s2));
    assert(from_le(s2) == s2[0] + 256 * from_le(s3));
    assert(from_le(s3) == s3[0] + 256 * from_le(s3.skip(1)));
    assert(from_le(s3.skip(1)) == 0);
}

/// A log is read exactly if it starts with the magic, in version one or two, and has room
/// for its header; each thing that is wrong is told apart, the first one first.
pub proof fn law_only_known_logs_are_read(bytes: Seq<u8>)
    ensures
        bytes.len() < 4 ==> header_error(bytes) == Some(LogError::UnexpectedEof),
        bytes.len() >= 4 && (bytes[0] != 77 || bytes[1] != 68 || bytes[2] != 76 || bytes[3] != 71)
            ==> header_error(bytes) == Some(
            LogError::NotALog { magic: (bytes[0], bytes[1], bytes[2], bytes[3]) },
        ),
        bytes.len() >= 4 && bytes[0] == 77 && bytes[1] == 68 && bytes[2] == 76 && bytes[3] == 71 ==> {
            &&& bytes.len() < 8 ==> header_error(bytes) == Some(LogError::UnexpectedEof)
            &&& bytes.len() >= 8 && u32_at(bytes, 4) != 1 && u32_at(bytes, 4) != 2 ==> header_error(
                bytes,
            ) == Some(LogError::UnsupportedVersion { version: u32_at(bytes, 4) as u32 })
            &&& bytes.len() >= 8 && (u32_at(bytes, 4) == 1 || u32_at(bytes, 4) == 2) ==> {
                &&& bytes.len() < 16 ==> header_error(bytes) == Some(LogError::UnexpectedEof)
                &&& bytes.len() >= 16 ==> header_error(bytes) is None
            }
        },
{
    if bytes.len() >= 4 {
        let head = bytes.take(4);
        if bytes[0] == 77 && bytes[1] == 68 && bytes[2] == 76 && bytes[3] == 71 {
            assert(head =~= MAGIC@);
        } else {
            assert(head[0] == bytes[0] && head[1] == bytes[1] && head[2] == bytes[2] && head[3]
                == bytes[3]);
            assert(head != MAGIC@);
        }
    }
}

/// Reading on: fewer than eight bytes are the end, a record that does not fit is cut short,
/// and either way there is nothing behind it; any other is stepped over whole.
pub proof fn law_a_cut_record_ends_the_log(
    bytes: Seq<u8>,
    pos: int,
    item: Option<Result<Record, LogError>>,
    after: int,
)
    requires
        reads_next(bytes, pos, item, after),
        0 <= pos <= bytes.len(),
    ensures
        bytes.len() - pos < 8 ==> item is None && after == bytes.len(),
        8 <= bytes.len() - pos < 13 ==> item == Some(
            Err::<Record, LogError>(LogError::UnexpectedEof),
        ) && after == bytes.len(),
        bytes.len() - pos >= 13 && bytes.len() - pos - 13 < u32_at(bytes, pos + 9) ==> item == Some(
            Err::<Record, LogError>(LogError::UnexpectedEof),
        ) && after == bytes.len(),
        bytes.len() - pos >= 13 && bytes.len() - pos - 13 >= u32_at(bytes, pos + 9) ==> item is Some
            && after == pos + 13 + u32_at(bytes, pos + 9),
        pos <= after <= bytes.len(),
        item is Some ==> after > pos,
{
}

/// A payload is read by its stream: a depth frame, a twin packet or a robot state, and
/// nothing else; what is read carries the record's time.
pub proof fn law_streams_are_read_by_their_number(
    ts_us: u64,
    stream_id: u8,
    payload: Seq<u8>,
    item: Result<Record, LogError>,
)
    requires
        payload_reads(ts_us, stream_id, payload, item),
    ensures
        stream_id > 2 ==> item == Err::<Record, LogError>(LogError::UnknownStream { stream_id }),
        item matches Ok(r) ==> r.spec_ts_us() == ts_us,
        item matches Ok(r) ==> (r is Tof <==> stream_id == 0) && (r is Twin <==> stream_id == 1) && (
        r is Odom <==> stream_id == 2),
        stream_id == 2 ==> (item is Ok <==> payload.len() == 45),
        stream_id == 1 ==> (item is Ok <==> payload.len() == 172 || payload.len() == 180),
        stream_id == 0 ==> (item is Ok <==> payload.len() >= 332 && payload[8] == 8 && payload[9]
            == 8),
{
}

/// A twin packet's numbers follow its time, four bytes each: orientation, joints, currents,
/// place, ball, height and heading; and the contact anchor where the packet is long enough.
pub proof fn law_a_twin_packet_is_laid_out_in_order(
    ts_us: u64,
    payload: Seq<u8>,
    t: TwinRecord,
    i: int,
)
    requires
        twin_reads(ts_us, payload, t),
        payload.len() == 172 || payload.len() == 180,
        0 <= i < 15,
    ensures
        t.ts_us == ts_us,
        i < 4 ==> t.quat_wxyz@[i].bits == u32_at(payload, 8 + 4 * i),
        t.joints@[i].bits == u32_at(payload, 24 + 4 * i),
        t.motor_currents_ma@[i].bits == u32_at(payload, 84 + 4 * i),
        t.odom_x.bits == u32_at(payload, 144),
        t.odom_y.bits == u32_at(payload, 148),
        i < 3 ==> t.ball_xyz@[i].bits == u32_at(payload, 152 + 4 * i),
        t.odom_z.bits == u32_at(payload, 164),
        t.odom_yaw.bits == u32_at(payload, 168),
        payload.len() == 172 <==> t.contact_anchor is None,
        t.contact_anchor matches Some(a) ==> a.0.bits == u32_at(payload, 172) && a.1.bits == u32_at(
            payload,
            176,
        ),
{
    lemma_at_bounds(payload, 8 + 4 * i);
    lemma_at_bounds(payload, 24 + 4 * i);
    lemma_at_bounds(payload, 84 + 4 * i);
    lemma_at_bounds(payload, 152 + 4 * i);
    lemma_at_bounds(payload, 144);
    lemma_at_bounds(payload, 148);
    lemma_at_bounds(payload, 164);
    lemma_at_bounds(payload, 168);
    lemma_at_bounds(payload, 172);
    lemma_at_bounds(payload, 176);
    if i < 4 {
        assert(t.quat_wxyz@[i] == twin_number(payload, i));
    }
    assert(t.joints@[i] == twin_number(payload, 4 + i));
    assert(t.motor_currents_ma@[i] == twin_number(payload, 19 + i));
    if i < 3 {
        assert(t.ball_xyz@[i] == twin_number(payload, 36 + i));
    }
}

} // verus!
