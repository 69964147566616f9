use microduck::ieee::{Double, Single};
use microduck::record::{OdomState, SessionRecorder, ZoneMismatch, MAGIC, STREAM_TOF};
use microduck::replay::{
    LogError, Record, SessionReplayer, STREAM_TWIN, TWIN_PACKET_SIZE_V1, TWIN_PACKET_SIZE_V2,
};

fn s(x: f32) -> Single {
    Single { bits: x.to_bits() }
}

fn d(x: f64) -> Double {
    Double { bits: x.to_bits() }
}

fn f(x: Single) -> f32 {
    f32::from_bits(x.bits)
}

fn g(x: Double) -> f64 {
    f64::from_bits(x.bits)
}

fn state() -> OdomState {
    OdomState {
        odom_x: s(1.0),
        odom_y: s(-2.0),
        odom_yaw: s(0.5),
        gravity: [s(0.0), s(0.1), s(-9.8)],
        trunk_z: s(0.21),
        head: [s(0.1), s(0.2), s(0.3), s(0.4)],
        moving: false,
        sitting: true,
        fallen: false,
    }
}

#[test]
fn a_recording_round_trips_through_the_reader() {
    let mut rec = SessionRecorder::create(1);
    rec.odom(10, &state());
    let ranges: Vec<Single> = (0..64).map(|mm| s(mm as f32 / 1000.0)).collect();
    let status = [5u8; 64];
    rec.tof(20, d(1.5), 8, 8, &ranges, &status).expect("tof");
    let bytes = rec.flush();

    let mut r = SessionReplayer::open(bytes).expect("open");
    match r.next().expect("first").expect("ok") {
        Record::Odom(o) => {
            let o = o.state;
            assert_eq!((f(o.odom_x), f(o.odom_y), f(o.odom_yaw)), (1.0, -2.0, 0.5));
            assert_eq!(o.gravity.map(f), [0.0, 0.1, -9.8]);
            assert_eq!(f(o.trunk_z), 0.21);
            assert_eq!(o.head.map(f), [0.1, 0.2, 0.3, 0.4]);
            assert!(!o.moving);
            assert!(o.sitting);
            assert!(!o.fallen);
        }
        other => panic!("expected Odom, got {other:?}"),
    }
    match r.next().expect("second").expect("ok") {
        Record::Tof(t) => {
            assert!((f(t.ranges_m[0][1]) - 0.001).abs() < 1e-6);
            assert!((f(t.ranges_m[7][7]) - 0.063).abs() < 1e-6);
            assert_eq!(t.status[3][3], 5);
        }
        other => panic!("expected Tof, got {other:?}"),
    }
    assert!(r.next().is_none());
}

fn framed(out: &mut Vec<u8>, ts_us: u64, stream: u8, payload: &[u8]) {
    out.extend(ts_us.to_le_bytes());
    out.push(stream);
    out.extend((payload.len() as u32).to_le_bytes());
    out.extend(payload);
}

fn header(version: u32) -> Vec<u8> {
    let mut out = MAGIC.to_vec();
    out.extend(version.to_le_bytes());
    out.extend(123_456_789u64.to_le_bytes());
    out
}

fn synthetic() -> Vec<u8> {
    let mut out = header(1);
    let mut tof = Vec::new();
    tof.extend(1.2345_f64.to_le_bytes());
    tof.push(8);
    tof.push(8);
    tof.extend([0u8, 0u8]);
    for r in 0..8 {
        for c in 0..8 {
            let v = (r * 8 + c) as f32 / 100.0;
            tof.extend(v.to_le_bytes());
        }
    }
    for r in 0..8 {
        for c in 0..8 {
            tof.push((r * 8 + c) as u8);
        }
    }
    framed(&mut out, 1000, STREAM_TOF, &tof);

    let mut twin = Vec::with_capacity(TWIN_PACKET_SIZE_V1);
    twin.extend(2.71_f64.to_le_bytes());
    for i in 0..41 {
        twin.extend(((i as f32) * 0.1).to_le_bytes());
    }
    framed(&mut out, 2000, STREAM_TWIN, &twin);

    let mut twin2 = Vec::with_capacity(TWIN_PACKET_SIZE_V2);
    twin2.extend(2.72_f64.to_le_bytes());
    for i in 0..43 {
        twin2.extend(((i as f32) * 0.1).to_le_bytes());
    }
    framed(&mut out, 3000, STREAM_TWIN, &twin2);
    out
}

#[test]
fn round_trip_decode() {
    let mut r = SessionReplayer::open(synthetic()).unwrap();
    assert_eq!(r.epoch_unix_ms(), 123_456_789);
    let rec1 = r.next().unwrap().unwrap();
    if let Record::Tof(t) = rec1 {
        assert_eq!(t.ts_us, 1000);
        assert!((g(t.sender_ts_s) - 1.2345).abs() < 1e-9);
        assert_eq!(t.status[0][0], 0);
        assert_eq!(t.status[7][7], 63);
        assert!((f(t.ranges_m[0][0]) - 0.0).abs() < 1e-6);
        assert!((f(t.ranges_m[7][7]) - 0.63).abs() < 1e-5);
    } else {
        panic!("expected Tof");
    }
    let rec2 = r.next().unwrap().unwrap();
    if let Record::Twin(t) = rec2 {
        assert_eq!(t.ts_us, 2000);
        assert!((g(t.sender_ts_s) - 2.71).abs() < 1e-9);
        assert!((f(t.quat_wxyz[0]) - 0.0).abs() < 1e-6);
        assert!((f(t.quat_wxyz[3]) - 0.3).abs() < 1e-5);
        assert!((f(t.odom_yaw) - 4.0).abs() < 1e-5);
        assert!(t.contact_anchor.is_none());
    } else {
        panic!("expected Twin");
    }
    let rec3 = r.next().unwrap().unwrap();
    if let Record::Twin(t) = rec3 {
        assert_eq!(t.ts_us, 3000);
        assert!((f(t.odom_yaw) - 4.0).abs() < 1e-5);
        let (ax, ay) = t.contact_anchor.expect("v2 packet carries anchor");
        assert!((f(ax) - 4.1).abs() < 1e-5);
        assert!((f(ay) - 4.2).abs() < 1e-5);
    } else {
        panic!("expected Twin (v2)");
    }
    assert!(r.next().is_none());
}

#[test]
fn a_frame_of_the_wrong_size_is_not_recorded() {
    let mut rec = SessionRecorder::create(1);
    let before = rec.flush().len();
    assert_eq!(before, 16);
    assert_eq!(
        rec.tof(1, d(0.0), 8, 8, &[s(1.0)], &[0]),
        Err(ZoneMismatch)
    );
    assert!(rec.flush().is_empty());
}

#[test]
fn what_is_no_log_is_refused() {
    assert!(matches!(
        SessionReplayer::open(b"NOPE".to_vec()),
        Err(LogError::UnexpectedEof) | Err(LogError::NotALog { .. })
    ));
    let mut wrong = header(1);
    wrong[0] = b'X';
    assert!(matches!(
        SessionReplayer::open(wrong),
        Err(LogError::NotALog { .. })
    ));
    assert!(SessionReplayer::open(header(99)).is_err());
}

#[test]
fn a_torn_record_ends_in_an_error() {
    let mut bytes = synthetic();
    bytes.truncate(bytes.len() - 1);
    let mut r = SessionReplayer::open(bytes).unwrap();
    assert!(r.next().unwrap().is_ok());
    assert!(r.next().unwrap().is_ok());
    assert!(r.next().unwrap().is_err());
}

#[test]
fn a_payload_of_the_wrong_size_is_refused() {
    let mut bytes = header(2);
    framed(&mut bytes, 1, STREAM_TWIN, &[0; 10]);
    let mut r = SessionReplayer::open(bytes).unwrap();
    let error = r.next().unwrap().unwrap_err();
    assert!(error.describe().contains("10"), "{}", error.describe());
}
