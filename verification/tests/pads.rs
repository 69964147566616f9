use microduck::pad::{DriverState, PadPairFailure, PadPairResult};
use microduck::pads::{
    after_sweep, begin_pairing, bond_step, candidates, driver_state, first_adapter,
    first_bond_step, forgotten, is_already_paired, pair, permit, state, status, to_forget,
    BondEvent, BondStep, DriverReply, PairEvent, Pairing, Properties, Seen, Snapshot, Sweep,
    NOT_FOUND, NO_ADAPTER,
};
use microduck::span::Span;

fn device(mac: &str, name: &str) -> Snapshot {
    Snapshot {
        path: format!("/org/bluez/hci0/dev_{}", mac),
        mac: mac.to_string(),
        name: name.to_string(),
        icon: None,
        class: None,
        appearance: None,
        paired: false,
        trusted: false,
        connected: false,
    }
}

fn seen(device: Snapshot, gamepad: bool) -> Seen {
    Seen { device, gamepad }
}

fn bonded(mac: &str, name: &str, connected: bool) -> Snapshot {
    let mut d = device(mac, name);
    d.paired = true;
    d.trusted = true;
    d.connected = connected;
    d
}

fn nothing_known() -> Properties {
    Properties {
        address: None,
        alias: None,
        name: None,
        icon: None,
        class: None,
        appearance: None,
        paired: None,
        trusted: None,
        connected: None,
    }
}

#[test]
fn a_device_without_an_address_is_not_read() {
    assert!(Snapshot::read("/dev".to_string(), nothing_known()).is_none());
}

#[test]
fn a_device_is_read_with_what_is_known_of_it() {
    let mut props = nothing_known();
    props.address = Some("AA:BB".to_string());
    props.name = Some("Wireless Controller".to_string());
    props.alias = Some("mine".to_string());
    props.paired = Some(true);
    props.class = Some(0x2508);
    let d = Snapshot::read("/dev".to_string(), props).unwrap();
    assert_eq!(d.mac, "AA:BB");
    assert_eq!(d.name, "mine");
    assert_eq!(d.class, Some(0x2508));
    assert!(d.paired && !d.trusted && !d.connected);
}

#[test]
fn the_plain_name_stands_in_for_a_missing_alias() {
    let mut props = nothing_known();
    props.address = Some("AA:BB".to_string());
    props.name = Some("Wireless Controller".to_string());
    assert_eq!(Snapshot::read("/dev".to_string(), props).unwrap().name, "Wireless Controller");
    let mut bare = nothing_known();
    bare.address = Some("AA:BB".to_string());
    assert_eq!(Snapshot::read("/dev".to_string(), bare).unwrap().name, "");
}

#[test]
fn a_named_address_bypasses_the_looks() {
    let all = vec![
        seen(device("AA:BB", "headset"), false),
        seen(device("CC:DD", "pad"), true),
    ];
    let looks = candidates(&all, None);
    assert_eq!(looks.len(), 1);
    assert_eq!(looks[0].mac, "CC:DD");
    let named = candidates(&all, Some("aa:bb"));
    assert_eq!(named.len(), 1);
    assert_eq!(named[0].name, "headset");
    assert!(candidates(&all, Some("EE:FF")).is_empty());
}

#[test]
fn a_sweep_waits_no_longer_than_what_is_left() {
    assert_eq!(after_sweep(true, Span::zero()), Sweep::Found);
    assert_eq!(after_sweep(false, Span::zero()), Sweep::GiveUp);
    assert_eq!(after_sweep(false, Span::from_millis(100)), Sweep::Wait(100_000_000));
    assert_eq!(after_sweep(false, Span::from_secs(30)), Sweep::Wait(500_000_000));
}

#[test]
fn the_agent_permits_one_device() {
    assert_eq!(permit("/dev/a", "/dev/a"), Ok(()));
    assert_eq!(permit("/dev/b", "/dev/a"), Err("this robot is not pairing with that device"));
}

#[test]
fn a_bond_connects_then_pairs_then_trusts() {
    assert_eq!(first_bond_step(false), BondStep::Connect);
    assert_eq!(bond_step(BondStep::Connect, BondEvent::Succeeded), Ok(BondStep::Pair));
    assert_eq!(bond_step(BondStep::Pair, BondEvent::Succeeded), Ok(BondStep::Trust));
    assert_eq!(bond_step(BondStep::Trust, BondEvent::Succeeded), Ok(BondStep::Done));
}

#[test]
fn a_bond_in_hand_is_only_trusted() {
    assert_eq!(first_bond_step(true), BondStep::Trust);
}

#[test]
fn a_pad_that_bonded_while_connecting_counts_as_paired() {
    assert!(is_already_paired(Some("org.bluez.Error.AlreadyExists")));
    assert!(!is_already_paired(Some("org.bluez.Error.AuthenticationFailed")));
    assert!(!is_already_paired(None));
    let refused = BondEvent::Refused { already: true, detail: "already".to_string() };
    assert_eq!(bond_step(BondStep::Pair, refused), Ok(BondStep::Trust));
}

#[test]
fn every_way_a_bond_fails_has_its_reason() {
    let no = |s: &str| BondEvent::Refused { already: false, detail: s.to_string() };
    assert_eq!(
        bond_step(BondStep::Connect, no("page timeout")),
        Err((PadPairFailure::Rejected, "page timeout".to_string()))
    );
    assert_eq!(
        bond_step(BondStep::Connect, BondEvent::TimedOut),
        Err((PadPairFailure::Timeout, "the pad did not finish connecting".to_string()))
    );
    assert_eq!(
        bond_step(BondStep::Pair, BondEvent::TimedOut),
        Err((PadPairFailure::Timeout, "the pad did not finish pairing".to_string()))
    );
    assert_eq!(
        bond_step(BondStep::Pair, no("wrong pin")),
        Err((PadPairFailure::Rejected, "wrong pin".to_string()))
    );
    assert_eq!(
        bond_step(BondStep::Trust, no("gone")),
        Err((PadPairFailure::Other, "gone".to_string()))
    );
}

fn failure(state: Pairing) -> (PadPairFailure, String) {
    match state {
        Pairing::Finished { result: PadPairResult::Failed { reason, detail } } => {
            (reason, detail.unwrap())
        }
        _ => panic!("not a refusal"),
    }
}

fn searching(found: Vec<Snapshot>) -> Pairing {
    let mut s = begin_pairing();
    s = pair(s, PairEvent::Adapter { present: true }, None);
    assert!(matches!(s, Pairing::CheckBonded));
    s = pair(s, PairEvent::Devices { seen: vec![] }, None);
    assert!(matches!(s, Pairing::StartDiscovery));
    s = pair(s, PairEvent::Started, None);
    assert!(matches!(s, Pairing::Search));
    s = pair(s, PairEvent::Found { found }, None);
    assert!(matches!(s, Pairing::StopDiscovery { .. }));
    pair(s, PairEvent::Stopped, None)
}

#[test]
fn no_adapter_is_said_so() {
    let s = pair(begin_pairing(), PairEvent::Adapter { present: false }, None);
    assert_eq!(failure(s), (PadPairFailure::NoAdapter, NO_ADAPTER.to_string()));
}

#[test]
fn nothing_found_is_not_found() {
    assert_eq!(failure(searching(vec![])), (PadPairFailure::NotFound, NOT_FOUND.to_string()));
}

#[test]
fn two_pads_are_ambiguous_and_named() {
    let found = vec![device("AA:BB", "one"), device("CC:DD", "two")];
    assert_eq!(
        failure(searching(found)),
        (
            PadPairFailure::Ambiguous,
            "more than one pad is in pairing mode: one (AA:BB), two (CC:DD)".to_string()
        )
    );
}

#[test]
fn one_pad_is_bonded_and_reread() {
    let s = searching(vec![device("AA:BB", "one")]);
    let bonding = matches!(&s, Pairing::Bond { device } if device.mac == "AA:BB");
    assert!(bonding);
    let s = pair(s, PairEvent::Bonded { failure: None }, None);
    assert!(matches!(s, Pairing::Reread { .. }));
    let now = vec![seen(bonded("aa:bb", "one", true), true)];
    match pair(s, PairEvent::Devices { seen: now }, None) {
        Pairing::Finished { result: PadPairResult::Paired { pad } } => {
            assert!(pad.paired && pad.trusted && pad.connected);
        }
        _ => panic!("not paired"),
    }
}

#[test]
fn a_bonded_pad_the_daemon_forgot_is_reported_as_bonded() {
    let s = searching(vec![device("AA:BB", "one")]);
    let s = pair(s, PairEvent::Bonded { failure: None }, None);
    match pair(s, PairEvent::Devices { seen: vec![] }, None) {
        Pairing::Finished { result: PadPairResult::Paired { pad } } => {
            assert_eq!(pad.mac, "AA:BB");
            assert!(pad.paired && pad.trusted && !pad.connected);
        }
        _ => panic!("not paired"),
    }
}

#[test]
fn a_failed_bond_is_the_answer() {
    let s = searching(vec![device("AA:BB", "one")]);
    let why = Some((PadPairFailure::Timeout, "slow".to_string()));
    let s = pair(s, PairEvent::Bonded { failure: why }, None);
    assert_eq!(failure(s), (PadPairFailure::Timeout, "slow".to_string()));
}

#[test]
fn a_pad_already_bonded_is_left_alone() {
    let s = pair(begin_pairing(), PairEvent::Adapter { present: true }, None);
    let all = vec![seen(bonded("AA:BB", "one", false), true)];
    match pair(s, PairEvent::Devices { seen: all }, None) {
        Pairing::Finished { result: PadPairResult::Paired { pad } } => assert_eq!(pad.mac, "AA:BB"),
        _ => panic!("not paired"),
    }
}

#[test]
fn a_failed_search_still_stops_discovery() {
    let mut s = pair(begin_pairing(), PairEvent::Adapter { present: true }, None);
    s = pair(s, PairEvent::Devices { seen: vec![] }, None);
    s = pair(s, PairEvent::Started, None);
    s = pair(s, PairEvent::Error { detail: "bus".to_string() }, None);
    assert!(matches!(s, Pairing::StopFailed { .. }));
    s = pair(s, PairEvent::Stopped, None);
    let broken = matches!(&s, Pairing::Broken { detail } if detail == "bus");
    assert!(broken);
}

#[test]
fn discovery_that_would_not_stop_does_not_lose_the_pad() {
    let state = Pairing::StopDiscovery { found: vec![device("AA:BB", "one")] };
    let next = pair(state, PairEvent::Error { detail: "busy".to_string() }, None);
    let bonding = matches!(&next, Pairing::Bond { device } if device.mac == "AA:BB");
    assert!(bonding);
}

#[test]
fn forgetting_an_unknown_pad_removes_nothing() {
    let all = vec![seen(bonded("AA:BB", "one", false), true)];
    assert!(to_forget(false, &all, "AA:BB").is_none());
    assert!(to_forget(true, &all, "CC:DD").is_none());
    assert!(!forgotten(&None).removed);
    let found = to_forget(true, &all, "aa:bb");
    assert_eq!(found.as_ref().unwrap().name, "one");
    assert!(forgotten(&found).removed);
}

#[test]
fn a_report_puts_the_pad_in_hand_first() {
    let all = vec![
        seen(bonded("1", "zeta", false), true),
        seen(bonded("2", "alpha", false), true),
        seen(bonded("3", "beta", true), true),
        seen(bonded("4", "headset", true), false),
        seen(device("5", "stranger"), true),
    ];
    let pads = status(&all);
    assert_eq!(pads.len(), 3);
    assert_eq!(pads[0].name, "beta");
    assert_eq!(pads[1].name, "alpha");
    assert_eq!(pads[2].name, "zeta");
}

#[test]
fn the_first_adapter_does_not_depend_on_the_listing() {
    let one = vec!["/org/bluez/hci1".to_string(), "/org/bluez/hci0".to_string()];
    let two = vec!["/org/bluez/hci0".to_string(), "/org/bluez/hci1".to_string()];
    assert_eq!(first_adapter(&one), Some("/org/bluez/hci0".to_string()));
    assert_eq!(first_adapter(&two), Some("/org/bluez/hci0".to_string()));
    assert_eq!(first_adapter(&vec![]), None);
}

#[test]
fn the_driver_word_decides_the_state() {
    assert_eq!(driver_state("active"), DriverState::Active);
    assert_eq!(driver_state("activating"), DriverState::Active);
    assert_eq!(driver_state("reloading"), DriverState::Active);
    assert_eq!(driver_state("inactive"), DriverState::Inactive);
    assert_eq!(driver_state("deactivating"), DriverState::Inactive);
    assert_eq!(driver_state("failed"), DriverState::Inactive);
    assert_eq!(driver_state("maintenance"), DriverState::Unknown);
    assert_eq!(state(&DriverReply::NoUnit), DriverState::Absent);
    assert_eq!(state(&DriverReply::Unreachable), DriverState::Unknown);
    assert_eq!(state(&DriverReply::Active("active".to_string())), DriverState::Active);
}
