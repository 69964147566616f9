//! Gamepad pairing: what to do next, and what to say about it.
//!
//! The order is the whole trick: connect before pair, and trust after both.
//! Discovery is stopped before connecting, and on every way out. The Bluetooth
//! daemon is reached by the caller, who performs each step and reports what came of
//! it.

use vstd::prelude::*;
use crate::pad::{DriverState, Pad, PadForgetResult, PadPairFailure, PadPairResult};
use crate::span::Span;
use crate::text::{chars_of, eq_ignore_ascii_case, same_text};
use crate::text::same_but_case;

verus! {

/// What the daemon reports of one device; it leaves out what it does not know.
pub struct Properties {
    pub address: Option<String>,
    pub alias: Option<String>,
    pub name: Option<String>,
    pub icon: Option<String>,
    pub class: Option<u32>,
    pub appearance: Option<u16>,
    pub paired: Option<bool>,
    pub trusted: Option<bool>,
    pub connected: Option<bool>,
}

/// What is currently known about one device.
#[derive(Debug, PartialEq, Eq)]
pub struct Snapshot {
    pub path: String,
    pub mac: String,
    pub name: String,
    pub icon: Option<String>,
    pub class: Option<u32>,
    pub appearance: Option<u16>,
    pub paired: bool,
    pub trusted: bool,
    pub connected: bool,
}

pub open spec fn flag(value: Option<bool>) -> bool {
    value == Some(true)
}

fn read_flag(value: Option<bool>) -> (r: bool)
    ensures
        r == flag(value),
{
    match value {
        Some(b) => b,
        None => false,
    }
}

fn copy_text(text: &Option<String>) -> (copy: Option<String>)
    ensures
        copy == *text,
{
    match text {
        Some(t) => Some(t.clone()),
        None => None,
    }
}

impl Snapshot {
    /// A device's snapshot, or `None` for one without an address: everything here is
    /// keyed on it. The alias is what the daemon shows, so it is the better name.
    pub fn read(path: String, props: Properties) -> (device: Option<Snapshot>)
        ensures
            device is Some <==> props.address is Some,
            device matches Some(d) ==> {
                &&& d.path == path
                &&& Some(d.mac) == props.address
                &&& match (props.alias, props.name) {
                    (Some(alias), _) => d.name == alias,
                    (None, Some(name)) => d.name == name,
                    (None, None) => d.name@.len() == 0,
                }
                &&& d.icon == props.icon
                &&& d.class == props.class
                &&& d.appearance == props.appearance
                &&& d.paired == flag(props.paired)
                &&& d.trusted == flag(props.trusted)
                &&& d.connected == flag(props.connected)
            },
    {
        let mac = match props.address {
            Some(mac) => mac,
            None => {
                return None;
            },
        };
        let name = match props.alias {
            Some(alias) => alias,
            None => match props.name {
                Some(name) => name,
                None => String::new(),
            },
        };
        Some(
            Snapshot {
                path,
                mac,
                name,
                icon: props.icon,
                class: props.class,
                appearance: props.appearance,
                paired: read_flag(props.paired),
                trusted: read_flag(props.trusted),
                connected: read_flag(props.connected),
            },
        )
    }

    /// The same snapshot again.
    pub fn duplicate(&self) -> (copy: Snapshot)
        ensures
            copy == *self,
    {
        Snapshot {
            path: self.path.clone(),
            mac: self.mac.clone(),
            name: self.name.clone(),
            icon: copy_text(&self.icon),
            class: self.class,
            appearance: self.appearance,
            paired: self.paired,
            trusted: self.trusted,
            connected: self.connected,
        }
    }

    pub open spec fn spec_pad(self) -> Pad {
        Pad {
            mac: self.mac,
            name: self.name,
            paired: self.paired,
            trusted: self.trusted,
            connected: self.connected,
        }
    }

    pub fn as_pad(&self) -> (pad: Pad)
        ensures
            pad == self.spec_pad(),
    {
        Pad {
            mac: self.mac.clone(),
            name: self.name.clone(),
            paired: self.paired,
            trusted: self.trusted,
            connected: self.connected,
        }
    }
}

/// A device, and whether it looks like a gamepad.
pub struct Seen {
    pub device: Snapshot,
    pub gamepad: bool,
}

/// The device is the one asked for: by its address where one was given, which
/// bypasses the looks entirely, else by looking like a gamepad.
pub open spec fn asked_for(seen: Seen, mac: Option<Seq<char>>) -> bool {
    match mac {
        Some(wanted) => same_but_case(wanted, seen.device.mac@),
        None => seen.gamepad,
    }
}

/// The text's characters, where there is one.
pub open spec fn chars_in(text: Option<&str>) -> Option<Seq<char>> {
    match text {
        Some(t) => Some(t@),
        None => None,
    }
}

fn same_address(a: &str, b: &str) -> (r: bool)
    ensures
        r == same_but_case(a@, b@),
{
    eq_ignore_ascii_case(&chars_of(a), &chars_of(b))
}

fn is_asked_for(seen: &Seen, mac: Option<&str>) -> (r: bool)
    ensures
        r == asked_for(*seen, chars_in(mac)),
{
    match mac {
        Some(wanted) => same_address(wanted, seen.device.mac.as_str()),
        None => seen.gamepad,
    }
}

/// The devices that a search is after.
pub open spec fn candidates_in(devices: Seq<Seen>, mac: Option<Seq<char>>) -> Seq<Snapshot> {
    devices.filter(|s: Seen| asked_for(s, mac)).map_values(|s: Seen| s.device)
}

/// The devices among those seen that a search is after.
pub fn candidates(devices: &Vec<Seen>, mac: Option<&str>) -> (found: Vec<Snapshot>)
    ensures
        found@ == candidates_in(devices@, chars_in(mac)),
{
    let ghost wanted = chars_in(mac);
    let ghost keep = |s: Seen| asked_for(s, wanted);
    let ghost pick = |s: Seen| s.device;
    let mut found: Vec<Snapshot> = Vec::new();
    let mut i: usize = 0;
    proof {
        reveal(Seq::filter);
        assert(devices@.take(0).filter(keep).map_values(pick) =~= Seq::<Snapshot>::empty());
    }
    while i < devices.len()
        invariant
            i <= devices.len(),
            wanted == chars_in(mac),
            keep == (|s: Seen| asked_for(s, wanted)),
            pick == (|s: Seen| s.device),
            found@ == devices@.take(i as int).filter(keep).map_values(pick),
        decreases devices.len() - i,
    {
        let seen = &devices[i];
        let ghost before = devices@.take(i as int).filter(keep);
        let ghost after = devices@.take(i + 1).filter(keep);
        proof {
            reveal(Seq::filter);
            assert(devices@.take(i + 1).drop_last() =~= devices@.take(i as int));
            assert(after == if keep(*seen) {
                before.push(*seen)
            } else {
                before
            });
            assert(before.push(*seen).map_values(pick) =~= before.map_values(pick).push(
                seen.device,
            ));
        }
        if is_asked_for(seen, mac) {
            found.push(seen.device.duplicate());
        }
        i = i + 1;
    }
    assert(devices@.take(devices.len() as int) =~= devices@);
    found
}

/// What a search does after a sweep.
#[derive(Debug, Clone, Copy, PartialEq, Eq)]
pub enum Sweep {
    /// Something turned up: done.
    Found,
    /// Nothing did, and the time is up.
    GiveUp,
    /// Look again after this many nanoseconds.
    Wait(u128),
}

/// How often to look again, in nanoseconds.
pub const DISCOVERY_POLL_NANOS: u128 = 500_000_000;

/// What follows a sweep that found something or not, with so many nanoseconds left.
pub open spec fn sweep_next(found: bool, left: int) -> Sweep {
    if found {
        Sweep::Found
    } else if left == 0 {
        Sweep::GiveUp
    } else if left < DISCOVERY_POLL_NANOS {
        Sweep::Wait(left as u128)
    } else {
        Sweep::Wait(DISCOVERY_POLL_NANOS)
    }
}

/// After a sweep that found something or not, `left` being the time to the deadline.
pub fn after_sweep(found: bool, left: Span) -> (next: Sweep)
    ensures
        next == sweep_next(found, left.spec_nanos()),
{
    let nanos: u128 = left.nanos();
    if found {
        Sweep::Found
    } else if nanos == 0 {
        Sweep::GiveUp
    } else if nanos < DISCOVERY_POLL_NANOS {
        Sweep::Wait(nanos)
    } else {
        Sweep::Wait(DISCOVERY_POLL_NANOS)
    }
}

// The agent

/// The agent says yes to exactly one device.
pub fn permit(device: &str, expected: &str) -> (allowed: Result<(), &'static str>)
    ensures
        device@ == expected@ ==> allowed == Ok::<(), &'static str>(()),
        device@ != expected@ ==> (allowed matches Err(e) && e@
            == "this robot is not pairing with that device"@),
{
    if same_text(device, expected) {
        Ok(())
    } else {
        Err("this robot is not pairing with that device")
    }
}

// Bonding

/// What to do next for a bond.
#[derive(Debug, Clone, Copy, PartialEq, Eq, Structural)]
pub enum BondStep {
    Connect,
    Pair,
    Trust,
    Done,
}

/// How a step of a bond went.
pub enum BondEvent {
    Succeeded,
    /// The time for the step ran out.
    TimedOut,
    /// The daemon refused; `already` when it did because the bond exists.
    Refused { already: bool, detail: String },
}

/// The name of the error by which the daemon says that the bond already exists.
pub const ALREADY_EXISTS: &'static str = "org.bluez.Error.AlreadyExists";

/// Did the daemon refuse because the bond already exists? `name` is the name of the
/// error it answered with, if it did.
pub fn is_already_paired(name: Option<&str>) -> (r: bool)
    ensures
        r == (name matches Some(n) && n@ == ALREADY_EXISTS@),
{
    match name {
        Some(n) => same_text(n, ALREADY_EXISTS),
        None => false,
    }
}

/// A bond in hand is only trusted; otherwise connect first.
pub fn first_bond_step(paired: bool) -> (step: BondStep)
    ensures
        step == if paired {
            BondStep::Trust
        } else {
            BondStep::Connect
        },
{
    if paired {
        BondStep::Trust
    } else {
        BondStep::Connect
    }
}

/// What comes after a step of a bond: connect, then pair, then trust. A refusal
/// because the bond exists is success, since a pad may bond while connecting.
pub open spec fn bond_next(step: BondStep, event: BondEvent) -> Result<
    BondStep,
    (PadPairFailure, Seq<char>),
> {
    match (step, event) {
        (BondStep::Connect, BondEvent::Succeeded) => Ok(BondStep::Pair),
        (BondStep::Connect, BondEvent::TimedOut) => Err(
            (PadPairFailure::Timeout, "the pad did not finish connecting"@),
        ),
        (BondStep::Connect, BondEvent::Refused { already, detail }) => Err(
            (PadPairFailure::Rejected, detail@),
        ),
        (BondStep::Pair, BondEvent::Succeeded) => Ok(BondStep::Trust),
        (BondStep::Pair, BondEvent::TimedOut) => Err(
            (PadPairFailure::Timeout, "the pad did not finish pairing"@),
        ),
        (BondStep::Pair, BondEvent::Refused { already, detail }) => if already {
            Ok(BondStep::Trust)
        } else {
            Err((PadPairFailure::Rejected, detail@))
        },
        (BondStep::Trust, BondEvent::Succeeded) => Ok(BondStep::Done),
        // Trusting has no time limit.
        (BondStep::Trust, BondEvent::TimedOut) => Ok(BondStep::Trust),
        (BondStep::Trust, BondEvent::Refused { already, detail }) => Err(
            (PadPairFailure::Other, detail@),
        ),
        (BondStep::Done, _) => Ok(BondStep::Done),
    }
}

/// The next step of a bond, or why it failed.
pub fn bond_step(step: BondStep, event: BondEvent) -> (next: Result<
    BondStep,
    (PadPairFailure, String),
>)
    ensures
        match bond_next(step, event) {
            Ok(s) => next == Ok::<BondStep, (PadPairFailure, String)>(s),
            Err((reason, detail)) => next matches Err((r, d)) && r == reason && d@ == detail,
        },
{
    match (step, event) {
        (BondStep::Connect, BondEvent::Succeeded) => Ok(BondStep::Pair),
        (BondStep::Connect, BondEvent::TimedOut) => Err(
            (PadPairFailure::Timeout, "the pad did not finish connecting".to_owned()),
        ),
        (BondStep::Connect, BondEvent::Refused { already: _, detail }) => Err(
            (PadPairFailure::Rejected, detail),
        ),
        (BondStep::Pair, BondEvent::Succeeded) => Ok(BondStep::Trust),
        (BondStep::Pair, BondEvent::TimedOut) => Err(
            (PadPairFailure::Timeout, "the pad did not finish pairing".to_owned()),
        ),
        (BondStep::Pair, BondEvent::Refused { already, detail }) => if already {
            Ok(BondStep::Trust)
        } else {
            Err((PadPairFailure::Rejected, detail))
        },
        (BondStep::Trust, BondEvent::Succeeded) => Ok(BondStep::Done),
        (BondStep::Trust, BondEvent::TimedOut) => Ok(BondStep::Trust),
        (BondStep::Trust, BondEvent::Refused { already: _, detail }) => Err(
            (PadPairFailure::Other, detail),
        ),
        (BondStep::Done, _) => Ok(BondStep::Done),
    }
}

/// A pad is only trusted once it is bonded: it connected and paired in this attempt,
/// or the bond turned out to exist.
pub proof fn law_trust_comes_after_the_bond(step: BondStep, event: BondEvent)
    requires
        step != BondStep::Trust,
        bond_next(step, event) == Ok::<BondStep, (PadPairFailure, Seq<char>)>(BondStep::Trust),
    ensures
        step == BondStep::Pair,
        event is Succeeded || (event matches BondEvent::Refused { already, detail } && already),
{
}

// Pairing

/// Where a pairing has got to, which is what to do next.
pub enum Pairing {
    /// Look for an adapter and power it on.
    FindAdapter,
    /// List the devices, to see whether the pad is already bonded.
    CheckBonded,
    StartDiscovery,
    /// Look for the pad until the window closes.
    Search,
    /// Stop discovery; then go on with what the search found.
    StopDiscovery { found: Vec<Snapshot> },
    /// Stop discovery; then report that the search failed.
    StopFailed { detail: String },
    /// Serve an agent for this device, and bond it.
    Bond { device: Snapshot },
    /// List the devices again, to report what the daemon ended up with.
    Reread { device: Snapshot },
    Finished { result: PadPairResult },
    /// Something on the way could not be done at all.
    Broken { detail: String },
}

/// What came of it.
pub enum PairEvent {
    Adapter { present: bool },
    Devices { seen: Vec<Seen> },
    Started,
    Found { found: Vec<Snapshot> },
    /// Discovery was stopped, or could not be: either way the pairing goes on.
    Stopped,
    Bonded { failure: Option<(PadPairFailure, String)> },
    /// The step failed in a way that ends the attempt.
    Error { detail: String },
}

pub const NO_ADAPTER: &'static str =
    "no Bluetooth adapter. On this board hci0 appears about 73s after power-on.";

pub const NOT_FOUND: &'static str =
    "nothing that looks like a gamepad turned up. Hold the pad's pairing button until its light flashes quickly, then try again.";

pub const AMBIGUOUS: &'static str = "more than one pad is in pairing mode: ";

/// A pad already bonded and trusted that is the one asked for.
pub open spec fn bonded_match(seen: Seen, mac: Option<Seq<char>>) -> bool {
    seen.device.paired && seen.device.trusted && asked_for(seen, mac)
}

/// The first of the devices that is already bonded and trusted and asked for.
pub open spec fn first_bonded(devices: Seq<Seen>, mac: Option<Seq<char>>) -> Option<Pad>
    decreases devices.len(),
{
    if devices.len() == 0 {
        None
    } else if bonded_match(devices[0], mac) {
        Some(devices[0].device.spec_pad())
    } else {
        first_bonded(devices.skip(1), mac)
    }
}

/// The first of the devices with that address.
pub open spec fn first_with_mac(devices: Seq<Seen>, mac: Seq<char>) -> Option<Snapshot>
    decreases devices.len(),
{
    if devices.len() == 0 {
        None
    } else if same_but_case(devices[0].device.mac@, mac) {
        Some(devices[0].device)
    } else {
        first_with_mac(devices.skip(1), mac)
    }
}

/// `name (mac)` of each device, separated by commas.
pub open spec fn names_of(devices: Seq<Snapshot>) -> Seq<char>
    decreases devices.len(),
{
    if devices.len() == 0 {
        Seq::empty()
    } else {
        let last = devices.last();
        let own = last.name@ + " ("@ + last.mac@ + ")"@;
        if devices.len() == 1 {
            own
        } else {
            names_of(devices.drop_last()) + ", "@ + own
        }
    }
}

/// A failed pairing with that reason and that explanation.
pub open spec fn failed_with(
    result: PadPairResult,
    reason: PadPairFailure,
    detail: Seq<char>,
) -> bool {
    result matches PadPairResult::Failed { reason: r, detail: Some(d) } && r == reason && d@
        == detail
}

/// What a pairing goes on with once discovery is stopped: exactly one candidate is
/// bonded; none and several are refusals.
pub open spec fn after_discovery(found: Seq<Snapshot>, next: Pairing) -> bool {
    if found.len() == 0 {
        next matches Pairing::Finished { result } && failed_with(
            result,
            PadPairFailure::NotFound,
            NOT_FOUND@,
        )
    } else if found.len() == 1 {
        next matches Pairing::Bond { device } && device == found[0]
    } else {
        next matches Pairing::Finished { result } && failed_with(
            result,
            PadPairFailure::Ambiguous,
            AMBIGUOUS@ + names_of(found),
        )
    }
}

/// What is reported of a pad that was just bonded: what the daemon now says of it, or
/// what is known to have been done where it says nothing.
pub open spec fn bonded_pad(device: Snapshot, now: Option<Snapshot>) -> Pad {
    match now {
        Some(d) => d.spec_pad(),
        None => Pad { paired: true, trusted: true, ..device.spec_pad() },
    }
}

/// The pairing goes on from `state` to `next` when `event` happens. Failing to stop
/// discovery changes nothing about what was found.
pub open spec fn pairs_on(
    state: Pairing,
    event: PairEvent,
    mac: Option<Seq<char>>,
    next: Pairing,
) -> bool {
    match (state, event) {
        (Pairing::Search, PairEvent::Error { detail }) => next == (Pairing::StopFailed { detail }),
        (Pairing::Finished { result }, _) => next == state,
        (Pairing::Broken { detail }, _) => next == state,
        (Pairing::StopDiscovery { found }, PairEvent::Error { .. }) => after_discovery(
            found@,
            next,
        ),
        (Pairing::StopFailed { detail }, PairEvent::Error { .. }) => next == (Pairing::Broken {
            detail,
        }),
        (_, PairEvent::Error { detail }) => next == (Pairing::Broken { detail }),
        (Pairing::FindAdapter, PairEvent::Adapter { present }) => if present {
            next is CheckBonded
        } else {
            next matches Pairing::Finished { result } && failed_with(
                result,
                PadPairFailure::NoAdapter,
                NO_ADAPTER@,
            )
        },
        (Pairing::CheckBonded, PairEvent::Devices { seen }) => match first_bonded(seen@, mac) {
            Some(pad) => next == (Pairing::Finished { result: PadPairResult::Paired { pad } }),
            None => next is StartDiscovery,
        },
        (Pairing::StartDiscovery, PairEvent::Started) => next is Search,
        (Pairing::Search, PairEvent::Found { found }) => next == (Pairing::StopDiscovery { found }),
        (Pairing::StopDiscovery { found }, PairEvent::Stopped) => after_discovery(found@, next),
        (Pairing::StopFailed { detail }, PairEvent::Stopped) => next == (Pairing::Broken {
            detail,
        }),
        (Pairing::Bond { device }, PairEvent::Bonded { failure }) => match failure {
            None => next == (Pairing::Reread { device }),
            Some((reason, detail)) => next == (Pairing::Finished {
                result: PadPairResult::Failed { reason, detail: Some(detail) },
            }),
        },
        (Pairing::Reread { device }, PairEvent::Devices { seen }) => next == (Pairing::Finished {
            result: PadPairResult::Paired {
                pad: bonded_pad(device, first_with_mac(seen@, device.mac@)),
            },
        }),
        // An event that does not belong to the step.
        _ => next == state,
    }
}

fn find_bonded(seen: &Vec<Seen>, mac: Option<&str>) -> (pad: Option<Pad>)
    ensures
        pad == first_bonded(seen@, chars_in(mac)),
{
    let ghost wanted = chars_in(mac);
    let mut i: usize = 0;
    assert(seen@.skip(0) =~= seen@);
    while i < seen.len()
        invariant
            i <= seen.len(),
            wanted == chars_in(mac),
            first_bonded(seen@, wanted) == first_bonded(seen@.skip(i as int), wanted),
        decreases seen.len() - i,
    {
        let one = &seen[i];
        assert(seen@.skip(i as int)[0] == *one);
        assert(seen@.skip(i as int).skip(1) =~= seen@.skip(i + 1));
        if one.device.paired && one.device.trusted && is_asked_for(one, mac) {
            return Some(one.device.as_pad());
        }
        i = i + 1;
    }
    None
}

fn find_mac(seen: &Vec<Seen>, mac: &str) -> (device: Option<Snapshot>)
    ensures
        device == first_with_mac(seen@, mac@),
{
    let mut i: usize = 0;
    assert(seen@.skip(0) =~= seen@);
    while i < seen.len()
        invariant
            i <= seen.len(),
            first_with_mac(seen@, mac@) == first_with_mac(seen@.skip(i as int), mac@),
        decreases seen.len() - i,
    {
        let one = &seen[i];
        assert(seen@.skip(i as int)[0] == *one);
        assert(seen@.skip(i as int).skip(1) =~= seen@.skip(i + 1));
        if same_address(one.device.mac.as_str(), mac) {
            return Some(one.device.duplicate());
        }
        i = i + 1;
    }
    None
}

fn list_names(devices: &Vec<Snapshot>) -> (names: String)
    ensures
        names@ == names_of(devices@),
{
    let mut names = String::new();
    let mut i: usize = 0;
    while i < devices.len()
        invariant
            i <= devices.len(),
            names@ == names_of(devices@.take(i as int)),
        decreases devices.len() - i,
    {
        let d = &devices[i];
        let ghost before = names@;
        assert(devices@.take(i + 1).drop_last() =~= devices@.take(i as int));
        assert(devices@.take(i + 1).last() == *d);
        if i > 0 {
            names.append(", ");
        }
        names.append(d.name.as_str());
        names.append(" (");
        names.append(d.mac.as_str());
        names.append(")");
        proof {
            let own = d.name@ + " ("@ + d.mac@ + ")"@;
            if i > 0 {
                assert(names@ =~= before + ", "@ + own);
            } else {
                assert(names@ =~= own);
            }
        }
        i = i + 1;
    }
    assert(devices@.take(devices.len() as int) =~= devices@);
    names
}

fn settle(found: Vec<Snapshot>) -> (next: Pairing)
    ensures
        after_discovery(found@, next),
{
    if found.len() == 0 {
        return Pairing::Finished {
            result: PadPairResult::Failed {
                reason: PadPairFailure::NotFound,
                detail: Some(NOT_FOUND.to_owned()),
            },
        };
    }
    if found.len() == 1 {
        return Pairing::Bond { device: found[0].duplicate() };
    }
    let mut detail = AMBIGUOUS.to_owned();
    detail.append(list_names(&found).as_str());
    Pairing::Finished {
        result: PadPairResult::Failed { reason: PadPairFailure::Ambiguous, detail: Some(detail) },
    }
}

/// Starts a pairing.
pub fn begin_pairing() -> (state: Pairing)
    ensures
        state is FindAdapter,
{
    Pairing::FindAdapter
}

/// Goes on with a pairing; `mac` is the address asked for, if one was.
pub fn pair(state: Pairing, event: PairEvent, mac: Option<&str>) -> (next: Pairing)
    ensures
        pairs_on(state, event, chars_in(mac), next),
{
    match (state, event) {
        (Pairing::Search, PairEvent::Error { detail }) => Pairing::StopFailed { detail },
        (Pairing::Finished { result }, _) => Pairing::Finished { result },
        (Pairing::Broken { detail }, _) => Pairing::Broken { detail },
        (Pairing::StopDiscovery { found }, PairEvent::Error { .. }) => settle(found),
        (Pairing::StopFailed { detail }, PairEvent::Error { .. }) => Pairing::Broken { detail },
        (_, PairEvent::Error { detail }) => Pairing::Broken { detail },
        (Pairing::FindAdapter, PairEvent::Adapter { present }) => if present {
            Pairing::CheckBonded
        } else {
            Pairing::Finished {
                result: PadPairResult::Failed {
                    reason: PadPairFailure::NoAdapter,
                    detail: Some(NO_ADAPTER.to_owned()),
                },
            }
        },
        (Pairing::CheckBonded, PairEvent::Devices { seen }) => match find_bonded(&seen, mac) {
            Some(pad) => Pairing::Finished { result: PadPairResult::Paired { pad } },
            None => Pairing::StartDiscovery,
        },
        (Pairing::StartDiscovery, PairEvent::Started) => Pairing::Search,
        (Pairing::Search, PairEvent::Found { found }) => Pairing::StopDiscovery { found },
        (Pairing::StopDiscovery { found }, PairEvent::Stopped) => settle(found),
        (Pairing::StopFailed { detail }, PairEvent::Stopped) => Pairing::Broken { detail },
        (Pairing::Bond { device }, PairEvent::Bonded { failure }) => match failure {
            None => Pairing::Reread { device },
            Some((reason, detail)) => Pairing::Finished {
                result: PadPairResult::Failed { reason, detail: Some(detail) },
            },
        },
        (Pairing::Reread { device }, PairEvent::Devices { seen }) => {
            let pad = match find_mac(&seen, device.mac.as_str()) {
                Some(now) => now.as_pad(),
                None => Pad {
                    mac: device.mac.clone(),
                    name: device.name.clone(),
                    paired: true,
                    trusted: true,
                    connected: device.connected,
                },
            };
            Pairing::Finished { result: PadPairResult::Paired { pad } }
        },
        (other, _) => other,
    }
}

/// The adapter is scanning in this state.
pub open spec fn scanning(state: Pairing) -> bool {
    state is Search || state is StopDiscovery || state is StopFailed
}

/// Discovery that was started is stopped before anything is bonded and on every way
/// out: a scanning adapter leaves that state only by being told to stop.
pub proof fn law_discovery_is_always_stopped(
    state: Pairing,
    event: PairEvent,
    mac: Option<Seq<char>>,
    next: Pairing,
)
    requires
        pairs_on(state, event, mac, next),
        scanning(state),
        !scanning(next),
    ensures
        state is StopDiscovery || state is StopFailed,
        event is Stopped || event is Error,
{
}

/// Nothing is bonded that was not the only candidate found.
pub proof fn law_only_a_sole_candidate_is_bonded(
    state: Pairing,
    event: PairEvent,
    mac: Option<Seq<char>>,
    next: Pairing,
)
    requires
        pairs_on(state, event, mac, next),
        next is Bond,
        !(state is Bond),
    ensures
        state matches Pairing::StopDiscovery { found } && found@.len() == 1 && next == (
        Pairing::Bond { device: found@[0] }),
{
}

/// A pad that is already bonded and trusted is reported as it is, and nothing else is
/// done.
pub proof fn law_bonded_pad_is_left_alone(
    seen: Vec<Seen>,
    mac: Option<Seq<char>>,
    next: Pairing,
    i: int,
)
    requires
        0 <= i < seen@.len(),
        bonded_match(seen@[i], mac),
        pairs_on(Pairing::CheckBonded, PairEvent::Devices { seen }, mac, next),
    ensures
        next matches Pairing::Finished { result } && result is Paired,
{
    lemma_first_bonded(seen@, mac, i);
}

proof fn lemma_first_bonded(seen: Seq<Seen>, mac: Option<Seq<char>>, i: int)
    requires
        0 <= i < seen.len(),
        bonded_match(seen[i], mac),
    ensures
        first_bonded(seen, mac) is Some,
    decreases i,
{
    if i > 0 && !bonded_match(seen[0], mac) {
        assert(seen.skip(1)[i - 1] == seen[i]);
        lemma_first_bonded(seen.skip(1), mac, i - 1);
    }
}

// Forgetting

/// What to do to forget a pad: the device to remove, or `None` when there is nothing
/// to remove, which is also what forgetting an unknown pad answers.
pub fn to_forget(adapter_present: bool, seen: &Vec<Seen>, mac: &str) -> (device: Option<Snapshot>)
    ensures
        device == if adapter_present {
            first_with_mac(seen@, mac@)
        } else {
            None
        },
{
    if adapter_present {
        find_mac(seen, mac)
    } else {
        None
    }
}

/// The answer once the device was removed, or there was none.
pub fn forgotten(device: &Option<Snapshot>) -> (result: PadForgetResult)
    ensures
        result.removed == (device is Some),
{
    PadForgetResult { removed: device.is_some() }
}

// Status

/// Text order by code points.
pub open spec fn text_le(a: Seq<char>, b: Seq<char>) -> bool
    decreases a.len(),
{
    if a.len() == 0 {
        true
    } else if b.len() == 0 {
        false
    } else if a[0] != b[0] {
        a[0] < b[0]
    } else {
        text_le(a.skip(1), b.skip(1))
    }
}

fn is_text_le(a: &[char], b: &[char]) -> (r: bool)
    ensures
        r == text_le(a@, b@),
{
    let mut i: usize = 0;
    assert(a@.skip(0) =~= a@ && b@.skip(0) =~= b@);
    while i < a.len()
        invariant
            i <= a.len(),
            i <= b.len(),
            text_le(a@, b@) == text_le(a@.skip(i as int), b@.skip(i as int)),
        decreases a.len() - i,
    {
        if i >= b.len() {
            return false;
        }
        if a[i] != b[i] {
            return a[i] < b[i];
        }
        assert(a@.skip(i as int).skip(1) =~= a@.skip(i + 1));
        assert(b@.skip(i as int).skip(1) =~= b@.skip(i + 1));
        i = i + 1;
    }
    true
}

/// `a` may stand before `b` in a report: connected pads first, then by name.
pub open spec fn reports_before(a: Pad, b: Pad) -> bool {
    if a.connected != b.connected {
        a.connected
    } else {
        text_le(a.name@, b.name@)
    }
}

fn is_reports_before(a: &Pad, b: &Pad) -> (r: bool)
    ensures
        r == reports_before(*a, *b),
{
    if a.connected != b.connected {
        a.connected
    } else {
        is_text_le(&chars_of(a.name.as_str()), &chars_of(b.name.as_str()))
    }
}

/// The pads with one more put in behind all that may stand before it.
pub open spec fn put_in(pads: Seq<Pad>, pad: Pad) -> Seq<Pad>
    decreases pads.len(),
{
    if pads.len() == 0 || reports_before(pads.last(), pad) {
        pads.push(pad)
    } else {
        put_in(pads.drop_last(), pad).push(pads.last())
    }
}

/// The pads in the order of a report, equal ones in the order they came in.
pub open spec fn in_report_order(pads: Seq<Pad>) -> Seq<Pad>
    decreases pads.len(),
{
    if pads.len() == 0 {
        Seq::empty()
    } else {
        put_in(in_report_order(pads.drop_last()), pads.last())
    }
}

/// The bonded gamepads among the devices.
pub open spec fn bonded_pads(devices: Seq<Seen>) -> Seq<Pad> {
    devices.filter(|s: Seen| s.device.paired && s.gamepad).map_values(
        |s: Seen| s.device.spec_pad(),
    )
}

fn insert_pad(pads: &mut Vec<Pad>, pad: Pad)
    ensures
        final(pads)@ == put_in(old(pads)@, pad),
{
    let ghost all = pads@;
    let mut at: usize = pads.len();
    assert(all.take(all.len() as int) =~= all);
    assert(put_in(all, pad) =~= put_in(all.take(at as int), pad) + all.skip(at as int));
    while at > 0 && !is_reports_before(&pads[at - 1], &pad)
        invariant
            at <= pads.len(),
            pads@ == all,
            put_in(all, pad) == put_in(all.take(at as int), pad) + all.skip(at as int),
        decreases at,
    {
        proof {
            let t = all.take(at as int);
            assert(t.last() == all[at - 1]);
            assert(t.drop_last() =~= all.take(at - 1));
            assert(all.skip(at - 1) =~= seq![all[at - 1]] + all.skip(at as int));
            assert(put_in(all, pad) =~= put_in(all.take(at - 1), pad) + all.skip(at - 1));
        }
        at = at - 1;
    }
    proof {
        let t = all.take(at as int);
        if at > 0 {
            assert(t.last() == all[at - 1]);
        }
        assert(put_in(t, pad) == t.push(pad));
        assert(all.insert(at as int, pad) =~= t.push(pad) + all.skip(at as int));
    }
    pads.insert(at, pad);
}

/// The bonded pads, the one someone is holding first.
pub fn status(devices: &Vec<Seen>) -> (pads: Vec<Pad>)
    ensures
        pads@ == in_report_order(bonded_pads(devices@)),
{
    let ghost keep = |s: Seen| s.device.paired && s.gamepad;
    let ghost pick = |s: Seen| s.device.spec_pad();
    let mut pads: Vec<Pad> = Vec::new();
    let mut i: usize = 0;
    proof {
        reveal(Seq::filter);
        assert(devices@.take(0).filter(keep).map_values(pick) =~= Seq::<Pad>::empty());
        assert(in_report_order(Seq::<Pad>::empty()) =~= Seq::<Pad>::empty());
    }
    while i < devices.len()
        invariant
            i <= devices.len(),
            keep == (|s: Seen| s.device.paired && s.gamepad),
            pick == (|s: Seen| s.device.spec_pad()),
            pads@ == in_report_order(devices@.take(i as int).filter(keep).map_values(pick)),
        decreases devices.len() - i,
    {
        let seen = &devices[i];
        let ghost before = devices@.take(i as int).filter(keep);
        let ghost after = devices@.take(i + 1).filter(keep);
        proof {
            reveal(Seq::filter);
            assert(devices@.take(i + 1).drop_last() =~= devices@.take(i as int));
            assert(after == if keep(*seen) {
                before.push(*seen)
            } else {
                before
            });
            let longer = before.push(*seen).map_values(pick);
            assert(longer =~= before.map_values(pick).push(pick(*seen)));
            assert(longer.drop_last() =~= before.map_values(pick));
        }
        if seen.device.paired && seen.gamepad {
            insert_pad(&mut pads, seen.device.as_pad());
        }
        i = i + 1;
    }
    assert(devices@.take(devices.len() as int) =~= devices@);
    pads
}

/// The first adapter: the one whose path comes first, whatever the order they are
/// listed in.
pub fn first_adapter(paths: &Vec<String>) -> (first: Option<String>)
    ensures
        first is Some <==> paths@.len() > 0,
        first matches Some(f) ==> (exists|i: int| 0 <= i < paths@.len() && paths@[i]@ == f@)
            && forall|i: int| 0 <= i < paths@.len() ==> text_le(f@, (#[trigger] paths@[i])@),
{
    if paths.len() == 0 {
        return None;
    }
    let mut best: usize = 0;
    let mut i: usize = 1;
    proof {
        lemma_text_le_reflexive(paths@[0]@);
    }
    while i < paths.len()
        invariant
            i <= paths.len(),
            best < i,
            forall|j: int| 0 <= j < i ==> text_le(paths@[best as int]@, (#[trigger] paths@[j])@),
        decreases paths.len() - i,
    {
        let closer = !is_text_le(
            &chars_of(paths[best].as_str()),
            &chars_of(paths[i].as_str()),
        );
        proof {
            lemma_text_le_reflexive(paths@[i as int]@);
            if closer {
                let old_best = paths@[best as int]@;
                let new_best = paths@[i as int]@;
                lemma_text_le_total(new_best, old_best);
                assert forall|j: int| 0 <= j < i implies text_le(
                    new_best,
                    (#[trigger] paths@[j])@,
                ) by {
                    lemma_text_le_transitive(new_best, old_best, paths@[j]@);
                }
            }
        }
        if closer {
            best = i;
        }
        i = i + 1;
    }
    Some(paths[best].clone())
}

pub proof fn lemma_text_le_reflexive(a: Seq<char>)
    ensures
        text_le(a, a),
    decreases a.len(),
{
    if a.len() > 0 {
        lemma_text_le_reflexive(a.skip(1));
    }
}

pub proof fn lemma_text_le_total(a: Seq<char>, b: Seq<char>)
    ensures
        text_le(a, b) || text_le(b, a),
    decreases a.len(),
{
    if a.len() > 0 && b.len() > 0 && a[0] == b[0] {
        lemma_text_le_total(a.skip(1), b.skip(1));
    }
}

pub proof fn lemma_text_le_transitive(a: Seq<char>, b: Seq<char>, c: Seq<char>)
    requires
        text_le(a, b),
        text_le(b, c),
    ensures
        text_le(a, c),
    decreases a.len(),
{
    if a.len() > 0 && b.len() > 0 && c.len() > 0 && a[0] == b[0] && b[0] == c[0] {
        lemma_text_le_transitive(a.skip(1), b.skip(1), c.skip(1));
    }
}

/// A report is in order: no pad may only stand before one that precedes it.
pub open spec fn ordered(pads: Seq<Pad>) -> bool {
    forall|i: int, j: int| 0 <= i < j < pads.len() ==> reports_before(pads[i], pads[j])
}

proof fn lemma_reports_before(a: Pad, b: Pad, c: Pad)
    ensures
        reports_before(a, b) || reports_before(b, a),
        reports_before(a, b) && reports_before(b, c) ==> reports_before(a, c),
{
    lemma_text_le_total(a.name@, b.name@);
    if text_le(a.name@, b.name@) && text_le(b.name@, c.name@) {
        lemma_text_le_transitive(a.name@, b.name@, c.name@);
    }
}

proof fn lemma_put_in(pads: Seq<Pad>, pad: Pad)
    requires
        ordered(pads),
    ensures
        ordered(put_in(pads, pad)),
        put_in(pads, pad).to_multiset() == pads.to_multiset().insert(pad),
        forall|x: Pad| #[trigger] put_in(pads, pad).contains(x) ==> x == pad || pads.contains(x),
    decreases pads.len(),
{
    broadcast use vstd::seq_lib::group_to_multiset_ensures;

    let out = put_in(pads, pad);
    if pads.len() == 0 || reports_before(pads.last(), pad) {
        assert forall|i: int, j: int| 0 <= i < j < out.len() implies reports_before(
            out[i],
            out[j],
        ) by {
            if j == pads.len() {
                lemma_reports_before(pads[i], pads.last(), pad);
            }
        }
        assert forall|x: Pad| #[trigger] out.contains(x) implies x == pad || pads.contains(x) by {
            let k = choose|k: int| 0 <= k < out.len() && out[k] == x;
            if k < pads.len() {
                assert(pads[k] == x);
            }
        }
    } else {
        let rest = pads.drop_last();
        let last = pads.last();
        lemma_put_in(rest, pad);
        let inner = put_in(rest, pad);
        lemma_reports_before(pad, last, last);
        assert forall|i: int, j: int| 0 <= i < j < out.len() implies reports_before(
            out[i],
            out[j],
        ) by {
            if j == inner.len() {
                assert(inner.contains(inner[i]));
                if inner[i] != pad {
                    assert(rest.contains(inner[i]));
                    let k = choose|k: int| 0 <= k < rest.len() && rest[k] == inner[i];
                    assert(pads[k] == inner[i]);
                    assert(reports_before(pads[k], pads[pads.len() - 1]));
                }
            }
        }
        assert(pads =~= rest.push(last));
        assert(out.to_multiset() =~= pads.to_multiset().insert(pad));
        assert forall|x: Pad| #[trigger] out.contains(x) implies x == pad || pads.contains(x) by {
            let k = choose|k: int| 0 <= k < out.len() && out[k] == x;
            if k < inner.len() {
                assert(inner.contains(x));
                if x != pad {
                    let m = choose|m: int| 0 <= m < rest.len() && rest[m] == x;
                    assert(pads[m] == x);
                }
            } else {
                assert(pads[pads.len() - 1] == x);
            }
        }
    }
}

/// A report holds the same pads in order: connected ones first, then by name.
pub proof fn law_report_is_ordered(pads: Seq<Pad>)
    ensures
        ordered(in_report_order(pads)),
        in_report_order(pads).to_multiset() == pads.to_multiset(),
    decreases pads.len(),
{
    broadcast use vstd::seq_lib::group_to_multiset_ensures;

    if pads.len() > 0 {
        law_report_is_ordered(pads.drop_last());
        lemma_put_in(in_report_order(pads.drop_last()), pads.last());
        assert(pads =~= pads.drop_last().push(pads.last()));
    } else {
        assert(in_report_order(pads) =~= pads);
    }
}

// The driver

/// The service that turns a pad into intents.
pub const UNIT: &'static str = "padd.service";

/// What the service manager's word for a unit's state means here.
pub open spec fn driver_of(active: Seq<char>) -> DriverState {
    if active == "active"@ || active == "activating"@ || active == "reloading"@ {
        DriverState::Active
    } else if active == "inactive"@ || active == "deactivating"@ || active == "failed"@ {
        DriverState::Inactive
    } else {
        DriverState::Unknown
    }
}

/// Whether the driver runs, `active` being the service manager's word for it.
/// `activating` counts: the driver spends its first moments connecting.
pub fn driver_state(active: &str) -> (state: DriverState)
    ensures
        state == driver_of(active@),
{
    if same_text(active, "active") || same_text(active, "activating") || same_text(
        active,
        "reloading",
    ) {
        DriverState::Active
    } else if same_text(active, "inactive") || same_text(active, "deactivating") || same_text(
        active,
        "failed",
    ) {
        DriverState::Inactive
    } else {
        DriverState::Unknown
    }
}

/// What the service manager answered.
pub enum DriverReply {
    /// It has no such unit: a board on a release older than the driver.
    NoUnit,
    /// The unit's state.
    Active(String),
    /// It could not be asked.
    Unreachable,
}

/// The line of a status report about the driver. Failing to read it must not fail the
/// report.
pub fn state(reply: &DriverReply) -> (state: DriverState)
    ensures
        state == match *reply {
            DriverReply::NoUnit => DriverState::Absent,
            DriverReply::Active(active) => driver_of(active@),
            DriverReply::Unreachable => DriverState::Unknown,
        },
{
    match reply {
        DriverReply::NoUnit => DriverState::Absent,
        DriverReply::Active(active) => driver_state(active.as_str()),
        DriverReply::Unreachable => DriverState::Unknown,
    }
}

// What pairing and reporting come to

/// Asking for a pad by its address finds that pad whether or not it looks like one,
/// and never one whose address has another length; without an address the looks
/// decide alone.
pub proof fn law_an_address_overrides_the_looks(seen: Seen, mac: Seq<char>)
    ensures
        mac == seen.device.mac@ ==> asked_for(seen, Some(mac)),
        mac.len() != seen.device.mac@.len() ==> !asked_for(seen, Some(mac)),
        asked_for(seen, None) ==> seen.gamepad,
        seen.gamepad ==> asked_for(seen, None),
{
}

proof fn lemma_filtered_members<A>(s: Seq<A>, keep: spec_fn(A) -> bool, i: int)
    requires
        0 <= i < s.len(),
        keep(s[i]),
    ensures
        exists|k: int| 0 <= k < s.filter(keep).len() && #[trigger] s.filter(keep)[k] == s[i],
    decreases s.len(),
{
    reveal(Seq::filter);
    let rest = s.drop_last();
    if i < rest.len() {
        lemma_filtered_members(rest, keep, i);
        let k = choose|k: int|
            0 <= k < rest.filter(keep).len() && #[trigger] rest.filter(keep)[k] == rest[i];
        assert(s.filter(keep)[k] == s[i]);
    } else {
        let n = rest.filter(keep).len() as int;
        assert(s.filter(keep)[n] == s[i]);
    }
}

proof fn lemma_filtered_sources<A>(s: Seq<A>, keep: spec_fn(A) -> bool, k: int)
    requires
        0 <= k < s.filter(keep).len(),
    ensures
        exists|i: int| 0 <= i < s.len() && keep(s[i]) && #[trigger] s[i] == s.filter(keep)[k],
    decreases s.len(),
{
    reveal(Seq::filter);
    if s.len() > 0 {
        let rest = s.drop_last();
        if k < rest.filter(keep).len() {
            lemma_filtered_sources(rest, keep, k);
            let i = choose|i: int|
                0 <= i < rest.len() && keep(rest[i]) && #[trigger] rest[i] == rest.filter(keep)[k];
            assert(s[i] == s.filter(keep)[k]);
        } else {
            assert(s[s.len() - 1] == s.filter(keep)[k]);
        }
    }
}

/// A search without an address overlooks no gamepad and takes up nothing else.
pub proof fn law_every_gamepad_is_a_candidate(devices: Seq<Seen>, i: int, k: int)
    ensures
        0 <= i < devices.len() && devices[i].gamepad ==> candidates_in(devices, None).contains(
            devices[i].device,
        ),
        0 <= k < candidates_in(devices, None).len() ==> exists|j: int|
            0 <= j < devices.len() && (#[trigger] devices[j]).gamepad && devices[j].device
                == candidates_in(devices, None)[k],
{
    let keep = |s: Seen| asked_for(s, None);
    let kept = devices.filter(keep);
    let found = candidates_in(devices, None);
    assert(found =~= kept.map_values(|s: Seen| s.device));
    if 0 <= i < devices.len() && devices[i].gamepad {
        lemma_filtered_members(devices, keep, i);
        let m = choose|m: int| 0 <= m < kept.len() && #[trigger] kept[m] == devices[i];
        assert(found[m] == devices[i].device);
    }
    if 0 <= k < found.len() {
        lemma_filtered_sources(devices, keep, k);
        let j = choose|j: int|
            0 <= j < devices.len() && keep(devices[j]) && #[trigger] devices[j] == kept[k];
        assert(devices[j].gamepad && devices[j].device == found[k]);
    }
}

/// A search by address overlooks no device that has it.
pub proof fn law_the_device_asked_for_is_a_candidate(devices: Seq<Seen>, mac: Seq<char>, i: int)
    requires
        0 <= i < devices.len(),
        devices[i].device.mac@ == mac,
    ensures
        candidates_in(devices, Some(mac)).contains(devices[i].device),
{
    let keep = |s: Seen| asked_for(s, Some(mac));
    let kept = devices.filter(keep);
    let found = candidates_in(devices, Some(mac));
    assert(found =~= kept.map_values(|s: Seen| s.device));
    lemma_filtered_members(devices, keep, i);
    let m = choose|m: int| 0 <= m < kept.len() && #[trigger] kept[m] == devices[i];
    assert(found[m] == devices[i].device);
}

/// A bond advances one step at a time, connect, pair, trust, done, and no step is
/// passed that failed: the one refusal that counts as success is that of a pairing
/// which exists.
pub proof fn law_a_bond_is_made_step_by_step(step: BondStep, event: BondEvent, next: BondStep)
    requires
        bond_next(step, event) == Ok::<BondStep, (PadPairFailure, Seq<char>)>(next),
        next != step,
    ensures
        step == BondStep::Connect ==> next == BondStep::Pair && event is Succeeded,
        step == BondStep::Pair ==> next == BondStep::Trust,
        step == BondStep::Trust ==> next == BondStep::Done && event is Succeeded,
        step != BondStep::Done,
        !(event is TimedOut),
{
}

/// A refusal is passed on in the daemon's words, and a step that takes too long is
/// told apart from a refused one.
pub proof fn law_a_failed_bond_says_why(
    step: BondStep,
    event: BondEvent,
    reason: PadPairFailure,
    detail: Seq<char>,
)
    requires
        bond_next(step, event) == Err::<BondStep, (PadPairFailure, Seq<char>)>((reason, detail)),
    ensures
        event is TimedOut <==> reason == PadPairFailure::Timeout,
        event matches BondEvent::Refused { already, detail: said } ==> detail == said@ && reason
            == if step == BondStep::Trust {
            PadPairFailure::Other
        } else {
            PadPairFailure::Rejected
        },
        !(event is Succeeded),
{
}

/// A step that succeeds is never answered with a failure, and connecting and pairing
/// fail when they are refused or take too long.
pub proof fn law_success_never_fails(step: BondStep, event: BondEvent)
    ensures
        event is Succeeded ==> bond_next(step, event) is Ok,
        step == BondStep::Connect && !(event is Succeeded) ==> bond_next(step, event) is Err,
        step == BondStep::Pair && event is TimedOut ==> bond_next(step, event) is Err,
        step == BondStep::Pair && (event matches BondEvent::Refused { already, detail } && !already)
            ==> bond_next(step, event) is Err,
{
}

/// A pad is only reported as paired when it was found bonded and trusted, or has just
/// been bonded.
pub proof fn law_paired_is_only_said_of_bonded_pads(
    state: Pairing,
    event: PairEvent,
    mac: Option<Seq<char>>,
    next: Pairing,
    pad: Pad,
)
    requires
        pairs_on(state, event, mac, next),
        !(state is Finished),
        next == (Pairing::Finished { result: PadPairResult::Paired { pad } }),
    ensures
        state is CheckBonded || state is Reread,
        state is CheckBonded ==> (event matches PairEvent::Devices { seen } && exists|i: int|
            0 <= i < seen@.len() && (#[trigger] seen@[i]).device.paired && seen@[i].device.trusted
                && seen@[i].device.mac == pad.mac),
        state matches Pairing::Reread { device } ==> pad.mac@.len() == device.mac@.len(),
{
    match (state, event) {
        (Pairing::CheckBonded, PairEvent::Devices { seen }) => {
            lemma_first_bonded_source(seen@, mac);
        },
        (Pairing::Reread { device }, PairEvent::Devices { seen }) => {
            lemma_first_with_mac_source(seen@, device.mac@);
        },
        _ => {},
    }
}

proof fn lemma_first_bonded_source(seen: Seq<Seen>, mac: Option<Seq<char>>)
    ensures
        first_bonded(seen, mac) matches Some(pad) ==> exists|i: int|
            0 <= i < seen.len() && (#[trigger] seen[i]).device.paired && seen[i].device.trusted
                && asked_for(seen[i], mac) && seen[i].device.spec_pad() == pad,
    decreases seen.len(),
{
    if seen.len() > 0 {
        if bonded_match(seen[0], mac) {
            assert(seen[0].device.spec_pad() == first_bonded(seen, mac)->0);
        } else {
            let rest = seen.skip(1);
            lemma_first_bonded_source(rest, mac);
            if first_bonded(rest, mac) is Some {
                let pad = first_bonded(rest, mac)->0;
                let i = choose|i: int|
                    0 <= i < rest.len() && (#[trigger] rest[i]).device.paired
                        && rest[i].device.trusted && asked_for(rest[i], mac)
                        && rest[i].device.spec_pad() == pad;
                assert(seen[i + 1] == rest[i]);
            }
        }
    }
}

proof fn lemma_first_with_mac_source(seen: Seq<Seen>, mac: Seq<char>)
    ensures
        first_with_mac(seen, mac) matches Some(device) ==> same_but_case(device.mac@, mac),
    decreases seen.len(),
{
    if seen.len() > 0 {
        lemma_first_with_mac_source(seen.skip(1), mac);
    }
}

/// With no pad found, or with more than one, nothing is bonded and the answer says
/// which of the two it was; with one found it is bonded.
pub proof fn law_a_search_ends_in_one_pad_or_a_refusal(
    found: Vec<Snapshot>,
    event: PairEvent,
    mac: Option<Seq<char>>,
    next: Pairing,
)
    requires
        pairs_on(Pairing::StopDiscovery { found }, event, mac, next),
        event is Stopped || event is Error,
    ensures
        found@.len() == 1 ==> next == (Pairing::Bond { device: found@[0] }),
        found@.len() == 0 ==> (next matches Pairing::Finished { result } && (
        result matches PadPairResult::Failed { reason, detail } && reason
            == PadPairFailure::NotFound)),
        found@.len() >= 2 ==> (next matches Pairing::Finished { result } && (
        result matches PadPairResult::Failed { reason, detail } && reason
            == PadPairFailure::Ambiguous)),
{
}

/// A pairing goes through its stages in order, whatever the events.
pub proof fn law_a_pairing_goes_in_order(
    state: Pairing,
    event: PairEvent,
    mac: Option<Seq<char>>,
    next: Pairing,
)
    requires
        pairs_on(state, event, mac, next),
    ensures
        state is FindAdapter && !(next is FindAdapter) ==> next is CheckBonded || next is Finished
            || next is Broken,
        next is StartDiscovery ==> state is StartDiscovery || state is CheckBonded,
        next is Search ==> state is Search || state is StartDiscovery,
        next is StopDiscovery ==> state is StopDiscovery || state is Search,
        next is Reread ==> state is Reread || (state is Bond && (event matches PairEvent::Bonded {
            failure,
        } && failure is None)),
        state is Finished || state is Broken ==> next == state,
        (state matches Pairing::Bond { device } && event matches PairEvent::Bonded { failure }
            && failure matches Some((reason, detail))) ==> (next matches Pairing::Finished { result }
            && result is Failed),
{
}

/// Without an adapter the pairing ends at once; with one it goes on.
pub proof fn law_no_adapter_no_pairing(present: bool, mac: Option<Seq<char>>, next: Pairing)
    requires
        pairs_on(Pairing::FindAdapter, PairEvent::Adapter { present }, mac, next),
    ensures
        present <==> next is CheckBonded,
        !present ==> (next matches Pairing::Finished { result } && (
        result matches PadPairResult::Failed { reason, detail } && reason
            == PadPairFailure::NoAdapter)),
{
}

/// A device with the address in question is found wherever it stands in the list, and
/// it is the first such.
pub proof fn law_the_first_with_the_address_is_found(seen: Seq<Seen>, mac: Seq<char>, i: int)
    requires
        0 <= i < seen.len(),
        seen[i].device.mac@ == mac,
        forall|j: int| 0 <= j < i ==> (#[trigger] seen[j]).device.mac@.len() != mac.len(),
    ensures
        first_with_mac(seen, mac) == Some(seen[i].device),
    decreases i,
{
    if i > 0 {
        assert(seen[0].device.mac@.len() != mac.len());
        let rest = seen.skip(1);
        assert forall|j: int| 0 <= j < i - 1 implies (#[trigger] rest[j]).device.mac@.len()
            != mac.len() by {
            assert(rest[j] == seen[j + 1]);
        }
        law_the_first_with_the_address_is_found(rest, mac, i - 1);
    }
}

/// An address that no device has leads to nothing.
pub proof fn law_an_unknown_address_finds_nothing(seen: Seq<Seen>, mac: Seq<char>)
    requires
        forall|j: int| 0 <= j < seen.len() ==> (#[trigger] seen[j]).device.mac@.len() != mac.len(),
    ensures
        first_with_mac(seen, mac) is None,
    decreases seen.len(),
{
    if seen.len() > 0 {
        assert(seen[0].device.mac@.len() != mac.len());
        let rest = seen.skip(1);
        assert forall|j: int| 0 <= j < rest.len() implies (#[trigger] rest[j]).device.mac@.len()
            != mac.len() by {
            assert(rest[j] == seen[j + 1]);
        }
        law_an_unknown_address_finds_nothing(rest, mac);
    }
}

/// Texts are ordered by the first character in which they differ, and a text comes
/// before those that go on from it.
pub proof fn law_text_order_goes_by_the_first_difference(a: Seq<char>, b: Seq<char>, k: int)
    requires
        0 <= k <= a.len(),
        k <= b.len(),
        forall|j: int| 0 <= j < k ==> #[trigger] a[j] == b[j],
    ensures
        k < a.len() && k < b.len() && a[k] < b[k] ==> text_le(a, b) && !text_le(b, a),
        k == a.len() ==> text_le(a, b),
        k == a.len() && k < b.len() ==> !text_le(b, a),
    decreases k,
{
    if k > 0 {
        assert(a[0] == b[0]);
        let (a1, b1) = (a.skip(1), b.skip(1));
        assert forall|j: int| 0 <= j < k - 1 implies #[trigger] a1[j] == b1[j] by {
            assert(a[j + 1] == b[j + 1]);
        }
        law_text_order_goes_by_the_first_difference(a1, b1, k - 1);
    }
}

/// In a report a connected pad never stands behind one that is not, and among pads
/// alike in that, none stands behind one whose name comes after its own.
pub proof fn law_connected_pads_come_first(pads: Seq<Pad>, i: int, j: int, k: int)
    requires
        0 <= i < j < pads.len(),
    ensures
        in_report_order(pads).len() == pads.len(),
        in_report_order(pads)[j].connected ==> in_report_order(pads)[i].connected,
        ({
            let (a, b) = (in_report_order(pads)[i], in_report_order(pads)[j]);
            a.connected == b.connected && 0 <= k < a.name@.len() && k < b.name@.len() && (forall|
                m: int,
            |
                0 <= m < k ==> #[trigger] a.name@[m] == b.name@[m]) ==> a.name@[k] <= b.name@[k]
        }),
{
    broadcast use vstd::seq_lib::group_to_multiset_ensures;

    law_report_is_ordered(pads);
    let out = in_report_order(pads);
    assert(out.to_multiset().len() == pads.to_multiset().len());
    let (a, b) = (out[i], out[j]);
    assert(reports_before(a, b));
    if a.connected == b.connected && 0 <= k < a.name@.len() && k < b.name@.len() && (forall|
        m: int,
    |
        0 <= m < k ==> #[trigger] a.name@[m] == b.name@[m]) {
        assert forall|m: int| 0 <= m < k implies #[trigger] b.name@[m] == a.name@[m] by {
            assert(a.name@[m] == b.name@[m]);
        }
        law_text_order_goes_by_the_first_difference(b.name@, a.name@, k);
    }
}

/// Pads that are in order stay as they came, alike ones included.
pub proof fn law_an_ordered_report_is_left_as_it_is(pads: Seq<Pad>)
    requires
        forall|i: int, j: int|
            0 <= i < j < pads.len() ==> #[trigger] reports_before(pads[i], pads[j]),
    ensures
        in_report_order(pads) == pads,
    decreases pads.len(),
{
    if pads.len() > 0 {
        let rest = pads.drop_last();
        assert forall|i: int, j: int| 0 <= i < j < rest.len() implies #[trigger] reports_before(
            rest[i],
            rest[j],
        ) by {
            assert(reports_before(pads[i], pads[j]));
        }
        law_an_ordered_report_is_left_as_it_is(rest);
        if rest.len() > 0 {
            assert(reports_before(pads[rest.len() - 1], pads[pads.len() - 1]));
        }
        assert(rest.push(pads.last()) =~= pads);
    } else {
        assert(in_report_order(pads) =~= pads);
    }
}

/// Every bonded gamepad is in the report, and nothing else is: no other device, and
/// no pad that is merely in sight.
pub proof fn law_the_report_lists_the_bonded_gamepads(devices: Seq<Seen>, i: int, k: int)
    ensures
        0 <= i < devices.len() && devices[i].device.paired && devices[i].gamepad ==> exists|m: int|
            0 <= m < bonded_pads(devices).len() && (#[trigger] bonded_pads(devices)[m]).mac
                == devices[i].device.mac && bonded_pads(devices)[m].connected
                == devices[i].device.connected,
        0 <= k < bonded_pads(devices).len() ==> exists|j: int|
            0 <= j < devices.len() && (#[trigger] devices[j]).device.paired && devices[j].gamepad
                && devices[j].device.mac == bonded_pads(devices)[k].mac && devices[j].device.name
                == bonded_pads(devices)[k].name,
{
    let keep = |s: Seen| s.device.paired && s.gamepad;
    let kept = devices.filter(keep);
    let pads = bonded_pads(devices);
    assert(pads =~= kept.map_values(|s: Seen| s.device.spec_pad()));
    if 0 <= i < devices.len() && devices[i].device.paired && devices[i].gamepad {
        lemma_filtered_members(devices, keep, i);
        let m = choose|m: int| 0 <= m < kept.len() && #[trigger] kept[m] == devices[i];
        assert(pads[m] == devices[i].device.spec_pad());
    }
    if 0 <= k < pads.len() {
        lemma_filtered_sources(devices, keep, k);
        let j = choose|j: int|
            0 <= j < devices.len() && keep(devices[j]) && #[trigger] devices[j] == kept[k];
        assert(pads[k] == devices[j].device.spec_pad());
    }
}

/// The refusal of an ambiguous search names every pad found, by name and address, in
/// the order they were found.
pub proof fn law_every_candidate_is_named(devices: Seq<Snapshot>, one: Snapshot)
    ensures
        names_of(seq![one]) == one.name@ + " ("@ + one.mac@ + ")"@,
        devices.len() > 0 ==> names_of(devices.push(one)) == names_of(devices) + ", "@ + names_of(
            seq![one],
        ),
{
    assert(seq![one].last() == one);
    assert(devices.push(one).drop_last() =~= devices);
}

/// A search waits for half a second at most, never beyond the time that is left, and
/// never for no time at all; it ends when something was found or no time is left.
pub proof fn law_a_search_ends_in_time(found: bool, left: int)
    requires
        left >= 0,
    ensures
        sweep_next(found, left) matches Sweep::Wait(nanos) ==> !found && 0 < nanos <= 500_000_000
            && (left < u128::MAX ==> nanos <= left),
        !found && left >= 500_000_000 ==> sweep_next(found, left) == Sweep::Wait(500_000_000),
        sweep_next(found, left) is Found <==> found,
        sweep_next(found, left) is GiveUp <==> !found && left == 0,
        !found && 0 < left < 500_000_000 ==> sweep_next(found, left) == Sweep::Wait(left as u128),
{
}

/// A service that the manager runs, starts or reloads counts as running, one that has
/// ended or failed does not, and of any other word nothing is claimed.
pub proof fn law_driver_words(active: Seq<char>)
    ensures
        driver_of(active) == DriverState::Active <==> active == "active"@ || active
            == "activating"@ || active == "reloading"@,
        driver_of(active) == DriverState::Inactive <==> active == "inactive"@ || active
            == "deactivating"@ || active == "failed"@,
        driver_of(active) != DriverState::Absent,
{
    reveal_strlit("active");
    reveal_strlit("activating");
    reveal_strlit("reloading");
    reveal_strlit("inactive");
    reveal_strlit("deactivating");
    reveal_strlit("failed");
    assert("active"@.len() == 6 && "failed"@.len() == 6 && "active"@[0] == 'a' && "failed"@[0]
        == 'f');
    assert("activating"@.len() == 10 && "reloading"@.len() == 9);
    assert("inactive"@.len() == 8 && "deactivating"@.len() == 12);
}

/// What the daemon leaves out counts as no.
pub proof fn law_what_is_left_out_is_no(value: bool)
    ensures
        flag(Some(value)) == value,
        !flag(None),
{
}

/// A pad that was just bonded is reported as the daemon has it now; where the daemon no
/// longer lists it, as bonded and trusted, which it has just been made.
pub proof fn law_a_fresh_bond_is_reported(device: Snapshot, now: Snapshot)
    ensures
        bonded_pad(device, None).paired,
        bonded_pad(device, None).trusted,
        bonded_pad(device, None).mac == device.mac,
        bonded_pad(device, None).name == device.name,
        bonded_pad(device, None).connected == device.connected,
        bonded_pad(device, Some(now)).mac == now.mac,
        bonded_pad(device, Some(now)).paired == now.paired,
        bonded_pad(device, Some(now)).trusted == now.trusted,
        bonded_pad(device, Some(now)).connected == now.connected,
{
}

} // verus!
