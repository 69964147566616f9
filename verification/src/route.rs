//! Which calls Bluetooth may make, and which service answers them.
//!
//! Bluetooth exposes a subset of the robot's API: provisioning, status, and the
//! update trigger with its progress. One table decides both questions, because they
//! are the same question: a call is permitted exactly when this module names the
//! service that answers it. The table lists every call, so that a new one cannot
//! reach the radio because someone forgot this module existed.

use vstd::prelude::*;
use crate::code;
use crate::proto::{Call, Error};

verus! {

/// The service that owns the answer to a call.
#[derive(Debug, Clone, Copy, PartialEq, Eq, Hash, Structural)]
pub enum Upstream {
    /// The update service.
    Updater,
    /// The control service.
    Robot,
    /// Wifi and the robot's identity.
    Config,
}

/// What happens to a call that arrives over Bluetooth.
#[derive(Debug, Clone, Copy, PartialEq, Eq, Structural)]
pub enum Route {
    /// Forwarded verbatim to a service.
    To(Upstream),
    /// Answered by the transport itself. Only `system.authenticate`: the PIN check
    /// belongs to the transport.
    Local,
    /// Not available over this transport.
    Refused,
}

/// The calls that the update service answers.
pub open spec fn for_updater(call: Call) -> bool {
    ||| call is Hello
    ||| call is Apply
    ||| call is Check
    ||| call is Status
    ||| call is Subscribe
    ||| call is Log
    ||| call is ListInstalled
}

/// The calls that the configuration service answers.
pub open spec fn for_config(call: Call) -> bool {
    ||| call is NetStatus
    ||| call is NetScan
    ||| call is NetConnect
    ||| call is NetForget
    ||| call is SystemInfo
    ||| call is SystemSetName
    ||| call is SystemReboot
}

/// Who answers a call over Bluetooth, if anyone.
pub open spec fn upstream_of(call: Call) -> Option<Upstream> {
    if for_updater(call) {
        Some(Upstream::Updater)
    } else if call is RobotHealth {
        Some(Upstream::Robot)
    } else if for_config(call) {
        Some(Upstream::Config)
    } else {
        None
    }
}

/// Where this call goes, or `None` if Bluetooth may not make it.
///
/// Read the `None` arms as the boundary: each one is a deliberate decision that a
/// phone in the room does not get to do this.
pub fn upstream_for(call: &Call) -> (upstream: Option<Upstream>)
    ensures
        upstream == upstream_of(*call),
{
    match call {
        // The version handshake. Must be reachable or no client can establish
        // anything.
        Call::Hello(_) => Some(Upstream::Updater),
        // The update trigger, and watching it.
        Call::Apply(_) => Some(Upstream::Updater),
        Call::Check(_) => Some(Upstream::Updater),
        Call::Status => Some(Upstream::Updater),
        Call::Subscribe => Some(Upstream::Updater),
        // Read-only, and what support asks for first.
        Call::Log(_) => Some(Upstream::Updater),
        Call::ListInstalled(_) => Some(Upstream::Updater),
        // Is the robot alright? The one `robot.*` call an app has any use for.
        Call::RobotHealth => Some(Upstream::Robot),
        // Provisioning: a robot that has never seen a network cannot be configured
        // over that network.
        Call::NetStatus => Some(Upstream::Config),
        Call::NetScan => Some(Upstream::Config),
        Call::NetConnect(_) => Some(Upstream::Config),
        Call::NetForget(_) => Some(Upstream::Config),
        // Name and identity.
        Call::SystemInfo => Some(Upstream::Config),
        Call::SystemSetName(_) => Some(Upstream::Config),
        // Drastic but recoverable; it discards nothing.
        Call::SystemReboot => Some(Upstream::Config),
        // Answered by the transport, so it has no upstream. See `route_for`.
        Call::SystemAuthenticate(_) => None,
        // A PIN readable by an unpaired peer authorises nothing at all.
        Call::SystemPairingPin | Call::SystemSetPairingPin(_) => None,
        // Operator surgery, made with a record of who did it.
        Call::Select(_) | Call::Pin(_) => None,
        // The engine reverts a bad release on its own.
        Call::Rollback(_) => None,
        // Factory reset in all but name. Never over a radio.
        Call::ResetToGolden(_) => None,
        // The update service's private questions to the control service.
        Call::RobotSafeToRestart | Call::RobotModelApi | Call::RobotRemoteSessionActive => None,
        // Motor control. Never over Bluetooth: too slow and too constrained.
        Call::RobotMove(_) | Call::RobotHead(_) | Call::RobotEnable(_) => None,
        // A stop button over a high-latency, sometimes-absent radio looks like an
        // emergency stop and is not one.
        Call::RobotStop => None,
        // High-rate telemetry, into a pipe of a few bytes.
        Call::RobotSubscribe(_) => None,
    }
}

/// The routing decision.
pub open spec fn route_of(call: Call) -> Route {
    if call is SystemAuthenticate {
        Route::Local
    } else {
        match upstream_of(call) {
            Some(upstream) => Route::To(upstream),
            None => Route::Refused,
        }
    }
}

/// The full routing decision, including the one call the transport answers itself.
pub fn route_for(call: &Call) -> (route: Route)
    ensures
        route == route_of(*call),
{
    match call {
        Call::SystemAuthenticate(_) => Route::Local,
        other => match upstream_for(other) {
            Some(upstream) => Route::To(upstream),
            None => Route::Refused,
        },
    }
}

/// The error to answer a refused call with.
///
/// [`code::PERMISSION_DENIED`] rather than "no such method": this method exists and
/// this transport may not use it.
pub fn refusal(call: &Call) -> (error: Error)
    ensures
        error.says(
            code::PERMISSION_DENIED,
            call.spec_method().spec_name()
                + " is not available over Bluetooth; use robotctl on the robot"@,
        ),
{
    let mut message = call.method().to_owned();
    message.append(" is not available over Bluetooth; use robotctl on the robot");
    Error::new(code::PERMISSION_DENIED, message)
}

/// Of the calls that change the robot, only the update trigger and provisioning can
/// be made over Bluetooth.
pub proof fn law_reachable_mutating_calls(call: Call)
    ensures
        call.spec_is_mutating() && upstream_of(call) is Some <==> {
            ||| call is Apply
            ||| call is NetConnect
            ||| call is NetForget
            ||| call is SystemSetName
            ||| call is SystemReboot
        },
{
}

/// The pairing PIN can be neither read nor set over Bluetooth.
pub proof fn law_pairing_pin_is_unreachable(call: Call)
    requires
        call is SystemPairingPin || call is SystemSetPairingPin,
    ensures
        route_of(call) == Route::Refused,
{
}

/// The transport answers authentication itself and nothing else; every other call
/// is forwarded exactly when a service is named for it.
pub proof fn law_routes_partition_the_calls(call: Call)
    ensures
        route_of(call) == Route::Local <==> call is SystemAuthenticate,
        route_of(call) == Route::Refused <==> upstream_of(call) is None && !(
        call is SystemAuthenticate),
        forall|u: Upstream| route_of(call) == Route::To(u) <==> upstream_of(call) == Some(u),
{
}

/// Whether a call is reachable, and where, depends on its method alone.
pub proof fn law_route_depends_on_the_method(a: Call, b: Call)
    requires
        a.spec_method() == b.spec_method(),
    ensures
        route_of(a) == route_of(b),
{
}

/// Nothing that moves a motor, and no question of the services to each other, can be asked
/// over Bluetooth; nor can what an operator does by hand.
pub proof fn law_motors_are_out_of_reach(call: Call)
    ensures
        call is RobotMove || call is RobotHead || call is RobotEnable || call is RobotStop
            || call is RobotSubscribe || call is RobotSafeToRestart || call is RobotModelApi
            || call is RobotRemoteSessionActive || call is Select || call is Pin
            || call is Rollback || call is ResetToGolden ==> route_of(call) == Route::Refused,
{
}

/// The update trigger and what watches it go to the update service, provisioning and
/// identity to the configuration service, and the robot's health to the control service.
pub proof fn law_each_call_reaches_its_service(call: Call)
    ensures
        call is Hello || call is Apply || call is Check || call is Status || call is Subscribe
            || call is Log || call is ListInstalled ==> route_of(call) == Route::To(
            Upstream::Updater,
        ),
        call is NetStatus || call is NetScan || call is NetConnect || call is NetForget
            || call is SystemInfo || call is SystemSetName || call is SystemReboot ==> route_of(
            call,
        ) == Route::To(Upstream::Config),
        call is RobotHealth ==> route_of(call) == Route::To(Upstream::Robot),
{
}

} // verus!
