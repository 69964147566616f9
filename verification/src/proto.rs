//! The contracts between the robot's services and their clients.
//!
//! JSON-RPC 2.0, one object per line, over a unix socket. A method and its
//! parameters are always paired through [`Call`], so no method can be sent with
//! another method's parameters. Turning values into JSON and back is the business
//! of the transport; which call a method name and its decoded parameters make, and
//! which error answers what cannot be read, is decided here.

use vstd::prelude::*;
use crate::code;
use crate::ieee::Double;
use crate::method;
use crate::method::{Method, Shape};
use crate::text::{push_signed, same_text};
use crate::text::signed_decimal;
use crate::method::law_method_names_are_distinct;

verus! {

/// A semantic version: carried, never looked into.
#[verifier::external_type_specification]
#[verifier::external_body]
pub struct ExVersion(semver::Version);

/// `semver::Version::clone` hands back the same version.
pub assume_specification[ <semver::Version as Clone>::clone ](v: &semver::Version) -> (copy:
    semver::Version)
    ensures
        copy == *v,
;

/// A JSON value: carried, never looked into.
#[verifier::external_type_specification]
#[verifier::external_body]
pub struct ExValue(serde_json::Value);

pub const JSONRPC_VERSION: &'static str = "2.0";

/// Protocol version, exchanged via [`Call::Hello`] and bumped on any incompatible
/// change.
pub const API_VERSION: u32 = 2;

pub const DEFAULT_SOCKET: &'static str = "/run/updaterd.sock";

/// The text in double quotes, with the characters that need it escaped.
pub uninterp spec fn quoted(text: Seq<char>) -> Seq<char>;

/// Formats a text with the standard library's `Debug` for `str`, which puts it in
/// double quotes and escapes what does not print. Which characters those are is
/// the standard library's business, so the result only has a name.
#[verifier::external_body]
fn quote(text: &str) -> (out: String)
    ensures
        out@ == quoted(text@),
{
    format!("{:?}", text)
}

/// Request identifier. `None` on a [`Request`] makes it a notification.
#[derive(Debug, Clone, PartialEq, Eq)]
pub enum Id {
    Number(u64),
    Text(String),
}

// Parameters

/// Name of a component as the update configuration declares it (`daemon`, `model`).
#[derive(Debug, Clone, PartialEq, Eq, PartialOrd, Ord, Hash)]
pub struct ComponentId(pub String);

impl ComponentId {
    pub fn new(s: &str) -> (id: Self)
        ensures
            id.0@ == s@,
    {
        ComponentId(s.to_owned())
    }

    pub fn as_str(&self) -> (s: &str)
        ensures
            s@ == self.0@,
    {
        self.0.as_str()
    }
}

impl From<&str> for ComponentId {
    /// The component of that name, as [`Self::new`] makes it.
    fn from(s: &str) -> (id: Self)
        ensures
            id.0@ == s@,
    {
        ComponentId::new(s)
    }
}

/// Two strings of the same text are not one value, so `from` says what the name is in
/// its own `ensures`.
impl vstd::std_specs::convert::FromSpecImpl<&str> for ComponentId {
    open spec fn obeys_from_spec() -> bool {
        false
    }

    open spec fn from_spec(s: &str) -> Self {
        choose|id: ComponentId| id.0@ == s@
    }
}

#[derive(Debug, Clone, PartialEq, Eq)]
pub struct HelloParams {
    pub api_version: u32,
}

#[derive(Debug, Clone, PartialEq, Eq)]
pub struct ComponentParams {
    pub component: ComponentId,
}

/// Velocity twist in the trunk frame: metres per second forward and left, radians
/// per second of yaw, positive to the left.
#[derive(Debug, Clone, Copy, PartialEq, Eq)]
pub struct MoveParams {
    pub vx: Double,
    pub vy: Double,
    pub vyaw: Double,
}

/// Head joint targets, radians.
#[derive(Debug, Clone, Copy, PartialEq, Eq)]
pub struct HeadParams {
    pub neck_pitch: Double,
    pub head_pitch: Double,
    pub head_yaw: Double,
    pub head_roll: Double,
}

/// How often a subscriber wants the robot's state.
#[derive(Debug, Clone, Copy, PartialEq, Eq)]
pub struct SubscribeParams {
    /// Absent means every tick.
    pub hz: Option<u32>,
}

/// Whether the policy should run.
#[derive(Debug, Clone, Copy, PartialEq, Eq)]
pub struct EnableParams {
    pub on: bool,
}

/// What an apply should move to.
#[derive(Debug, Clone, PartialEq, Eq)]
pub enum Target {
    /// Whatever the source advertises as newest.
    Latest,
    /// An exact version.
    Exact(semver::Version),
    /// A named ref, a branch in practice.
    Ref(String),
}

#[derive(Debug, Clone, PartialEq, Eq)]
pub struct ApplyOptions {
    /// Run every check and stop before the swap.
    pub dry_run: bool,
    /// Skip only the "no active remote session" preflight check.
    pub interrupt_sessions: bool,
}

impl Default for ApplyOptions {
    fn default() -> (options: Self)
        ensures
            !options.dry_run,
            !options.interrupt_sessions,
    {
        ApplyOptions { dry_run: false, interrupt_sessions: false }
    }
}

#[derive(Debug, Clone, PartialEq, Eq)]
pub struct ApplyParams {
    pub component: ComponentId,
    pub target: Target,
    pub options: ApplyOptions,
}

#[derive(Debug, Clone, PartialEq, Eq)]
pub struct SelectParams {
    pub component: ComponentId,
    pub version: semver::Version,
}

#[derive(Debug, Clone, PartialEq, Eq)]
pub struct PinParams {
    pub component: ComponentId,
    /// `None` unpins.
    pub version: Option<semver::Version>,
}

#[derive(Debug, Clone, PartialEq, Eq)]
pub struct LogParams {
    pub limit: usize,
}

#[derive(Debug, Clone, PartialEq, Eq)]
pub struct NetConnectParams {
    pub ssid: String,
    /// `None` for an open network.
    pub psk: Option<String>,
}

#[derive(Debug, Clone, PartialEq, Eq)]
pub struct NetForgetParams {
    pub ssid: String,
}

#[derive(Debug, Clone, PartialEq, Eq)]
pub struct SetNameParams {
    pub name: String,
}

#[derive(Debug, Clone, PartialEq, Eq)]
pub struct AuthenticateParams {
    pub pin: String,
}

#[derive(Debug, Clone, PartialEq, Eq)]
pub struct SetPairingPinParams {
    pub pin: String,
}

/// The decoded parameters of some call.
#[derive(Debug, Clone, PartialEq, Eq)]
pub enum Params {
    Nothing,
    Hello(HelloParams),
    Component(ComponentParams),
    Apply(ApplyParams),
    Select(SelectParams),
    Pin(PinParams),
    Log(LogParams),
    Move(MoveParams),
    Head(HeadParams),
    Enable(EnableParams),
    Subscribe(SubscribeParams),
    NetConnect(NetConnectParams),
    NetForget(NetForgetParams),
    SetName(SetNameParams),
    Authenticate(AuthenticateParams),
    SetPairingPin(SetPairingPinParams),
}

impl Params {
    /// Which parameters these are.
    pub open spec fn spec_shape(self) -> Shape {
        match self {
            Params::Nothing => Shape::Nothing,
            Params::Hello(_) => Shape::Hello,
            Params::Component(_) => Shape::Component,
            Params::Apply(_) => Shape::Apply,
            Params::Select(_) => Shape::Select,
            Params::Pin(_) => Shape::Pin,
            Params::Log(_) => Shape::Log,
            Params::Move(_) => Shape::Move,
            Params::Head(_) => Shape::Head,
            Params::Enable(_) => Shape::Enable,
            Params::Subscribe(_) => Shape::Subscribe,
            Params::NetConnect(_) => Shape::NetConnect,
            Params::NetForget(_) => Shape::NetForget,
            Params::SetName(_) => Shape::SetName,
            Params::Authenticate(_) => Shape::Authenticate,
            Params::SetPairingPin(_) => Shape::SetPairingPin,
        }
    }
}

/// A method together with its parameters.
#[derive(Debug, Clone, PartialEq, Eq)]
pub enum Call {
    /// Version handshake. The first call on a connection.
    Hello(HelloParams),
    Check(ComponentParams),
    Apply(ApplyParams),
    Rollback(ComponentParams),
    ResetToGolden(ComponentParams),
    Select(SelectParams),
    Pin(PinParams),
    Status,
    ListInstalled(ComponentParams),
    Log(LogParams),
    /// Turns the connection into a stream of progress notifications.
    Subscribe,
    /// May the control loop be restarted right now?
    RobotSafeToRestart,
    /// Did the robot come up correctly?
    RobotHealth,
    /// Which model API version does this build implement?
    RobotModelApi,
    /// Is a telepresence session live?
    RobotRemoteSessionActive,
    /// Velocity twist. Continuous; send as a notification.
    RobotMove(MoveParams),
    /// Head joint targets. Continuous; send as a notification.
    RobotHead(HeadParams),
    /// Stop moving: zero the velocity. Not "go limp".
    RobotStop,
    /// Turn policy execution on or off.
    RobotEnable(EnableParams),
    /// Turns the connection into a stream of state notifications.
    RobotSubscribe(SubscribeParams),
    NetStatus,
    NetScan,
    NetConnect(NetConnectParams),
    NetForget(NetForgetParams),
    SystemInfo,
    SystemSetName(SetNameParams),
    SystemReboot,
    SystemAuthenticate(AuthenticateParams),
    SystemPairingPin,
    SystemSetPairingPin(SetPairingPinParams),
}

impl Call {
    pub open spec fn spec_method(self) -> Method {
        match self {
            Call::Hello(_) => Method::Hello,
            Call::Check(_) => Method::Check,
            Call::Apply(_) => Method::Apply,
            Call::Rollback(_) => Method::Rollback,
            Call::ResetToGolden(_) => Method::ResetToGolden,
            Call::Select(_) => Method::Select,
            Call::Pin(_) => Method::Pin,
            Call::Status => Method::Status,
            Call::ListInstalled(_) => Method::ListInstalled,
            Call::Log(_) => Method::Log,
            Call::Subscribe => Method::Subscribe,
            Call::RobotSafeToRestart => Method::RobotSafeToRestart,
            Call::RobotHealth => Method::RobotHealth,
            Call::RobotModelApi => Method::RobotModelApi,
            Call::RobotRemoteSessionActive => Method::RobotRemoteSessionActive,
            Call::RobotMove(_) => Method::RobotMove,
            Call::RobotHead(_) => Method::RobotHead,
            Call::RobotStop => Method::RobotStop,
            Call::RobotEnable(_) => Method::RobotEnable,
            Call::RobotSubscribe(_) => Method::RobotSubscribe,
            Call::NetStatus => Method::NetStatus,
            Call::NetScan => Method::NetScan,
            Call::NetConnect(_) => Method::NetConnect,
            Call::NetForget(_) => Method::NetForget,
            Call::SystemInfo => Method::SystemInfo,
            Call::SystemSetName(_) => Method::SystemSetName,
            Call::SystemReboot => Method::SystemReboot,
            Call::SystemAuthenticate(_) => Method::SystemAuthenticate,
            Call::SystemPairingPin => Method::SystemPairingPin,
            Call::SystemSetPairingPin(_) => Method::SystemSetPairingPin,
        }
    }

    /// The parameters that go with the method.
    pub open spec fn spec_params(self) -> Params {
        match self {
            Call::Hello(p) => Params::Hello(p),
            Call::Check(p) => Params::Component(p),
            Call::Apply(p) => Params::Apply(p),
            Call::Rollback(p) => Params::Component(p),
            Call::ResetToGolden(p) => Params::Component(p),
            Call::Select(p) => Params::Select(p),
            Call::Pin(p) => Params::Pin(p),
            Call::Status => Params::Nothing,
            Call::ListInstalled(p) => Params::Component(p),
            Call::Log(p) => Params::Log(p),
            Call::Subscribe => Params::Nothing,
            Call::RobotSafeToRestart => Params::Nothing,
            Call::RobotHealth => Params::Nothing,
            Call::RobotModelApi => Params::Nothing,
            Call::RobotRemoteSessionActive => Params::Nothing,
            Call::RobotMove(p) => Params::Move(p),
            Call::RobotHead(p) => Params::Head(p),
            Call::RobotStop => Params::Nothing,
            Call::RobotEnable(p) => Params::Enable(p),
            Call::RobotSubscribe(p) => Params::Subscribe(p),
            Call::NetStatus => Params::Nothing,
            Call::NetScan => Params::Nothing,
            Call::NetConnect(p) => Params::NetConnect(p),
            Call::NetForget(p) => Params::NetForget(p),
            Call::SystemInfo => Params::Nothing,
            Call::SystemSetName(p) => Params::SetName(p),
            Call::SystemReboot => Params::Nothing,
            Call::SystemAuthenticate(p) => Params::Authenticate(p),
            Call::SystemPairingPin => Params::Nothing,
            Call::SystemSetPairingPin(p) => Params::SetPairingPin(p),
        }
    }

    /// The method that the call is of.
    pub fn kind(&self) -> (kind: Method)
        ensures
            kind == self.spec_method(),
    {
        match self {
            Call::Hello(_) => Method::Hello,
            Call::Check(_) => Method::Check,
            Call::Apply(_) => Method::Apply,
            Call::Rollback(_) => Method::Rollback,
            Call::ResetToGolden(_) => Method::ResetToGolden,
            Call::Select(_) => Method::Select,
            Call::Pin(_) => Method::Pin,
            Call::Status => Method::Status,
            Call::ListInstalled(_) => Method::ListInstalled,
            Call::Log(_) => Method::Log,
            Call::Subscribe => Method::Subscribe,
            Call::RobotSafeToRestart => Method::RobotSafeToRestart,
            Call::RobotHealth => Method::RobotHealth,
            Call::RobotModelApi => Method::RobotModelApi,
            Call::RobotRemoteSessionActive => Method::RobotRemoteSessionActive,
            Call::RobotMove(_) => Method::RobotMove,
            Call::RobotHead(_) => Method::RobotHead,
            Call::RobotStop => Method::RobotStop,
            Call::RobotEnable(_) => Method::RobotEnable,
            Call::RobotSubscribe(_) => Method::RobotSubscribe,
            Call::NetStatus => Method::NetStatus,
            Call::NetScan => Method::NetScan,
            Call::NetConnect(_) => Method::NetConnect,
            Call::NetForget(_) => Method::NetForget,
            Call::SystemInfo => Method::SystemInfo,
            Call::SystemSetName(_) => Method::SystemSetName,
            Call::SystemReboot => Method::SystemReboot,
            Call::SystemAuthenticate(_) => Method::SystemAuthenticate,
            Call::SystemPairingPin => Method::SystemPairingPin,
            Call::SystemSetPairingPin(_) => Method::SystemSetPairingPin,
        }
    }

    /// The wire method name.
    pub fn method(&self) -> (name: &'static str)
        ensures
            name@ == self.spec_method().spec_name(),
    {
        self.kind().name()
    }

    pub open spec fn spec_is_mutating(self) -> bool {
        ||| self is Apply
        ||| self is Rollback
        ||| self is ResetToGolden
        ||| self is Select
        ||| self is Pin
        ||| self is NetConnect
        ||| self is NetForget
        ||| self is SystemSetName
        ||| self is SystemReboot
        ||| self is SystemSetPairingPin
    }

    /// Does this change the robot: its software, its network or its identity?
    ///
    /// Exactly these are authorised against the caller; read-only calls are not, so
    /// that support can inspect a robot it is not allowed to change.
    pub fn is_mutating(&self) -> (mutating: bool)
        ensures
            mutating == self.spec_is_mutating(),
    {
        match self {
            Call::Apply(_)
            | Call::Rollback(_)
            | Call::ResetToGolden(_)
            | Call::Select(_)
            | Call::Pin(_)
            | Call::NetConnect(_)
            | Call::NetForget(_)
            | Call::SystemSetName(_)
            | Call::SystemReboot
            | Call::SystemSetPairingPin(_) => true,
            _ => false,
        }
    }

    pub open spec fn spec_component(self) -> Option<ComponentId> {
        match self {
            Call::Check(p) => Some(p.component),
            Call::Rollback(p) => Some(p.component),
            Call::ResetToGolden(p) => Some(p.component),
            Call::ListInstalled(p) => Some(p.component),
            Call::Apply(p) => Some(p.component),
            Call::Select(p) => Some(p.component),
            Call::Pin(p) => Some(p.component),
            _ => None,
        }
    }

    /// The component this call is about, where it names one.
    pub fn component(&self) -> (component: Option<&ComponentId>)
        ensures
            component is Some <==> self.spec_component() is Some,
            component matches Some(c) ==> self.spec_component() == Some(*c),
    {
        match self {
            Call::Check(p) => Some(&p.component),
            Call::Rollback(p) => Some(&p.component),
            Call::ResetToGolden(p) => Some(&p.component),
            Call::ListInstalled(p) => Some(&p.component),
            Call::Apply(p) => Some(&p.component),
            Call::Select(p) => Some(&p.component),
            Call::Pin(p) => Some(&p.component),
            _ => None,
        }
    }

    /// The parameters that go with the method. Methods that take none have
    /// [`Params::Nothing`], which goes on the wire as an empty object.
    pub fn params(self) -> (params: Params)
        ensures
            params == self.spec_params(),
    {
        match self {
            Call::Hello(p) => Params::Hello(p),
            Call::Check(p) => Params::Component(p),
            Call::Apply(p) => Params::Apply(p),
            Call::Rollback(p) => Params::Component(p),
            Call::ResetToGolden(p) => Params::Component(p),
            Call::Select(p) => Params::Select(p),
            Call::Pin(p) => Params::Pin(p),
            Call::Status => Params::Nothing,
            Call::ListInstalled(p) => Params::Component(p),
            Call::Log(p) => Params::Log(p),
            Call::Subscribe => Params::Nothing,
            Call::RobotSafeToRestart => Params::Nothing,
            Call::RobotHealth => Params::Nothing,
            Call::RobotModelApi => Params::Nothing,
            Call::RobotRemoteSessionActive => Params::Nothing,
            Call::RobotMove(p) => Params::Move(p),
            Call::RobotHead(p) => Params::Head(p),
            Call::RobotStop => Params::Nothing,
            Call::RobotEnable(p) => Params::Enable(p),
            Call::RobotSubscribe(p) => Params::Subscribe(p),
            Call::NetStatus => Params::Nothing,
            Call::NetScan => Params::Nothing,
            Call::NetConnect(p) => Params::NetConnect(p),
            Call::NetForget(p) => Params::NetForget(p),
            Call::SystemInfo => Params::Nothing,
            Call::SystemSetName(p) => Params::SetName(p),
            Call::SystemReboot => Params::Nothing,
            Call::SystemAuthenticate(p) => Params::Authenticate(p),
            Call::SystemPairingPin => Params::Nothing,
            Call::SystemSetPairingPin(p) => Params::SetPairingPin(p),
        }
    }

    fn without_params(method: Method) -> (call: Option<Call>)
        ensures
            call is Some <==> method.spec_shape() == Shape::Nothing,
            call matches Some(c) ==> c.spec_method() == method && c.spec_params()
                == Params::Nothing,
    {
        match method {
            Method::Status => Some(Call::Status),
            Method::Subscribe => Some(Call::Subscribe),
            Method::RobotSafeToRestart => Some(Call::RobotSafeToRestart),
            Method::RobotHealth => Some(Call::RobotHealth),
            Method::RobotModelApi => Some(Call::RobotModelApi),
            Method::RobotRemoteSessionActive => Some(Call::RobotRemoteSessionActive),
            Method::RobotStop => Some(Call::RobotStop),
            Method::NetStatus => Some(Call::NetStatus),
            Method::NetScan => Some(Call::NetScan),
            Method::SystemInfo => Some(Call::SystemInfo),
            Method::SystemReboot => Some(Call::SystemReboot),
            Method::SystemPairingPin => Some(Call::SystemPairingPin),
            _ => None,
        }
    }

    fn with_params(method: Method, params: Params) -> (call: Call)
        requires
            method.spec_shape() != Shape::Nothing,
            params.spec_shape() == method.spec_shape(),
        ensures
            call.spec_method() == method,
            call.spec_params() == params,
    {
        match (method, params) {
            (Method::Hello, Params::Hello(p)) => Call::Hello(p),
            (Method::Check, Params::Component(p)) => Call::Check(p),
            (Method::Apply, Params::Apply(p)) => Call::Apply(p),
            (Method::Rollback, Params::Component(p)) => Call::Rollback(p),
            (Method::ResetToGolden, Params::Component(p)) => Call::ResetToGolden(p),
            (Method::Select, Params::Select(p)) => Call::Select(p),
            (Method::Pin, Params::Pin(p)) => Call::Pin(p),
            (Method::ListInstalled, Params::Component(p)) => Call::ListInstalled(p),
            (Method::Log, Params::Log(p)) => Call::Log(p),
            (Method::RobotMove, Params::Move(p)) => Call::RobotMove(p),
            (Method::RobotHead, Params::Head(p)) => Call::RobotHead(p),
            (Method::RobotEnable, Params::Enable(p)) => Call::RobotEnable(p),
            (Method::RobotSubscribe, Params::Subscribe(p)) => Call::RobotSubscribe(p),
            (Method::NetConnect, Params::NetConnect(p)) => Call::NetConnect(p),
            (Method::NetForget, Params::NetForget(p)) => Call::NetForget(p),
            (Method::SystemSetName, Params::SetName(p)) => Call::SystemSetName(p),
            (Method::SystemAuthenticate, Params::Authenticate(p)) => Call::SystemAuthenticate(p),
            (Method::SystemSetPairingPin, Params::SetPairingPin(p)) => Call::SystemSetPairingPin(p),
            _ => Call::Status,
        }
    }

    /// Reads a method name and its parameters as they arrived; `decoded` is what
    /// decoding the parameters as the method's [`Shape`] gave, or the decoder's
    /// complaint.
    ///
    /// The two failures stay apart because a caller acts on them differently: an
    /// unknown method is [`code::METHOD_NOT_FOUND`], parameters that do not fit are
    /// [`code::INVALID_PARAMS`]. Methods taking no parameters ignore whatever arrived.
    pub fn parse(name: &str, decoded: Result<Params, String>) -> (parsed: Result<Call, Error>)
        requires
            forall|m: Method, p: Params|
                #![trigger m.spec_shape(), p.spec_shape()]
                name@ == m.spec_name() && m.spec_shape() != Shape::Nothing && decoded == Ok::<
                    Params,
                    String,
                >(p) ==> p.spec_shape() == m.spec_shape(),
        ensures
            parsed_as(name@, decoded, parsed),
    {
        let method = match Method::named(name) {
            Some(method) => method,
            None => {
                let mut message = "unknown method ".to_owned();
                message.append(quote(name).as_str());
                return Err(Error::new(code::METHOD_NOT_FOUND, message));
            },
        };
        proof {
            assert(name@ == method.spec_name());
            assert forall|m: Method| name@ == #[trigger] m.spec_name() implies m == method by {
                law_method_names_are_distinct(m, method);
            }
        }
        match Call::without_params(method) {
            Some(call) => Ok(call),
            None => match decoded {
                Ok(params) => Ok(Call::with_params(method, params)),
                Err(complaint) => Err(Error::new(code::INVALID_PARAMS, complaint)),
            },
        }
    }
}

/// What a method name and its decoded parameters are read as.
pub open spec fn parsed_as(
    name: Seq<char>,
    decoded: Result<Params, String>,
    parsed: Result<Call, Error>,
) -> bool {
    if exists|m: Method| name == #[trigger] m.spec_name() {
        let m = choose|m: Method| name == #[trigger] m.spec_name();
        match (m.spec_shape(), decoded) {
            (Shape::Nothing, _) => parsed matches Ok(call) && call.spec_method() == m
                && call.spec_params() == Params::Nothing,
            (_, Ok(params)) => parsed matches Ok(call) && call.spec_method() == m
                && call.spec_params() == params,
            (_, Err(complaint)) => parsed matches Err(e) && e.says(
                code::INVALID_PARAMS,
                complaint@,
            ),
        }
    } else {
        parsed matches Err(e) && e.says(
            code::METHOD_NOT_FOUND,
            "unknown method "@ + quoted(name),
        )
    }
}

/// A method and its parameters determine the call.
pub proof fn law_call_is_its_method_and_params(a: Call, b: Call)
    requires
        a.spec_method() == b.spec_method(),
        a.spec_params() == b.spec_params(),
    ensures
        a == b,
{
}

/// Every call survives being taken apart into its method name and parameters and
/// read back.
pub proof fn law_every_call_round_trips(call: Call, parsed: Result<Call, Error>)
    requires
        parsed_as(call.spec_method().spec_name(), Ok(call.spec_params()), parsed),
    ensures
        parsed == Ok::<Call, Error>(call),
{
    let name = call.spec_method().spec_name();
    let m = choose|m: Method| name == #[trigger] m.spec_name();
    law_method_names_are_distinct(m, call.spec_method());
    assert(call.spec_params().spec_shape() == call.spec_method().spec_shape());
    law_call_is_its_method_and_params(parsed->Ok_0, call);
}

/// A call that takes no parameters is read from its name alone, whatever arrived
/// with it.
pub proof fn law_methods_without_params_accept_anything(
    call: Call,
    decoded: Result<Params, String>,
    parsed: Result<Call, Error>,
)
    requires
        call.spec_params() == Params::Nothing,
        parsed_as(call.spec_method().spec_name(), decoded, parsed),
    ensures
        parsed == Ok::<Call, Error>(call),
{
    let name = call.spec_method().spec_name();
    let m = choose|m: Method| name == #[trigger] m.spec_name();
    law_method_names_are_distinct(m, call.spec_method());
    law_call_is_its_method_and_params(parsed->Ok_0, call);
}

// Envelopes

/// A request or a notification, as it appears on the wire.
///
/// `method` and `params` stay raw here so that a server can tell an unknown method
/// from parameters it could not read.
#[derive(Debug, PartialEq)]
pub struct Request {
    pub jsonrpc: String,
    /// Absent on a notification.
    pub id: Option<Id>,
    pub method: String,
    pub params: Option<serde_json::Value>,
}

impl Request {
    /// The envelope of a message with these parts.
    pub open spec fn is_envelope(
        self,
        id: Option<Id>,
        method: Seq<char>,
        params: serde_json::Value,
    ) -> bool {
        &&& self.jsonrpc@ == JSONRPC_VERSION@
        &&& self.id == id
        &&& self.method@ == method
        &&& self.params == Some(params)
    }

    /// A call that expects an answer; `params` are the call's parameters as JSON.
    pub fn call(id: Id, call: &Call, params: serde_json::Value) -> (request: Self)
        ensures
            request.is_envelope(Some(id), call.spec_method().spec_name(), params),
    {
        Request {
            jsonrpc: JSONRPC_VERSION.to_owned(),
            id: Some(id),
            method: call.method().to_owned(),
            params: Some(params),
        }
    }

    /// A call sent as a notification: no `id`, so no response is expected. This is
    /// how continuous intents travel.
    pub fn notify(call: &Call, params: serde_json::Value) -> (request: Self)
        ensures
            request.is_envelope(None, call.spec_method().spec_name(), params),
    {
        Request {
            jsonrpc: JSONRPC_VERSION.to_owned(),
            id: None,
            method: call.method().to_owned(),
            params: Some(params),
        }
    }

    /// A robot-state notification; `state` is the state as JSON.
    pub fn notify_state(state: serde_json::Value) -> (request: Self)
        ensures
            request.is_envelope(None, method::ROBOT_STATE@, state),
    {
        Request {
            jsonrpc: JSONRPC_VERSION.to_owned(),
            id: None,
            method: method::ROBOT_STATE.to_owned(),
            params: Some(state),
        }
    }

    /// Reads a robot-state notification back; `decoded` is what its parameters
    /// decode to, if they do.
    pub fn as_state(&self, decoded: Option<RobotState>) -> (state: Option<RobotState>)
        ensures
            state == if self.method@ == method::ROBOT_STATE@ && self.params is Some {
                decoded
            } else {
                None
            },
    {
        if !same_text(self.method.as_str(), method::ROBOT_STATE) || self.params.is_none() {
            return None;
        }
        decoded
    }

    /// A progress notification; `progress` is the progress as JSON.
    pub fn notify_progress(progress: serde_json::Value) -> (request: Self)
        ensures
            request.is_envelope(None, method::PROGRESS@, progress),
    {
        Request {
            jsonrpc: JSONRPC_VERSION.to_owned(),
            id: None,
            method: method::PROGRESS.to_owned(),
            params: Some(progress),
        }
    }

    pub fn is_notification(&self) -> (r: bool)
        ensures
            r == (self.id is None),
    {
        self.id.is_none()
    }

    /// The typed call, or the error to answer with; `decoded` as in [`Call::parse`].
    pub fn as_call(&self, decoded: Result<Params, String>) -> (parsed: Result<Call, Error>)
        requires
            forall|m: Method, p: Params|
                #![trigger m.spec_shape(), p.spec_shape()]
                self.method@ == m.spec_name() && m.spec_shape() != Shape::Nothing && decoded
                    == Ok::<Params, String>(p) ==> p.spec_shape() == m.spec_shape(),
        ensures
            parsed_as(self.method@, decoded, parsed),
    {
        Call::parse(self.method.as_str(), decoded)
    }

    /// The payload of a progress notification; `decoded` is what its parameters
    /// decode to, or the decoder's complaint.
    pub fn as_progress(&self, decoded: Result<Progress, String>) -> (progress: Result<
        Progress,
        Error,
    >)
        ensures
            if self.method@ != method::PROGRESS@ {
                progress matches Err(e) && e.says(
                    code::METHOD_NOT_FOUND,
                    quoted(self.method@) + " is not a progress notification"@,
                )
            } else {
                match decoded {
                    Ok(p) => progress == Ok::<Progress, Error>(p),
                    Err(complaint) => progress matches Err(e) && e.says(
                        code::INVALID_PARAMS,
                        complaint@,
                    ),
                }
            },
    {
        if !same_text(self.method.as_str(), method::PROGRESS) {
            let mut message = quote(self.method.as_str());
            message.append(" is not a progress notification");
            return Err(Error::new(code::METHOD_NOT_FOUND, message));
        }
        match decoded {
            Ok(p) => Ok(p),
            Err(complaint) => Err(Error::new(code::INVALID_PARAMS, complaint)),
        }
    }
}

/// A message that the server pushes is never read as a call.
pub proof fn law_notifications_are_not_calls(
    request: Request,
    payload: serde_json::Value,
    decoded: Result<Params, String>,
    parsed: Result<Call, Error>,
)
    requires
        request.is_envelope(None, method::PROGRESS@, payload) || request.is_envelope(
            None,
            method::ROBOT_STATE@,
            payload,
        ),
        parsed_as(request.method@, decoded, parsed),
    ensures
        parsed matches Err(e) && e.code == code::METHOD_NOT_FOUND,
{
    assert forall|m: Method| request.method@ != #[trigger] m.spec_name() by {
        crate::method::law_notifications_are_not_methods(m);
    }
}

#[derive(Debug, PartialEq)]
pub struct Response {
    pub jsonrpc: String,
    /// `None` when the request could not be read well enough to recover an id.
    pub id: Option<Id>,
    pub result: Option<serde_json::Value>,
    pub error: Option<Error>,
}

impl Response {
    /// A response carries a result or an error, never both and never neither.
    pub open spec fn well_formed(self) -> bool {
        self.result is Some <==> self.error is None
    }

    /// A success response; `result` is the answer as JSON.
    ///
    /// A result that cannot be serialised becomes a [`code::INTERNAL_ERROR`]
    /// response: visibly wrong, rather than a silent null.
    pub fn ok(id: Option<Id>, result: Result<serde_json::Value, String>) -> (response: Self)
        ensures
            response.well_formed(),
            response.jsonrpc@ == JSONRPC_VERSION@,
            response.id == id,
            match result {
                Ok(value) => response.result == Some(value),
                Err(complaint) => response.error matches Some(e) && e.says(
                    code::INTERNAL_ERROR,
                    complaint@,
                ),
            },
    {
        match result {
            Ok(value) => Response {
                jsonrpc: JSONRPC_VERSION.to_owned(),
                id,
                result: Some(value),
                error: None,
            },
            Err(complaint) => Response::err(id, Error::new(code::INTERNAL_ERROR, complaint)),
        }
    }

    pub fn err(id: Option<Id>, error: Error) -> (response: Self)
        ensures
            response.well_formed(),
            response.jsonrpc@ == JSONRPC_VERSION@,
            response.id == id,
            response.error == Some(error),
    {
        Response { jsonrpc: JSONRPC_VERSION.to_owned(), id, result: None, error: Some(error) }
    }
}

#[derive(Debug, PartialEq)]
pub struct Error {
    pub code: i32,
    /// Displayable in the app. Specific enough to diagnose from a support ticket.
    pub message: String,
    pub data: Option<serde_json::Value>,
}

impl Error {
    /// A plain error with that code and message.
    pub open spec fn says(self, code: i32, message: Seq<char>) -> bool {
        self.code == code && self.message@ == message && self.data is None
    }

    pub fn new(code: i32, message: String) -> (error: Self)
        ensures
            error.says(code, message@),
    {
        Error { code, message, data: None }
    }

    /// One line: the code in brackets, then the message.
    pub fn describe(&self) -> (line: String)
        ensures
            line@ == "["@ + signed_decimal(self.code as int) + "] "@ + self.message@,
    {
        let mut line = "[".to_owned();
        push_signed(&mut line, self.code as i64);
        line.append("] ");
        line.append(self.message.as_str());
        line
    }
}

// Results

#[derive(Debug, Clone, PartialEq, Eq)]
pub struct HelloResult {
    pub api_version: u32,
    pub daemon_version: Option<semver::Version>,
    /// Source revision of the running binary, or `None` for a local build.
    pub revision: Option<String>,
}

/// Where an in-flight update has got to.
#[derive(Debug, Clone, Copy, PartialEq, Eq, Structural)]
pub enum Phase {
    Idle,
    Preflight,
    Checking,
    Downloading,
    Verifying,
    Extracting,
    RunningPreHook,
    Swapping,
    RunningPostHook,
    Applying,
    HealthGate,
    Committing,
    RollingBack,
}

/// Payload of a progress notification.
#[derive(Debug, Clone, PartialEq, Eq)]
pub struct Progress {
    pub component: ComponentId,
    pub phase: Phase,
    /// 0-100 where meaningful; `None` otherwise.
    pub percent: Option<u8>,
    pub detail: Option<String>,
}

#[derive(Debug, Clone, PartialEq, Eq)]
pub struct ComponentStatus {
    pub component: ComponentId,
    pub installed: Option<semver::Version>,
    pub phase: Phase,
    /// `None` when no health probe is configured.
    pub healthy: Option<bool>,
    pub pinned: Option<semver::Version>,
    pub last_attempt: Option<LogEntry>,
}

#[derive(Debug, Clone, PartialEq, Eq)]
pub struct InstalledRelease {
    pub version: semver::Version,
    pub active: bool,
    pub golden: bool,
    /// Revision of the build, for provenance.
    pub source_revision: Option<String>,
}

#[derive(Debug, Clone, PartialEq, Eq)]
pub enum CheckResult {
    UpToDate { installed: semver::Version },
    Available {
        installed: Option<semver::Version>,
        candidate: semver::Version,
        /// True when the update is non-optional.
        mandatory: bool,
        changelog: Option<String>,
    },
    /// A newer version exists but cannot be installed here.
    Incompatible { candidate: semver::Version, reason: String },
}

/// Result of an apply, a rollback or a select.
#[derive(Debug, Clone, PartialEq, Eq)]
pub enum ApplyResult {
    Applied { from: Option<semver::Version>, to: semver::Version },
    AlreadyCurrent { version: semver::Version },
    /// Everything verified; stopped before the swap because a dry run was asked for.
    DryRunPassed { candidate: semver::Version },
    /// Applied, failed its gate, reverted.
    RolledBack {
        attempted: semver::Version,
        reverted_to: Option<semver::Version>,
        reason: String,
    },
    /// Failed its gate with nowhere to revert to.
    Stuck { version: semver::Version, reason: String },
}

#[derive(Debug, Clone, PartialEq, Eq)]
pub struct LogEntry {
    /// Unix seconds.
    pub at: i64,
    pub component: ComponentId,
    pub from: Option<semver::Version>,
    pub to: Option<semver::Version>,
    pub outcome: Outcome,
}

#[derive(Debug, Clone, PartialEq, Eq)]
pub enum Outcome {
    Success,
    RolledBack { reason: String },
    /// Refused before anything changed.
    Aborted { reason: String },
}

/// Answer to [`Call::RobotSafeToRestart`].
#[derive(Debug, Clone, PartialEq, Eq)]
pub struct SafeToRestartResult {
    pub safe: bool,
    /// Why not, when `safe` is false. Displayable.
    pub reason: Option<String>,
}

/// Answer to [`Call::RobotHealth`].
///
/// A robot that is up but not healthy must say so rather than fail to answer.
#[derive(Debug, Clone, PartialEq, Eq)]
pub struct HealthResult {
    pub healthy: bool,
    /// Set when the reason is a property of the board, not of the running release.
    pub degraded: bool,
    pub reason: Option<String>,
    /// Motor-bus voltage, when it has been read. Absent is not zero volts.
    pub battery: Option<Battery>,
    /// Hottest servo, when temperatures have been read.
    pub motors: Option<MotorThermal>,
    /// Board temperature in degrees Celsius.
    pub cpu_temp_c: Option<Double>,
    /// The control loop's own numbers.
    pub control_loop: Option<LoopHealth>,
    /// What the motor bus is doing.
    pub bus: BusHealth,
    /// Orientation source.
    pub imu: Option<ImuHealth>,
}

impl Default for HealthResult {
    /// Nothing known: not healthy, nothing measured.
    fn default() -> (health: Self)
        ensures
            !health.healthy,
            !health.degraded,
            health.reason is None,
            health.battery is None,
            health.motors is None,
            health.cpu_temp_c is None,
            health.control_loop is None,
            health.bus.consecutive_errors == 0,
            health.bus.startup_failures == 0,
            health.imu is None,
    {
        HealthResult {
            healthy: false,
            degraded: false,
            reason: None,
            battery: None,
            motors: None,
            cpu_temp_c: None,
            control_loop: None,
            bus: BusHealth { consecutive_errors: 0, startup_failures: 0 },
            imu: None,
        }
    }
}

/// The control loop's rate and timing.
#[derive(Debug, Clone, Copy, PartialEq, Eq)]
pub struct LoopHealth {
    pub target_hz: Double,
    /// Achieved rate over the last window. `None` until the first window closes.
    pub achieved_hz: Option<Double>,
    pub ticks: u64,
    /// Ticks whose work overran the period, cumulative.
    pub missed: u64,
    /// Age of the last completed tick. Large means wedged.
    pub last_tick_age_ms: u64,
}

/// The motor bus, as the loop sees it.
#[derive(Debug, Clone, Copy, PartialEq, Eq)]
pub struct BusHealth {
    /// Consecutive failed reads; any success resets it.
    pub consecutive_errors: u32,
    /// Failed attempts to bring the bus up at all.
    pub startup_failures: u32,
}

/// The IMU board, which rides the motor bus.
#[derive(Debug, Clone, Copy, PartialEq, Eq)]
pub struct ImuHealth {
    /// Has the orientation filter converged?
    pub ready: bool,
    /// Reads that returned the previous sample unchanged.
    pub stale_blocks: u64,
}

/// Servo case temperature, reduced to the part worth acting on.
#[derive(Debug, Clone, PartialEq, Eq)]
pub struct MotorThermal {
    /// Name of the hottest joint.
    pub hottest: String,
    pub max_c: Double,
    pub mean_c: Double,
}

/// Motor-bus voltage, and what fraction of a pack that is.
#[derive(Debug, Clone, Copy, PartialEq, Eq)]
pub struct Battery {
    pub volts: Double,
    pub percent: Double,
}

/// Answer to a discrete intent. Not being accepted is a normal outcome, not an error.
#[derive(Debug, Clone, PartialEq, Eq)]
pub struct IntentResult {
    pub accepted: bool,
    pub reason: Option<String>,
}

impl IntentResult {
    pub fn accepted() -> (result: Self)
        ensures
            result.accepted,
            result.reason is None,
    {
        IntentResult { accepted: true, reason: None }
    }

    pub fn refused(reason: &str) -> (result: Self)
        ensures
            !result.accepted,
            result.reason matches Some(r) && r@ == reason@,
    {
        IntentResult { accepted: false, reason: Some(reason.to_owned()) }
    }
}

/// What the robot is doing. It reports what was refused, not just what happened.
#[derive(Debug, Clone, PartialEq, Eq)]
pub struct RobotState {
    /// Seconds since the daemon started.
    pub t: Double,
    pub movement: MoveState,
    pub head: [Double; 4],
    /// Which policy drove this tick: `walk`, `stand`, or `held` when none did.
    pub policy: String,
    pub safety: SafetyState,
    pub control_loop: LoopState,
    /// Measured joint angles, radians, in the model's joint order.
    pub joints: Vec<Double>,
    /// What was commanded.
    pub targets: Vec<Double>,
}

#[derive(Debug, Clone, PartialEq, Eq)]
pub struct MoveState {
    pub requested: [Double; 3],
    pub applied: [Double; 3],
    /// Empty when the command went through untouched.
    pub limited_by: Vec<String>,
}

#[derive(Debug, Clone, Copy, PartialEq, Eq)]
pub struct SafetyState {
    pub fallen: bool,
    /// Gains have been dropped so the robot yields.
    pub limp: bool,
    /// Projected gravity in the trunk frame.
    pub gravity: [Double; 3],
    /// Position gain last written to the servos, or `None` before the first write.
    pub gain: Option<u16>,
}

#[derive(Debug, Clone, Copy, PartialEq, Eq)]
pub struct LoopState {
    /// Achieved rate over the last window.
    pub hz: Double,
    /// Ticks whose work overran the period, cumulative.
    pub missed: u64,
}

/// Answer to [`Call::RobotModelApi`].
#[derive(Debug, Clone, PartialEq, Eq)]
pub struct ModelApiResult {
    pub model_api: u32,
}

/// Answer to [`Call::RobotRemoteSessionActive`].
#[derive(Debug, Clone, PartialEq, Eq)]
pub struct SessionActiveResult {
    pub active: bool,
}

/// What a binary reports about itself: version, source revision, build time.
#[derive(Debug, Clone, Copy, PartialEq, Eq)]
pub struct BuildInfo {
    pub version: &'static str,
    /// Source revision, or `None` for a build that did not come from CI.
    pub revision: Option<&'static str>,
    /// Build timestamp, or `None` locally.
    pub built_at: Option<&'static str>,
}

impl BuildInfo {
    /// The line that a build reports itself with.
    pub open spec fn line(self) -> Seq<char> {
        self.version@ + match self.revision {
            Some(rev) => " (rev "@ + rev@,
            None => " (rev unknown, not a CI build"@,
        } + match self.built_at {
            Some(at) => ", built "@ + at@ + ")"@,
            None => ")"@,
        }
    }

    /// One line, greppable, and explicit about what is unknown.
    pub fn describe(&self) -> (line: String)
        ensures
            line@ == self.line(),
    {
        let mut line = self.version.to_owned();
        match self.revision {
            Some(rev) => {
                line.append(" (rev ");
                line.append(rev);
            },
            None => {
                line.append(" (rev unknown, not a CI build");
            },
        }
        match self.built_at {
            Some(at) => {
                line.append(", built ");
                line.append(at);
                line.append(")");
            },
            None => {
                line.append(")");
            },
        }
        assert(line@ =~= self.line());
        line
    }
}

/// What changes the software, the network or the identity of the robot is authorised;
/// asking is not, nor is driving, which has its own rules.
pub proof fn law_what_changes_the_robot_is_authorised(call: Call)
    ensures
        call is Apply || call is Rollback || call is ResetToGolden || call is Select || call is Pin
            || call is NetConnect || call is NetForget || call is SystemSetName
            || call is SystemReboot || call is SystemSetPairingPin ==> call.spec_is_mutating(),
        call is Hello || call is Check || call is Status || call is ListInstalled || call is Log
            || call is Subscribe || call is RobotSafeToRestart || call is RobotHealth
            || call is RobotModelApi || call is RobotRemoteSessionActive || call is NetStatus
            || call is NetScan || call is SystemInfo || call is SystemAuthenticate
            || call is SystemPairingPin ==> !call.spec_is_mutating(),
        call is RobotMove || call is RobotHead || call is RobotStop || call is RobotEnable
            || call is RobotSubscribe ==> !call.spec_is_mutating(),
{
}

/// A call names a component exactly if it is about one, and then the one it was made with.
pub proof fn law_a_call_names_its_component(call: Call)
    ensures
        call matches Call::Check(p) ==> call.spec_component() == Some(p.component),
        call matches Call::Rollback(p) ==> call.spec_component() == Some(p.component),
        call matches Call::ResetToGolden(p) ==> call.spec_component() == Some(p.component),
        call matches Call::ListInstalled(p) ==> call.spec_component() == Some(p.component),
        call matches Call::Apply(p) ==> call.spec_component() == Some(p.component),
        call matches Call::Select(p) ==> call.spec_component() == Some(p.component),
        call matches Call::Pin(p) ==> call.spec_component() == Some(p.component),
        call.spec_component() is Some ==> call is Check || call is Rollback || call is ResetToGolden
            || call is ListInstalled || call is Apply || call is Select || call is Pin,
{
}

/// A name that no method has is an unknown method, whatever came with it; a known one whose
/// parameters cannot be read is answered with the decoder's complaint, unless it takes none.
pub proof fn law_unknown_methods_and_bad_parameters_stay_apart(
    name: Seq<char>,
    m: Method,
    decoded: Result<Params, String>,
    parsed: Result<Call, Error>,
)
    requires
        parsed_as(name, decoded, parsed),
    ensures
        (forall|k: Method| name != #[trigger] k.spec_name()) ==> (parsed matches Err(e) && e.code
            == -32601 && e.data is None),
        name == m.spec_name() && m.spec_shape() != Shape::Nothing ==> (decoded matches Err(
            complaint,
        ) ==> (parsed matches Err(e) && e.code == -32602 && e.message@ == complaint@)),
        name == m.spec_name() && decoded is Ok ==> (parsed matches Ok(call) && call.spec_method()
            == m),
        name == m.spec_name() && m.spec_shape() == Shape::Nothing ==> parsed is Ok,
{
    if name == m.spec_name() {
        let k = choose|k: Method| name == #[trigger] k.spec_name();
        law_method_names_are_distinct(k, m);
    }
}

/// The parameters of a call are of the shape that its method takes.
pub proof fn law_parameters_fit_their_method(call: Call)
    ensures
        call.spec_params().spec_shape() == call.spec_method().spec_shape(),
{
}

/// An envelope carries the protocol's version, and a notification carries no id.
pub proof fn law_an_envelope_is_a_version_two_message(
    request: Request,
    id: Option<Id>,
    name: Seq<char>,
    params: serde_json::Value,
)
    requires
        request.is_envelope(id, name, params),
    ensures
        request.jsonrpc@ == "2.0"@,
        request.id == id,
        request.method@ == name,
        request.params == Some(params),
{
}

/// A response has a result or an error, and not both.
pub proof fn law_a_response_answers_one_way(response: Response)
    ensures
        response.well_formed() && response.result is Some ==> response.error is None,
        response.well_formed() && response.error is Some ==> response.result is None,
        response.well_formed() ==> response.result is Some || response.error is Some,
        response.result is Some && response.error is None ==> response.well_formed(),
        response.error is Some && response.result is None ==> response.well_formed(),
{
}

/// The error codes that clients tell apart.
pub proof fn law_error_codes_are_these()
    ensures
        code::PARSE_ERROR == -32700,
        code::INVALID_REQUEST == -32600,
        code::METHOD_NOT_FOUND == -32601,
        code::INVALID_PARAMS == -32602,
        code::INTERNAL_ERROR == -32603,
        code::BUSY == 1,
        code::UNKNOWN_COMPONENT == 2,
        code::PROTOCOL_MISMATCH == 3,
        code::PREFLIGHT_FAILED == 4,
        code::NETWORK == 5,
        code::VERIFICATION_FAILED == 6,
        code::INCOMPATIBLE == 7,
        code::HOOK_FAILED == 8,
        code::HEALTH_CHECK_FAILED == 9,
        code::ROLLBACK_FAILED == 10,
        code::NOT_INSTALLED == 11,
        code::WOULD_DOWNGRADE == 12,
        code::ARCHIVE_TOO_LARGE == 13,
        code::PERMISSION_DENIED == 14,
        API_VERSION == 2,
{
}

} // verus!
