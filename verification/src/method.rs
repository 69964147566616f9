//! Method names as they go on the wire, and the method each of them stands for.
//!
//! The names are namespaced by the service that answers: `update.*`, `robot.*`,
//! `net.*` and `system.*`.

use vstd::prelude::*;
use crate::text::same_text;

verus! {

/// Version handshake. The first call on a connection.
pub const HELLO: &'static str = "hello";

pub const CHECK: &'static str = "update.check";

pub const APPLY: &'static str = "update.apply";

pub const ROLLBACK: &'static str = "update.rollback";

pub const RESET_TO_GOLDEN: &'static str = "update.resetToGolden";

pub const SELECT: &'static str = "update.select";

pub const PIN: &'static str = "update.pin";

pub const STATUS: &'static str = "update.status";

pub const LIST_INSTALLED: &'static str = "update.listInstalled";

pub const LOG: &'static str = "update.log";

/// Turns the connection into a stream of progress notifications.
pub const SUBSCRIBE: &'static str = "update.subscribe";

/// May the control loop be restarted right now?
pub const ROBOT_SAFE_TO_RESTART: &'static str = "robot.safeToRestart";

/// Did the robot come up correctly?
pub const ROBOT_HEALTH: &'static str = "robot.health";

/// Which model API version does this build implement?
pub const ROBOT_MODEL_API: &'static str = "robot.modelApi";

/// Is a telepresence session live?
pub const ROBOT_SESSION_ACTIVE: &'static str = "robot.remoteSessionActive";

/// Velocity twist. Continuous; send as a notification.
pub const ROBOT_MOVE: &'static str = "robot.move";

/// Head joint targets. Continuous; send as a notification.
pub const ROBOT_HEAD: &'static str = "robot.head";

/// Stop moving: zero the velocity. Not "go limp".
pub const ROBOT_STOP: &'static str = "robot.stop";

/// Turn policy execution on or off.
pub const ROBOT_ENABLE: &'static str = "robot.enable";

/// Turns the connection into a stream of state notifications.
pub const ROBOT_SUBSCRIBE: &'static str = "robot.subscribe";

pub const NET_STATUS: &'static str = "net.status";

pub const NET_SCAN: &'static str = "net.scan";

pub const NET_CONNECT: &'static str = "net.connect";

pub const NET_FORGET: &'static str = "net.forget";

pub const SYSTEM_INFO: &'static str = "system.info";

pub const SYSTEM_SET_NAME: &'static str = "system.setName";

pub const SYSTEM_REBOOT: &'static str = "system.reboot";

pub const SYSTEM_AUTHENTICATE: &'static str = "system.authenticate";

pub const SYSTEM_PAIRING_PIN: &'static str = "system.pairingPin";

pub const SYSTEM_SET_PAIRING_PIN: &'static str = "system.setPairingPin";

/// Update progress, pushed by the server. Never carries an `id`.
pub const PROGRESS: &'static str = "update.progress";

/// Robot state, pushed by the server. Never carries an `id`.
pub const ROBOT_STATE: &'static str = "robot.state";

/// A method that can be called.
#[derive(Debug, Clone, Copy, PartialEq, Eq, Hash, Structural)]
pub enum Method {
    Hello,
    Check,
    Apply,
    Rollback,
    ResetToGolden,
    Select,
    Pin,
    Status,
    ListInstalled,
    Log,
    Subscribe,
    RobotSafeToRestart,
    RobotHealth,
    RobotModelApi,
    RobotRemoteSessionActive,
    RobotMove,
    RobotHead,
    RobotStop,
    RobotEnable,
    RobotSubscribe,
    NetStatus,
    NetScan,
    NetConnect,
    NetForget,
    SystemInfo,
    SystemSetName,
    SystemReboot,
    SystemAuthenticate,
    SystemPairingPin,
    SystemSetPairingPin,
}

/// Which parameters a method takes.
#[derive(Debug, Clone, Copy, PartialEq, Eq, Hash, Structural)]
pub enum Shape {
    /// None: whatever arrives is ignored.
    Nothing,
    Hello,
    Component,
    Apply,
    Select,
    Pin,
    Log,
    Move,
    Head,
    Enable,
    Subscribe,
    NetConnect,
    NetForget,
    SetName,
    Authenticate,
    SetPairingPin,
}

impl Method {
    /// The wire name.
    pub open spec fn spec_name(self) -> Seq<char> {
        match self {
            Method::Hello => HELLO@,
            Method::Check => CHECK@,
            Method::Apply => APPLY@,
            Method::Rollback => ROLLBACK@,
            Method::ResetToGolden => RESET_TO_GOLDEN@,
            Method::Select => SELECT@,
            Method::Pin => PIN@,
            Method::Status => STATUS@,
            Method::ListInstalled => LIST_INSTALLED@,
            Method::Log => LOG@,
            Method::Subscribe => SUBSCRIBE@,
            Method::RobotSafeToRestart => ROBOT_SAFE_TO_RESTART@,
            Method::RobotHealth => ROBOT_HEALTH@,
            Method::RobotModelApi => ROBOT_MODEL_API@,
            Method::RobotRemoteSessionActive => ROBOT_SESSION_ACTIVE@,
            Method::RobotMove => ROBOT_MOVE@,
            Method::RobotHead => ROBOT_HEAD@,
            Method::RobotStop => ROBOT_STOP@,
            Method::RobotEnable => ROBOT_ENABLE@,
            Method::RobotSubscribe => ROBOT_SUBSCRIBE@,
            Method::NetStatus => NET_STATUS@,
            Method::NetScan => NET_SCAN@,
            Method::NetConnect => NET_CONNECT@,
            Method::NetForget => NET_FORGET@,
            Method::SystemInfo => SYSTEM_INFO@,
            Method::SystemSetName => SYSTEM_SET_NAME@,
            Method::SystemReboot => SYSTEM_REBOOT@,
            Method::SystemAuthenticate => SYSTEM_AUTHENTICATE@,
            Method::SystemPairingPin => SYSTEM_PAIRING_PIN@,
            Method::SystemSetPairingPin => SYSTEM_SET_PAIRING_PIN@,
        }
    }

    pub open spec fn spec_shape(self) -> Shape {
        match self {
            Method::Hello => Shape::Hello,
            Method::Check => Shape::Component,
            Method::Apply => Shape::Apply,
            Method::Rollback => Shape::Component,
            Method::ResetToGolden => Shape::Component,
            Method::Select => Shape::Select,
            Method::Pin => Shape::Pin,
            Method::Status => Shape::Nothing,
            Method::ListInstalled => Shape::Component,
            Method::Log => Shape::Log,
            Method::Subscribe => Shape::Nothing,
            Method::RobotSafeToRestart => Shape::Nothing,
            Method::RobotHealth => Shape::Nothing,
            Method::RobotModelApi => Shape::Nothing,
            Method::RobotRemoteSessionActive => Shape::Nothing,
            Method::RobotMove => Shape::Move,
            Method::RobotHead => Shape::Head,
            Method::RobotStop => Shape::Nothing,
            Method::RobotEnable => Shape::Enable,
            Method::RobotSubscribe => Shape::Subscribe,
            Method::NetStatus => Shape::Nothing,
            Method::NetScan => Shape::Nothing,
            Method::NetConnect => Shape::NetConnect,
            Method::NetForget => Shape::NetForget,
            Method::SystemInfo => Shape::Nothing,
            Method::SystemSetName => Shape::SetName,
            Method::SystemReboot => Shape::Nothing,
            Method::SystemAuthenticate => Shape::Authenticate,
            Method::SystemPairingPin => Shape::Nothing,
            Method::SystemSetPairingPin => Shape::SetPairingPin,
        }
    }

    /// The wire name.
    pub fn name(self) -> (name: &'static str)
        ensures
            name@ == self.spec_name(),
    {
        match self {
            Method::Hello => HELLO,
            Method::Check => CHECK,
            Method::Apply => APPLY,
            Method::Rollback => ROLLBACK,
            Method::ResetToGolden => RESET_TO_GOLDEN,
            Method::Select => SELECT,
            Method::Pin => PIN,
            Method::Status => STATUS,
            Method::ListInstalled => LIST_INSTALLED,
            Method::Log => LOG,
            Method::Subscribe => SUBSCRIBE,
            Method::RobotSafeToRestart => ROBOT_SAFE_TO_RESTART,
            Method::RobotHealth => ROBOT_HEALTH,
            Method::RobotModelApi => ROBOT_MODEL_API,
            Method::RobotRemoteSessionActive => ROBOT_SESSION_ACTIVE,
            Method::RobotMove => ROBOT_MOVE,
            Method::RobotHead => ROBOT_HEAD,
            Method::RobotStop => ROBOT_STOP,
            Method::RobotEnable => ROBOT_ENABLE,
            Method::RobotSubscribe => ROBOT_SUBSCRIBE,
            Method::NetStatus => NET_STATUS,
            Method::NetScan => NET_SCAN,
            Method::NetConnect => NET_CONNECT,
            Method::NetForget => NET_FORGET,
            Method::SystemInfo => SYSTEM_INFO,
            Method::SystemSetName => SYSTEM_SET_NAME,
            Method::SystemReboot => SYSTEM_REBOOT,
            Method::SystemAuthenticate => SYSTEM_AUTHENTICATE,
            Method::SystemPairingPin => SYSTEM_PAIRING_PIN,
            Method::SystemSetPairingPin => SYSTEM_SET_PAIRING_PIN,
        }
    }

    /// Which parameters the method takes.
    pub fn shape(self) -> (shape: Shape)
        ensures
            shape == self.spec_shape(),
    {
        match self {
            Method::Hello => Shape::Hello,
            Method::Check => Shape::Component,
            Method::Apply => Shape::Apply,
            Method::Rollback => Shape::Component,
            Method::ResetToGolden => Shape::Component,
            Method::Select => Shape::Select,
            Method::Pin => Shape::Pin,
            Method::Status => Shape::Nothing,
            Method::ListInstalled => Shape::Component,
            Method::Log => Shape::Log,
            Method::Subscribe => Shape::Nothing,
            Method::RobotSafeToRestart => Shape::Nothing,
            Method::RobotHealth => Shape::Nothing,
            Method::RobotModelApi => Shape::Nothing,
            Method::RobotRemoteSessionActive => Shape::Nothing,
            Method::RobotMove => Shape::Move,
            Method::RobotHead => Shape::Head,
            Method::RobotStop => Shape::Nothing,
            Method::RobotEnable => Shape::Enable,
            Method::RobotSubscribe => Shape::Subscribe,
            Method::NetStatus => Shape::Nothing,
            Method::NetScan => Shape::Nothing,
            Method::NetConnect => Shape::NetConnect,
            Method::NetForget => Shape::NetForget,
            Method::SystemInfo => Shape::Nothing,
            Method::SystemSetName => Shape::SetName,
            Method::SystemReboot => Shape::Nothing,
            Method::SystemAuthenticate => Shape::Authenticate,
            Method::SystemPairingPin => Shape::Nothing,
            Method::SystemSetPairingPin => Shape::SetPairingPin,
        }
    }

    /// The method of that name, if there is one.
    pub fn named(name: &str) -> (method: Option<Method>)
        ensures
            forall|m: Method| method == Some(m) <==> name@ == #[trigger] m.spec_name(),
    {
        let found = if same_text(name, HELLO) {
            Some(Method::Hello)
        } else if same_text(name, CHECK) {
            Some(Method::Check)
        } else if same_text(name, APPLY) {
            Some(Method::Apply)
        } else if same_text(name, ROLLBACK) {
            Some(Method::Rollback)
        } else if same_text(name, RESET_TO_GOLDEN) {
            Some(Method::ResetToGolden)
        } else if same_text(name, SELECT) {
            Some(Method::Select)
        } else if same_text(name, PIN) {
            Some(Method::Pin)
        } else if same_text(name, STATUS) {
            Some(Method::Status)
        } else if same_text(name, LIST_INSTALLED) {
            Some(Method::ListInstalled)
        } else if same_text(name, LOG) {
            Some(Method::Log)
        } else if same_text(name, SUBSCRIBE) {
            Some(Method::Subscribe)
        } else if same_text(name, ROBOT_SAFE_TO_RESTART) {
            Some(Method::RobotSafeToRestart)
        } else if same_text(name, ROBOT_HEALTH) {
            Some(Method::RobotHealth)
        } else if same_text(name, ROBOT_MODEL_API) {
            Some(Method::RobotModelApi)
        } else if same_text(name, ROBOT_SESSION_ACTIVE) {
            Some(Method::RobotRemoteSessionActive)
        } else if same_text(name, ROBOT_MOVE) {
            Some(Method::RobotMove)
        } else if same_text(name, ROBOT_HEAD) {
            Some(Method::RobotHead)
        } else if same_text(name, ROBOT_STOP) {
            Some(Method::RobotStop)
        } else if same_text(name, ROBOT_ENABLE) {
            Some(Method::RobotEnable)
        } else if same_text(name, ROBOT_SUBSCRIBE) {
            Some(Method::RobotSubscribe)
        } else if same_text(name, NET_STATUS) {
            Some(Method::NetStatus)
        } else if same_text(name, NET_SCAN) {
            Some(Method::NetScan)
        } else if same_text(name, NET_CONNECT) {
            Some(Method::NetConnect)
        } else if same_text(name, NET_FORGET) {
            Some(Method::NetForget)
        } else if same_text(name, SYSTEM_INFO) {
            Some(Method::SystemInfo)
        } else if same_text(name, SYSTEM_SET_NAME) {
            Some(Method::SystemSetName)
        } else if same_text(name, SYSTEM_REBOOT) {
            Some(Method::SystemReboot)
        } else if same_text(name, SYSTEM_AUTHENTICATE) {
            Some(Method::SystemAuthenticate)
        } else if same_text(name, SYSTEM_PAIRING_PIN) {
            Some(Method::SystemPairingPin)
        } else if same_text(name, SYSTEM_SET_PAIRING_PIN) {
            Some(Method::SystemSetPairingPin)
        } else {
            None
        };
        proof {
            assert forall|m: Method| found == Some(m) <==> name@ == #[trigger] m.spec_name() by {
                if found is Some && name@ == m.spec_name() {
                    law_method_names_are_distinct(m, found->0);
                }
            }
        }
        found
    }
}

// What tells the names apart: their length, their first and their last character.
spec fn mark(name: Seq<char>) -> (int, char, char) {
    (name.len() as int, name[0], name.last())
}

spec fn method_marked(m: (int, char, char)) -> Method {
    if m == (5int, 'h', 'o') {
        Method::Hello
    } else if m == (12int, 'u', 'k') {
        Method::Check
    } else if m == (12int, 'u', 'y') {
        Method::Apply
    } else if m == (15int, 'u', 'k') {
        Method::Rollback
    } else if m == (20int, 'u', 'n') {
        Method::ResetToGolden
    } else if m == (13int, 'u', 't') {
        Method::Select
    } else if m == (10int, 'u', 'n') {
        Method::Pin
    } else if m == (13int, 'u', 's') {
        Method::Status
    } else if m == (20int, 'u', 'd') {
        Method::ListInstalled
    } else if m == (10int, 'u', 'g') {
        Method::Log
    } else if m == (16int, 'u', 'e') {
        Method::Subscribe
    } else if m == (19int, 'r', 't') {
        Method::RobotSafeToRestart
    } else if m == (12int, 'r', 'h') {
        Method::RobotHealth
    } else if m == (14int, 'r', 'i') {
        Method::RobotModelApi
    } else if m == (25int, 'r', 'e') {
        Method::RobotRemoteSessionActive
    } else if m == (10int, 'r', 'e') {
        Method::RobotMove
    } else if m == (10int, 'r', 'd') {
        Method::RobotHead
    } else if m == (10int, 'r', 'p') {
        Method::RobotStop
    } else if m == (12int, 'r', 'e') {
        Method::RobotEnable
    } else if m == (15int, 'r', 'e') {
        Method::RobotSubscribe
    } else if m == (10int, 'n', 's') {
        Method::NetStatus
    } else if m == (8int, 'n', 'n') {
        Method::NetScan
    } else if m == (11int, 'n', 't') {
        Method::NetConnect
    } else if m == (10int, 'n', 't') {
        Method::NetForget
    } else if m == (11int, 's', 'o') {
        Method::SystemInfo
    } else if m == (14int, 's', 'e') {
        Method::SystemSetName
    } else if m == (13int, 's', 't') {
        Method::SystemReboot
    } else if m == (19int, 's', 'e') {
        Method::SystemAuthenticate
    } else if m == (17int, 's', 'n') {
        Method::SystemPairingPin
    } else if m == (20int, 's', 'n') {
        Method::SystemSetPairingPin
    } else {
        Method::Hello
    }
}

proof fn lemma_mark(m: Method)
    ensures
        method_marked(mark(m.spec_name())) == m,
        mark(m.spec_name()) != mark(PROGRESS@),
        mark(m.spec_name()) != mark(ROBOT_STATE@),
{
    reveal_strlit("update.progress");
    reveal_strlit("robot.state");
    match m {
        Method::Hello => {
            reveal_strlit("hello");
            assert(mark(m.spec_name()) == (5int, 'h', 'o'));
        },
        Method::Check => {
            reveal_strlit("update.check");
            assert(mark(m.spec_name()) == (12int, 'u', 'k'));
        },
        Method::Apply => {
            reveal_strlit("update.apply");
            assert(mark(m.spec_name()) == (12int, 'u', 'y'));
        },
        Method::Rollback => {
            reveal_strlit("update.rollback");
            assert(mark(m.spec_name()) == (15int, 'u', 'k'));
        },
        Method::ResetToGolden => {
            reveal_strlit("update.resetToGolden");
            assert(mark(m.spec_name()) == (20int, 'u', 'n'));
        },
        Method::Select => {
            reveal_strlit("update.select");
            assert(mark(m.spec_name()) == (13int, 'u', 't'));
        },
        Method::Pin => {
            reveal_strlit("update.pin");
            assert(mark(m.spec_name()) == (10int, 'u', 'n'));
        },
        Method::Status => {
            reveal_strlit("update.status");
            assert(mark(m.spec_name()) == (13int, 'u', 's'));
        },
        Method::ListInstalled => {
            reveal_strlit("update.listInstalled");
            assert(mark(m.spec_name()) == (20int, 'u', 'd'));
        },
        Method::Log => {
            reveal_strlit("update.log");
            assert(mark(m.spec_name()) == (10int, 'u', 'g'));
        },
        Method::Subscribe => {
            reveal_strlit("update.subscribe");
            assert(mark(m.spec_name()) == (16int, 'u', 'e'));
        },
        Method::RobotSafeToRestart => {
            reveal_strlit("robot.safeToRestart");
            assert(mark(m.spec_name()) == (19int, 'r', 't'));
        },
        Method::RobotHealth => {
            reveal_strlit("robot.health");
            assert(mark(m.spec_name()) == (12int, 'r', 'h'));
        },
        Method::RobotModelApi => {
            reveal_strlit("robot.modelApi");
            assert(mark(m.spec_name()) == (14int, 'r', 'i'));
        },
        Method::RobotRemoteSessionActive => {
            reveal_strlit("robot.remoteSessionActive");
            assert(mark(m.spec_name()) == (25int, 'r', 'e'));
        },
        Method::RobotMove => {
            reveal_strlit("robot.move");
            assert(mark(m.spec_name()) == (10int, 'r', 'e'));
        },
        Method::RobotHead => {
            reveal_strlit("robot.head");
            assert(mark(m.spec_name()) == (10int, 'r', 'd'));
        },
        Method::RobotStop => {
            reveal_strlit("robot.stop");
            assert(mark(m.spec_name()) == (10int, 'r', 'p'));
        },
        Method::RobotEnable => {
            reveal_strlit("robot.enable");
            assert(mark(m.spec_name()) == (12int, 'r', 'e'));
        },
        Method::RobotSubscribe => {
            reveal_strlit("robot.subscribe");
            assert(mark(m.spec_name()) == (15int, 'r', 'e'));
        },
        Method::NetStatus => {
            reveal_strlit("net.status");
            assert(mark(m.spec_name()) == (10int, 'n', 's'));
        },
        Method::NetScan => {
            reveal_strlit("net.scan");
            assert(mark(m.spec_name()) == (8int, 'n', 'n'));
        },
        Method::NetConnect => {
            reveal_strlit("net.connect");
            assert(mark(m.spec_name()) == (11int, 'n', 't'));
        },
        Method::NetForget => {
            reveal_strlit("net.forget");
            assert(mark(m.spec_name()) == (10int, 'n', 't'));
        },
        Method::SystemInfo => {
            reveal_strlit("system.info");
            assert(mark(m.spec_name()) == (11int, 's', 'o'));
        },
        Method::SystemSetName => {
            reveal_strlit("system.setName");
            assert(mark(m.spec_name()) == (14int, 's', 'e'));
        },
        Method::SystemReboot => {
            reveal_strlit("system.reboot");
            assert(mark(m.spec_name()) == (13int, 's', 't'));
        },
        Method::SystemAuthenticate => {
            reveal_strlit("system.authenticate");
            assert(mark(m.spec_name()) == (19int, 's', 'e'));
        },
        Method::SystemPairingPin => {
            reveal_strlit("system.pairingPin");
            assert(mark(m.spec_name()) == (17int, 's', 'n'));
        },
        Method::SystemSetPairingPin => {
            reveal_strlit("system.setPairingPin");
            assert(mark(m.spec_name()) == (20int, 's', 'n'));
        },
    }
}

/// No two methods share a name.
pub proof fn law_method_names_are_distinct(a: Method, b: Method)
    requires
        a.spec_name() == b.spec_name(),
    ensures
        a == b,
{
    lemma_mark(a);
    lemma_mark(b);
}

/// What the server pushes is named like no method that can be called.
pub proof fn law_notifications_are_not_methods(m: Method)
    ensures
        m.spec_name() != PROGRESS@,
        m.spec_name() != ROBOT_STATE@,
{
    lemma_mark(m);
}

/// The names on the wire, which clients of every version rely on.
pub proof fn law_wire_names_are_these()
    ensures
        Method::Hello.spec_name() == "hello"@,
        Method::Check.spec_name() == "update.check"@,
        Method::Apply.spec_name() == "update.apply"@,
        Method::Rollback.spec_name() == "update.rollback"@,
        Method::ResetToGolden.spec_name() == "update.resetToGolden"@,
        Method::Select.spec_name() == "update.select"@,
        Method::Pin.spec_name() == "update.pin"@,
        Method::Status.spec_name() == "update.status"@,
        Method::ListInstalled.spec_name() == "update.listInstalled"@,
        Method::Log.spec_name() == "update.log"@,
        Method::Subscribe.spec_name() == "update.subscribe"@,
        Method::RobotSafeToRestart.spec_name() == "robot.safeToRestart"@,
        Method::RobotHealth.spec_name() == "robot.health"@,
        Method::RobotModelApi.spec_name() == "robot.modelApi"@,
        Method::RobotRemoteSessionActive.spec_name() == "robot.remoteSessionActive"@,
        Method::RobotMove.spec_name() == "robot.move"@,
        Method::RobotHead.spec_name() == "robot.head"@,
        Method::RobotStop.spec_name() == "robot.stop"@,
        Method::RobotEnable.spec_name() == "robot.enable"@,
        Method::RobotSubscribe.spec_name() == "robot.subscribe"@,
        Method::NetStatus.spec_name() == "net.status"@,
        Method::NetScan.spec_name() == "net.scan"@,
        Method::NetConnect.spec_name() == "net.connect"@,
        Method::NetForget.spec_name() == "net.forget"@,
        Method::SystemInfo.spec_name() == "system.info"@,
        Method::SystemSetName.spec_name() == "system.setName"@,
        Method::SystemReboot.spec_name() == "system.reboot"@,
        Method::SystemAuthenticate.spec_name() == "system.authenticate"@,
        Method::SystemPairingPin.spec_name() == "system.pairingPin"@,
        Method::SystemSetPairingPin.spec_name() == "system.setPairingPin"@,
        PROGRESS@ == "update.progress"@,
        ROBOT_STATE@ == "robot.state"@,
{
}

/// Calls about a component name it, calls that set something carry what is set, and
/// questions carry nothing.
pub proof fn law_each_method_takes_its_parameters(m: Method)
    ensures
        m is Check || m is Rollback || m is ResetToGolden || m is ListInstalled <==> m.spec_shape()
            == Shape::Component,
        m is Status || m is Subscribe || m is RobotSafeToRestart || m is RobotHealth
            || m is RobotModelApi || m is RobotRemoteSessionActive || m is RobotStop
            || m is NetStatus || m is NetScan || m is SystemInfo || m is SystemReboot
            || m is SystemPairingPin <==> m.spec_shape() == Shape::Nothing,
        m is Hello <==> m.spec_shape() == Shape::Hello,
        m is Apply <==> m.spec_shape() == Shape::Apply,
        m is Select <==> m.spec_shape() == Shape::Select,
        m is Pin <==> m.spec_shape() == Shape::Pin,
        m is Log <==> m.spec_shape() == Shape::Log,
        m is RobotMove <==> m.spec_shape() == Shape::Move,
        m is RobotHead <==> m.spec_shape() == Shape::Head,
        m is RobotEnable <==> m.spec_shape() == Shape::Enable,
        m is RobotSubscribe <==> m.spec_shape() == Shape::Subscribe,
        m is NetConnect <==> m.spec_shape() == Shape::NetConnect,
        m is NetForget <==> m.spec_shape() == Shape::NetForget,
        m is SystemSetName <==> m.spec_shape() == Shape::SetName,
        m is SystemAuthenticate <==> m.spec_shape() == Shape::Authenticate,
        m is SystemSetPairingPin <==> m.spec_shape() == Shape::SetPairingPin,
{
}

} // verus!
