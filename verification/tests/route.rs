use microduck::code;
use microduck::ieee::Double;
use microduck::method;
use microduck::proto::{
    ApplyOptions, ApplyParams, AuthenticateParams, Call, ComponentId, ComponentParams, EnableParams,
    HeadParams, HelloParams, LogParams, MoveParams, NetConnectParams, NetForgetParams, PinParams,
    SelectParams, SetNameParams, SetPairingPinParams, SubscribeParams, Target, API_VERSION,
};
use microduck::route::{refusal, route_for, upstream_for, Route, Upstream};

fn component() -> ComponentId {
    ComponentId::new("daemon")
}

fn d(x: f64) -> Double {
    Double { bits: x.to_bits() }
}

#[test]
fn only_these_mutating_calls_are_reachable_over_ble() {
    let mutating_and_allowed: Vec<&str> = every_call()
        .iter()
        .filter(|c| c.is_mutating() && upstream_for(c).is_some())
        .map(Call::method)
        .collect();

    assert_eq!(
        mutating_and_allowed,
        vec![
            method::APPLY,
            method::NET_CONNECT,
            method::NET_FORGET,
            method::SYSTEM_SET_NAME,
            method::SYSTEM_REBOOT,
        ]
    );
}

#[test]
fn the_pairing_pin_is_not_reachable_over_ble() {
    assert_eq!(upstream_for(&Call::SystemPairingPin), None);
    assert_eq!(
        upstream_for(&Call::SystemSetPairingPin(SetPairingPinParams {
            pin: "000000".into()
        })),
        None
    );
}

#[test]
fn provisioning_reaches_configd() {
    for call in [
        Call::NetStatus,
        Call::NetScan,
        Call::NetConnect(NetConnectParams {
            ssid: "Home".into(),
            psk: None,
        }),
        Call::NetForget(NetForgetParams {
            ssid: "Home".into(),
        }),
        Call::SystemInfo,
        Call::SystemSetName(SetNameParams {
            name: "duck".into(),
        }),
        Call::SystemReboot,
    ] {
        assert_eq!(
            upstream_for(&call),
            Some(Upstream::Config),
            "{}",
            call.method()
        );
    }
}

#[test]
fn the_refused_calls_stay_refused() {
    for call in [
        Call::Rollback(ComponentParams {
            component: component(),
        }),
        Call::ResetToGolden(ComponentParams {
            component: component(),
        }),
        Call::Select(SelectParams {
            component: component(),
            version: semver::Version::new(1, 0, 0),
        }),
        Call::Pin(PinParams {
            component: component(),
            version: None,
        }),
        Call::RobotSafeToRestart,
        Call::RobotModelApi,
        Call::RobotRemoteSessionActive,
    ] {
        assert_eq!(upstream_for(&call), None, "{}", call.method());
    }
}

#[test]
fn the_app_path_is_reachable() {
    let expected = [
        (
            Call::Hello(HelloParams {
                api_version: API_VERSION,
            }),
            Upstream::Updater,
        ),
        (Call::Status, Upstream::Updater),
        (Call::Subscribe, Upstream::Updater),
        (Call::RobotHealth, Upstream::Robot),
    ];
    for (call, want) in expected {
        assert_eq!(upstream_for(&call), Some(want), "{}", call.method());
    }
}

#[test]
fn a_refusal_says_permission_denied_and_names_the_method() {
    let call = Call::ResetToGolden(ComponentParams {
        component: component(),
    });
    let err = refusal(&call);

    assert_eq!(err.code, code::PERMISSION_DENIED);
    assert!(
        err.message.contains(method::RESET_TO_GOLDEN),
        "{}",
        err.message
    );
}

#[test]
fn authentication_is_answered_by_the_transport() {
    let call = Call::SystemAuthenticate(AuthenticateParams {
        pin: "000000".into(),
    });
    assert_eq!(route_for(&call), Route::Local);
    assert_eq!(upstream_for(&call), None);
    assert_eq!(route_for(&Call::Status), Route::To(Upstream::Updater));
    assert_eq!(route_for(&Call::RobotStop), Route::Refused);
}

fn every_call() -> Vec<Call> {
    let version = semver::Version::new(1, 4, 2);
    vec![
        Call::Hello(HelloParams {
            api_version: API_VERSION,
        }),
        Call::Check(ComponentParams {
            component: component(),
        }),
        Call::Apply(ApplyParams {
            component: component(),
            target: Target::Latest,
            options: ApplyOptions::default(),
        }),
        Call::Rollback(ComponentParams {
            component: component(),
        }),
        Call::ResetToGolden(ComponentParams {
            component: component(),
        }),
        Call::Select(SelectParams {
            component: component(),
            version: version.clone(),
        }),
        Call::Pin(PinParams {
            component: component(),
            version: Some(version),
        }),
        Call::Status,
        Call::ListInstalled(ComponentParams {
            component: component(),
        }),
        Call::Log(LogParams { limit: 20 }),
        Call::Subscribe,
        Call::RobotSafeToRestart,
        Call::RobotHealth,
        Call::RobotModelApi,
        Call::RobotRemoteSessionActive,
        Call::NetStatus,
        Call::NetScan,
        Call::NetConnect(NetConnectParams {
            ssid: "Home".into(),
            psk: Some("secret".into()),
        }),
        Call::NetForget(NetForgetParams {
            ssid: "Home".into(),
        }),
        Call::SystemInfo,
        Call::SystemSetName(SetNameParams {
            name: "duck".into(),
        }),
        Call::SystemReboot,
        Call::RobotMove(MoveParams {
            vx: d(0.1),
            vy: d(0.0),
            vyaw: d(0.0),
        }),
        Call::RobotHead(HeadParams {
            neck_pitch: d(0.0),
            head_pitch: d(0.0),
            head_yaw: d(0.0),
            head_roll: d(0.0),
        }),
        Call::RobotStop,
        Call::RobotEnable(EnableParams { on: true }),
        Call::RobotSubscribe(SubscribeParams { hz: Some(10) }),
        Call::SystemPairingPin,
        Call::SystemSetPairingPin(SetPairingPinParams {
            pin: "000000".into(),
        }),
    ]
}
