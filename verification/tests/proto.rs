use microduck::code;
use microduck::ieee::Double;
use microduck::method;
use microduck::method::Method;
use microduck::proto::{
    ApplyOptions, ApplyParams, BuildInfo, Call, ComponentId, ComponentParams, EnableParams, Error,
    HeadParams, HealthResult, HelloParams, Id, IntentResult, LogParams, MoveParams, Params, Phase,
    PinParams, Progress, Request, Response, SelectParams, SubscribeParams, Target, API_VERSION,
    JSONRPC_VERSION,
};
use serde_json::Value;

fn d(x: f64) -> Double {
    Double { bits: x.to_bits() }
}

fn every_call() -> Vec<Call> {
    let component = ComponentId::new("daemon");
    let version = semver::Version::new(1, 4, 2);
    vec![
        Call::Hello(HelloParams {
            api_version: API_VERSION,
        }),
        Call::Check(ComponentParams {
            component: component.clone(),
        }),
        Call::Apply(ApplyParams {
            component: component.clone(),
            target: Target::Exact(version.clone()),
            options: ApplyOptions {
                dry_run: true,
                interrupt_sessions: false,
            },
        }),
        Call::Rollback(ComponentParams {
            component: component.clone(),
        }),
        Call::ResetToGolden(ComponentParams {
            component: component.clone(),
        }),
        Call::Select(SelectParams {
            component: component.clone(),
            version: version.clone(),
        }),
        Call::Pin(PinParams {
            component: component.clone(),
            version: Some(version),
        }),
        Call::Status,
        Call::ListInstalled(ComponentParams { component }),
        Call::Log(LogParams { limit: 20 }),
        Call::Subscribe,
        Call::RobotSafeToRestart,
        Call::RobotHealth,
        Call::RobotModelApi,
        Call::RobotRemoteSessionActive,
        Call::RobotMove(MoveParams {
            vx: d(0.2),
            vy: d(-0.1),
            vyaw: d(0.4),
        }),
        Call::RobotHead(HeadParams {
            neck_pitch: d(0.35),
            head_pitch: d(-0.1),
            head_yaw: d(0.2),
            head_roll: d(0.0),
        }),
        Call::RobotStop,
        Call::RobotEnable(EnableParams { on: true }),
        Call::RobotSubscribe(SubscribeParams { hz: Some(10) }),
    ]
}

fn request(method: &str, params: Option<Value>) -> Request {
    Request {
        jsonrpc: JSONRPC_VERSION.to_owned(),
        id: Some(Id::Number(1)),
        method: method.to_owned(),
        params,
    }
}

#[test]
fn every_call_covers_every_variant() {
    assert_eq!(every_call().len(), 20);
}

#[test]
fn every_call_round_trips_over_the_wire() {
    for call in every_call() {
        let sent = Request::call(Id::Number(1), &call, Value::Null);
        assert_eq!(sent.method, call.method());
        assert_eq!(sent.jsonrpc, "2.0");
        assert_eq!(sent.id, Some(Id::Number(1)));
        assert_eq!(sent.as_call(Ok(call.clone().params())), Ok(call));
    }
}

#[test]
fn unknown_methods_and_bad_params_get_different_codes() {
    let unknown = request("update.doSomethingElse", None);
    let error = unknown.as_call(Ok(Params::Nothing)).unwrap_err();
    assert_eq!(error.code, code::METHOD_NOT_FOUND);
    assert_eq!(error.message, "unknown method \"update.doSomethingElse\"");

    let malformed = request(method::APPLY, Some(Value::Null));
    let error = malformed
        .as_call(Err("missing field `component`".to_owned()))
        .unwrap_err();
    assert_eq!(error.code, code::INVALID_PARAMS);
    assert_eq!(error.message, "missing field `component`");
}

#[test]
fn an_unknown_method_is_quoted_with_its_escapes() {
    let error = request("a\"b\n", None)
        .as_call(Ok(Params::Nothing))
        .unwrap_err();
    assert_eq!(error.message, "unknown method \"a\\\"b\\n\"");
}

#[test]
fn methods_without_params_accept_any_params_field() {
    for decoded in [
        Ok(Params::Nothing),
        Ok(Params::Log(LogParams { limit: 1 })),
        Err("not an object".to_owned()),
    ] {
        assert_eq!(
            request(method::ROBOT_HEALTH, None).as_call(decoded),
            Ok(Call::RobotHealth)
        );
    }
}

#[test]
fn only_software_changing_calls_are_mutating() {
    let mutating: Vec<&'static str> = every_call()
        .iter()
        .filter(|call| call.is_mutating())
        .map(Call::method)
        .collect();

    assert_eq!(
        mutating,
        vec![
            method::APPLY,
            method::ROLLBACK,
            method::RESET_TO_GOLDEN,
            method::SELECT,
            method::PIN,
        ]
    );
}

#[test]
fn component_carrying_calls_expose_it() {
    for call in every_call() {
        let carries_one = matches!(
            call.method(),
            method::CHECK
                | method::APPLY
                | method::ROLLBACK
                | method::RESET_TO_GOLDEN
                | method::SELECT
                | method::PIN
                | method::LIST_INSTALLED
        );
        assert_eq!(call.component().is_some(), carries_one, "{}", call.method());
        if carries_one {
            assert_eq!(call.component().unwrap().as_str(), "daemon");
        }
    }
}

#[test]
fn notifications_carry_no_id() {
    let note = Request::notify_progress(Value::Null);
    assert!(note.is_notification());
    assert_eq!(note.id, None);
    assert_eq!(note.method, method::PROGRESS);

    let state = Request::notify_state(Value::Bool(true));
    assert!(state.is_notification());
    assert_eq!(state.method, "robot.state");
    assert_eq!(state.params, Some(Value::Bool(true)));

    let asked = Request::notify(&Call::RobotStop, Value::Null);
    assert!(asked.is_notification());
    assert_eq!(asked.method, "robot.stop");
}

#[test]
fn a_notification_parses_without_an_id_field() {
    let line = r#"{"jsonrpc":"2.0","method":"update.progress","params":{"component":"model","phase":"health_gate","percent":null,"detail":null}}"#;
    let parsed: Value = serde_json::from_str(line).unwrap();
    let note = Request {
        jsonrpc: parsed["jsonrpc"].as_str().unwrap().to_owned(),
        id: None,
        method: parsed["method"].as_str().unwrap().to_owned(),
        params: Some(parsed["params"].clone()),
    };
    assert!(parsed.get("id").is_none());
    assert!(note.is_notification());

    let progress = Progress {
        component: ComponentId::new(parsed["params"]["component"].as_str().unwrap()),
        phase: Phase::HealthGate,
        percent: None,
        detail: None,
    };
    assert_eq!(
        note.as_progress(Ok(progress)).unwrap().phase,
        Phase::HealthGate
    );
}

#[test]
fn only_a_progress_notification_is_progress() {
    let progress = Progress {
        component: ComponentId::new("model"),
        phase: Phase::HealthGate,
        percent: Some(42),
        detail: None,
    };
    let other = Request::notify_state(Value::Null);
    assert!(other.as_progress(Ok(progress)).is_err());
    assert!(Request::notify_progress(Value::Null)
        .as_progress(Err("bad".to_owned()))
        .is_err());
    assert_eq!(Request::notify_progress(Value::Null).as_state(None), None);
}

#[test]
fn responses_omit_the_half_they_do_not_use() {
    let ok = Response::ok(Some(Id::Number(7)), Ok(Value::Bool(true)));
    assert_eq!(ok.result, Some(Value::Bool(true)));
    assert!(ok.error.is_none());

    let failed = Response::err(
        Some(Id::Number(7)),
        Error::new(code::BUSY, "another update is in progress".to_owned()),
    );
    assert!(failed.result.is_none());
    assert_eq!(failed.error.as_ref().unwrap().code, 1);
    assert_eq!(failed.id, Some(Id::Number(7)));

    let unserialisable = Response::ok(None, Err("key must be a string".to_owned()));
    assert!(unserialisable.result.is_none());
    assert!(unserialisable.error.is_some());
}

#[test]
fn an_error_names_its_code() {
    let error = Error::new(code::BUSY, "busy".to_owned());
    assert!(error.describe().contains("busy"), "{}", error.describe());
    assert!(error.describe().contains('1'), "{}", error.describe());
}

#[test]
fn an_unasked_robot_is_not_healthy() {
    let health = HealthResult::default();
    assert!(!health.healthy && !health.degraded);
    assert!(health.battery.is_none());
    assert_eq!(health.bus.consecutive_errors, 0);
}

#[test]
fn intents_are_accepted_or_refused_with_a_reason() {
    assert!(IntentResult::accepted().accepted);
    let refused = IntentResult::refused("limp");
    assert!(!refused.accepted);
    assert_eq!(refused.reason.as_deref(), Some("limp"));
}

#[test]
fn method_names_are_found_again() {
    for call in every_call() {
        assert_eq!(Method::named(call.method()), Some(call.kind()));
    }
    assert_eq!(Method::named(method::PROGRESS), None);
    assert_eq!(Method::named(method::ROBOT_STATE), None);
}

#[test]
fn build_info_is_explicit_about_an_unknown_revision() {
    let local = BuildInfo {
        version: "0.2.0",
        revision: None,
        built_at: None,
    };
    assert_eq!(local.describe(), "0.2.0 (rev unknown, not a CI build)");

    let released = BuildInfo {
        version: "0.2.0",
        revision: Some("abc1234"),
        built_at: Some("2026-07-28T12:00:00Z"),
    };
    assert_eq!(
        released.describe(),
        "0.2.0 (rev abc1234, built 2026-07-28T12:00:00Z)"
    );
}

#[test]
fn a_component_is_named_as_given() {
    for name in ["daemon", "", "  Model\n", "a/b"] {
        assert_eq!(ComponentId::new(name).as_str(), name);
        assert_eq!(ComponentId::from(name), ComponentId::new(name));
    }
}
