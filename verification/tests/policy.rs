use microduck::ieee::{Double, Single};
use microduck::policy::{
    check_actions, check_width, dylib_name, Platform, Policy, PolicyError, ACTION_LEN,
    DEFAULT_STANDING_THRESHOLD_BITS, OBS_LEN,
};

fn d(x: f64) -> Double {
    Double { bits: x.to_bits() }
}

fn policy(stand: Option<&'static str>) -> Policy<&'static str> {
    Policy {
        walk: "walk",
        stand,
        standing_threshold: Double {
            bits: DEFAULT_STANDING_THRESHOLD_BITS,
        },
    }
}

#[test]
fn the_standing_threshold_matches_the_prototype() {
    assert_eq!(f64::from_bits(DEFAULT_STANDING_THRESHOLD_BITS), 0.05);
}

#[test]
fn without_a_standing_policy_it_never_stands() {
    assert!(
        !policy(None).will_stand(d(0.0)),
        "no standing policy, zero command"
    );
    assert!(
        policy(Some("stand")).will_stand(d(0.0)),
        "standing policy, zero command"
    );
    assert!(
        !policy(Some("stand")).will_stand(d(0.5)),
        "standing policy, walking command"
    );
}

#[test]
fn the_session_follows_the_choice() {
    let mut both = policy(Some("stand"));
    assert!(both.has_standing());
    assert_eq!(*both.choose_session(true), "stand");
    assert_eq!(*both.choose_session(false), "walk");

    let mut one = policy(None);
    assert!(!one.has_standing());
    assert_eq!(*one.choose_session(true), "walk");
    *one.choose_session(true) = "changed";
    assert_eq!(one.walk, "changed");
}

#[test]
fn the_threshold_itself_still_stands() {
    assert!(policy(Some("stand")).will_stand(d(0.05)));
    assert!(!policy(Some("stand")).will_stand(d(f64::NAN)));
}

#[test]
fn a_configured_runtime_wins_over_the_platform() {
    assert_eq!(
        dylib_name(Some("/opt/ort.so"), Platform::Windows),
        "/opt/ort.so"
    );
    assert_eq!(dylib_name(Some(""), Platform::Other), "libonnxruntime.so");
    assert_eq!(dylib_name(None, Platform::Apple), "libonnxruntime.dylib");
    assert_eq!(dylib_name(None, Platform::Windows), "onnxruntime.dll");
    assert_eq!(dylib_name(None, Platform::Other), "libonnxruntime.so");
}

#[test]
fn a_policy_of_the_wrong_width_is_refused() {
    assert!(check_width("walk.onnx", "observation", Some(&[1, OBS_LEN as i64]), OBS_LEN).is_ok());
    let wrong = check_width("walk.onnx", "observation", Some(&[1, 60]), OBS_LEN).unwrap_err();
    assert_eq!(
        wrong.describe(),
        "walk.onnx: observation is 60, expected 61"
    );
    let scalar = check_width("walk.onnx", "observation", Some(&[]), OBS_LEN).unwrap_err();
    assert_eq!(
        scalar.describe(),
        "walk.onnx: observation is -1, expected 61"
    );
    let none = check_width("walk.onnx", "action", None, ACTION_LEN).unwrap_err();
    assert_eq!(
        none.describe(),
        "walk.onnx: action is not a tensor, expected 14"
    );
}

#[test]
fn errors_say_what_went_wrong() {
    let load = PolicyError::Load {
        path: "walk.onnx".into(),
        source: "no such file".into(),
    };
    assert_eq!(load.describe(), "loading walk.onnx: no such file");
    let missing = PolicyError::RuntimeMissing {
        searched: "libonnxruntime.so".into(),
        detail: "not found".into(),
    };
    assert_eq!(
        missing.describe(),
        "ONNX Runtime not loadable (libonnxruntime.so): not found"
    );
    assert_eq!(
        PolicyError::Inference("nan".into()).describe(),
        "inference failed: nan"
    );
}

#[test]
fn actions_are_taken_only_as_many_as_there_are_joints() {
    let right = vec![Single { bits: 0x3F80_0000 }; ACTION_LEN];
    let actions = check_actions("walk.onnx", &right).unwrap();
    assert_eq!(actions.len(), ACTION_LEN);
    assert_eq!(actions[13], Single { bits: 0x3F80_0000 });
    assert_eq!(
        check_actions("walk.onnx", &right[..13]),
        Err(PolicyError::Inference(
            "walk.onnx: 13 actions, expected 14".into()
        ))
    );
}
