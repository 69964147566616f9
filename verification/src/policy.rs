//! The walking and the standing policy.
//!
//! Two sessions, chosen by the magnitude of the velocity command. Everything is
//! validated at load, not at inference: a bundle with the wrong observation width or
//! the wrong action count must fail while the robot is standing still. What runs the
//! network is the caller's; which network, and whether it fits, is decided here.

use vstd::prelude::*;
use crate::ieee::{Double, Single};
use crate::text::{push_decimal, push_signed};
use crate::text::{decimal, signed_decimal};

verus! {

/// Width of the observation that every policy takes.
pub const OBS_LEN: usize = 61;

/// Number of actions that every policy gives: one per joint, the mouth aside.
pub const ACTION_LEN: usize = 14;

/// Bits of 0.05, the velocity magnitude up to which the standing policy takes over.
pub const DEFAULT_STANDING_THRESHOLD_BITS: u64 = 0x3FA9_9999_9999_999A;

#[derive(Debug, Clone, PartialEq, Eq)]
pub enum PolicyError {
    Load { path: String, source: String },
    /// The bundle does not match what this build implements. Reported with both
    /// shapes, because "wrong policy file" and "wrong daemon" look identical without.
    Shape { path: String, what: &'static str, expected: String, got: String },
    Inference(String),
    /// The inference runtime is not installed, or not where it is being looked for.
    RuntimeMissing { searched: String, detail: String },
}

impl PolicyError {
    /// The line that the error is reported with.
    pub open spec fn line(self) -> Seq<char> {
        match self {
            PolicyError::Load { path, source } => "loading "@ + path@ + ": "@ + source@,
            PolicyError::Shape { path, what, expected, got } => path@ + ": "@ + what@ + " is "@
                + got@ + ", expected "@ + expected@,
            PolicyError::Inference(what) => "inference failed: "@ + what@,
            PolicyError::RuntimeMissing { searched, detail } => "ONNX Runtime not loadable ("@
                + searched@ + "): "@ + detail@,
        }
    }

    pub fn describe(&self) -> (line: String)
        ensures
            line@ == self.line(),
    {
        match self {
            PolicyError::Load { path, source } => {
                let mut line = "loading ".to_owned();
                line.append(path.as_str());
                line.append(": ");
                line.append(source.as_str());
                line
            },
            PolicyError::Shape { path, what, expected, got } => {
                let mut line = path.clone();
                line.append(": ");
                line.append(*what);
                line.append(" is ");
                line.append(got.as_str());
                line.append(", expected ");
                line.append(expected.as_str());
                line
            },
            PolicyError::Inference(what) => {
                let mut line = "inference failed: ".to_owned();
                line.append(what.as_str());
                line
            },
            PolicyError::RuntimeMissing { searched, detail } => {
                let mut line = "ONNX Runtime not loadable (".to_owned();
                line.append(searched.as_str());
                line.append("): ");
                line.append(detail.as_str());
                line
            },
        }
    }
}

/// The family of systems that a build is for.
#[derive(Debug, Clone, Copy, PartialEq, Eq, Structural)]
pub enum Platform {
    Windows,
    Apple,
    Other,
}

/// Where the runtime is looked for: at `configured`, what the environment names,
/// unless that is empty; else under the platform's name for it.
pub open spec fn dylib_of(configured: Option<Seq<char>>, platform: Platform) -> Seq<char> {
    match (configured, platform) {
        (Some(path), _) if path.len() > 0 => path,
        (_, Platform::Windows) => "onnxruntime.dll"@,
        (_, Platform::Apple) => "libonnxruntime.dylib"@,
        (_, Platform::Other) => "libonnxruntime.so"@,
    }
}

pub fn dylib_name(configured: Option<&str>, platform: Platform) -> (name: String)
    ensures
        name@ == dylib_of(
            match configured {
                Some(path) => Some(path@),
                None => None,
            },
            platform,
        ),
{
    if let Some(path) = configured {
        if !path.is_empty() {
            return path.to_owned();
        }
    }
    match platform {
        Platform::Windows => "onnxruntime.dll".to_owned(),
        Platform::Apple => "libonnxruntime.dylib".to_owned(),
        Platform::Other => "libonnxruntime.so".to_owned(),
    }
}

/// The trailing dimension of a tensor, or -1 of one without any.
pub open spec fn trailing(shape: Seq<i64>) -> int {
    if shape.len() == 0 {
        -1
    } else {
        shape.last() as int
    }
}

/// Asserts the trailing dimension of a graph's first outlet; `shape` is `None` when
/// that is no tensor or there is none. The leading dimension is the batch and is
/// usually dynamic, so only the last one is checked.
pub fn check_width(path: &str, what: &'static str, shape: Option<&[i64]>, expected: usize) -> (fits:
    Result<(), PolicyError>)
    requires
        expected <= i64::MAX,
    ensures
        fits is Ok <==> (shape matches Some(s) && trailing(s@) == expected),
        fits matches Err(e) ==> (e matches PolicyError::Shape { path: p, what: w, expected: x, got }
            && p@ == path@ && w == what && x@ == decimal(expected as nat) && got@ == match shape {
            Some(s) => signed_decimal(trailing(s@)),
            None => "not a tensor"@,
        }),
{
    let mut wanted = String::new();
    push_decimal(&mut wanted, expected as u64);
    assert(wanted@ =~= decimal(expected as nat));
    let shape = match shape {
        Some(shape) => shape,
        None => {
            return Err(
                PolicyError::Shape {
                    path: path.to_owned(),
                    what,
                    expected: wanted,
                    got: "not a tensor".to_owned(),
                },
            );
        },
    };
    let got: i64 = if shape.len() == 0 {
        -1
    } else {
        shape[shape.len() - 1]
    };
    if got != expected as i64 {
        let mut text = String::new();
        push_signed(&mut text, got);
        assert(text@ =~= signed_decimal(got as int));
        return Err(
            PolicyError::Shape { path: path.to_owned(), what, expected: wanted, got: text },
        );
    }
    Ok(())
}

/// The actions that an inference gave, or the complaint that there are not as many as
/// there should be.
pub fn check_actions(path: &str, data: &[Single]) -> (actions: Result<
    [Single; ACTION_LEN],
    PolicyError,
>)
    ensures
        data@.len() == ACTION_LEN ==> (actions matches Ok(a) && a@ == data@),
        data@.len() != ACTION_LEN ==> (actions matches Err(e) && e matches PolicyError::Inference(
            text,
        ) && text@ == path@ + ": "@ + decimal(data@.len()) + " actions, expected 14"@),
{
    if data.len() != ACTION_LEN {
        let mut text = path.to_owned();
        text.append(": ");
        push_decimal(&mut text, data.len() as u64);
        text.append(" actions, expected 14");
        return Err(PolicyError::Inference(text));
    }
    let mut actions = [Single { bits: 0 };ACTION_LEN];
    let mut i: usize = 0;
    while i < ACTION_LEN
        invariant
            i <= ACTION_LEN,
            data@.len() == ACTION_LEN,
            forall|j: int| 0 <= j < i ==> actions@[j] == data@[j],
        decreases ACTION_LEN - i,
    {
        actions[i] = data[i];
        i = i + 1;
    }
    assert(actions@ =~= data@);
    Ok(actions)
}

/// A loaded policy pair.
pub struct Policy<S> {
    pub walk: S,
    /// Without it the walking policy runs at every velocity.
    pub stand: Option<S>,
    pub standing_threshold: Double,
}

impl<S> Policy<S> {
    pub open spec fn stands_at(self, twist_magnitude: Double) -> bool {
        self.stand is Some && twist_magnitude.at_most(self.standing_threshold)
    }

    /// Whether the standing policy would be chosen for this command. Separate from the
    /// choice of session because the caller needs the same answer to decide gains.
    pub fn will_stand(&self, twist_magnitude: Double) -> (r: bool)
        ensures
            r == self.stands_at(twist_magnitude),
    {
        self.stand.is_some() && twist_magnitude.le(self.standing_threshold)
    }

    pub fn has_standing(&self) -> (r: bool)
        ensures
            r == (self.stand is Some),
    {
        self.stand.is_some()
    }

    /// The session that infers: the standing one where it is wanted and there is one.
    pub open spec fn session_for(self, standing: bool) -> S {
        match (standing, self.stand) {
            (true, Some(stand)) => stand,
            _ => self.walk,
        }
    }

    /// The session to infer with. `standing` should come from [`Self::will_stand`].
    pub fn choose_session(&mut self, standing: bool) -> (session: &mut S)
        ensures
            *session == old(self).session_for(standing),
            final(self).session_for(standing) == *final(session),
            final(self).standing_threshold == old(self).standing_threshold,
            final(self).stand is Some == old(self).stand is Some,
            standing && old(self).stand is Some ==> final(self).walk == old(self).walk,
            !standing ==> final(self).stand == old(self).stand,
    {
        if standing {
            if let Some(stand) = &mut self.stand {
                return stand;
            }
        }
        &mut self.walk
    }
}

/// A bundle without a standing policy never selects one, whatever is asked for.
pub proof fn law_without_a_standing_policy_it_never_stands<S>(
    policy: Policy<S>,
    twist_magnitude: Double,
    standing: bool,
)
    requires
        policy.stand is None,
    ensures
        !policy.stands_at(twist_magnitude),
        policy.session_for(standing) == policy.walk,
{
}

/// The standing policy is chosen exactly if there is one and the command is not faster
/// than the threshold; a command that is not a number walks.
pub proof fn law_slow_commands_stand<S>(policy: Policy<S>, twist_magnitude: Double)
    ensures
        policy.stand is Some && twist_magnitude.at_most(policy.standing_threshold)
            ==> policy.stands_at(twist_magnitude),
        policy.standing_threshold.below(twist_magnitude) ==> !policy.stands_at(twist_magnitude),
        twist_magnitude.nan() ==> !policy.stands_at(twist_magnitude),
        policy.stand is None ==> !policy.stands_at(twist_magnitude),
{
}

/// A robot that is to stand infers with the standing session, and any other with the
/// walking one.
pub proof fn law_each_gait_has_its_session<S>(policy: Policy<S>, standing: bool)
    ensures
        policy.stand matches Some(s) ==> policy.session_for(true) == s,
        policy.session_for(false) == policy.walk,
        policy.stand is None ==> policy.session_for(standing) == policy.walk,
{
}

/// A slower command never walks where a faster one stands.
pub proof fn law_slowing_down_keeps_standing<S>(policy: Policy<S>, slow: Double, fast: Double)
    requires
        slow.at_most(fast),
        policy.stands_at(fast),
    ensures
        policy.stands_at(slow),
{
}

/// The runtime is looked for where the environment says, unless that is empty, and else
/// under the name that it has on the platform.
pub proof fn law_a_named_runtime_comes_first(path: Seq<char>, platform: Platform)
    ensures
        path.len() > 0 ==> dylib_of(Some(path), platform) == path,
        path.len() == 0 ==> dylib_of(Some(path), platform) == dylib_of(None, platform),
        dylib_of(None, Platform::Windows) == "onnxruntime.dll"@,
        dylib_of(None, Platform::Apple) == "libonnxruntime.dylib"@,
        dylib_of(None, Platform::Other) == "libonnxruntime.so"@,
{
}

/// The width of a tensor is its last dimension, whatever comes before it.
pub proof fn law_only_the_last_dimension_is_the_width(shape: Seq<i64>, n: i64)
    ensures
        trailing(shape.push(n)) == n,
        trailing(Seq::<i64>::empty()) == -1,
{
}

/// An action has one number for each joint but the mouth.
pub proof fn law_every_joint_but_the_mouth_is_acted_on()
    ensures
        ACTION_LEN == 14,
        ACTION_LEN + 1 == crate::model::NUM_JOINTS,
        OBS_LEN == 61,
        DEFAULT_STANDING_THRESHOLD_BITS == 0x3FA9_9999_9999_999A,
{
}

} // verus!
