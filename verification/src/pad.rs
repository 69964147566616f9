//! What is said about gamepads on the wire.

use vstd::prelude::*;

verus! {

/// Which of the two fallback settings a board carries.
#[derive(Debug, Clone, Copy, PartialEq, Eq, Structural)]
pub struct PadFallback {
    pub privacy_device: bool,
    pub ertm_disabled: bool,
}

impl PadFallback {
    /// Both halves are applied.
    pub fn is_on(&self) -> (r: bool)
        ensures
            r == (self.privacy_device && self.ertm_disabled),
    {
        self.privacy_device && self.ertm_disabled
    }

    /// Neither half is applied.
    pub fn is_off(&self) -> (r: bool)
        ensures
            r == (!self.privacy_device && !self.ertm_disabled),
    {
        !self.privacy_device && !self.ertm_disabled
    }
}

#[derive(Debug, Clone, Copy, PartialEq, Eq, Structural)]
pub struct PadFallbackResult {
    pub fallback: PadFallback,
    /// False when the board was already in the state asked for.
    pub changed: bool,
    pub reboot_required: bool,
}

/// A gamepad that the robot knows.
#[derive(Debug, Clone, PartialEq, Eq)]
pub struct Pad {
    pub mac: String,
    pub name: String,
    pub paired: bool,
    pub trusted: bool,
    pub connected: bool,
}

/// Why a pad could not be paired.
#[derive(Debug, Clone, Copy, PartialEq, Eq, Structural)]
pub enum PadPairFailure {
    NoAdapter,
    NotFound,
    Ambiguous,
    Timeout,
    Rejected,
    Other,
}

#[derive(Debug, Clone, PartialEq, Eq)]
pub enum PadPairResult {
    Paired { pad: Pad },
    Failed { reason: PadPairFailure, detail: Option<String> },
}

#[derive(Debug, Clone, Copy, PartialEq, Eq, Structural)]
pub struct PadForgetResult {
    pub removed: bool,
}

/// Whether the service that turns a pad into intents is running.
#[derive(Debug, Clone, Copy, PartialEq, Eq, Structural)]
pub enum DriverState {
    Active,
    Inactive,
    Unknown,
    /// There is no such service on this release.
    Absent,
}

} // verus!
