//! JSON-RPC error codes.
//!
//! The distinctions let a client act: retry when busy, report "correctly refused"
//! rather than "something broke".

use vstd::prelude::*;

verus! {

pub const PARSE_ERROR: i32 = -32700;

pub const INVALID_REQUEST: i32 = -32600;

pub const METHOD_NOT_FOUND: i32 = -32601;

pub const INVALID_PARAMS: i32 = -32602;

pub const INTERNAL_ERROR: i32 = -32603;

pub const BUSY: i32 = 1;

pub const UNKNOWN_COMPONENT: i32 = 2;

pub const PROTOCOL_MISMATCH: i32 = 3;

pub const PREFLIGHT_FAILED: i32 = 4;

pub const NETWORK: i32 = 5;

pub const VERIFICATION_FAILED: i32 = 6;

pub const INCOMPATIBLE: i32 = 7;

pub const HOOK_FAILED: i32 = 8;

pub const HEALTH_CHECK_FAILED: i32 = 9;

/// The update failed and so did the rollback.
pub const ROLLBACK_FAILED: i32 = 10;

/// The component exists but that version is not installed.
pub const NOT_INSTALLED: i32 = 11;

/// A newer version is installed and the request would move backwards.
pub const WOULD_DOWNGRADE: i32 = 12;

/// Verified, but larger than the configured archive limits allow.
pub const ARCHIVE_TOO_LARGE: i32 = 13;

/// The caller may connect but may not perform this operation.
pub const PERMISSION_DENIED: i32 = 14;

} // verus!
