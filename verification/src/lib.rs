//! Fleet-health monitor core: a status store keyed by machine name, a pure
//! notification deriver, a config manager with a canonical persistence codec,
//! and a constant-time authentication gate.

pub mod auth;
pub mod clock;
pub mod codec;
pub mod config_mgr;
pub mod data;
pub mod notify;
pub mod report;
pub mod store;

use vstd::prelude::*;

verus! {

/// Seconds a report may age (in either direction) before a machine is
/// considered stale.
pub const STALE_AFTER_SECONDS: i64 = 600;

} // verus!
