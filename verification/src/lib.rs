//! A store of values that are each reached through a numeric id, driven as a
//! state machine: a server takes one command at a time, hands out the values a
//! command's closure needs, and saves what the closure hands back.

use vstd::prelude::*;

pub mod command;
pub mod laws;
pub mod plan;
pub mod server;

verus! {

/// Accepts any value that can be shared between threads and drops it.
pub fn send_sync_drop<V: Send + Sync>(_value: V) {
}

} // verus!
