//! Core of a chat/paste push server: the event-envelope wire protocol with a
//! verified encoder and decoder, the in-memory client registry with bounded
//! per-client mailboxes, the bounded history buffer with scheduled rotation,
//! the liveness sweep, and a streaming HTML template renderer.
use vstd::prelude::*;

pub mod chat;
pub mod codec;
pub mod decode;
pub mod json;
pub mod laws;
pub mod mailbox;
pub mod msg;
pub mod render;
pub mod rfc3339;
pub mod schedule;

verus! {

/// Capacity of one client mailbox: how many pending frames it holds at most.
pub const MAILBOX_CAPACITY: usize = 100;

} // verus!
