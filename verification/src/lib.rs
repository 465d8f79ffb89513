//! Server-side synchronization engine for an end-to-end-encrypted todo
//! application.
//!
//! The server stores opaque encrypted envelopes per user and coordinates
//! their ordering: a log of committed records indexed by a strictly
//! increasing per-user `server_seq`, a staging area for attachment uploads
//! awaiting an explicit commit marker, quota-aware admission control, and
//! garbage collection of attachments whose owning todo is gone.
//!
//! All state mutation is expressed over a plain in-memory [`store::SyncState`];
//! persistence, HTTP transport and authentication live outside this crate.

pub mod attach;
pub mod config;
pub mod dates;
pub mod gc;
pub mod hlc;
pub mod keybundle;
pub mod pull;
pub mod push;
pub mod quota;
pub mod records;
pub mod refs;
pub mod stats;
pub mod store;
pub mod sweep;
pub mod textutil;
pub mod strutil;

use vstd::prelude::*;

verus! {

/// Per-field cap on the character length of `nonce` and `ciphertext`.
pub const MAX_RECORD_B64_LEN: usize = 524288;

/// Upper bound that `pull` clamps its page limit to.
pub const MAX_PULL_LIMIT: i64 = 500;

/// Default cap on the number of envelopes in one push batch.
pub const DEFAULT_MAX_PUSH_RECORDS: usize = 500;

} // verus!
