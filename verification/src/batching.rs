//! How this crate answers a batch handler.
//!
//! Neither client reads several entries at a time, on a stream file and on standard input alike.
//! A batch handler must still run, so batches are assembled on the client, and what is this
//! crate's own choice is the deadline that closes a partial batch.

use vstd::prelude::*;

verus! {

/// How long, in milliseconds, a batch waits for further deliveries after its first one before
/// going out short.
///
/// Every transport here is local, so deliveries that already exist land far inside this window.
/// What the deadline bounds is the latency of a batch at an idle tail.
pub const BATCH_MAX_WAIT_MILLIS: u64 = 10;

} // verus!
