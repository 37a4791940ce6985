//! The log service's scheduling decisions.
//!
//! The service itself — the RPC surface, the background committer task
//! and the stream pusher — runs outside the library; what it decides is
//! defined here. The committer drains the queue in batches of at most
//! `MAX_COMMIT_BATCH`; the stream pusher hands entries to a bounded
//! channel of `STREAM_CHANNEL_CAPACITY`.

use vstd::prelude::*;

verus! {

/// The most entries one commit batch may take.
pub const MAX_COMMIT_BATCH: usize = 5;

/// The capacity of the bounded channel behind a log stream.
pub const STREAM_CHANNEL_CAPACITY: usize = 5;

/// How many entries the background committer commits on one tick: all
/// of the queue, up to the batch bound.
pub fn commit_batch_size(uncommitted: usize) -> (r: usize)
    ensures
        uncommitted <= MAX_COMMIT_BATCH ==> r == uncommitted,
        uncommitted > MAX_COMMIT_BATCH ==> r == MAX_COMMIT_BATCH,
{
    if uncommitted <= MAX_COMMIT_BATCH {
        uncommitted
    } else {
        MAX_COMMIT_BATCH
    }
}

} // verus!
