//! Search events, the shared cancellation flag, and the event channel.
//!
//! Workers report through a bounded channel. Terminal events are sent
//! blocking so that none is silently dropped; progress events are sent
//! best-effort and may be dropped when the channel is full.

use std::sync::atomic::{AtomicBool, Ordering};
use std::sync::Arc;
use vstd::prelude::*;

verus! {

/// Messages sent from search workers to the consumer of a search.
#[derive(Clone, Debug)]
pub enum SearchEvent {
    /// Periodic report from one worker.
    Progress {
        /// Which worker reports.
        thread_id: usize,
        /// Completed share of this worker's range, 0 to 100.
        percent: u8,
        /// Candidates tested per second since the last report.
        rate: u128,
        /// The candidate tested most recently.
        current_candidate: String,
        /// Ranks still to scan in this worker's range.
        remaining_calculations: u128,
        /// The first suffix of this worker's range, as Base58 text.
        start_range_base58: String,
        /// The last suffix of this worker's range, as Base58 text.
        end_range_base58: String,
    },
    /// A candidate passed the checksum test.
    Found { candidate: String },
    /// A worker exhausted its range without a match.
    WorkerDone,
    /// A worker observed the cancellation flag and stopped.
    Cancelled,
    /// The search configuration was rejected; no worker was started.
    Error(String),
}

/// Information about one search worker's slice of the space.
#[derive(Clone, Debug)]
pub struct ThreadInfo {
    pub thread_id: usize,
    pub start_range_base58: String,
    pub end_range_base58: String,
    pub current_candidate: String,
    pub remaining_calculations: u128,
}

/// The shared stop flag of one search: set at most once while workers run,
/// and read by every worker at the start of every iteration.
#[derive(Clone)]
pub struct CancellationFlag {
    inner: Arc<AtomicBool>,
}

impl CancellationFlag {
    /// A fresh, unset flag.
    pub fn new() -> CancellationFlag {
        CancellationFlag { inner: Arc::new(AtomicBool::new(false)) }
    }

    /// Requests that every worker sharing the flag stop.
    pub fn cancel(&self) {
        self.inner.store(true, Ordering::SeqCst);
    }

    /// Clears the flag before a new search.
    pub fn reset(&self) {
        self.inner.store(false, Ordering::SeqCst);
    }

    /// Reads the flag: true once a worker or the consumer cancelled.
    pub fn is_cancelled(&self) -> bool {
        self.inner.load(Ordering::SeqCst)
    }
}

/// The sending half of the event channel, from the crossbeam crate; its
/// values are opaque here and only handed to the send wrappers below.
#[verifier::external_type_specification]
#[verifier::external_body]
#[verifier::reject_recursive_types(T)]
pub struct ExSender<T>(crossbeam::channel::Sender<T>);

/// Relies on crossbeam::channel::Sender::send: blocks until the event is
/// delivered, or fails only when the channel is disconnected. Used for
/// terminal events, which must never be dropped while a consumer listens.
#[verifier::external_body]
pub(crate) fn send_event(tx: &crossbeam::channel::Sender<SearchEvent>, event: SearchEvent) {
    let _ = tx.send(event);
}

/// Relies on crossbeam::channel::Sender::try_send: best-effort delivery
/// that drops the event when the channel is full. Used for progress events
/// only.
#[verifier::external_body]
pub(crate) fn try_send_event(tx: &crossbeam::channel::Sender<SearchEvent>, event: SearchEvent) {
    let _ = tx.try_send(event);
}

/// Relies on std::time::SystemTime::now: the wall clock, read as whole
/// milliseconds since the epoch; nothing is assumed of the value.
#[verifier::external_body]
pub(crate) fn now_millis() -> u128 {
    match std::time::SystemTime::now().duration_since(std::time::UNIX_EPOCH) {
        Ok(d) => d.as_millis(),
        Err(_) => 0,
    }
}

} // verus!
