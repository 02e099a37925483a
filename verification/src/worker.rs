//! The search worker.
//!
//! A worker scans a half-open range of suffix ranks. Each iteration it
//! first observes the shared cancellation flag, then materializes the
//! candidate for the current rank and tests its checksum. It reports
//! progress about once a second, and ends with exactly one terminal event:
//! Found (also setting the shared flag so the other workers stop),
//! WorkerDone on exhaustion, or Cancelled.

use crate::alphabet::{all_b58, ascii_chars, lemma_b58_byte_inverse};
use crate::checksum::{address_valid, validate_base58_address};
use crate::codec::ascii_to_string;
use crate::events::{
    now_millis, send_event, try_send_event, CancellationFlag, SearchEvent,
};
use crate::indexer::{lemma_rank_text_b58, rank_text, rank_to_string, rank_to_text};
use vstd::prelude::*;
use vstd::slice::slice_to_vec;
use vstd::string::StringSliceAdditionalSpecFns;

verus! {

/// The fixed length of a full candidate address, in Base58 symbols.
pub const ADDRESS_LENGTH: usize = 34;

/// How a worker's scan of its range ended.
#[derive(Clone, Debug)]
pub enum WorkerOutcome {
    /// A valid address was found at some rank of the range.
    Found(String),
    /// Every rank of the range was tested and none was valid.
    Exhausted,
    /// The cancellation flag was observed before the range was done.
    Cancelled,
}

/// The candidate text bytes for one rank: the fixed prefix followed by the
/// rank written as a suffix of the length that completes the address.
pub open spec fn worker_candidate(prefix: Seq<u8>, rank: nat) -> Seq<u8>
    recommends
        prefix.len() <= ADDRESS_LENGTH,
{
    prefix + rank_text(rank, (ADDRESS_LENGTH - prefix.len()) as nat)
}

/// Scans the ranks `[start_range, end_range)`, testing one candidate per
/// rank, and returns how the scan ended. A Found outcome names a valid
/// address built from some rank of the range; an Exhausted outcome rules
/// every rank of the range out. Events mirroring the outcome, and periodic
/// progress, go to the channel.
pub fn brute_force_checksum(
    base58_input: &str,
    start_range: u128,
    end_range: u128,
    thread_id: usize,
    tx: crossbeam::channel::Sender<SearchEvent>,
    stop_flag: &CancellationFlag,
) -> (outcome: WorkerOutcome)
    requires
        all_b58(base58_input.spec_bytes()),
        base58_input.spec_bytes().len() <= ADDRESS_LENGTH,
        start_range <= end_range,
    ensures
        (outcome matches WorkerOutcome::Found(c) ==> exists|r: u128|
            start_range <= r < end_range && c@ == ascii_chars(
                #[trigger] worker_candidate(base58_input.spec_bytes(), r as nat),
            ) && address_valid(worker_candidate(base58_input.spec_bytes(), r as nat))),
        (outcome matches WorkerOutcome::Exhausted ==> forall|r: u128|
            start_range <= r < end_range ==> !address_valid(
                #[trigger] worker_candidate(base58_input.spec_bytes(), r as nat),
            )),
{
    let ghost prefix = base58_input.spec_bytes();
    let chars_to_add = ADDRESS_LENGTH - base58_input.len();
    let prefix_bytes: &[u8] = base58_input.as_bytes();
    let total = end_range - start_range;
    let mut last_update = now_millis();
    let mut hashes_done: u128 = 0;
    let mut i = start_range;
    while i < end_range
        invariant
            prefix == base58_input.spec_bytes(),
            all_b58(prefix),
            prefix.len() <= ADDRESS_LENGTH,
            prefix_bytes@ == prefix,
            chars_to_add == ADDRESS_LENGTH - prefix.len(),
            total == end_range - start_range,
            start_range <= i <= end_range,
            hashes_done <= i - start_range,
            forall|r: u128|
                start_range <= r < i ==> !address_valid(
                    #[trigger] worker_candidate(prefix, r as nat),
                ),
        decreases end_range - i,
    {
        if stop_flag.is_cancelled() {
            send_event(&tx, SearchEvent::Cancelled);
            return WorkerOutcome::Cancelled;
        }
        let mut suffix = rank_to_text(i, chars_to_add);
        let mut cand: Vec<u8> = slice_to_vec(prefix_bytes);
        cand.append(&mut suffix);
        proof {
            assert(cand@ == worker_candidate(prefix, i as nat));
            lemma_rank_text_b58(i as nat, chars_to_add as nat);
            assert forall|j: int| 0 <= j < cand@.len() implies cand@[j] < 128 by {
                if j < prefix.len() {
                    lemma_b58_byte_inverse(prefix[j]);
                }
            }
        }
        if validate_base58_address(cand.as_slice()) {
            stop_flag.cancel();
            let found = ascii_to_string(cand);
            send_event(&tx, SearchEvent::Found { candidate: found.clone() });
            proof {
                assert(start_range <= i < end_range && found@ == ascii_chars(
                    worker_candidate(base58_input.spec_bytes(), i as nat),
                ) && address_valid(worker_candidate(base58_input.spec_bytes(), i as nat)));
                assert(exists|r: u128|
                    start_range <= r < end_range && found@ == ascii_chars(
                        #[trigger] worker_candidate(base58_input.spec_bytes(), r as nat),
                    ) && address_valid(worker_candidate(base58_input.spec_bytes(), r as nat)));
            }
            return WorkerOutcome::Found(found);
        }
        hashes_done = hashes_done + 1;
        let now = now_millis();
        if now >= last_update && now - last_update >= 1000 {
            let elapsed = now - last_update;
            let secs = elapsed / 1000;
            let rate = hashes_done / secs;
            let done = i - start_range;
            let percent_raw: u128 = if total >= 100 {
                done / (total / 100)
            } else if total > 0 {
                (done * 100) / total
            } else {
                0
            };
            let percent: u8 = if percent_raw > 100 {
                100
            } else {
                percent_raw as u8
            };
            let current_candidate = ascii_to_string(cand);
            let start_range_base58 = rank_to_string(start_range, chars_to_add);
            let end_range_base58 = rank_to_string(end_range - 1, chars_to_add);
            try_send_event(
                &tx,
                SearchEvent::Progress {
                    thread_id,
                    percent,
                    rate,
                    current_candidate,
                    remaining_calculations: end_range - i,
                    start_range_base58,
                    end_range_base58,
                },
            );
            last_update = now;
            hashes_done = 0;
        }
        i = i + 1;
    }
    send_event(&tx, SearchEvent::WorkerDone);
    WorkerOutcome::Exhausted
}

} // verus!
