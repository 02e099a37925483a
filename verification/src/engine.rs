//! The search coordinator's planning step.
//!
//! Before any worker starts, the configuration is validated in full: the
//! prefix must leave room for a suffix and hold only alphabet symbols, the
//! suffix space must fit the rank type, the starting suffix must parse and
//! lie inside the space, and at least one worker must be asked for. The
//! result is a plan holding the partitioned rank ranges; spawning one
//! thread per range is the caller's part.

use crate::alphabet::{all_b58, is_b58_byte};
use crate::codec::FromBase58Error;
use crate::digits::pow58;
use crate::events::ThreadInfo;
use crate::indexer::{
    rank_text, rank_to_string, text_rank, text_to_rank, total_combinations,
};
use crate::partition::{is_partition, partition, WorkerRange};
use crate::worker::ADDRESS_LENGTH;
use vstd::prelude::*;
use vstd::string::{StringExecFns, StringSliceAdditionalSpecFns};

verus! {

/// A configuration rejected before any worker starts.
#[derive(Clone, Copy, Debug, Eq, PartialEq)]
pub enum ConfigError {
    /// The prefix does not leave room for a suffix.
    PrefixTooLong,
    /// A symbol outside the alphabet in the prefix, with its position.
    InvalidPrefixCharacter(char, usize),
    /// A symbol outside the alphabet in the starting suffix.
    InvalidStartCharacter(char, usize),
    /// The suffix space does not fit the 128-bit rank type.
    TotalOverflow,
    /// The starting suffix does not rank below the total combinations.
    StartBeyondSpace,
    /// No workers were asked for.
    ZeroWorkerCount,
}

/// Everything one search needs before its workers start.
#[derive(Debug)]
pub struct SearchPlan {
    /// The validated prefix.
    pub prefix: String,
    /// How many symbols each suffix has.
    pub suffix_length: usize,
    /// The size of the suffix space, 58^suffix_length.
    pub total_combinations: u128,
    /// The first rank to scan.
    pub start_rank: u128,
    /// One contiguous rank range per worker.
    pub ranges: Vec<WorkerRange>,
}

/// The prefix leaves room for a suffix and holds only alphabet symbols.
pub open spec fn prefix_ok(prefix: Seq<u8>) -> bool {
    prefix.len() < ADDRESS_LENGTH && all_b58(prefix)
}

/// How many symbols the suffix of this prefix has.
pub open spec fn suffix_len_of(prefix: Seq<u8>) -> nat
    recommends
        prefix.len() <= ADDRESS_LENGTH,
{
    (ADDRESS_LENGTH - prefix.len()) as nat
}

/// Validates a search configuration and plans the workers' ranges.
/// Succeeds exactly on the configurations that the errors below do not
/// name, and then describes every field of the plan.
pub fn plan_search(prefix: &str, starting_suffix: Option<&str>, worker_count: usize) -> (r:
    Result<SearchPlan, ConfigError>)
    ensures
        ({
            let p = prefix.spec_bytes();
            match r {
                Ok(plan) => {
                    &&& prefix_ok(p)
                    &&& plan.prefix@ == prefix@
                    &&& plan.suffix_length == suffix_len_of(p)
                    &&& plan.total_combinations == pow58(suffix_len_of(p))
                    &&& match starting_suffix {
                        None => plan.start_rank == 0,
                        Some(s) => all_b58(s.spec_bytes()) && plan.start_rank == text_rank(
                            s.spec_bytes(),
                        ),
                    }
                    &&& plan.start_rank < plan.total_combinations
                    &&& worker_count >= 1
                    &&& plan.ranges@.len() == worker_count
                    &&& is_partition(plan.ranges@, plan.start_rank, plan.total_combinations)
                },
                Err(ConfigError::PrefixTooLong) => p.len() >= ADDRESS_LENGTH,
                Err(ConfigError::InvalidPrefixCharacter(c, i)) => p.len() < ADDRESS_LENGTH && i
                    < p.len() && !is_b58_byte(p[i as int]) && (forall|j: int|
                    0 <= j < i ==> is_b58_byte(p[j])) && c == p[i as int] as char,
                Err(ConfigError::TotalOverflow) => prefix_ok(p) && pow58(suffix_len_of(p))
                    > u128::MAX,
                Err(ConfigError::InvalidStartCharacter(c, i)) => {
                    &&& prefix_ok(p)
                    &&& pow58(suffix_len_of(p)) <= u128::MAX
                    &&& starting_suffix matches Some(s) && i < s.spec_bytes().len()
                        && !is_b58_byte(s.spec_bytes()[i as int]) && (forall|j: int|
                        0 <= j < i ==> is_b58_byte(s.spec_bytes()[j])) && c == s.spec_bytes()[
                        i as int] as char
                },
                Err(ConfigError::StartBeyondSpace) => {
                    &&& prefix_ok(p)
                    &&& pow58(suffix_len_of(p)) <= u128::MAX
                    &&& starting_suffix matches Some(s) && all_b58(s.spec_bytes()) && text_rank(
                        s.spec_bytes(),
                    ) >= pow58(suffix_len_of(p))
                },
                Err(ConfigError::ZeroWorkerCount) => prefix_ok(p) && worker_count == 0,
            }
        }),
{
    let pbytes = prefix.as_bytes();
    let pn = pbytes.len();
    if pn >= ADDRESS_LENGTH {
        return Err(ConfigError::PrefixTooLong);
    }
    let mut i: usize = 0;
    while i < pn
        invariant
            i <= pn,
            pn < ADDRESS_LENGTH,
            pn == prefix.spec_bytes().len(),
            pbytes@ == prefix.spec_bytes(),
            forall|j: int| 0 <= j < i ==> is_b58_byte(pbytes@[j]),
        decreases pn - i,
    {
        if crate::alphabet::byte_to_digit(pbytes[i]).is_none() {
            return Err(ConfigError::InvalidPrefixCharacter(pbytes[i] as char, i));
        }
        i += 1;
    }
    let suffix_length = ADDRESS_LENGTH - pn;
    let total = match total_combinations(suffix_length) {
        Some(t) => t,
        None => {
            return Err(ConfigError::TotalOverflow);
        },
    };
    let start_rank: u128 = match starting_suffix {
        None => 0,
        Some(s) => match text_to_rank(s) {
            Ok(v) => v,
            Err(FromBase58Error::InvalidBase58Character(c, pos)) => {
                return Err(ConfigError::InvalidStartCharacter(c, pos));
            },
            Err(FromBase58Error::InvalidBase58Length) => {
                return Err(ConfigError::StartBeyondSpace);
            },
        },
    };
    if start_rank >= total {
        proof {
            crate::digits::lemma_pow58_pos(suffix_length as nat);
        }
        return Err(ConfigError::StartBeyondSpace);
    }
    if worker_count == 0 {
        return Err(ConfigError::ZeroWorkerCount);
    }
    // The worker count and the interval were just checked, so the
    // partitioner's contract rules its error cases out.
    let ranges = match partition(start_rank, total, worker_count) {
        Ok(v) => v,
        Err(_) => {
            proof {
                assert(false);
            }
            return Err(ConfigError::ZeroWorkerCount);
        },
    };
    Ok(
        SearchPlan {
            prefix: String::from_str(prefix),
            suffix_length,
            total_combinations: total,
            start_rank,
            ranges,
        },
    )
}

/// Describes one worker's slice of the space for display: the first and
/// last suffix of the range as Base58 text, and the count of ranks in it.
pub fn describe_range(thread_id: usize, range: &WorkerRange, suffix_length: usize) -> (info:
    ThreadInfo)
    requires
        range.start < range.end,
    ensures
        info.thread_id == thread_id,
        info.start_range_base58@ == crate::alphabet::ascii_chars(
            rank_text(range.start as nat, suffix_length as nat),
        ),
        info.end_range_base58@ == crate::alphabet::ascii_chars(
            rank_text((range.end - 1) as nat, suffix_length as nat),
        ),
        info.current_candidate@ == Seq::<char>::empty(),
        info.remaining_calculations == range.end - range.start,
{
    ThreadInfo {
        thread_id,
        start_range_base58: rank_to_string(range.start, suffix_length),
        end_range_base58: rank_to_string(range.end - 1, suffix_length),
        current_candidate: String::new(),
        remaining_calculations: range.end - range.start,
    }
}

} // verus!
