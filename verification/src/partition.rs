//! The range partitioner.
//!
//! Splits a half-open rank interval into contiguous, non-overlapping,
//! gap-free per-worker ranges whose union is exactly the interval; the last
//! range absorbs the remainder of the division.

use crate::engine::ConfigError;
use vstd::arithmetic::div_mod::lemma_fundamental_div_mod;
use vstd::arithmetic::mul::lemma_mul_inequality;
use vstd::prelude::*;

verus! {

/// A half-open interval of suffix ranks assigned to exactly one worker.
#[derive(Clone, Copy, Debug, Eq, PartialEq, Structural)]
pub struct WorkerRange {
    pub start: u128,
    pub end: u128,
}

/// The rank lies in the range.
pub open spec fn range_contains(r: WorkerRange, rank: u128) -> bool {
    r.start <= rank < r.end
}

/// The ranges split `[start_rank, total)` exactly: they are nonempty as a
/// list, start at `start_rank`, end at `total`, each is well-formed, and
/// each begins where the one before it ended.
pub open spec fn is_partition(ranges: Seq<WorkerRange>, start_rank: u128, total: u128) -> bool {
    &&& ranges.len() > 0
    &&& ranges.first().start == start_rank
    &&& ranges.last().end == total
    &&& forall|i: int| 0 <= i < ranges.len() ==> (#[trigger] ranges[i]).start <= ranges[i].end
    &&& forall|i: int|
        0 <= i < ranges.len() - 1 ==> (#[trigger] ranges[i]).end == ranges[i + 1].start
}

/// Splits `[start_rank, total)` across the workers: every worker gets an
/// equal share, and the last also takes the remainder of the division.
/// A zero worker count and an empty interval are configuration errors.
pub fn partition(start_rank: u128, total: u128, worker_count: usize) -> (r: Result<
    Vec<WorkerRange>,
    ConfigError,
>)
    ensures
        match r {
            Ok(v) => worker_count >= 1 && start_rank < total && v@.len() == worker_count
                && is_partition(v@, start_rank, total) && (forall|i: int|
                0 <= i < v@.len() - 1 ==> (#[trigger] v@[i]).end - v@[i].start == ((total
                    - start_rank) as int) / (worker_count as int)),
            Err(ConfigError::ZeroWorkerCount) => worker_count == 0,
            Err(ConfigError::StartBeyondSpace) => worker_count >= 1 && start_rank >= total,
            Err(_) => false,
        },
{
    if worker_count == 0 {
        return Err(ConfigError::ZeroWorkerCount);
    }
    if start_rank >= total {
        return Err(ConfigError::StartBeyondSpace);
    }
    let wc = worker_count as u128;
    let share = (total - start_rank) / wc;
    proof {
        let d = (total - start_rank) as int;
        let m = wc as int;
        lemma_fundamental_div_mod(d, m);
        assert(share * wc <= total - start_rank) by (nonlinear_arith)
            requires
                d == m * (share as int) + d % m,
                d % m >= 0,
                m == wc,
                d == total - start_rank,
        ;
    }
    let mut ranges: Vec<WorkerRange> = Vec::new();
    let mut cursor: u128 = start_rank;
    let mut w: usize = 0;
    while w < worker_count - 1
        invariant
            worker_count >= 1,
            wc == worker_count,
            w <= worker_count - 1,
            ranges@.len() == w,
            start_rank <= cursor <= total,
            share * (wc - w) <= total - cursor,
            w == 0 ==> cursor == start_rank,
            w > 0 ==> is_partition(ranges@, start_rank, cursor),
            share == ((total - start_rank) as int) / (wc as int),
            forall|i: int|
                0 <= i < ranges@.len() ==> (#[trigger] ranges@[i]).end - ranges@[i].start
                    == share,
        decreases worker_count - 1 - w,
    {
        proof {
            lemma_mul_inequality(1, (wc - w) as int, share as int);
            assert(share * (wc - w) == (wc - w) * share) by (nonlinear_arith);
            assert(share * 1 == 1 * share) by (nonlinear_arith);
            assert(share * ((wc - w) - 1) == share * (wc - w) - share) by (nonlinear_arith);
        }
        let next = cursor + share;
        let ghost pre = ranges@;
        ranges.push(WorkerRange { start: cursor, end: next });
        proof {
            assert(ranges@.last() == WorkerRange { start: cursor, end: next });
            assert(ranges@.first() == if pre.len() > 0 {
                pre.first()
            } else {
                WorkerRange { start: cursor, end: next }
            });
            assert forall|i: int| 0 <= i < ranges@.len() - 1 implies (#[trigger] ranges@[i]).end
                == ranges@[i + 1].start by {
                if i < pre.len() - 1 {
                    assert(pre[i].end == pre[i + 1].start);
                }
            }
        }
        cursor = next;
        w += 1;
    }
    let ghost pre = ranges@;
    ranges.push(WorkerRange { start: cursor, end: total });
    proof {
        assert forall|i: int| 0 <= i < ranges@.len() - 1 implies (#[trigger] ranges@[i]).end
            == ranges@[i + 1].start by {
            if i < pre.len() - 1 {
                assert(pre[i].end == pre[i + 1].start);
            }
        }
    }
    Ok(ranges)
}

/// Boundaries of a partition never move backwards: an earlier range ends
/// no later than a later range starts.
proof fn lemma_partition_ordered(ranges: Seq<WorkerRange>, start_rank: u128, total: u128, i: int, j: int)
    requires
        is_partition(ranges, start_rank, total),
        0 <= i < j < ranges.len(),
    ensures
        ranges[i].end <= ranges[j].start,
    decreases j - i,
{
    if j == i + 1 {
        assert(ranges[i].end == ranges[i + 1].start);
    } else {
        lemma_partition_ordered(ranges, start_rank, total, i + 1, j);
        assert(ranges[i].end == ranges[i + 1].start);
    }
}

/// Every rank of `[start_rank, total)` lies in exactly one range of a
/// partition: no rank is skipped and none is scanned twice.
pub proof fn lemma_partition_covers(
    ranges: Seq<WorkerRange>,
    start_rank: u128,
    total: u128,
    rank: u128,
)
    requires
        is_partition(ranges, start_rank, total),
        start_rank <= rank < total,
    ensures
        exists|i: int| 0 <= i < ranges.len() && range_contains(#[trigger] ranges[i], rank),
        forall|i: int, j: int|
            0 <= i < ranges.len() && 0 <= j < ranges.len() && range_contains(
                #[trigger] ranges[i],
                rank,
            ) && range_contains(#[trigger] ranges[j], rank) ==> i == j,
    decreases ranges.len(),
{
    let n = ranges.len() as int;
    if rank >= ranges.last().start {
        assert(range_contains(ranges[n - 1], rank));
    } else {
        let prefix = ranges.drop_last();
        assert(prefix.len() > 0) by {
            if n == 1 {
                assert(ranges.last().start == start_rank);
            }
        }
        assert(prefix.last().end == ranges[n - 2].end);
        assert(ranges[n - 2].end == ranges[n - 1].start);
        assert(is_partition(prefix, start_rank, ranges.last().start));
        lemma_partition_covers(prefix, start_rank, ranges.last().start, rank);
        let w = choose|i: int|
            0 <= i < prefix.len() && range_contains(#[trigger] prefix[i], rank);
        assert(range_contains(ranges[w], rank));
    }
    assert forall|i: int, j: int|
        0 <= i < ranges.len() && 0 <= j < ranges.len() && range_contains(
            #[trigger] ranges[i],
            rank,
        ) && range_contains(#[trigger] ranges[j], rank) implies i == j by {
        if i < j {
            lemma_partition_ordered(ranges, start_rank, total, i, j);
        }
        if j < i {
            lemma_partition_ordered(ranges, start_rank, total, j, i);
        }
    }
}

} // verus!
