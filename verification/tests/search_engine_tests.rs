use btc_black_hole_rust::engine::{describe_range, plan_search, ConfigError};
use btc_black_hole_rust::events::{CancellationFlag, SearchEvent};
use btc_black_hole_rust::indexer::{rank_to_string, rank_to_text, text_to_rank, total_combinations};
use btc_black_hole_rust::partition::{partition, WorkerRange};
use btc_black_hole_rust::worker::{brute_force_checksum, WorkerOutcome};
use crossbeam::channel::bounded;

const EATER_PREFIX: &str = "1BitcoinEaterAddressDontSend";
const EATER_ADDRESS: &str = "1BitcoinEaterAddressDontSendf59kuE";

#[test]
fn test_total_combinations_values() {
    assert_eq!(total_combinations(0), Some(1));
    assert_eq!(total_combinations(1), Some(58));
    assert_eq!(total_combinations(6), Some(58u128.pow(6)));
    assert_eq!(total_combinations(21), Some(58u128.pow(21)));
    assert_eq!(total_combinations(22), None);
    assert_eq!(total_combinations(1000), None);
}

#[test]
fn test_rank_to_text_values() {
    assert_eq!(rank_to_text(0, 6), b"111111");
    assert_eq!(rank_to_text(57, 1), b"z");
    assert_eq!(rank_to_text(58, 2), b"21");
    assert_eq!(rank_to_string(0, 3), "111");
    assert_eq!(rank_to_string(59, 3), "122");
}

#[test]
fn test_text_to_rank_values() {
    assert_eq!(text_to_rank(""), Ok(0));
    assert_eq!(text_to_rank("1111"), Ok(0));
    assert_eq!(text_to_rank("z"), Ok(57));
    assert_eq!(text_to_rank("21"), Ok(58));
    assert!(text_to_rank("2l").is_err());
}

#[test]
fn test_rank_text_round_trip() {
    for text in ["f59kuE", "111111", "zzzzzz", "2NEpk1"] {
        let rank = text_to_rank(text).unwrap();
        assert_eq!(rank_to_string(rank, text.len()), text);
    }
    for rank in [0u128, 1, 57, 58, 12345678] {
        let text = rank_to_string(rank, 6);
        assert_eq!(text_to_rank(text.as_str()), Ok(rank));
    }
}

#[test]
fn test_partition_exact_split() {
    let ranges = partition(0, 100, 3).unwrap();
    assert_eq!(
        ranges,
        vec![
            WorkerRange { start: 0, end: 33 },
            WorkerRange { start: 33, end: 66 },
            WorkerRange { start: 66, end: 100 },
        ]
    );
}

#[test]
fn test_partition_covers_every_rank_once() {
    for (start, total, workers) in [(0u128, 100u128, 3usize), (5, 7, 4), (17, 1000, 7), (0, 1, 1)] {
        let ranges = partition(start, total, workers).unwrap();
        assert_eq!(ranges.len(), workers);
        assert_eq!(ranges[0].start, start);
        assert_eq!(ranges[ranges.len() - 1].end, total);
        for w in 1..ranges.len() {
            assert_eq!(ranges[w - 1].end, ranges[w].start);
        }
        for rank in start..total {
            let holders = ranges.iter().filter(|r| r.start <= rank && rank < r.end).count();
            assert_eq!(holders, 1);
        }
    }
}

#[test]
fn test_partition_rejects_bad_configurations() {
    assert_eq!(partition(0, 100, 0), Err(ConfigError::ZeroWorkerCount));
    assert_eq!(partition(5, 5, 2), Err(ConfigError::StartBeyondSpace));
    assert_eq!(partition(6, 5, 2), Err(ConfigError::StartBeyondSpace));
}

#[test]
fn test_plan_search_accepts_eater_prefix() {
    let plan = plan_search(EATER_PREFIX, None, 4).unwrap();
    assert_eq!(plan.prefix, EATER_PREFIX);
    assert_eq!(plan.suffix_length, 6);
    assert_eq!(plan.total_combinations, 58u128.pow(6));
    assert_eq!(plan.start_rank, 0);
    assert_eq!(plan.ranges.len(), 4);
    assert_eq!(plan.ranges[0].start, 0);
    assert_eq!(plan.ranges[3].end, 58u128.pow(6));
    for w in 1..4 {
        assert_eq!(plan.ranges[w - 1].end, plan.ranges[w].start);
    }
}

#[test]
fn test_plan_search_starting_suffix() {
    let plan = plan_search(EATER_PREFIX, Some("f59kuE"), 2).unwrap();
    let rank = text_to_rank("f59kuE").unwrap();
    assert_eq!(plan.start_rank, rank);
    assert_eq!(plan.ranges[0].start, rank);
}

#[test]
fn test_plan_search_rejects_bad_configurations() {
    assert_eq!(
        plan_search("1BitcoinEaterAddressDontSendf59kuE", None, 1).unwrap_err(),
        ConfigError::PrefixTooLong
    );
    assert_eq!(
        plan_search("1Bitcoin0Eater", None, 1).unwrap_err(),
        ConfigError::InvalidPrefixCharacter('0', 8)
    );
    assert_eq!(plan_search("1", None, 1).unwrap_err(), ConfigError::TotalOverflow);
    assert_eq!(
        plan_search(EATER_PREFIX, Some("zzl"), 1).unwrap_err(),
        ConfigError::InvalidStartCharacter('l', 2)
    );
    assert_eq!(
        plan_search(EATER_PREFIX, Some("zzzzzzz"), 1).unwrap_err(),
        ConfigError::StartBeyondSpace
    );
    assert_eq!(plan_search(EATER_PREFIX, None, 0).unwrap_err(), ConfigError::ZeroWorkerCount);
}

#[test]
fn test_describe_range() {
    let info = describe_range(1, &WorkerRange { start: 0, end: 500 }, 3);
    assert_eq!(info.thread_id, 1);
    assert_eq!(info.start_range_base58, "111");
    assert_eq!(info.end_range_base58, rank_to_string(499, 3));
    assert_eq!(info.current_candidate, "");
    assert_eq!(info.remaining_calculations, 500);
}

#[test]
fn test_worker_finds_known_suffix() {
    let rank = text_to_rank("f59kuE").unwrap();
    let (tx, rx) = bounded(16);
    let flag = CancellationFlag::new();
    let outcome = brute_force_checksum(EATER_PREFIX, rank, rank + 1, 0, tx, &flag);
    match outcome {
        WorkerOutcome::Found(candidate) => assert_eq!(candidate, EATER_ADDRESS),
        _ => panic!("expected the known valid suffix to be found"),
    }
    // The terminal event was delivered and the shared flag was set for the
    // sibling workers.
    assert!(matches!(rx.try_recv(), Ok(SearchEvent::Found { .. })));
    assert!(flag.is_cancelled());
}

#[test]
fn test_worker_reports_exhaustion() {
    let (tx, rx) = bounded(16);
    let flag = CancellationFlag::new();
    let outcome = brute_force_checksum(EATER_PREFIX, 0, 16, 1, tx, &flag);
    assert!(matches!(outcome, WorkerOutcome::Exhausted));
    assert!(matches!(rx.try_recv(), Ok(SearchEvent::WorkerDone)));
}

#[test]
fn test_workers_observe_cancellation() {
    let total = 58u128.pow(6);
    let ranges = partition(0, total, 3).unwrap();
    let (tx, rx) = bounded(16);
    let flag = CancellationFlag::new();
    flag.cancel();
    for (id, range) in ranges.iter().enumerate() {
        let outcome =
            brute_force_checksum(EATER_PREFIX, range.start, range.end, id, tx.clone(), &flag);
        assert!(matches!(outcome, WorkerOutcome::Cancelled));
    }
    drop(tx);
    let mut cancelled = 0;
    while let Ok(event) = rx.try_recv() {
        match event {
            SearchEvent::Cancelled => cancelled += 1,
            SearchEvent::Found { .. } => panic!("no Found may follow cancellation"),
            _ => {}
        }
    }
    assert_eq!(cancelled, 3);
}
