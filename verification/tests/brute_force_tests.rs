use btc_black_hole_rust::checksum::validate_base58_address;
use btc_black_hole_rust::codec::{FromBase58, ToBase58};
use btc_black_hole_rust::events::{SearchEvent, ThreadInfo};
use crossbeam::channel::{bounded, Receiver, Sender};
use std::sync::atomic::{AtomicBool, Ordering};
use std::sync::Arc;

#[test]
fn test_base58_encoding_decoding() {
    let address = "1BitcoinEaterAddressDontSendf59kuE";
    let decoded = address.from_base58().expect("Decoding failed");
    let encoded = decoded.to_base58();
    assert_eq!(address, encoded);
}

#[test]
fn test_invalid_base58_decoding() {
    let invalid_address = "0BitcoinEaterAddressDontSendf59kuE";
    assert!(invalid_address.from_base58().is_err());
}

#[test]
fn test_corrupted_base58_encoding() {
    let address = "1BitcoinEaterAddressDontSendf59kuE";
    let mut decoded = address.from_base58().expect("Decoding failed");
    decoded[0] ^= 0xFF; // Corrupt the data
    let corrupted = decoded.to_base58();
    assert_ne!(address, corrupted);
}

#[test]
fn test_progress_update_message() {
    let thread_id = 1;
    let percent = 50;
    let rate = 5000;
    let current_candidate = "1BitcoinEaterAddressDontBendXYZ".to_string();
    let remaining_calculations = 500;
    let start_range_base58 = "StartBase58".to_string();
    let end_range_base58 = "EndBase58".to_string();

    // Create a Progress message
    let message = SearchEvent::Progress {
        thread_id,
        percent,
        rate,
        current_candidate: current_candidate.clone(),
        remaining_calculations,
        start_range_base58: start_range_base58.clone(),
        end_range_base58: end_range_base58.clone(),
    };

    // Assert message fields
    if let SearchEvent::Progress {
        thread_id: tid,
        percent: pct,
        rate: rt,
        current_candidate: cc,
        remaining_calculations: rc,
        start_range_base58: srb58,
        end_range_base58: erb58,
    } = message
    {
        assert_eq!(tid, thread_id);
        assert_eq!(pct, percent);
        assert_eq!(rt, rate);
        assert_eq!(cc, current_candidate);
        assert_eq!(rc, remaining_calculations);
        assert_eq!(srb58, start_range_base58);
        assert_eq!(erb58, end_range_base58);
    } else {
        panic!("Message is not of type Progress");
    }
}

#[test]
fn test_message_flow_for_found_candidate() {
    let (tx, rx): (Sender<SearchEvent>, Receiver<SearchEvent>) = bounded(1);
    let candidate = "1BitcoinEaterAddressDontBendXYZ".to_string();

    // Send a Found message
    tx.send(SearchEvent::Found { candidate: candidate.clone() }).unwrap();

    // Receive and assert the message
    if let Ok(SearchEvent::Found { candidate: found_candidate }) = rx.try_recv() {
        assert_eq!(found_candidate, candidate);
    } else {
        panic!("Did not receive the expected Found message");
    }
}

#[test]
fn test_message_flow_for_finished() {
    let (tx, rx): (Sender<SearchEvent>, Receiver<SearchEvent>) = bounded(1);

    // Send a WorkerDone message
    tx.send(SearchEvent::WorkerDone).unwrap();

    // Receive and assert the message
    if let Ok(SearchEvent::WorkerDone) = rx.try_recv() {
        assert!(true);
    } else {
        panic!("Did not receive the expected WorkerDone message");
    }
}

#[test]
fn test_thread_info_initialization() {
    let thread_info = ThreadInfo {
        thread_id: 1,
        start_range_base58: "StartBase58".to_string(),
        end_range_base58: "EndBase58".to_string(),
        current_candidate: "1BitcoinEaterAddressDontBendXYZ".to_string(),
        remaining_calculations: 500,
    };

    assert_eq!(thread_info.thread_id, 1);
    assert_eq!(thread_info.start_range_base58, "StartBase58");
    assert_eq!(thread_info.end_range_base58, "EndBase58");
    assert_eq!(thread_info.current_candidate, "1BitcoinEaterAddressDontBendXYZ");
    assert_eq!(thread_info.remaining_calculations, 500);
}

#[test]
fn test_brute_force_cancellation() {
    let stop_flag = Arc::new(AtomicBool::new(false));
    let stop_flag_clone = Arc::clone(&stop_flag);

    stop_flag.store(true, Ordering::SeqCst);
    assert!(stop_flag_clone.load(Ordering::SeqCst));

    stop_flag.store(false, Ordering::SeqCst);
    assert!(!stop_flag_clone.load(Ordering::SeqCst));
}

#[test]
fn test_known_address_validates() {
    assert!(validate_base58_address(b"1BitcoinEaterAddressDontSendf59kuE"));
}

#[test]
fn test_flipped_checksum_invalidates() {
    let address = "1BitcoinEaterAddressDontSendf59kuE";
    let mut decoded = address.from_base58().expect("Decoding failed");
    assert_eq!(decoded.len(), 25);
    // Flip one bit inside the 4-byte checksum.
    decoded[24] ^= 0x01;
    let corrupted = decoded.to_base58();
    assert!(!validate_base58_address(corrupted.as_bytes()));
}

#[test]
fn test_truncated_payload_invalidates() {
    let address = "1BitcoinEaterAddressDontSendf59kuE";
    let decoded = address.from_base58().expect("Decoding failed");
    // Fewer than 25 decoded bytes can never validate, checksum or not.
    let truncated = decoded[..21].to_base58();
    assert!(!validate_base58_address(truncated.as_bytes()));
    let short = decoded[..24].to_base58();
    assert!(!validate_base58_address(short.as_bytes()));
}

#[test]
fn test_undecodable_candidate_is_not_a_match() {
    assert!(!validate_base58_address(b"0BitcoinEaterAddressDontSendf59kuE"));
    assert!(!validate_base58_address(b""));
}
