use prime_ledger::ledger::{anchor_command, via_centroid, Ledger, LedgerError};

#[test]
fn basic_accepted_move() {
    let mut ledger = Ledger::new();
    let events = ledger.anchor_batch_at(1, &[(3, 2)], 1_700_000_000_000).unwrap();
    assert_eq!(events.len(), 1);
    assert_eq!(events[0].entity_id, 1);
    assert_eq!(events[0].prime, 3);
    assert_eq!(events[0].msd_digits, vec![1]);
    assert!(!events[0].via_c);
    assert_eq!(events[0].centroid_digit, 0);
    assert_eq!(events[0].timestamp, 1_700_000_000_000);
    assert_eq!(ledger.factor(b"1:3"), Some(&b"2".to_vec()));
    assert_eq!(ledger.posting(b"3:1"), Some(&b"2".to_vec()));
    assert_eq!(ledger.current_exponent(1, 3), Some(2));
    assert_eq!(ledger.log_entries().len(), 1);
    assert_eq!(ledger.log_entries()[0].msd_digits, vec![1]);
}

#[test]
fn centroid_bypass() {
    for ts in [1_700_000_000_000u64, 1_700_000_000_001u64] {
        let seed = (ts % 2) as u8;
        let mut ledger = Ledger::new();
        let events = ledger.anchor_batch_at(1, &[(2, 3)], ts).unwrap();
        assert_eq!(events.len(), 1);
        assert!(events[0].via_c);
        assert_ne!(events[0].centroid_digit, seed);
        assert_eq!(events[0].centroid_digit, 1 - seed);
        assert_eq!(events[0].msd_digits, vec![-1, 1]);
        assert_eq!(ledger.factor(b"1:2"), Some(&b"3".to_vec()));
        assert_eq!(ledger.posting(b"2:1"), Some(&b"3".to_vec()));
    }
}

#[test]
fn odd_home_to_even_target_is_no_bypass() {
    assert!(!via_centroid(3, 6));
    let mut ledger = Ledger::new();
    let result = ledger.anchor_batch_at(1, &[(7, 6)], 10);
    assert_eq!(result.err(), Some(LedgerError::Forbidden { src: 3, dst: 6 }));
    assert_eq!(ledger.factor(b"1:7"), None);
}

#[test]
fn forbidden_rejection() {
    let mut ledger = Ledger::new();
    let result = ledger.anchor_batch_at(1, &[(3, 4)], 10);
    assert_eq!(result.err(), Some(LedgerError::Forbidden { src: 1, dst: 4 }));
    assert_eq!(ledger.factor(b"1:3"), None);
    assert_eq!(ledger.posting(b"3:1"), None);
    assert_eq!(ledger.log_entries().len(), 0);
}

#[test]
fn even_home_to_odd_target_is_absorbed_by_the_centre() {
    let mut ledger = Ledger::new();
    let events = ledger.anchor_batch_at(1, &[(5, 1)], 10).unwrap();
    assert_eq!(events.len(), 1);
    assert!(events[0].via_c);
    assert_eq!(events[0].centroid_digit, 1);
    assert_eq!(events[0].msd_digits, vec![-1]);
    assert_eq!(ledger.factor(b"1:5"), Some(&b"1".to_vec()));
}

#[test]
fn noop_is_skipped_without_validation() {
    let mut ledger = Ledger::new();
    // prime 3 has home node 1: the absent exponent defaults to 1.
    let events = ledger.anchor_batch_at(1, &[(3, 1)], 11).unwrap();
    assert!(events.is_empty());
    assert_eq!(ledger.factor(b"1:3"), None);
    assert_eq!(ledger.posting(b"3:1"), None);
    assert_eq!(ledger.log_entries().len(), 0);

    // Once the exponent is 2, a move to 2 is skipped as well.
    ledger.anchor_batch_at(1, &[(3, 2)], 11).unwrap();
    let events = ledger.anchor_batch_at(1, &[(3, 2)], 12).unwrap();
    assert!(events.is_empty());
    assert_eq!(ledger.log_entries().len(), 1);
    assert_eq!(ledger.factor(b"1:3"), Some(&b"2".to_vec()));
}

#[test]
fn noop_command_is_not_checked_against_the_flow_rule() {
    // An exponent of 9 is no node, and 1 -> 9 would be refused; as a no-op it passes.
    assert!(matches!(anchor_command(1, 3, 9, Some(9), 0, 5), Ok(None)));
    assert!(matches!(
        anchor_command(1, 3, 9, Some(8), 0, 5),
        Err(LedgerError::InvalidNode { node: 9 })
    ));
    // 1 -> 4 is forbidden, but not when the exponent already is 4.
    assert!(matches!(anchor_command(1, 3, 4, Some(4), 0, 5), Ok(None)));
    assert!(matches!(
        anchor_command(1, 3, 4, None, 0, 5),
        Err(LedgerError::Forbidden { src: 1, dst: 4 })
    ));
}

#[test]
fn unknown_prime_fails_the_batch() {
    let mut ledger = Ledger::new();
    let result = ledger.anchor_batch_at(1, &[(3, 2), (4, 1)], 10);
    assert_eq!(result.err(), Some(LedgerError::UnknownPrime { prime: 4 }));
    // Nothing was written, but the accepted move had been logged.
    assert_eq!(ledger.factor(b"1:3"), None);
    assert_eq!(ledger.posting(b"3:1"), None);
    assert_eq!(ledger.log_entries().len(), 1);
    assert_eq!(ledger.log_entries()[0].prime, 3);
}

#[test]
fn target_above_seven_is_an_invalid_node() {
    let mut ledger = Ledger::new();
    let result = ledger.anchor_batch_at(1, &[(2, 8)], 10);
    assert_eq!(result.err(), Some(LedgerError::InvalidNode { node: 8 }));
    let result = ledger.anchor_batch_at(1, &[(3, 255)], 10);
    assert_eq!(result.err(), Some(LedgerError::InvalidNode { node: 255 }));
}

#[test]
fn commands_read_the_store_as_it_was_before_the_batch() {
    let mut ledger = Ledger::new();
    // Both commands start from the default exponent 1 of prime 3.
    let events = ledger.anchor_batch_at(7, &[(3, 2), (3, 0)], 10).unwrap();
    assert_eq!(events.len(), 2);
    assert_eq!(events[0].msd_digits, vec![1]);
    assert_eq!(events[1].msd_digits, vec![-1]);
    // The last write wins in both partitions.
    assert_eq!(ledger.factor(b"7:3"), Some(&b"0".to_vec()));
    assert_eq!(ledger.posting(b"3:7"), Some(&b"0".to_vec()));
}

#[test]
fn partitions_mirror_each_other() {
    let mut ledger = Ledger::new();
    let commands = [(2u32, 4u8), (3, 2), (5, 6), (7, 0), (11, 0), (13, 6), (17, 2), (19, 4)];
    let events = ledger.anchor_batch_at(42, &commands, 99).unwrap();
    assert_eq!(events.len(), 8);
    for (prime, target) in commands {
        let f_key = format!("42:{}", prime).into_bytes();
        let p_key = format!("{}:42", prime).into_bytes();
        let expected = format!("{}", target).into_bytes();
        assert_eq!(ledger.factor(&f_key), Some(&expected));
        assert_eq!(ledger.posting(&p_key), Some(&expected));
    }
}

#[test]
fn centroid_digit_runs_through_the_batch() {
    let mut ledger = Ledger::new();
    // seed 0; 0 -> 1 and 2 -> 3 go through the centre, 1 -> 2 does not.
    let events = ledger.anchor_batch_at(1, &[(2, 1), (3, 2), (5, 3)], 100).unwrap();
    assert_eq!(events.len(), 3);
    assert_eq!(
        events.iter().map(|e| (e.via_c, e.centroid_digit)).collect::<Vec<_>>(),
        vec![(true, 1), (false, 1), (true, 0)]
    );
}

#[test]
fn entities_do_not_share_exponents() {
    let mut ledger = Ledger::new();
    ledger.anchor_batch_at(1, &[(3, 2)], 10).unwrap();
    assert_eq!(ledger.current_exponent(1, 3), Some(2));
    assert_eq!(ledger.current_exponent(2, 3), None);
    assert_eq!(ledger.current_exponent(13, 2), None);
    let events = ledger.anchor_batch_at(2, &[(3, 2)], 10).unwrap();
    assert_eq!(events.len(), 1);
    assert_eq!(ledger.factor(b"2:3"), Some(&b"2".to_vec()));
}

#[test]
fn delta_is_taken_from_the_stored_exponent() {
    let mut ledger = Ledger::new();
    ledger.anchor_batch_at(1, &[(19, 3)], 10).unwrap();
    // The exponent of prime 19 is now 3; the home node stays 7.
    let events = ledger.anchor_batch_at(1, &[(19, 5)], 11).unwrap();
    assert_eq!(events[0].msd_digits, vec![2]);
    // 7 -> 7 is a self-loop for the flow rule, 3 -> 7 is a delta of 4.
    let events = ledger.anchor_batch_at(1, &[(19, 7)], 12).unwrap();
    assert_eq!(events[0].msd_digits, vec![2]);
    let events = ledger.anchor_batch_at(1, &[(19, 3)], 13).unwrap();
    assert_eq!(events[0].msd_digits, vec![0, -1]);
}

#[test]
fn anchor_command_writes_the_target() {
    match anchor_command(9, 11, 0, Some(-10), 1, 77) {
        Ok(Some(anchored)) => {
            assert_eq!(anchored.exponent, 0);
            assert_eq!(anchored.event.entity_id, 9);
            assert_eq!(anchored.event.prime, 11);
            assert_eq!(anchored.event.msd_digits, vec![2, 2]);
            assert!(!anchored.event.via_c);
            assert_eq!(anchored.event.centroid_digit, 1);
            assert_eq!(anchored.event.timestamp, 77);
        }
        _ => panic!("the move 4 -> 0 is allowed"),
    }
}

#[test]
fn batch_with_the_clock() {
    let mut ledger = Ledger::new();
    let events = ledger.anchor_batch(1, &[(2, 3)]).unwrap();
    assert_eq!(events.len(), 1);
    assert!(events[0].via_c);
    assert!(events[0].timestamp > 1_500_000_000_000);
    assert_eq!(events[0].centroid_digit, 1 - (events[0].timestamp % 2) as u8);
    assert_eq!(ledger.factor(b"1:2"), Some(&b"3".to_vec()));
}

#[test]
fn event_clone_keeps_the_fields() {
    let mut ledger = Ledger::new();
    let events = ledger.anchor_batch_at(1, &[(2, 3)], 5).unwrap();
    let copy = events[0].clone();
    assert_eq!(copy.entity_id, events[0].entity_id);
    assert_eq!(copy.prime, events[0].prime);
    assert_eq!(copy.msd_digits, events[0].msd_digits);
    assert_eq!(copy.via_c, events[0].via_c);
    assert_eq!(copy.centroid_digit, events[0].centroid_digit);
    assert_eq!(copy.timestamp, events[0].timestamp);
}
