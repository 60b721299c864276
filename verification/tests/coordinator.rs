use statstore::coordinator::{AdminCommand, AdminOk, Coordinator};
use statstore::errors::CoreError;
use statstore::registry::Entry;

fn one_entry_coordinator(id: u128, budget: u64) -> Coordinator {
    let entries = vec![Entry { id, remaining: budget }];
    Coordinator::new(entries, budget)
}

#[test]
fn push_then_fetch_round_trips_payload() {
    let mut c = one_entry_coordinator(7, 3);
    assert_eq!(c.push(7, b"hello".to_vec()), Ok(()));
    let f = c.fetch(7, "t1".to_string()).expect("fetch should succeed");
    assert_eq!(f.payload, b"hello".to_vec());
    assert_eq!(f.remaining, 2);
    assert_eq!(f.token, "t1".to_string());
}

#[test]
fn scenario_two_uses_then_exhausted_then_reset() {
    let mut c = one_entry_coordinator(42, 2);
    assert_eq!(c.push(42, b"hello".to_vec()), Ok(()));

    let f1 = c.fetch(42, "t1".to_string()).expect("first fetch");
    assert_eq!(f1.payload, b"hello".to_vec());
    assert_eq!(f1.remaining, 1);

    let f2 = c.fetch(42, "t2".to_string()).expect("second fetch");
    assert_eq!(f2.payload, b"hello".to_vec());
    assert_eq!(f2.remaining, 0);

    assert_eq!(c.fetch(42, "t3".to_string()).err(), Some(CoreError::Exhausted));

    assert_eq!(c.admin(AdminCommand::Reset, 42), Ok(AdminOk::Done));

    let f4 = c.fetch(42, "t4".to_string()).expect("fetch after reset");
    assert_eq!(f4.payload, b"hello".to_vec());
    assert_eq!(f4.remaining, 1);
}

#[test]
fn remaining_strictly_decreases_across_fetches() {
    let mut c = one_entry_coordinator(9, 5);
    assert_eq!(c.push(9, b"blob".to_vec()), Ok(()));
    let mut last: Option<u64> = None;
    for k in 0..5u64 {
        let f = c.fetch(9, format!("t{}", k)).expect("fetch within budget");
        if let Some(prev) = last {
            assert!(f.remaining < prev);
        }
        last = Some(f.remaining);
    }
    assert_eq!(last, Some(0));
    assert_eq!(c.fetch(9, "done".to_string()).err(), Some(CoreError::Exhausted));
}

#[test]
fn exhaustion_is_final_until_reset() {
    let mut c = one_entry_coordinator(1, 1);
    assert_eq!(c.push(1, b"x".to_vec()), Ok(()));
    assert!(c.fetch(1, "a".to_string()).is_ok());
    for _ in 0..4 {
        assert_eq!(c.fetch(1, "b".to_string()).err(), Some(CoreError::Exhausted));
    }
    assert_eq!(c.admin(AdminCommand::Reset, 1), Ok(AdminOk::Done));
    assert!(c.fetch(1, "c".to_string()).is_ok());
}

#[test]
fn exactly_budget_many_fetches_succeed() {
    let budget = 3u64;
    let tries = 8u64;
    let mut c = one_entry_coordinator(5, budget);
    assert_eq!(c.push(5, b"scarce".to_vec()), Ok(()));
    let mut successes = 0u64;
    let mut failures = 0u64;
    for k in 0..tries {
        match c.fetch(5, format!("t{}", k)) {
            Ok(_) => successes += 1,
            Err(CoreError::Exhausted) => failures += 1,
            Err(other) => panic!("unexpected error {:?}", other),
        }
    }
    assert_eq!(successes, budget);
    assert_eq!(failures, tries - budget);
}

#[test]
fn fetch_unknown_id_is_not_found() {
    let mut c = one_entry_coordinator(7, 2);
    assert_eq!(c.fetch(8, "t".to_string()).err(), Some(CoreError::NotFound));
}

#[test]
fn fetch_without_stored_payload_is_not_found_and_keeps_budget() {
    let mut c = one_entry_coordinator(7, 2);
    assert_eq!(c.fetch(7, "t".to_string()).err(), Some(CoreError::NotFound));
    assert_eq!(c.admin(AdminCommand::Inspect, 7), Ok(AdminOk::Remaining(2)));
}

#[test]
fn push_to_unknown_id_is_not_found() {
    let mut c = one_entry_coordinator(7, 2);
    assert_eq!(c.push(8, b"p".to_vec()), Err(CoreError::NotFound));
}

#[test]
fn push_over_size_cap_is_too_large() {
    let mut c = one_entry_coordinator(7, 2);
    let cap = statstore::max_payload();
    assert_eq!(c.push(7, vec![0u8; cap]), Ok(()));
    assert_eq!(c.push(7, vec![0u8; cap + 1]), Err(CoreError::TooLarge));
}

#[test]
fn push_does_not_consume_budget() {
    let mut c = one_entry_coordinator(7, 1);
    for _ in 0..3 {
        assert_eq!(c.push(7, b"again".to_vec()), Ok(()));
    }
    assert_eq!(c.admin(AdminCommand::Inspect, 7), Ok(AdminOk::Remaining(1)));
}

#[test]
fn push_overwrites_prior_payload() {
    let mut c = one_entry_coordinator(7, 2);
    assert_eq!(c.push(7, b"first".to_vec()), Ok(()));
    assert_eq!(c.push(7, b"second".to_vec()), Ok(()));
    let f = c.fetch(7, "t".to_string()).expect("fetch");
    assert_eq!(f.payload, b"second".to_vec());
}

#[test]
fn revoke_removes_id_and_blob() {
    let mut c = one_entry_coordinator(7, 2);
    assert_eq!(c.push(7, b"gone".to_vec()), Ok(()));
    assert_eq!(c.admin(AdminCommand::Revoke, 7), Ok(AdminOk::Done));
    assert_eq!(c.fetch(7, "t".to_string()).err(), Some(CoreError::NotFound));
    assert_eq!(c.push(7, b"late".to_vec()), Err(CoreError::NotFound));
}

#[test]
fn revoke_absent_id_is_idempotent() {
    let mut c = one_entry_coordinator(7, 2);
    assert_eq!(c.admin(AdminCommand::Revoke, 99), Ok(AdminOk::Done));
    assert_eq!(c.admin(AdminCommand::Revoke, 99), Ok(AdminOk::Done));
    assert_eq!(c.admin(AdminCommand::Inspect, 7), Ok(AdminOk::Remaining(2)));
}

#[test]
fn reset_absent_id_is_not_found() {
    let mut c = one_entry_coordinator(7, 2);
    assert_eq!(c.admin(AdminCommand::Reset, 99), Err(CoreError::NotFound));
}

#[test]
fn inspect_reports_current_budget() {
    let mut c = one_entry_coordinator(7, 2);
    assert_eq!(c.push(7, b"v".to_vec()), Ok(()));
    assert_eq!(c.admin(AdminCommand::Inspect, 7), Ok(AdminOk::Remaining(2)));
    c.fetch(7, "t".to_string()).expect("fetch");
    assert_eq!(c.admin(AdminCommand::Inspect, 7), Ok(AdminOk::Remaining(1)));
    assert_eq!(c.admin(AdminCommand::Inspect, 99), Err(CoreError::NotFound));
}

#[test]
fn list_reports_every_entry() {
    let entries = vec![
        Entry { id: 1, remaining: 4 },
        Entry { id: 2, remaining: 4 },
    ];
    let mut c = Coordinator::new(entries, 4);
    assert_eq!(c.push(1, b"p".to_vec()), Ok(()));
    c.fetch(1, "t".to_string()).expect("fetch");
    let listed = c.list();
    assert_eq!(listed.len(), 2);
    assert!(listed.contains(&Entry { id: 1, remaining: 3 }));
    assert!(listed.contains(&Entry { id: 2, remaining: 4 }));
}

#[test]
fn operations_on_one_id_leave_others_alone() {
    let entries = vec![
        Entry { id: 1, remaining: 2 },
        Entry { id: 2, remaining: 2 },
    ];
    let mut c = Coordinator::new(entries, 2);
    assert_eq!(c.push(1, b"one".to_vec()), Ok(()));
    assert_eq!(c.push(2, b"two".to_vec()), Ok(()));
    c.fetch(1, "t".to_string()).expect("fetch");
    c.fetch(1, "t".to_string()).expect("fetch");
    assert_eq!(c.fetch(1, "t".to_string()).err(), Some(CoreError::Exhausted));
    let f = c.fetch(2, "t".to_string()).expect("other id untouched");
    assert_eq!(f.payload, b"two".to_vec());
    assert_eq!(f.remaining, 1);
}
