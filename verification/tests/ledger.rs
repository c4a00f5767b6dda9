use debt_ledger::data::{get_all_debts, get_balances, get_debts_involving, get_users};
use debt_ledger::debt::{same_debt, Debt};
use debt_ledger::key::encode_key;
use debt_ledger::balance::{
    aggregate, balance, sum_amounts, EncodingError, ScanError, StoreError,
};
use debt_ledger::ledger::{
    add_debt, find_orphan, is_half_of_a_pair, record_debt, AddDebtError, RecordError,
};
use debt_ledger::name::same_text;
use debt_ledger::money::{Money, ParseError};
use debt_ledger::store::{LedgerStore, Record};

const NOON: u128 = 1_700_000_000_000_000_000;

fn record(user: &str, time: u128, cents: i64) -> Record {
    Record {
        key: encode_key(user.as_bytes(), time),
        debt: Debt {
            creditor: user.to_string(),
            debtor: "x".to_string(),
            time,
            amount: Money::from_cents(cents),
        },
    }
}

#[test]
fn alice_owes_bob() {
    let mut store = LedgerStore::new();
    assert_eq!(
        add_debt(&mut store, "bob", "alice", "owes", "$12.50".to_string(), NOON),
        Ok(())
    );
    assert_eq!(store.len(), 2);
    assert_eq!(
        store.get(&encode_key(b"bob", NOON)),
        Some(&Debt {
            creditor: "bob".to_string(),
            debtor: "alice".to_string(),
            time: NOON,
            amount: Money::from_cents(1250),
        })
    );
    assert_eq!(
        store.get(&encode_key(b"alice", NOON)),
        Some(&Debt {
            creditor: "alice".to_string(),
            debtor: "bob".to_string(),
            time: NOON,
            amount: Money::from_cents(-1250),
        })
    );
    assert_eq!(balance(&store, "bob"), Money::from_cents(1250));
    assert_eq!(balance(&store, "alice"), Money::from_cents(-1250));
    assert_eq!(balance(&store, "bob").to_string(), "+$12.50");
    assert_eq!(balance(&store, "alice").to_string(), "-$12.50");
}

#[test]
fn any_other_direction_is_the_other_way_round() {
    let mut store = LedgerStore::new();
    assert_eq!(
        add_debt(&mut store, "bob", "alice", "is owed by", "3".to_string(), NOON),
        Ok(())
    );
    assert_eq!(balance(&store, "bob"), Money::from_dollars(-3));
    assert_eq!(balance(&store, "alice"), Money::from_dollars(3));
    assert_eq!(
        store.get(&encode_key(b"alice", NOON)).map(|d| d.creditor.clone()),
        Some("alice".to_string())
    );
}

#[test]
fn the_two_records_mirror_each_other() {
    let mut store = LedgerStore::new();
    record_debt(&mut store, "bob", "alice", Money::from_cents(700), 5).unwrap();
    let credit = store.get(&encode_key(b"bob", 5)).unwrap().clone();
    let debit = store.get(&encode_key(b"alice", 5)).unwrap().clone();
    assert_eq!(credit.clone_negated(), debit);
    assert_eq!(debit.clone_negated(), credit);
    assert_eq!(credit.amount + debit.amount, Money::zero());
}

#[test]
fn balance_reads_twice_the_same() {
    let mut store = LedgerStore::new();
    record_debt(&mut store, "bob", "alice", Money::from_cents(700), 5).unwrap();
    record_debt(&mut store, "carol", "bob", Money::from_cents(200), 6).unwrap();
    let first = balance(&store, "bob");
    let second = balance(&store, "bob");
    assert_eq!(first, second);
    assert_eq!(first, Money::from_cents(500));
    assert_eq!(store.len(), 4);
}

#[test]
fn no_records_no_balance() {
    let store = LedgerStore::new();
    assert_eq!(balance(&store, "bob"), Money::zero());
    let mut other = LedgerStore::new();
    record_debt(&mut other, "bob", "alice", Money::from_cents(700), 5).unwrap();
    assert_eq!(balance(&other, "carol"), Money::zero());
    assert_eq!(balance(&other, "bo"), Money::zero());
    assert_eq!(balance(&other, "bobby"), Money::zero());
}

#[test]
fn balances_add_up_over_debts() {
    let mut store = LedgerStore::new();
    record_debt(&mut store, "bob", "alice", Money::from_cents(1250), 1).unwrap();
    record_debt(&mut store, "alice", "bob", Money::from_cents(250), 2).unwrap();
    record_debt(&mut store, "bob", "carol", Money::from_cents(100), 3).unwrap();
    record_debt(&mut store, "carol", "alice", Money::from_cents(1), 4).unwrap();
    assert_eq!(balance(&store, "bob"), Money::from_cents(1100));
    assert_eq!(balance(&store, "alice"), Money::from_cents(-1001));
    assert_eq!(balance(&store, "carol"), Money::from_cents(-99));
    assert_eq!(
        balance(&store, "bob") + balance(&store, "alice") + balance(&store, "carol"),
        Money::zero()
    );
}

#[test]
fn a_debt_of_nothing_is_recorded() {
    let mut store = LedgerStore::new();
    assert_eq!(record_debt(&mut store, "bob", "alice", Money::zero(), 1), Ok(()));
    assert_eq!(store.len(), 2);
    assert_eq!(balance(&store, "bob"), Money::zero());
}

#[test]
fn malformed_amount_adds_nothing() {
    let mut store = LedgerStore::new();
    assert_eq!(
        add_debt(&mut store, "bob", "alice", "owes", "1.2.3".to_string(), NOON),
        Err(AddDebtError::Amount(ParseError::MalformedAmount(
            "1.2.3".to_string()
        )))
    );
    assert_eq!(store.len(), 0);
}

#[test]
fn negative_amount_is_rejected() {
    let mut store = LedgerStore::new();
    assert_eq!(
        add_debt(&mut store, "bob", "alice", "owes", "-5".to_string(), NOON),
        Err(AddDebtError::Rejected(RecordError::NegativeAmount))
    );
    assert_eq!(
        record_debt(&mut store, "bob", "alice", Money::from_cents(-1), NOON),
        Err(RecordError::NegativeAmount)
    );
    assert_eq!(
        record_debt(&mut store, "bob", "alice", Money::from_cents(i64::MIN), NOON),
        Err(RecordError::NegativeAmount)
    );
    assert_eq!(store.len(), 0);
}

#[test]
fn same_party_is_rejected() {
    let mut store = LedgerStore::new();
    assert_eq!(
        record_debt(&mut store, "bob", "bob", Money::from_cents(5), NOON),
        Err(RecordError::SameParty)
    );
    assert_eq!(store.len(), 0);
}

#[test]
fn invalid_user_is_rejected() {
    let mut store = LedgerStore::new();
    assert_eq!(
        record_debt(&mut store, "a/b", "bob", Money::from_cents(5), NOON),
        Err(RecordError::InvalidUser)
    );
    assert_eq!(
        record_debt(&mut store, "bob", "a/b", Money::from_cents(5), NOON),
        Err(RecordError::InvalidUser)
    );
    assert_eq!(
        record_debt(&mut store, "a/", "a/", Money::from_cents(-5), NOON),
        Err(RecordError::InvalidUser)
    );
    assert_eq!(store.len(), 0);
}

#[test]
fn taken_key_is_rejected_and_nothing_is_written() {
    let mut store = LedgerStore::new();
    record_debt(&mut store, "bob", "alice", Money::from_cents(5), NOON).unwrap();
    let before = store.all();
    assert_eq!(
        record_debt(&mut store, "bob", "carol", Money::from_cents(7), NOON),
        Err(RecordError::KeyTaken)
    );
    assert_eq!(
        record_debt(&mut store, "carol", "alice", Money::from_cents(7), NOON),
        Err(RecordError::KeyTaken)
    );
    assert_eq!(
        record_debt(&mut store, "alice", "bob", Money::from_cents(7), NOON),
        Err(RecordError::KeyTaken)
    );
    assert_eq!(store.all(), before);
    assert_eq!(balance(&store, "carol"), Money::zero());
    assert_eq!(
        record_debt(&mut store, "bob", "carol", Money::from_cents(7), NOON + 1),
        Ok(())
    );
}

#[test]
fn reasons_are_tried_in_order() {
    let mut store = LedgerStore::new();
    record_debt(&mut store, "bob", "alice", Money::from_cents(5), NOON).unwrap();
    assert_eq!(
        record_debt(&mut store, "bob", "bob", Money::from_cents(-5), NOON),
        Err(RecordError::SameParty)
    );
    assert_eq!(
        record_debt(&mut store, "bob", "alice", Money::from_cents(-5), NOON),
        Err(RecordError::NegativeAmount)
    );
}

#[test]
fn sum_of_no_records_is_nothing() {
    assert_eq!(sum_amounts(&Vec::new()), Money::zero());
}

#[test]
fn sum_adds_every_amount() {
    let records = vec![record("bob", 1, 5), record("bob", 2, -7), record("bob", 3, 100)];
    assert_eq!(sum_amounts(&records), Money::from_cents(98));
}

#[test]
fn sum_wraps_round() {
    let records = vec![record("bob", 1, i64::MAX), record("bob", 2, 1)];
    assert_eq!(sum_amounts(&records), Money::from_cents(i64::MIN));
}

#[test]
fn aggregate_of_an_empty_scan_is_nothing() {
    assert_eq!(aggregate(Vec::new()), Ok(Money::zero()));
}

#[test]
fn aggregate_sums_a_sound_scan() {
    let scanned = vec![Ok(record("bob", 1, 5)), Ok(record("bob", 2, -7))];
    assert_eq!(aggregate(scanned), Ok(Money::from_cents(-2)));
}

#[test]
fn aggregate_stops_at_a_corrupt_record() {
    let scanned = vec![
        Ok(record("bob", 1, 5)),
        Err(ScanError::Encoding(EncodingError { key: encode_key(b"bob", 2) })),
        Ok(record("bob", 3, 7)),
    ];
    assert_eq!(
        aggregate(scanned),
        Err(ScanError::Encoding(EncodingError { key: encode_key(b"bob", 2) }))
    );
}

#[test]
fn aggregate_returns_the_first_failure() {
    let scanned = vec![
        Err(ScanError::Store(StoreError { reason: "disk".to_string() })),
        Err(ScanError::Encoding(EncodingError { key: Vec::new() })),
    ];
    assert_eq!(
        aggregate(scanned),
        Err(ScanError::Store(StoreError { reason: "disk".to_string() }))
    );
}

#[test]
fn users_are_the_four() {
    assert_eq!(get_users(), vec!["alice", "bob", "ben", "mitchell"]);
}

#[test]
fn all_debts_user_by_user() {
    let mut store = LedgerStore::new();
    assert!(get_all_debts(&store).is_empty());
    record_debt(&mut store, "bob", "alice", Money::from_cents(5), 2).unwrap();
    record_debt(&mut store, "alice", "carol", Money::from_cents(7), 1).unwrap();
    let debts = get_all_debts(&store);
    let seen: Vec<(String, String, u128, i64)> = debts
        .iter()
        .map(|d| (d.creditor.clone(), d.debtor.clone(), d.time, d.amount.to_cents()))
        .collect();
    assert_eq!(
        seen,
        vec![
            ("alice".to_string(), "carol".to_string(), 1, 7),
            ("alice".to_string(), "bob".to_string(), 2, -5),
            ("bob".to_string(), "alice".to_string(), 2, 5),
            ("carol".to_string(), "alice".to_string(), 1, -7),
        ]
    );
}

#[test]
fn debts_involving_a_user_in_order_of_time() {
    let mut store = LedgerStore::new();
    record_debt(&mut store, "bob", "alice", Money::from_cents(5), 30).unwrap();
    record_debt(&mut store, "alice", "carol", Money::from_cents(7), 2).unwrap();
    record_debt(&mut store, "carol", "bob", Money::from_cents(9), 100).unwrap();
    let debts = get_debts_involving(&store, "alice");
    let seen: Vec<(String, u128, i64)> = debts
        .iter()
        .map(|d| (d.debtor.clone(), d.time, d.amount.to_cents()))
        .collect();
    assert_eq!(
        seen,
        vec![("carol".to_string(), 2, 7), ("bob".to_string(), 30, -5)]
    );
    assert!(debts.iter().all(|d| d.creditor == "alice"));
    assert!(get_debts_involving(&store, "dave").is_empty());
    assert_eq!(get_debts_involving(&store, "bob").len(), 2);
}

#[test]
fn names_beyond_ascii_are_valid() {
    let mut store = LedgerStore::new();
    assert_eq!(
        record_debt(&mut store, "zoë", "į", Money::from_cents(5), NOON),
        Ok(())
    );
    assert_eq!(balance(&store, "zoë"), Money::from_cents(5));
    assert_eq!(balance(&store, "į"), Money::from_cents(-5));
}

#[test]
fn same_text_compares_texts() {
    assert!(same_text("owes", "owes"));
    assert!(same_text("", ""));
    assert!(!same_text("owes", "owe"));
    assert!(!same_text("owes", "Owes"));
    assert!(same_text("zoë", "zoë"));
}

#[test]
fn direction_is_matched_exactly() {
    let mut store = LedgerStore::new();
    add_debt(&mut store, "bob", "alice", "Owes", "1".to_string(), 1).unwrap();
    add_debt(&mut store, "bob", "alice", "owes ", "1".to_string(), 2).unwrap();
    add_debt(&mut store, "bob", "alice", "", "1".to_string(), 3).unwrap();
    assert_eq!(balance(&store, "bob"), Money::from_dollars(-3));
    add_debt(&mut store, "bob", "alice", "owes", "1".to_string(), 4).unwrap();
    assert_eq!(balance(&store, "bob"), Money::from_dollars(-2));
}

#[test]
fn recording_leaves_other_records_alone() {
    let mut store = LedgerStore::new();
    record_debt(&mut store, "bob", "alice", Money::from_cents(5), 1).unwrap();
    let before = store.all();
    record_debt(&mut store, "carol", "dave", Money::from_cents(9), 1).unwrap();
    let after = store.all();
    assert_eq!(after.len(), before.len() + 2);
    for record in &before {
        assert!(after.contains(record));
    }
    assert_eq!(balance(&store, "bob"), Money::from_cents(5));
    assert_eq!(balance(&store, "alice"), Money::from_cents(-5));
}

#[test]
fn all_amounts_cancel() {
    let mut store = LedgerStore::new();
    record_debt(&mut store, "bob", "alice", Money::from_cents(1250), 1).unwrap();
    record_debt(&mut store, "alice", "carol", Money::from_cents(i64::MAX), 2).unwrap();
    record_debt(&mut store, "carol", "bob", Money::from_cents(77), 3).unwrap();
    assert_eq!(sum_amounts(&store.all()), Money::zero());
}

#[test]
fn page_of_balances_has_a_line_for_each_user() {
    let mut store = LedgerStore::new();
    record_debt(&mut store, "bob", "alice", Money::from_cents(1250), 1).unwrap();
    record_debt(&mut store, "mitchell", "bob", Money::from_cents(2000), 2).unwrap();
    let lines: Vec<(String, String)> = get_balances(&store)
        .into_iter()
        .map(|line| (line.username, line.balance))
        .collect();
    assert_eq!(
        lines,
        vec![
            ("alice".to_string(), "-$12.50".to_string()),
            ("bob".to_string(), "-$7.50".to_string()),
            ("ben".to_string(), "$0.00".to_string()),
            ("mitchell".to_string(), "+$20.00".to_string()),
        ]
    );
}

#[test]
fn a_ledger_of_recorded_debts_has_no_orphan() {
    let mut store = LedgerStore::new();
    assert_eq!(find_orphan(&store), None);
    record_debt(&mut store, "bob", "alice", Money::from_cents(1250), 1).unwrap();
    record_debt(&mut store, "alice", "carol", Money::from_cents(i64::MAX), 2).unwrap();
    record_debt(&mut store, "carol", "bob", Money::zero(), 3).unwrap();
    assert_eq!(find_orphan(&store), None);
    for record in store.all() {
        assert!(is_half_of_a_pair(&store, &record));
    }
}

#[test]
fn a_record_written_alone_is_an_orphan() {
    let mut store = LedgerStore::new();
    record_debt(&mut store, "bob", "alice", Money::from_cents(1250), 1).unwrap();
    let lone = record("carol", 9, 100);
    store.set(lone.key.clone(), lone.debt.clone());
    assert_eq!(find_orphan(&store), Some(lone));
}

#[test]
fn a_changed_amount_orphans_both_halves() {
    let mut store = LedgerStore::new();
    record_debt(&mut store, "bob", "alice", Money::from_cents(1250), 1).unwrap();
    let mut changed = store.get(&encode_key(b"bob", 1)).unwrap().clone();
    changed.amount = Money::from_cents(1251);
    store.set(encode_key(b"bob", 1), changed);
    let orphan = find_orphan(&store).unwrap();
    assert_eq!(orphan.key, encode_key(b"alice", 1));
    assert!(!is_half_of_a_pair(&store, &store.all()[1]));
}

#[test]
fn a_record_under_a_key_not_its_own_is_an_orphan() {
    let mut store = LedgerStore::new();
    record_debt(&mut store, "bob", "alice", Money::from_cents(5), 1).unwrap();
    let misfiled = Record {
        key: encode_key(b"aaron", 1),
        debt: store.get(&encode_key(b"bob", 1)).unwrap().clone(),
    };
    store.set(misfiled.key.clone(), misfiled.debt.clone());
    assert_eq!(find_orphan(&store), Some(misfiled));
}

#[test]
fn a_pair_that_cannot_be_negated_exactly_is_an_orphan() {
    let mut store = LedgerStore::new();
    let least = Debt {
        creditor: "alice".to_string(),
        debtor: "bob".to_string(),
        time: 1,
        amount: Money::from_cents(i64::MIN),
    };
    store.set(encode_key(b"alice", 1), least.clone());
    store.set(encode_key(b"bob", 1), least.clone_negated());
    assert_eq!(
        find_orphan(&store).map(|r| r.key),
        Some(encode_key(b"alice", 1))
    );
}

#[test]
fn same_debt_compares_every_field() {
    let debt = record("bob", 1, 5).debt;
    assert!(same_debt(&debt, &debt.clone()));
    let mut other = debt.clone();
    other.time = 2;
    assert!(!same_debt(&debt, &other));
    let mut other = debt.clone();
    other.amount = Money::from_cents(6);
    assert!(!same_debt(&debt, &other));
    let mut other = debt.clone();
    other.creditor = "bobby".to_string();
    assert!(!same_debt(&debt, &other));
    let mut other = debt.clone();
    other.debtor = "y".to_string();
    assert!(!same_debt(&debt, &other));
}
