use debt_ledger::debt::Debt;
use debt_ledger::money::Money;
use debt_ledger::store::{LedgerStore, Record};

fn debt(cents: i64) -> Debt {
    Debt {
        creditor: "c".to_string(),
        debtor: "d".to_string(),
        time: 1,
        amount: Money::from_cents(cents),
    }
}

fn keys(records: &[Record]) -> Vec<Vec<u8>> {
    records.iter().map(|r| r.key.clone()).collect()
}

#[test]
fn new_store_is_empty() {
    let store = LedgerStore::new();
    assert_eq!(store.len(), 0);
    assert!(store.all().is_empty());
    assert_eq!(store.get(b"k"), None);
    assert!(store.range(b"", b"\xff").is_empty());
}

#[test]
fn get_returns_what_was_set() {
    let mut store = LedgerStore::new();
    store.set(b"b".to_vec(), debt(2));
    store.set(b"a".to_vec(), debt(1));
    store.set(b"c".to_vec(), debt(3));
    assert_eq!(store.len(), 3);
    assert_eq!(store.get(b"a"), Some(&debt(1)));
    assert_eq!(store.get(b"b"), Some(&debt(2)));
    assert_eq!(store.get(b"c"), Some(&debt(3)));
    assert_eq!(store.get(b"d"), None);
    assert_eq!(store.get(b""), None);
    assert_eq!(store.get(b"ab"), None);
}

#[test]
fn set_replaces_under_the_same_key() {
    let mut store = LedgerStore::new();
    store.set(b"a".to_vec(), debt(1));
    store.set(b"b".to_vec(), debt(2));
    store.set(b"a".to_vec(), debt(10));
    assert_eq!(store.len(), 2);
    assert_eq!(store.get(b"a"), Some(&debt(10)));
    assert_eq!(store.get(b"b"), Some(&debt(2)));
}

#[test]
fn all_is_in_key_order() {
    let mut store = LedgerStore::new();
    for key in [&b"m"[..], b"a", b"z", b"ab", b"", b"mm"] {
        store.set(key.to_vec(), debt(key.len() as i64));
    }
    assert_eq!(
        keys(&store.all()),
        vec![
            b"".to_vec(),
            b"a".to_vec(),
            b"ab".to_vec(),
            b"m".to_vec(),
            b"mm".to_vec(),
            b"z".to_vec()
        ]
    );
}

#[test]
fn range_starts_with_start_and_ends_before_end() {
    let mut store = LedgerStore::new();
    for key in [&b"a"[..], b"b", b"c", b"d", b"e"] {
        store.set(key.to_vec(), debt(key[0] as i64));
    }
    assert_eq!(
        keys(&store.range(b"b", b"d")),
        vec![b"b".to_vec(), b"c".to_vec()]
    );
    assert_eq!(
        store.range(b"b", b"d"),
        vec![
            Record { key: b"b".to_vec(), debt: debt(98) },
            Record { key: b"c".to_vec(), debt: debt(99) }
        ]
    );
    assert_eq!(keys(&store.range(b"", b"b")), vec![b"a".to_vec()]);
    assert_eq!(
        keys(&store.range(b"bb", b"zz")),
        vec![b"c".to_vec(), b"d".to_vec(), b"e".to_vec()]
    );
    assert_eq!(keys(&store.range(b"", b"\xff")).len(), 5);
}

#[test]
fn range_is_empty_where_the_bounds_cross_or_meet() {
    let mut store = LedgerStore::new();
    for key in [&b"a"[..], b"b", b"c"] {
        store.set(key.to_vec(), debt(1));
    }
    assert!(store.range(b"b", b"b").is_empty());
    assert!(store.range(b"c", b"a").is_empty());
    assert!(store.range(b"d", b"z").is_empty());
    assert!(store.range(b"", b"").is_empty());
}

#[test]
fn scan_can_be_repeated() {
    let mut store = LedgerStore::new();
    for key in [&b"a"[..], b"b", b"c"] {
        store.set(key.to_vec(), debt(1));
    }
    assert_eq!(store.range(b"a", b"c"), store.range(b"a", b"c"));
    assert_eq!(store.all(), store.all());
}

#[test]
fn many_keys_stay_in_order() {
    let mut store = LedgerStore::new();
    let mut n: u32 = 12345;
    for _ in 0..200 {
        n = n.wrapping_mul(1103515245).wrapping_add(12345);
        let key = vec![(n >> 16) as u8, (n >> 8) as u8];
        store.set(key, debt(n as i64));
    }
    let all = keys(&store.all());
    for pair in all.windows(2) {
        assert!(pair[0] < pair[1]);
    }
    assert_eq!(all.len(), store.len());
    for key in &all {
        assert!(store.get(key).is_some());
    }
}
