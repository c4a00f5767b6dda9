//! Balances: what a user is owed on balance is the sum of the amounts of the
//! records in the range of keys of that user. Every record there is signed from
//! the side of that user, so the sum takes no look at who is creditor and who is
//! debtor.

use vstd::prelude::*;

use crate::key::{end_of, prefix_of, user_end, user_prefix};
use crate::money::{lemma_wrap_absorbs, wrap, Money};
use crate::name::name_bytes;
use crate::order::within;
use crate::store::{
    below, holds, lemma_put_holds_more, lemma_scan_concat, put, scan, views, LedgerStore, Record,
    RecordView,
};

verus! {

/// A failure of the store while it read one item of a scan.
#[derive(Debug, PartialEq, Eq)]
pub struct StoreError {
    /// What the store said of the failure.
    pub reason: String,
}

/// A stored value that is not a well-formed record.
#[derive(Debug, PartialEq, Eq)]
pub struct EncodingError {
    /// The key under which the value was found.
    pub key: Vec<u8>,
}

/// Why a scan could not hand over one of its items.
#[derive(Debug, PartialEq, Eq)]
pub enum ScanError {
    /// The store failed.
    Store(StoreError),
    /// The item was read and is corrupt.
    Encoding(EncodingError),
}

/// The sum of the amounts of `s`.
pub open spec fn total(s: Seq<RecordView>) -> int
    decreases s.len(),
{
    if s.len() == 0 {
        0
    } else {
        total(s.drop_last()) + s.last().debt.amount
    }
}

/// The records that `s` holds in the range of keys of the user `name`, in
/// the order of their keys, which is the order of their times.
pub open spec fn records_of(s: Seq<RecordView>, name: Seq<char>) -> Seq<RecordView> {
    scan(s, user_prefix(name_bytes(name)), user_end(name_bytes(name)))
}

/// What the user `name` is owed on balance according to `s`, as an exact
/// integer of cents: the sum over the records in the user's range.
pub open spec fn owed(s: Seq<RecordView>, name: Seq<char>) -> int {
    total(records_of(s, name))
}

/// The balance of the user `name`: what the user is owed, in 64 bits.
pub open spec fn balance_of(s: Seq<RecordView>, name: Seq<char>) -> Money {
    Money::of(wrap(owed(s, name)))
}

/// The records that a scan handed over, in its order, where every item is one.
pub open spec fn records_read(scanned: Seq<Result<Record, ScanError>>) -> Seq<RecordView> {
    scanned.map_values(|item: Result<Record, ScanError>| item->Ok_0@)
}

/// The total of two stretches laid end to end is the sum of their totals.
pub proof fn lemma_total_concat(x: Seq<RecordView>, y: Seq<RecordView>)
    ensures
        total(x + y) == total(x) + total(y),
    decreases y.len(),
{
    if y.len() == 0 {
        assert(x + y =~= x);
    } else {
        lemma_total_concat(x, y.drop_last());
        assert((x + y).drop_last() =~= x + y.drop_last());
        assert((x + y).last() == y.last());
    }
}

/// Setting a record under a key that the store does not hold raises the total
/// of every scan by the amount of the record where the key of the record is in
/// the range of the scan, and not at all where it is not.
pub proof fn lemma_put_adds(s: Seq<RecordView>, record: RecordView, start: Seq<u8>, end: Seq<u8>)
    requires
        !holds(s, record.key),
    ensures
        total(scan(put(s, record), start, end)) == total(scan(s, start, end)) + if within(
            record.key,
            start,
            end,
        ) {
            record.debt.amount
        } else {
            0
        },
{
    let i = below(s, record.key) as int;
    lemma_put_holds_more(s, record);
    let front = s.subrange(0, i);
    let back = s.subrange(i, s.len() as int);
    let one = seq![record];
    assert(s =~= front + back);
    assert(s.insert(i, record) =~= front + one + back);
    lemma_scan_concat(front, back, start, end);
    lemma_scan_concat(front + one, back, start, end);
    lemma_scan_concat(front, one, start, end);
    lemma_total_concat(scan(front, start, end), scan(back, start, end));
    lemma_total_concat(scan(front, start, end) + scan(one, start, end), scan(back, start, end));
    lemma_total_concat(scan(front, start, end), scan(one, start, end));
    assert(one.drop_last() =~= Seq::<RecordView>::empty());
    assert(one.last() == record);
    reveal_with_fuel(scan, 2);
    reveal_with_fuel(total, 2);
    if within(record.key, start, end) {
        assert(scan(one, start, end) =~= one);
        assert(total(one) == record.debt.amount);
    } else {
        assert(scan(one, start, end) =~= Seq::<RecordView>::empty());
    }
}

/// Setting a record under a key that the store does not hold raises the total of
/// the store by the amount of the record.
pub proof fn lemma_put_adds_to_total(s: Seq<RecordView>, record: RecordView)
    requires
        !holds(s, record.key),
    ensures
        total(put(s, record)) == total(s) + record.debt.amount,
{
    let i = below(s, record.key) as int;
    lemma_put_holds_more(s, record);
    let front = s.subrange(0, i);
    let back = s.subrange(i, s.len() as int);
    let one = seq![record];
    assert(s =~= front + back);
    assert(s.insert(i, record) =~= front + one + back);
    lemma_total_concat(front, back);
    lemma_total_concat(front + one, back);
    lemma_total_concat(front, one);
    assert(one.drop_last() =~= Seq::<RecordView>::empty());
    reveal_with_fuel(total, 2);
}

/// A user without records is owed nothing, and so is every user by an empty
/// store.
pub proof fn lemma_no_records_no_balance(s: Seq<RecordView>, user: Seq<char>)
    ensures
        records_of(s, user).len() == 0 ==> balance_of(s, user) == Money::zero(),
        s.len() == 0 ==> balance_of(s, user) == Money::zero(),
{
}

/// Reading a balance twice, with nothing written in between, gives the same
/// balance both times: whatever two reads of one store return for one user is
/// equal.
pub proof fn lemma_balance_reads_agree(store: &LedgerStore, user: &str, first: Money, second: Money)
    requires
        call_ensures(balance, (store, user), first),
        call_ensures(balance, (store, user), second),
    ensures
        first == second,
{
}

/// The sum of the amounts of `records`, each added in 64 bits.
pub fn sum_amounts(records: &Vec<Record>) -> (sum: Money)
    ensures
        sum == Money::of(wrap(total(views(records@)))),
{
    let mut sum = Money::zero();
    let mut i: usize = 0;
    while i < records.len()
        invariant
            i <= records@.len(),
            sum@ == wrap(total(views(records@).subrange(0, i as int))),
        decreases records@.len() - i,
    {
        proof {
            let done = views(records@).subrange(0, i as int);
            let next = views(records@).subrange(0, i + 1);
            assert(next.drop_last() =~= done);
            assert(next.last() == records@[i as int]@);
            lemma_wrap_absorbs(total(done), records@[i as int].debt.amount@);
        }
        sum = sum + records[i].debt.amount;
        i = i + 1;
    }
    proof {
        assert(views(records@).subrange(0, i as int) =~= views(records@));
        lemma_wrap_absorbs(total(views(records@)), 0);
    }
    sum
}

/// Sums the amounts of a scan whose items the store may have failed to read.
/// The first item that is a failure ends the sum and is returned: no balance is
/// made up from the records around a failure. A scan without items sums to
/// nothing.
pub fn aggregate(scanned: Vec<Result<Record, ScanError>>) -> (outcome: Result<Money, ScanError>)
    ensures
        (forall|i: int| 0 <= i < scanned@.len() ==> scanned@[i] is Ok) ==> outcome == Ok::<
            Money,
            ScanError,
        >(Money::of(wrap(total(records_read(scanned@))))),
        forall|i: int|
            0 <= i < scanned@.len() && scanned@[i] is Err && (forall|j: int|
                0 <= j < i ==> scanned@[j] is Ok) ==> outcome == Err::<Money, ScanError>(
                scanned@[i]->Err_0,
            ),
{
    let ghost all = scanned@;
    let mut sum = Money::zero();
    for item in it: scanned
        invariant
            it.seq() == all,
            forall|j: int| 0 <= j < it.index() ==> all[j] is Ok,
            sum@ == wrap(total(records_read(all.take(it.index() as int)))),
    {
        let ghost done = records_read(all.take(it.index() as int));
        let ghost next = records_read(all.take(it.index() + 1));
        match item {
            Ok(record) => {
                proof {
                    assert(next.drop_last() =~= done);
                    assert(next.last() == record@);
                    lemma_wrap_absorbs(total(done), record.debt.amount@);
                }
                sum = sum + record.debt.amount;
            },
            Err(error) => {
                return Err(error);
            },
        }
    }
    proof {
        assert(all.take(all.len() as int) =~= all);
        lemma_wrap_absorbs(total(records_read(all)), 0);
    }
    Ok(sum)
}

/// The balance of `user`: the sum of the amounts of the records in the range
/// of `user`. A user without records has a balance of nothing.
pub fn balance(store: &LedgerStore, user: &str) -> (balance: Money)
    ensures
        balance == balance_of(store@, user@),
{
    let prefix = prefix_of(user.as_bytes());
    let end = end_of(user.as_bytes());
    let records = store.range(prefix.as_slice(), end.as_slice());
    sum_amounts(&records)
}

} // verus!
