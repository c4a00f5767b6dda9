//! The double-entry ledger: each debt is filed twice, once for each party and
//! from that party's side, under keys that keep the records of one party
//! together. The two records are written in one step, or not at all.

use vstd::prelude::*;

use crate::balance::{lemma_put_adds, lemma_put_adds_to_total, owed, records_of, total};
use crate::debt::{same_debt, Debt, DebtView};
use crate::key::{
    encode_key, is_valid_user, lemma_key_belongs_to_its_user, lemma_keys_differ,
    lemma_keys_in_order_of_time, lemma_range_is_prefix, record_key, user_end, user_prefix,
};
use crate::money::{amount_of, Money, ParseError};
use crate::name::{
    lemma_name_bytes_tell_names_apart, lemma_valid_name_has_valid_bytes, name_bytes, same_text,
    valid_name,
};
use crate::order::{
    compare, lemma_less_asymmetric, lemma_less_irreflexive, less, within, Place,
};
use crate::store::{
    holds, lemma_contains_is_lookup, lemma_put_holds_more, lemma_put_keeps_order,
    lemma_put_then_lookup, lemma_scan_holds_the_range, lemma_scan_keeps_order, lookup, put, sorted,
    views, LedgerStore, Record, RecordView,
};

verus! {

/// Why a debt was not recorded. Nothing is written when one of these comes back.
#[derive(Debug, Clone, Copy, PartialEq, Eq, Structural)]
pub enum RecordError {
    /// The name of a party holds a `/`, which would break up its keys.
    InvalidUser,
    /// Creditor and debtor are the same party.
    SameParty,
    /// The amount is negative: a debt states how much is owed, not by whom.
    NegativeAmount,
    /// One of the two parties has a record of this very time already.
    KeyTaken,
}

/// Why a submitted debt was not added.
#[derive(Debug, PartialEq, Eq)]
pub enum AddDebtError {
    /// The amount could not be read.
    Amount(ParseError),
    /// The amount was read, and the debt was turned down.
    Rejected(RecordError),
}

/// The key of the record that is filed for the user `name` at `time`.
pub open spec fn key_of(name: Seq<char>, time: nat) -> Seq<u8> {
    record_key(name_bytes(name), time)
}

/// The debt as its creditor files it.
pub open spec fn canonical(
    creditor: Seq<char>,
    debtor: Seq<char>,
    amount: int,
    time: nat,
) -> DebtView {
    DebtView { creditor, debtor, time, amount }
}

/// Why the debt cannot be recorded in `s`, if it cannot. The reasons are tried in
/// the order in which they stand here.
pub open spec fn rejection(
    s: Seq<RecordView>,
    creditor: Seq<char>,
    debtor: Seq<char>,
    amount: int,
    time: nat,
) -> Option<RecordError> {
    if !valid_name(creditor) || !valid_name(debtor) {
        Some(RecordError::InvalidUser)
    } else if creditor == debtor {
        Some(RecordError::SameParty)
    } else if amount < 0 {
        Some(RecordError::NegativeAmount)
    } else if holds(s, key_of(creditor, time)) || holds(s, key_of(debtor, time)) {
        Some(RecordError::KeyTaken)
    } else {
        None
    }
}

/// The store `s` with the debt recorded: the debt itself under the key of the
/// creditor, and the negated debt under the key of the debtor.
pub open spec fn with_debt(
    s: Seq<RecordView>,
    creditor: Seq<char>,
    debtor: Seq<char>,
    amount: int,
    time: nat,
) -> Seq<RecordView> {
    let debt = canonical(creditor, debtor, amount, time);
    put(
        put(s, RecordView { key: key_of(creditor, time), debt }),
        RecordView { key: key_of(debtor, time), debt: debt.negated() },
    )
}

/// Who is the creditor and who the debtor, in this order, when `current` submits
/// a debt with `other` in the direction `direction`: with `owes`, the other
/// party owes the current one; with anything else it is the other way round.
pub open spec fn parties(current: Seq<char>, other: Seq<char>, direction: Seq<char>) -> (
    Seq<char>,
    Seq<char>,
) {
    if direction == seq!['o', 'w', 'e', 's'] {
        (current, other)
    } else {
        (other, current)
    }
}

/// A key lies in the range of a user exactly when it is the key of a record of
/// that user.
pub proof fn lemma_range_holds_own_keys(user: Seq<char>, other: Seq<char>, time: nat)
    requires
        valid_name(user),
        valid_name(other),
    ensures
        within(key_of(other, time), user_prefix(name_bytes(user)), user_end(name_bytes(user)))
            <==> other == user,
{
    lemma_valid_name_has_valid_bytes(user);
    lemma_valid_name_has_valid_bytes(other);
    lemma_range_is_prefix(key_of(other, time), name_bytes(user));
    lemma_key_belongs_to_its_user(name_bytes(user), name_bytes(other), time);
    lemma_name_bytes_tell_names_apart(user, other);
}

/// Recording a debt raises what the creditor is owed by the amount, lowers what
/// the debtor is owed by the amount, and leaves every other user as before.
pub proof fn lemma_debt_moves_the_amount(
    s: Seq<RecordView>,
    creditor: Seq<char>,
    debtor: Seq<char>,
    amount: Money,
    time: u128,
    user: Seq<char>,
)
    requires
        rejection(s, creditor, debtor, amount@, time as nat) is None,
        valid_name(user),
    ensures
        owed(with_debt(s, creditor, debtor, amount@, time as nat), user) == owed(s, user) + if user
            == creditor {
            amount@
        } else if user == debtor {
            -amount@
        } else {
            0
        },
{
    let credit = RecordView {
        key: key_of(creditor, time as nat),
        debt: canonical(creditor, debtor, amount@, time as nat),
    };
    let debit = RecordView {
        key: key_of(debtor, time as nat),
        debt: canonical(creditor, debtor, amount@, time as nat).negated(),
    };
    let start = user_prefix(name_bytes(user));
    let end = user_end(name_bytes(user));
    lemma_valid_name_has_valid_bytes(creditor);
    lemma_valid_name_has_valid_bytes(debtor);
    if credit.key == debit.key {
        lemma_keys_differ(name_bytes(creditor), time, name_bytes(debtor), time);
        lemma_name_bytes_tell_names_apart(creditor, debtor);
    }
    lemma_put_holds_more(s, credit);
    assert(!holds(put(s, credit), debit.key));
    lemma_put_adds(s, credit, start, end);
    lemma_put_adds(put(s, credit), debit, start, end);
    lemma_range_holds_own_keys(user, creditor, time as nat);
    lemma_range_holds_own_keys(user, debtor, time as nat);
    assert(debit.debt.amount == -amount@);
}

/// The record `record` is one half of a debt recorded in `s`: it is filed under
/// the key of its own creditor, and `s` holds the other half, the negated debt
/// under the key of the debtor. The two parties differ, and the amount can be
/// negated exactly.
pub open spec fn is_half(s: Seq<RecordView>, record: RecordView) -> bool {
    let debt = record.debt;
    &&& valid_name(debt.creditor)
    &&& valid_name(debt.debtor)
    &&& debt.creditor != debt.debtor
    &&& debt.time <= u128::MAX
    &&& -i64::MAX <= debt.amount <= i64::MAX
    &&& record.key == key_of(debt.creditor, debt.time)
    &&& s.contains(RecordView { key: key_of(debt.debtor, debt.time), debt: debt.negated() })
}

/// Every record of `s` is one half of a debt recorded in `s`.
pub open spec fn filed_in_pairs(s: Seq<RecordView>) -> bool {
    forall|record: RecordView| #[trigger] s.contains(record) ==> is_half(s, record)
}

/// A recorded debt adds two records and touches no other: the store then holds
/// the debt under the key of the creditor, the negated debt under the key of the
/// debtor, and under every other key what it held before.
pub proof fn lemma_debt_adds_two_records(
    s: Seq<RecordView>,
    creditor: Seq<char>,
    debtor: Seq<char>,
    amount: Money,
    time: u128,
    key: Seq<u8>,
)
    requires
        sorted(s),
        rejection(s, creditor, debtor, amount@, time as nat) is None,
    ensures
        sorted(with_debt(s, creditor, debtor, amount@, time as nat)),
        with_debt(s, creditor, debtor, amount@, time as nat).len() == s.len() + 2,
        key_of(creditor, time as nat) != key_of(debtor, time as nat),
        lookup(with_debt(s, creditor, debtor, amount@, time as nat), key) == if key == key_of(
            creditor,
            time as nat,
        ) {
            Some(canonical(creditor, debtor, amount@, time as nat))
        } else if key == key_of(debtor, time as nat) {
            Some(canonical(creditor, debtor, amount@, time as nat).negated())
        } else {
            lookup(s, key)
        },
{
    let debt = canonical(creditor, debtor, amount@, time as nat);
    let credit = RecordView { key: key_of(creditor, time as nat), debt };
    let debit = RecordView { key: key_of(debtor, time as nat), debt: debt.negated() };
    lemma_valid_name_has_valid_bytes(creditor);
    lemma_valid_name_has_valid_bytes(debtor);
    if credit.key == debit.key {
        lemma_keys_differ(name_bytes(creditor), time, name_bytes(debtor), time);
        lemma_name_bytes_tell_names_apart(creditor, debtor);
    }
    lemma_put_holds_more(s, credit);
    assert(!holds(put(s, credit), debit.key));
    lemma_put_holds_more(put(s, credit), debit);
    lemma_put_keeps_order(s, credit);
    lemma_put_keeps_order(put(s, credit), debit);
    lemma_put_then_lookup(s, credit, key);
    lemma_put_then_lookup(put(s, credit), debit, key);
}

/// Recording a debt in a store that is filed in pairs leaves it filed in pairs;
/// the empty store is filed in pairs. So is, then, every store that was filled
/// by recording debts.
pub proof fn lemma_debt_keeps_pairs(
    s: Seq<RecordView>,
    creditor: Seq<char>,
    debtor: Seq<char>,
    amount: Money,
    time: u128,
)
    requires
        filed_in_pairs(s),
        rejection(s, creditor, debtor, amount@, time as nat) is None,
    ensures
        filed_in_pairs(with_debt(s, creditor, debtor, amount@, time as nat)),
        filed_in_pairs(Seq::<RecordView>::empty()),
{
    let debt = canonical(creditor, debtor, amount@, time as nat);
    let credit = RecordView { key: key_of(creditor, time as nat), debt };
    let debit = RecordView { key: key_of(debtor, time as nat), debt: debt.negated() };
    lemma_valid_name_has_valid_bytes(creditor);
    lemma_valid_name_has_valid_bytes(debtor);
    if credit.key == debit.key {
        lemma_keys_differ(name_bytes(creditor), time, name_bytes(debtor), time);
        lemma_name_bytes_tell_names_apart(creditor, debtor);
    }
    let s1 = put(s, credit);
    let t = put(s1, debit);
    lemma_put_holds_more(s, credit);
    assert(!holds(s1, debit.key));
    lemma_put_holds_more(s1, debit);
    assert(debit.debt.negated() == credit.debt);
    assert forall|record: RecordView| #[trigger] t.contains(record) implies is_half(t, record) by {
        if record == debit {
            assert(t.contains(credit));
        } else if record == credit {
            assert(t.contains(debit));
        } else {
            assert(s1.contains(record));
            assert(s.contains(record));
            assert(is_half(s, record));
            let other = RecordView {
                key: key_of(record.debt.debtor, record.debt.time),
                debt: record.debt.negated(),
            };
            assert(s.contains(other));
            assert(s1.contains(other));
            assert(t.contains(other));
        }
    }
}

/// In a store that is sorted and filed in pairs, the scan of the range of a user
/// returns the records of which that user is the creditor, all of them and no
/// others, in the order of their times.
pub proof fn lemma_range_is_the_users_own(s: Seq<RecordView>, user: Seq<char>)
    requires
        sorted(s),
        filed_in_pairs(s),
        valid_name(user),
    ensures
        forall|record: RecordView| #[trigger]
            records_of(s, user).contains(record) <==> s.contains(record) && record.debt.creditor
                == user,
        forall|i: int, j: int|
            0 <= i < j < records_of(s, user).len() ==> (#[trigger] records_of(s, user)[i]).debt.time
                < (#[trigger] records_of(s, user)[j]).debt.time,
{
    let start = user_prefix(name_bytes(user));
    let end = user_end(name_bytes(user));
    let found = records_of(s, user);
    lemma_scan_holds_the_range(s, start, end);
    lemma_scan_keeps_order(s, start, end);
    assert forall|record: RecordView| #[trigger]
        found.contains(record) <==> s.contains(record) && record.debt.creditor == user by {
        if s.contains(record) {
            assert(is_half(s, record));
            lemma_range_holds_own_keys(user, record.debt.creditor, record.debt.time);
        }
    }
    assert forall|i: int, j: int| 0 <= i < j < found.len() implies (#[trigger] found[i]).debt.time
        < (#[trigger] found[j]).debt.time by {
        let a = found[i];
        let b = found[j];
        assert(found.contains(a));
        assert(found.contains(b));
        assert(is_half(s, a));
        assert(is_half(s, b));
        assert(less(a.key, b.key));
        lemma_less_irreflexive(a.key);
        if b.debt.time < a.debt.time {
            lemma_keys_in_order_of_time(
                name_bytes(user),
                b.debt.time as u128,
                a.debt.time as u128,
            );
            lemma_less_asymmetric(a.key, b.key);
        }
    }
}

/// Recording a debt leaves the sum of all amounts in the store as it was: what
/// one party gains the other loses.
pub proof fn lemma_debt_keeps_total(
    s: Seq<RecordView>,
    creditor: Seq<char>,
    debtor: Seq<char>,
    amount: Money,
    time: u128,
)
    requires
        rejection(s, creditor, debtor, amount@, time as nat) is None,
    ensures
        total(with_debt(s, creditor, debtor, amount@, time as nat)) == total(s),
{
    let debt = canonical(creditor, debtor, amount@, time as nat);
    let credit = RecordView { key: key_of(creditor, time as nat), debt };
    let debit = RecordView { key: key_of(debtor, time as nat), debt: debt.negated() };
    lemma_valid_name_has_valid_bytes(creditor);
    lemma_valid_name_has_valid_bytes(debtor);
    if credit.key == debit.key {
        lemma_keys_differ(name_bytes(creditor), time, name_bytes(debtor), time);
        lemma_name_bytes_tell_names_apart(creditor, debtor);
    }
    lemma_put_holds_more(s, credit);
    assert(!holds(put(s, credit), debit.key));
    lemma_put_adds_to_total(s, credit);
    lemma_put_adds_to_total(put(s, credit), debit);
}

/// Whether `record` is one half of a debt recorded in `store`.
pub fn is_half_of_a_pair(store: &LedgerStore, record: &Record) -> (paired: bool)
    ensures
        paired == is_half(store@, record@),
{
    let debt = &record.debt;
    proof {
        lemma_valid_name_has_valid_bytes(debt.creditor@);
        lemma_valid_name_has_valid_bytes(debt.debtor@);
    }
    if !is_valid_user(debt.creditor.as_str().as_bytes()) || !is_valid_user(
        debt.debtor.as_str().as_bytes(),
    ) {
        return false;
    }
    if same_text(debt.creditor.as_str(), debt.debtor.as_str()) {
        return false;
    }
    if debt.amount.to_cents() == i64::MIN {
        return false;
    }
    let own_key = encode_key(debt.creditor.as_str().as_bytes(), debt.time);
    if compare(own_key.as_slice(), record.key.as_slice()) != Place::Same {
        return false;
    }
    let other_key = encode_key(debt.debtor.as_str().as_bytes(), debt.time);
    let mirror = debt.clone_negated();
    let found = store.get(other_key.as_slice());
    proof {
        lemma_contains_is_lookup(store@, RecordView { key: other_key@, debt: mirror@ });
    }
    match found {
        Some(other) => same_debt(other, &mirror),
        None => false,
    }
}

/// Looks for a record that is no half of a recorded debt: one that was written
/// alone, or changed, or filed under a key that is not its own. Returns the
/// first such record in the order of the keys, or nothing where the store is
/// filed in pairs.
pub fn find_orphan(store: &LedgerStore) -> (orphan: Option<Record>)
    ensures
        orphan is None <==> filed_in_pairs(store@),
        orphan matches Some(record) ==> exists|i: int|
            0 <= i < store@.len() && #[trigger] store@[i] == record@ && !is_half(store@, record@)
                && forall|j: int| 0 <= j < i ==> is_half(store@, #[trigger] store@[j]),
{
    let records = store.all();
    let mut i: usize = 0;
    while i < records.len()
        invariant
            i <= records@.len(),
            views(records@) == store@,
            forall|j: int| 0 <= j < i ==> is_half(store@, #[trigger] store@[j]),
        decreases records@.len() - i,
    {
        assert(store@[i as int] == records@[i as int]@);
        if !is_half_of_a_pair(store, &records[i]) {
            let record = records[i].clone();
            assert(store@.contains(record@));
            return Some(record);
        }
        i = i + 1;
    }
    proof {
        assert forall|record: RecordView| #[trigger] store@.contains(record) implies is_half(
            store@,
            record,
        ) by {
            let j = choose|j: int| 0 <= j < store@.len() && store@[j] == record;
            assert(is_half(store@, store@[j]));
        }
    }
    None
}

/// Records that `debtor` owes `creditor` the amount `amount` since `time`: files
/// the debt for the creditor and the negated debt for the debtor. Both records
/// are written, or, where the debt is turned down, neither.
pub fn record_debt(
    store: &mut LedgerStore,
    creditor: &str,
    debtor: &str,
    amount: Money,
    time: u128,
) -> (outcome: Result<(), RecordError>)
    ensures
        match rejection(old(store)@, creditor@, debtor@, amount@, time as nat) {
            Some(error) => outcome == Err::<(), RecordError>(error) && final(store)@ == old(store)@,
            None => outcome is Ok && final(store)@ == with_debt(
                old(store)@,
                creditor@,
                debtor@,
                amount@,
                time as nat,
            ),
        },
{
    proof {
        lemma_valid_name_has_valid_bytes(creditor@);
        lemma_valid_name_has_valid_bytes(debtor@);
    }
    if !is_valid_user(creditor.as_bytes()) || !is_valid_user(debtor.as_bytes()) {
        return Err(RecordError::InvalidUser);
    }
    if same_text(creditor, debtor) {
        return Err(RecordError::SameParty);
    }
    if amount.to_cents() < 0 {
        return Err(RecordError::NegativeAmount);
    }
    let credit_key = encode_key(creditor.as_bytes(), time);
    let debit_key = encode_key(debtor.as_bytes(), time);
    if store.get(credit_key.as_slice()).is_some() || store.get(debit_key.as_slice()).is_some() {
        return Err(RecordError::KeyTaken);
    }
    let debt = Debt { creditor: creditor.to_owned(), debtor: debtor.to_owned(), time, amount };
    let mirror = debt.clone_negated();
    store.set(credit_key, debt);
    store.set(debit_key, mirror);
    Ok(())
}

/// Adds the debt that `current_user` submits: with the direction `owes`,
/// `other_user` owes `current_user` the amount that `amount` writes; with any
/// other direction `current_user` owes it to `other_user`.
pub fn add_debt(
    store: &mut LedgerStore,
    current_user: &str,
    other_user: &str,
    owe_direction: &str,
    amount: String,
    time: u128,
) -> (outcome: Result<(), AddDebtError>)
    ensures
        match amount_of(amount@) {
            None => {
                &&& outcome matches Err(AddDebtError::Amount(ParseError::MalformedAmount(text)))
                &&& text@ == amount@
                &&& final(store)@ == old(store)@
            },
            Some(owed) => {
                let (creditor, debtor) = parties(current_user@, other_user@, owe_direction@);
                match rejection(old(store)@, creditor, debtor, owed@, time as nat) {
                    Some(error) => {
                        &&& outcome matches Err(AddDebtError::Rejected(e))
                        &&& e == error
                        &&& final(store)@ == old(store)@
                    },
                    None => {
                        &&& outcome is Ok
                        &&& final(store)@ == with_debt(
                            old(store)@,
                            creditor,
                            debtor,
                            owed@,
                            time as nat,
                        )
                    },
                }
            },
        },
{
    let owed = match Money::from_money_string(amount) {
        Ok(owed) => owed,
        Err(error) => {
            return Err(AddDebtError::Amount(error));
        },
    };
    proof {
        reveal_strlit("owes");
        assert("owes"@ =~= seq!['o', 'w', 'e', 's']);
    }
    let recorded = if same_text(owe_direction, "owes") {
        record_debt(store, current_user, other_user, owed, time)
    } else {
        record_debt(store, other_user, current_user, owed, time)
    };
    match recorded {
        Ok(()) => Ok(()),
        Err(error) => Err(AddDebtError::Rejected(error)),
    }
}

} // verus!
