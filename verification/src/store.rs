//! The ledger store: records held in the order of their keys, so that the
//! records of one range of keys lie together and a scan returns them in order.

use vstd::prelude::*;

use crate::debt::{Debt, DebtView};
use crate::order::{
    compare, less, lemma_less_irreflexive, lemma_less_total, lemma_less_transitive, within, Place,
};

verus! {

/// A debt together with the key under which it is filed.
#[derive(Debug, PartialEq, Eq)]
pub struct Record {
    /// The storage key.
    pub key: Vec<u8>,
    /// The debt filed under it.
    pub debt: Debt,
}

/// What a record says, apart from how it is held in memory.
pub struct RecordView {
    pub key: Seq<u8>,
    pub debt: DebtView,
}

impl View for Record {
    type V = RecordView;

    open spec fn view(&self) -> RecordView {
        RecordView { key: self.key@, debt: self.debt@ }
    }
}

impl Clone for Record {
    fn clone(&self) -> (copy: Record)
        ensures
            copy@ == self@,
    {
        Record { key: self.key.clone(), debt: self.debt.clone() }
    }
}

/// What each of `records` says, in the same order.
pub open spec fn views(records: Seq<Record>) -> Seq<RecordView> {
    records.map_values(|r: Record| r@)
}

/// The keys of `s` ascend strictly: no key occurs twice, and each record comes
/// before all records with a later key.
pub open spec fn sorted(s: Seq<RecordView>) -> bool {
    forall|i: int, j: int| 0 <= i < j < s.len() ==> less(#[trigger] s[i].key, #[trigger] s[j].key)
}

/// The number of records of `s` whose key comes before `key`.
pub open spec fn below(s: Seq<RecordView>, key: Seq<u8>) -> nat
    decreases s.len(),
{
    if s.len() == 0 {
        0
    } else {
        below(s.drop_last(), key) + if less(s.last().key, key) {
            1nat
        } else {
            0nat
        }
    }
}

/// The records of `s` with a key from `start` up to, but not including, `end`,
/// in the order in which `s` holds them.
pub open spec fn scan(s: Seq<RecordView>, start: Seq<u8>, end: Seq<u8>) -> Seq<RecordView>
    decreases s.len(),
{
    if s.len() == 0 {
        Seq::<RecordView>::empty()
    } else if within(s.last().key, start, end) {
        scan(s.drop_last(), start, end).push(s.last())
    } else {
        scan(s.drop_last(), start, end)
    }
}

/// The store `s` after `record` is set: `record` stands where its key belongs,
/// in place of the record that had the key before, if there was one.
pub open spec fn put(s: Seq<RecordView>, record: RecordView) -> Seq<RecordView> {
    let i = below(s, record.key) as int;
    if i < s.len() && s[i].key == record.key {
        s.update(i, record)
    } else {
        s.insert(i, record)
    }
}

/// Whether `s` holds a record under `key`.
pub open spec fn holds(s: Seq<RecordView>, key: Seq<u8>) -> bool {
    exists|i: int| 0 <= i < s.len() && #[trigger] s[i].key == key
}

/// The debt that `s` holds under `key`, if it holds one.
pub open spec fn lookup(s: Seq<RecordView>, key: Seq<u8>) -> Option<DebtView> {
    if holds(s, key) {
        Some(s[choose|i: int| 0 <= i < s.len() && #[trigger] s[i].key == key].debt)
    } else {
        None
    }
}

/// An ordered store of ledger records, held in memory.
pub struct LedgerStore {
    records: Vec<Record>,
}

impl View for LedgerStore {
    type V = Seq<RecordView>;

    closed spec fn view(&self) -> Seq<RecordView> {
        views(self.records@)
    }
}

/// Where the keys before `key` end in a sorted `s`, they are `below(s, key)` many.
pub proof fn lemma_below_is_boundary(s: Seq<RecordView>, key: Seq<u8>, i: int)
    requires
        0 <= i <= s.len(),
        forall|j: int| 0 <= j < i ==> less(#[trigger] s[j].key, key),
        forall|j: int| i <= j < s.len() ==> !less(#[trigger] s[j].key, key),
    ensures
        below(s, key) == i,
    decreases s.len(),
{
    if s.len() > 0 {
        let rest = s.drop_last();
        if i == s.len() {
            lemma_below_is_boundary(rest, key, i - 1);
        } else {
            lemma_below_is_boundary(rest, key, i);
        }
    }
}

/// In a sorted store a key is held at one place only.
pub proof fn lemma_key_held_once(s: Seq<RecordView>, i: int, j: int)
    requires
        sorted(s),
        0 <= i < s.len(),
        0 <= j < s.len(),
        s[i].key == s[j].key,
    ensures
        i == j,
{
    lemma_less_irreflexive(s[i].key);
}

/// A scan of a sorted store is the stretch of it between the places where the
/// keys before `start` end and where the keys before `end` end.
pub proof fn lemma_scan_is_stretch(
    s: Seq<RecordView>,
    start: Seq<u8>,
    end: Seq<u8>,
    lo: int,
    hi: int,
)
    requires
        0 <= lo <= s.len(),
        0 <= hi <= s.len(),
        forall|j: int| 0 <= j < lo ==> less(#[trigger] s[j].key, start),
        forall|j: int| lo <= j < s.len() ==> !less(#[trigger] s[j].key, start),
        forall|j: int| 0 <= j < hi ==> less(#[trigger] s[j].key, end),
        forall|j: int| hi <= j < s.len() ==> !less(#[trigger] s[j].key, end),
    ensures
        scan(s, start, end) == if lo < hi {
            s.subrange(lo, hi)
        } else {
            Seq::<RecordView>::empty()
        },
    decreases s.len(),
{
    if s.len() > 0 {
        let n = s.len() as int;
        let rest = s.drop_last();
        let lo_rest = if lo < n {
            lo
        } else {
            n - 1
        };
        let hi_rest = if hi < n {
            hi
        } else {
            n - 1
        };
        lemma_scan_is_stretch(rest, start, end, lo_rest, hi_rest);
        if within(s.last().key, start, end) {
            assert(lo <= n - 1 && hi == n);
            if lo < n - 1 {
                assert(s.subrange(lo, hi) =~= rest.subrange(lo_rest, hi_rest).push(s.last()));
            } else {
                assert(s.subrange(lo, hi) =~= Seq::<RecordView>::empty().push(s.last()));
            }
        } else {
            if lo < hi {
                assert(hi < n);
                assert(s.subrange(lo, hi) =~= rest.subrange(lo_rest, hi_rest));
            }
        }
    }
}

/// No more records come before a key than there are records.
pub proof fn lemma_below_bounded(s: Seq<RecordView>, key: Seq<u8>)
    ensures
        below(s, key) <= s.len(),
    decreases s.len(),
{
    if s.len() > 0 {
        lemma_below_bounded(s.drop_last(), key);
    }
}

/// A scan of two stretches laid end to end is the two scans laid end to end.
pub proof fn lemma_scan_concat(x: Seq<RecordView>, y: Seq<RecordView>, start: Seq<u8>, end: Seq<u8>)
    ensures
        scan(x + y, start, end) == scan(x, start, end) + scan(y, start, end),
    decreases y.len(),
{
    if y.len() == 0 {
        assert(x + y =~= x);
        assert(scan(x, start, end) + scan(y, start, end) =~= scan(x, start, end));
    } else {
        lemma_scan_concat(x, y.drop_last(), start, end);
        assert((x + y).drop_last() =~= x + y.drop_last());
        assert((x + y).last() == y.last());
        if within(y.last().key, start, end) {
            assert(scan(x, start, end) + scan(y.drop_last(), start, end).push(y.last()) =~= (scan(
                x,
                start,
                end,
            ) + scan(y.drop_last(), start, end)).push(y.last()));
        }
    }
}

/// A scan holds exactly the records of the store whose key is in the range.
pub proof fn lemma_scan_holds_the_range(s: Seq<RecordView>, start: Seq<u8>, end: Seq<u8>)
    ensures
        forall|r: RecordView| #[trigger]
            scan(s, start, end).contains(r) <==> s.contains(r) && within(r.key, start, end),
    decreases s.len(),
{
    if s.len() > 0 {
        let rest = s.drop_last();
        let last = s.last();
        lemma_scan_holds_the_range(rest, start, end);
        let found = scan(s, start, end);
        let found_rest = scan(rest, start, end);
        assert forall|r: RecordView| #[trigger]
            found.contains(r) <==> s.contains(r) && within(r.key, start, end) by {
            if found.contains(r) {
                let i = choose|i: int| 0 <= i < found.len() && found[i] == r;
                if within(last.key, start, end) && i == found.len() - 1 {
                    assert(s[s.len() - 1] == r);
                } else {
                    assert(found_rest[i] == r);
                    assert(found_rest.contains(r));
                    let j = choose|j: int| 0 <= j < rest.len() && rest[j] == r;
                    assert(s[j] == r);
                }
            }
            if s.contains(r) && within(r.key, start, end) {
                let j = choose|j: int| 0 <= j < s.len() && s[j] == r;
                if j == s.len() - 1 {
                    assert(found[found.len() - 1] == r);
                } else {
                    assert(rest[j] == r);
                    assert(found_rest.contains(r));
                    let i = choose|i: int| 0 <= i < found_rest.len() && found_rest[i] == r;
                    assert(found[i] == r);
                }
            }
        }
    }
}

/// A scan of a sorted store is sorted: it returns its records in the order of
/// their keys, and so the records of one user in the order of their times.
pub proof fn lemma_scan_keeps_order(s: Seq<RecordView>, start: Seq<u8>, end: Seq<u8>)
    requires
        sorted(s),
    ensures
        sorted(scan(s, start, end)),
    decreases s.len(),
{
    if s.len() > 0 {
        let rest = s.drop_last();
        let last = s.last();
        assert(sorted(rest)) by {
            assert forall|i: int, j: int| 0 <= i < j < rest.len() implies less(
                #[trigger] rest[i].key,
                #[trigger] rest[j].key,
            ) by {
                assert(less(s[i].key, s[j].key));
            }
        }
        lemma_scan_keeps_order(rest, start, end);
        lemma_scan_holds_the_range(rest, start, end);
        let found = scan(s, start, end);
        let found_rest = scan(rest, start, end);
        if within(last.key, start, end) {
            assert forall|i: int, j: int| 0 <= i < j < found.len() implies less(
                #[trigger] found[i].key,
                #[trigger] found[j].key,
            ) by {
                if j == found.len() - 1 {
                    assert(found_rest[i] == found[i]);
                    assert(found_rest.contains(found[i]));
                    let k = choose|k: int| 0 <= k < rest.len() && rest[k] == found[i];
                    assert(less(s[k].key, s[s.len() - 1].key));
                } else {
                    assert(less(found_rest[i].key, found_rest[j].key));
                }
            }
        }
    }
}

/// In a sorted store the records whose key comes before `key` are the first
/// `below(s, key)` records.
pub proof fn lemma_below_splits(s: Seq<RecordView>, key: Seq<u8>)
    requires
        sorted(s),
    ensures
        below(s, key) <= s.len(),
        forall|j: int| 0 <= j < below(s, key) ==> less(#[trigger] s[j].key, key),
        forall|j: int| below(s, key) <= j < s.len() ==> !less(#[trigger] s[j].key, key),
    decreases s.len(),
{
    if s.len() > 0 {
        let rest = s.drop_last();
        assert forall|i: int, j: int| 0 <= i < j < rest.len() implies less(
            #[trigger] rest[i].key,
            #[trigger] rest[j].key,
        ) by {
            assert(less(s[i].key, s[j].key));
        }
        lemma_below_splits(rest, key);
        if less(s.last().key, key) {
            assert forall|j: int| 0 <= j < rest.len() implies less(#[trigger] rest[j].key, key) by {
                assert(less(s[j].key, s[s.len() - 1].key));
                lemma_less_transitive(s[j].key, s.last().key, key);
            }
            lemma_below_is_boundary(rest, key, rest.len() as int);
        }
        assert forall|j: int| 0 <= j < below(s, key) implies less(#[trigger] s[j].key, key) by {
            if j < rest.len() {
                assert(rest[j] == s[j]);
            }
        }
        assert forall|j: int| below(s, key) <= j < s.len() implies !less(
            #[trigger] s[j].key,
            key,
        ) by {
            if j < rest.len() {
                assert(rest[j] == s[j]);
            }
        }
    }
}

/// Setting a record in a sorted store leaves the store sorted.
pub proof fn lemma_put_keeps_order(s: Seq<RecordView>, record: RecordView)
    requires
        sorted(s),
    ensures
        sorted(put(s, record)),
{
    let i = below(s, record.key) as int;
    let t = put(s, record);
    lemma_below_splits(s, record.key);
    if i < s.len() && s[i].key == record.key {
        assert forall|a: int, b: int| 0 <= a < b < t.len() implies less(
            #[trigger] t[a].key,
            #[trigger] t[b].key,
        ) by {
            assert(less(s[a].key, s[b].key));
        }
    } else {
        assert forall|a: int, b: int| 0 <= a < b < t.len() implies less(
            #[trigger] t[a].key,
            #[trigger] t[b].key,
        ) by {
            if b == i {
                assert(less(s[a].key, record.key));
            } else if a == i {
                let at = b - 1;
                lemma_less_total(record.key, s[at].key);
                if at > i {
                    assert(less(s[i].key, s[at].key));
                    if less(s[at].key, record.key) || s[at].key == record.key {
                        assert(false);
                    }
                }
                assert(less(record.key, s[at].key));
            } else {
                let x = if a < i {
                    a
                } else {
                    a - 1
                };
                let y = if b < i {
                    b
                } else {
                    b - 1
                };
                assert(less(s[x].key, s[y].key));
            }
        }
    }
}

/// Setting a record under a key that the store does not hold puts the record
/// in where its key belongs and lets every other record stand: the store then
/// has one record more, and holds the new record and key and what it held.
pub proof fn lemma_put_holds_more(s: Seq<RecordView>, record: RecordView)
    requires
        !holds(s, record.key),
    ensures
        below(s, record.key) <= s.len(),
        put(s, record) == s.insert(below(s, record.key) as int, record),
        put(s, record).len() == s.len() + 1,
        forall|other: RecordView| #[trigger]
            put(s, record).contains(other) <==> other == record || s.contains(other),
        forall|key: Seq<u8>| #[trigger]
            holds(put(s, record), key) <==> key == record.key || holds(s, key),
{
    let i = below(s, record.key) as int;
    lemma_below_bounded(s, record.key);
    if i < s.len() && s[i].key == record.key {
        assert(holds(s, record.key));
    }
    let t = s.insert(i, record);
    assert(put(s, record) == t);
    assert forall|other: RecordView| #[trigger]
        t.contains(other) <==> other == record || s.contains(other) by {
        if t.contains(other) {
            let j = choose|j: int| 0 <= j < t.len() && t[j] == other;
            if j < i {
                assert(s[j] == other);
            } else if j > i {
                assert(s[j - 1] == other);
            }
        }
        if other == record {
            assert(t[i] == other);
        }
        if s.contains(other) {
            let j = choose|j: int| 0 <= j < s.len() && s[j] == other;
            if j < i {
                assert(t[j] == other);
            } else {
                assert(t[j + 1] == other);
            }
        }
    }
    assert forall|key: Seq<u8>| #[trigger]
        holds(t, key) <==> key == record.key || holds(s, key) by {
        if holds(t, key) {
            let j = choose|j: int| 0 <= j < t.len() && #[trigger] t[j].key == key;
            if j < i {
                assert(s[j].key == key);
            } else if j > i {
                assert(s[j - 1].key == key);
            }
        }
        if key == record.key {
            assert(t[i].key == key);
        }
        if holds(s, key) {
            let j = choose|j: int| 0 <= j < s.len() && #[trigger] s[j].key == key;
            if j < i {
                assert(t[j].key == key);
            } else {
                assert(t[j + 1].key == key);
            }
        }
    }
}

/// A sorted store holds a record exactly when it holds the debt of the record
/// under the key of the record.
pub proof fn lemma_contains_is_lookup(s: Seq<RecordView>, record: RecordView)
    requires
        sorted(s),
    ensures
        s.contains(record) <==> lookup(s, record.key) == Some(record.debt),
{
    if s.contains(record) {
        let i = choose|i: int| 0 <= i < s.len() && s[i] == record;
        assert(s[i].key == record.key);
        let at = choose|at: int| 0 <= at < s.len() && #[trigger] s[at].key == record.key;
        lemma_key_held_once(s, i, at);
    }
    if lookup(s, record.key) == Some(record.debt) {
        let at = choose|at: int| 0 <= at < s.len() && #[trigger] s[at].key == record.key;
        assert(s[at] == record);
    }
}

/// After a record is set in a sorted store, the store holds the debt of the
/// record under the key of the record, and under every other key what it held
/// before.
pub proof fn lemma_put_then_lookup(s: Seq<RecordView>, record: RecordView, key: Seq<u8>)
    requires
        sorted(s),
    ensures
        lookup(put(s, record), key) == if key == record.key {
            Some(record.debt)
        } else {
            lookup(s, key)
        },
{
    let i = below(s, record.key) as int;
    let t = put(s, record);
    lemma_below_splits(s, record.key);
    lemma_put_keeps_order(s, record);
    let replaced = i < s.len() && s[i].key == record.key;
    assert(t[i] == record);
    if key == record.key {
        assert(holds(t, key));
        let at = choose|at: int| 0 <= at < t.len() && #[trigger] t[at].key == key;
        lemma_key_held_once(t, i, at);
    } else {
        if holds(t, key) {
            let at = choose|at: int| 0 <= at < t.len() && #[trigger] t[at].key == key;
            let from = if replaced || at < i {
                at
            } else {
                at - 1
            };
            assert(s[from] == t[at]);
            assert(holds(s, key));
            let other = choose|other: int| 0 <= other < s.len() && #[trigger] s[other].key == key;
            lemma_key_held_once(s, from, other);
        }
        if holds(s, key) {
            let from = choose|from: int| 0 <= from < s.len() && #[trigger] s[from].key == key;
            let at = if replaced || from < i {
                from
            } else {
                from + 1
            };
            assert(t[at] == s[from]);
            assert(holds(t, key));
        }
    }
}

impl LedgerStore {
    #[verifier::type_invariant]
    spec fn in_key_order(&self) -> bool {
        sorted(views(self.records@))
    }

    /// A store without records.
    pub fn new() -> (store: LedgerStore)
        ensures
            store@ == Seq::<RecordView>::empty(),
            sorted(store@),
    {
        let store = LedgerStore { records: Vec::new() };
        assert(store@ =~= Seq::<RecordView>::empty());
        store
    }

    /// The number of records in the store.
    pub fn len(&self) -> (n: usize)
        ensures
            n == self@.len(),
            sorted(self@),
    {
        proof {
            use_type_invariant(self);
        }
        self.records.len()
    }

    /// The debt filed under `key`, if there is one.
    pub fn get(&self, key: &[u8]) -> (found: Option<&Debt>)
        ensures
            match lookup(self@, key@) {
                Some(debt) => found matches Some(d) && d@ == debt,
                None => found is None,
            },
            sorted(self@),
    {
        let i = self.lower_bound(key);
        if i < self.records.len() {
            let record = &self.records[i];
            assert(self@[i as int] == record@);
            if compare(record.key.as_slice(), key) == Place::Same {
                proof {
                    assert(self@[i as int].key == key@);
                    assert(holds(self@, key@));
                    let at = choose|at: int|
                        0 <= at < self@.len() && #[trigger] self@[at].key == key@;
                    lemma_key_held_once(self@, i as int, at);
                }
                return Some(&record.debt);
            }
        }
        proof {
            if holds(self@, key@) {
                let at = choose|at: int|
                    0 <= at < self@.len() && #[trigger] self@[at].key == key@;
                lemma_less_irreflexive(key@);
                assert(!less(self@[at].key, key@));
                assert(at >= i);
                if at > i {
                    assert(less(self@[i as int].key, self@[at].key));
                }
                assert(false);
            }
        }
        None
    }

    /// Files `debt` under `key`, in place of what was filed under it before.
    pub fn set(&mut self, key: Vec<u8>, debt: Debt)
        ensures
            final(self)@ == put(old(self)@, RecordView { key: key@, debt: debt@ }),
            sorted(old(self)@),
            sorted(final(self)@),
    {
        let i = self.lower_bound(key.as_slice());
        let ghost s = self@;
        let ghost r = RecordView { key: key@, debt: debt@ };
        let replace = i < self.records.len() && compare(
            self.records[i].key.as_slice(),
            key.as_slice(),
        ) == Place::Same;
        proof {
            assert(i < s.len() ==> s[i as int].key == self.records@[i as int].key@);
            lemma_put_keeps_order(s, r);
        }
        let record = Record { key, debt };
        let mut records: Vec<Record> = Vec::new();
        core::mem::swap(&mut self.records, &mut records);
        if replace {
            assert(views(records@.update(i as int, record)) =~= put(s, r));
            records.set(i, record);
        } else {
            assert(views(records@.insert(i as int, record)) =~= put(s, r));
            records.insert(i, record);
        }
        core::mem::swap(&mut self.records, &mut records);
    }

    /// The records with a key from `start` up to, but not including, `end`, in
    /// the order of their keys.
    pub fn range(&self, start: &[u8], end: &[u8]) -> (found: Vec<Record>)
        ensures
            views(found@) == scan(self@, start@, end@),
            sorted(self@),
    {
        let lo = self.lower_bound(start);
        let hi = self.lower_bound(end);
        proof {
            lemma_scan_is_stretch(self@, start@, end@, lo as int, hi as int);
        }
        let mut found: Vec<Record> = Vec::new();
        let mut i: usize = lo;
        while i < hi
            invariant
                lo <= i,
                hi <= self.records@.len(),
                lo < hi ==> i <= hi,
                self@ == views(self.records@),
                lo < hi ==> views(found@) == self@.subrange(lo as int, i as int),
                lo >= hi ==> views(found@) == Seq::<RecordView>::empty(),
            decreases hi - i,
        {
            let copy = self.records[i].clone();
            proof {
                assert(views(found@.push(copy)) =~= views(found@).push(copy@));
                assert(self@.subrange(lo as int, i + 1) =~= self@.subrange(
                    lo as int,
                    i as int,
                ).push(self@[i as int]));
            }
            found.push(copy);
            i = i + 1;
        }
        found
    }

    /// All records, in the order of their keys.
    pub fn all(&self) -> (found: Vec<Record>)
        ensures
            views(found@) == self@,
            sorted(self@),
    {
        proof {
            use_type_invariant(self);
        }
        let mut found: Vec<Record> = Vec::new();
        let mut i: usize = 0;
        while i < self.records.len()
            invariant
                i <= self.records@.len(),
                self@ == views(self.records@),
                views(found@) == self@.subrange(0, i as int),
            decreases self.records@.len() - i,
        {
            let copy = self.records[i].clone();
            proof {
                assert(views(found@.push(copy)) =~= views(found@).push(copy@));
                assert(self@.subrange(0, i + 1) =~= self@.subrange(0, i as int).push(
                    self@[i as int],
                ));
            }
            found.push(copy);
            i = i + 1;
        }
        assert(self@.subrange(0, i as int) =~= self@);
        found
    }

    /// The place of the first record whose key does not come before `key`.
    fn lower_bound(&self, key: &[u8]) -> (i: usize)
        ensures
            i <= self@.len(),
            i == below(self@, key@),
            sorted(self@),
            forall|j: int| 0 <= j < i ==> less(#[trigger] self@[j].key, key@),
            forall|j: int| i <= j < self@.len() ==> !less(#[trigger] self@[j].key, key@),
    {
        proof {
            use_type_invariant(self);
        }
        let ghost s = self@;
        let mut lo: usize = 0;
        let mut hi: usize = self.records.len();
        while lo < hi
            invariant
                lo <= hi <= s.len(),
                s == self@,
                s == views(self.records@),
                sorted(s),
                forall|j: int| 0 <= j < lo ==> less(#[trigger] s[j].key, key@),
                forall|j: int| hi <= j < s.len() ==> !less(#[trigger] s[j].key, key@),
            decreases hi - lo,
        {
            let mid = lo + (hi - lo) / 2;
            let place = compare(self.records[mid].key.as_slice(), key);
            assert(s[mid as int].key == self.records@[mid as int].key@);
            if place == Place::Before {
                assert forall|j: int| 0 <= j < mid + 1 implies less(#[trigger] s[j].key, key@) by {
                    if j < mid {
                        lemma_less_transitive(s[j].key, s[mid as int].key, key@);
                    }
                }
                lo = mid + 1;
            } else {
                assert forall|j: int| mid <= j < s.len() implies !less(
                    #[trigger] s[j].key,
                    key@,
                ) by {
                    if j > mid && less(s[j].key, key@) {
                        lemma_less_transitive(s[mid as int].key, s[j].key, key@);
                    }
                }
                hi = mid;
            }
        }
        proof {
            lemma_below_is_boundary(s, key@, lo as int);
        }
        lo
    }
}

} // verus!
