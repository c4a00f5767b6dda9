//! The order of storage keys: byte strings compared as a dictionary would.

use vstd::prelude::*;

verus! {

/// `a` and `b` agree on their first `i` bytes, and there `a` ends while `b` goes
/// on, or `a` has the smaller byte.
pub open spec fn less_at(a: Seq<u8>, b: Seq<u8>, i: int) -> bool {
    &&& 0 <= i <= a.len()
    &&& i < b.len()
    &&& forall|j: int| 0 <= j < i ==> a[j] == b[j]
    &&& (i == a.len() || a[i] < b[i])
}

/// `a` comes before `b`: at the first place where they differ `a` has the smaller
/// byte, or `a` is `b` cut short.
pub open spec fn less(a: Seq<u8>, b: Seq<u8>) -> bool {
    exists|i: int| less_at(a, b, i)
}

/// `key` begins with all of `prefix`.
pub open spec fn starts_with(key: Seq<u8>, prefix: Seq<u8>) -> bool {
    &&& prefix.len() <= key.len()
    &&& forall|j: int| 0 <= j < prefix.len() ==> key[j] == prefix[j]
}

/// `key` lies in the range that begins with `start` and ends just before `end`.
pub open spec fn within(key: Seq<u8>, start: Seq<u8>, end: Seq<u8>) -> bool {
    !less(key, start) && less(key, end)
}

/// How two keys stand to each other.
#[derive(Debug, Clone, Copy, PartialEq, Eq, Structural)]
pub enum Place {
    /// The first comes before the second.
    Before,
    /// The two are the same key.
    Same,
    /// The first comes after the second.
    After,
}

/// Nothing comes before itself.
pub proof fn lemma_less_irreflexive(a: Seq<u8>)
    ensures
        !less(a, a),
{
}

/// No two keys come before each other.
pub proof fn lemma_less_asymmetric(a: Seq<u8>, b: Seq<u8>)
    ensures
        !(less(a, b) && less(b, a)),
{
    if less(a, b) && less(b, a) {
        let i = choose|i: int| less_at(a, b, i);
        let j = choose|j: int| less_at(b, a, j);
        if i < j {
            assert(b[i] == a[i]);
        } else if j < i {
            assert(a[j] == b[j]);
        }
    }
}

/// What comes before a key comes before all that the key comes before.
pub proof fn lemma_less_transitive(a: Seq<u8>, b: Seq<u8>, c: Seq<u8>)
    requires
        less(a, b),
        less(b, c),
    ensures
        less(a, c),
{
    let i = choose|i: int| less_at(a, b, i);
    let j = choose|j: int| less_at(b, c, j);
    let k = if i <= j {
        i
    } else {
        j
    };
    assert(less_at(a, c, k));
}

/// Of two different keys one comes before the other.
pub proof fn lemma_less_total(a: Seq<u8>, b: Seq<u8>)
    ensures
        a == b || less(a, b) || less(b, a),
{
    lemma_first_difference(a, b, 0);
}

proof fn lemma_first_difference(a: Seq<u8>, b: Seq<u8>, i: int)
    requires
        0 <= i <= a.len(),
        i <= b.len(),
        forall|j: int| 0 <= j < i ==> a[j] == b[j],
    ensures
        a == b || less(a, b) || less(b, a),
    decreases a.len() - i,
{
    if i == a.len() && i == b.len() {
        assert(a =~= b);
    } else if i == a.len() {
        assert(less_at(a, b, i));
    } else if i == b.len() {
        assert(less_at(b, a, i));
    } else if a[i] < b[i] {
        assert(less_at(a, b, i));
    } else if b[i] < a[i] {
        assert(less_at(b, a, i));
    } else {
        lemma_first_difference(a, b, i + 1);
    }
}

/// Finds how `a` stands to `b`.
pub fn compare(a: &[u8], b: &[u8]) -> (place: Place)
    ensures
        place == Place::Before <==> less(a@, b@),
        place == Place::Same <==> a@ == b@,
        place == Place::After <==> less(b@, a@),
{
    proof {
        lemma_less_irreflexive(a@);
        lemma_less_asymmetric(a@, b@);
    }
    let mut i: usize = 0;
    while i < a.len() && i < b.len()
        invariant
            i <= a@.len(),
            i <= b@.len(),
            forall|j: int| 0 <= j < i ==> a@[j] == b@[j],
        decreases a@.len() - i,
    {
        if a[i] < b[i] {
            assert(less_at(a@, b@, i as int));
            return Place::Before;
        }
        if b[i] < a[i] {
            assert(less_at(b@, a@, i as int));
            return Place::After;
        }
        i = i + 1;
    }
    if i < b.len() {
        assert(less_at(a@, b@, i as int));
        Place::Before
    } else if i < a.len() {
        assert(less_at(b@, a@, i as int));
        Place::After
    } else {
        assert(a@ =~= b@);
        Place::Same
    }
}

} // verus!
