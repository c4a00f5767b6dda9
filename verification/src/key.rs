//! Storage keys: `debts/<user>/<time>`, with the time in nanoseconds as a
//! decimal numeral of fixed width, so that the keys of one user lie together
//! and in the order of their times.

use vstd::prelude::*;

use crate::order::{less, less_at, starts_with, within};

verus! {

/// The byte that parts the pieces of a key, `/`.
pub const SEPARATOR: u8 = 47;

/// The byte that follows the separator in the order of bytes, `0`.
pub const AFTER_SEPARATOR: u8 = 48;

/// The number of digits that a time is written in: enough for every `u128`.
pub const TIME_WIDTH: usize = 39;

/// The bytes of `debts/`, with which every key begins.
pub open spec fn root() -> Seq<u8> {
    seq![100u8, 101u8, 98u8, 116u8, 115u8, 47u8]
}

/// The byte of the decimal digit `d`, for `d` from 0 to 9.
pub open spec fn digit_byte(d: int) -> u8 {
    (48 + d) as u8
}

/// The last `width` decimal digits of `n`, most significant first, with zeros
/// in front where `n` has fewer.
pub open spec fn fixed_decimal(n: nat, width: nat) -> Seq<u8>
    decreases width,
{
    if width == 0 {
        Seq::<u8>::empty()
    } else {
        fixed_decimal(n / 10, (width - 1) as nat).push(digit_byte((n % 10) as int))
    }
}

/// Ten to the power `width`.
pub open spec fn ten_to(width: nat) -> nat
    decreases width,
{
    if width == 0 {
        1
    } else {
        10 * ten_to((width - 1) as nat)
    }
}

/// A user name can stand in a key if its bytes hold no separator.
pub open spec fn valid_user(user: Seq<u8>) -> bool {
    forall|i: int| 0 <= i < user.len() ==> user[i] != SEPARATOR
}

/// The prefix under which the records of `user` are filed: `debts/<user>/`.
pub open spec fn user_prefix(user: Seq<u8>) -> Seq<u8> {
    root() + user + seq![SEPARATOR]
}

/// The first key after all keys that begin with the prefix of `user`:
/// the prefix with its last byte raised by one.
pub open spec fn user_end(user: Seq<u8>) -> Seq<u8> {
    root() + user + seq![AFTER_SEPARATOR]
}

/// The key of the record that is filed for `user` at `time`.
pub open spec fn record_key(user: Seq<u8>, time: nat) -> Seq<u8> {
    user_prefix(user) + fixed_decimal(time, TIME_WIDTH as nat)
}

/// Whether `b` is the byte of a decimal digit.
pub open spec fn is_digit_byte(b: u8) -> bool {
    48 <= b <= 57
}

/// The number that the digit bytes `digits` write in base ten.
pub open spec fn digits_number(digits: Seq<u8>) -> nat
    decreases digits.len(),
{
    if digits.len() == 0 {
        0
    } else {
        digits_number(digits.drop_last()) * 10 + (digits.last() - 48) as nat
    }
}

/// The user and the time of which `key` is the record key, if it is one: `key`
/// is `debts/`, a user name without separator, a separator, and a numeral of
/// the fixed width for a number that a `u128` holds.
pub open spec fn decoded(key: Seq<u8>) -> Option<(Seq<u8>, nat)> {
    let name_len = key.len() - (root().len() + 1 + TIME_WIDTH);
    let user = key.subrange(root().len() as int, root().len() + name_len);
    let digits = key.subrange(key.len() - TIME_WIDTH, key.len() as int);
    if name_len >= 0 && key.subrange(0, root().len() as int) == root() && valid_user(user)
        && key[root().len() + name_len] == SEPARATOR && (forall|i: int|
        0 <= i < digits.len() ==> is_digit_byte(#[trigger] digits[i])) && digits_number(digits)
        <= u128::MAX {
        Some((user, digits_number(digits)))
    } else {
        None
    }
}

/// A numeral of fixed width has that width.
pub proof fn lemma_fixed_decimal_len(n: nat, width: nat)
    ensures
        fixed_decimal(n, width).len() == width,
    decreases width,
{
    if width > 0 {
        lemma_fixed_decimal_len(n / 10, (width - 1) as nat);
    }
}

/// Among numerals of one width that are wide enough for their numbers, the
/// smaller number has the earlier numeral.
pub proof fn lemma_fixed_decimal_ordered(a: nat, b: nat, width: nat)
    requires
        a < b < ten_to(width),
    ensures
        less(fixed_decimal(a, width), fixed_decimal(b, width)),
    decreases width,
{
    if width > 0 {
        let w = (width - 1) as nat;
        let x = fixed_decimal(a, width);
        let y = fixed_decimal(b, width);
        lemma_fixed_decimal_len(a / 10, w);
        lemma_fixed_decimal_len(b / 10, w);
        if a / 10 < b / 10 {
            lemma_fixed_decimal_ordered(a / 10, b / 10, w);
            let head_a = fixed_decimal(a / 10, w);
            let head_b = fixed_decimal(b / 10, w);
            let i = choose|i: int| less_at(head_a, head_b, i);
            assert(less_at(x, y, i));
        } else {
            assert(a / 10 == b / 10);
            assert(less_at(x, y, w as int));
        }
    }
}

/// A numeral of fixed width is made of digits, and writes its number where it
/// is wide enough for it.
pub proof fn lemma_fixed_decimal_number(n: nat, width: nat)
    requires
        n < ten_to(width),
    ensures
        digits_number(fixed_decimal(n, width)) == n,
        forall|i: int|
            0 <= i < width ==> is_digit_byte(#[trigger] fixed_decimal(n, width)[i]),
    decreases width,
{
    lemma_fixed_decimal_len(n, width);
    if width > 0 {
        let w = (width - 1) as nat;
        lemma_fixed_decimal_number(n / 10, w);
        lemma_fixed_decimal_len(n / 10, w);
        let digits = fixed_decimal(n, width);
        assert(digits.drop_last() =~= fixed_decimal(n / 10, w));
        assert forall|i: int| 0 <= i < width implies is_digit_byte(#[trigger] digits[i]) by {
            if i < w {
                assert(digits[i] == fixed_decimal(n / 10, w)[i]);
            }
        }
    }
}

/// Digits are the numeral, of their own width, of the number that they write.
pub proof fn lemma_digits_are_fixed_decimal(digits: Seq<u8>)
    requires
        forall|i: int| 0 <= i < digits.len() ==> is_digit_byte(#[trigger] digits[i]),
    ensures
        fixed_decimal(digits_number(digits), digits.len()) == digits,
    decreases digits.len(),
{
    if digits.len() > 0 {
        let front = digits.drop_last();
        lemma_digits_are_fixed_decimal(front);
        assert(is_digit_byte(digits[digits.len() - 1]));
        let n = digits_number(digits);
        assert(n / 10 == digits_number(front));
        assert(n % 10 == digits.last() - 48);
        assert(fixed_decimal(n, digits.len()) =~= digits);
    } else {
        assert(fixed_decimal(digits_number(digits), digits.len()) =~= digits);
    }
}

/// The digits at the front of a numeral write no more than the whole numeral.
pub proof fn lemma_digits_number_grows(digits: Seq<u8>, front: int)
    requires
        0 <= front <= digits.len(),
        forall|i: int| 0 <= i < digits.len() ==> is_digit_byte(#[trigger] digits[i]),
    ensures
        digits_number(digits.subrange(0, front)) <= digits_number(digits),
    decreases digits.len() - front,
{
    if front < digits.len() {
        let longer = digits.subrange(0, front + 1);
        assert(longer.drop_last() =~= digits.subrange(0, front));
        assert(is_digit_byte(digits[front]));
        assert(longer.last() == digits[front]);
        lemma_digits_number_grows(digits, front + 1);
    } else {
        assert(digits.subrange(0, front) =~= digits);
    }
}

/// Every `u128` has a numeral of the width that keys use.
pub proof fn lemma_time_fits(time: u128)
    ensures
        time < ten_to(TIME_WIDTH as nat),
{
    reveal_with_fuel(ten_to, 40);
}

/// A key lies in the range of `user` exactly when it begins with the prefix of
/// `user`.
pub proof fn lemma_range_is_prefix(key: Seq<u8>, user: Seq<u8>)
    ensures
        within(key, user_prefix(user), user_end(user)) <==> starts_with(key, user_prefix(user)),
{
    let p = user_prefix(user);
    let e = user_end(user);
    let n = p.len() as int;
    assert(e.len() == n);
    assert(forall|j: int| 0 <= j < n - 1 ==> p[j] == e[j]);
    assert(p[n - 1] == SEPARATOR);
    assert(e[n - 1] == AFTER_SEPARATOR);
    if starts_with(key, p) {
        assert(less_at(key, e, n - 1));
        if less(key, p) {
            let i = choose|i: int| less_at(key, p, i);
            assert(false);
        }
    }
    if within(key, p, e) {
        let i = choose|i: int| less_at(key, e, i);
        if i < n - 1 {
            assert(less_at(key, p, i));
        } else {
            assert(i == n - 1);
            if i == key.len() || key[i] < SEPARATOR {
                assert(less_at(key, p, i));
            }
            assert(key[n - 1] == SEPARATOR);
        }
    }
}

/// The key of a record begins with the prefix of a user exactly when the record
/// is filed for that user.
pub proof fn lemma_key_belongs_to_its_user(user: Seq<u8>, other: Seq<u8>, time: nat)
    requires
        valid_user(user),
        valid_user(other),
    ensures
        starts_with(record_key(other, time), user_prefix(user)) <==> other == user,
{
    let key = record_key(other, time);
    let p = user_prefix(user);
    lemma_fixed_decimal_len(time, TIME_WIDTH as nat);
    if starts_with(key, p) {
        if user.len() < other.len() {
            assert(p[6 + user.len() as int] == SEPARATOR);
            assert(key[6 + user.len() as int] == other[user.len() as int]);
            assert(false);
        } else if other.len() < user.len() {
            assert(key[6 + other.len() as int] == SEPARATOR);
            assert(p[6 + other.len() as int] == user[other.len() as int]);
            assert(false);
        } else {
            assert forall|j: int| 0 <= j < user.len() implies user[j] == other[j] by {
                assert(p[6 + j] == user[j]);
                assert(key[6 + j] == other[j]);
            }
            assert(other =~= user);
        }
    }
}

/// The keys of one user come in the order of their times.
pub proof fn lemma_keys_in_order_of_time(user: Seq<u8>, earlier: u128, later: u128)
    requires
        earlier < later,
    ensures
        less(record_key(user, earlier as nat), record_key(user, later as nat)),
{
    let p = user_prefix(user);
    let a = fixed_decimal(earlier as nat, TIME_WIDTH as nat);
    let b = fixed_decimal(later as nat, TIME_WIDTH as nat);
    lemma_time_fits(later);
    lemma_fixed_decimal_ordered(earlier as nat, later as nat, TIME_WIDTH as nat);
    let i = choose|i: int| less_at(a, b, i);
    assert(less_at(p + a, p + b, p.len() + i));
}

/// Different users or different times give different keys.
pub proof fn lemma_keys_differ(user: Seq<u8>, time: u128, other: Seq<u8>, other_time: u128)
    requires
        valid_user(user),
        valid_user(other),
        record_key(user, time as nat) == record_key(other, other_time as nat),
    ensures
        user == other,
        time == other_time,
{
    lemma_key_belongs_to_its_user(user, other, other_time as nat);
    lemma_fixed_decimal_len(time as nat, TIME_WIDTH as nat);
    assert(starts_with(record_key(user, time as nat), user_prefix(user)));
    crate::order::lemma_less_irreflexive(record_key(user, time as nat));
    if time < other_time {
        lemma_keys_in_order_of_time(user, time, other_time);
    } else if other_time < time {
        lemma_keys_in_order_of_time(user, other_time, time);
    }
}


/// A record key decodes to the user and the time that it was made of.
pub proof fn lemma_decode_inverts_encode(user: Seq<u8>, time: u128)
    requires
        valid_user(user),
    ensures
        decoded(record_key(user, time as nat)) == Some((user, time as nat)),
{
    let key = record_key(user, time as nat);
    let numeral = fixed_decimal(time as nat, TIME_WIDTH as nat);
    lemma_time_fits(time);
    lemma_fixed_decimal_len(time as nat, TIME_WIDTH as nat);
    lemma_fixed_decimal_number(time as nat, TIME_WIDTH as nat);
    assert(key.subrange(0, 6) =~= root());
    assert(key.subrange(6, 6 + user.len() as int) =~= user);
    assert(key.subrange(key.len() - TIME_WIDTH, key.len() as int) =~= numeral);
}

/// What a key decodes to encodes to the key again: no other bytes decode to
/// that user and time.
pub proof fn lemma_encode_inverts_decode(key: Seq<u8>)
    ensures
        decoded(key) matches Some((user, time)) ==> valid_user(user) && time <= u128::MAX
            && record_key(user, time) == key,
{
    if decoded(key) is Some {
        let digits = key.subrange(key.len() - TIME_WIDTH, key.len() as int);
        lemma_digits_are_fixed_decimal(digits);
        let (user, time) = decoded(key)->0;
        assert(record_key(user, time) =~= key) by {
            let made = record_key(user, time);
            assert(made.len() == key.len());
            assert forall|i: int| 0 <= i < key.len() implies made[i] == key[i] by {
                if i < 6 {
                    assert(key.subrange(0, 6)[i] == root()[i]);
                } else if i < key.len() - TIME_WIDTH - 1 {
                    assert(user[i - 6] == key[i]);
                } else if i >= key.len() - TIME_WIDTH {
                    assert(digits[i - (key.len() - TIME_WIDTH)] == key[i]);
                }
            }
        }
    }
}

/// Appends the last `width` decimal digits of `n` to `out`.
pub fn push_fixed_decimal(out: &mut Vec<u8>, n: u128, width: usize)
    ensures
        final(out)@ == old(out)@ + fixed_decimal(n as nat, width as nat),
    decreases width,
{
    if width > 0 {
        push_fixed_decimal(out, n / 10, width - 1);
        out.push(48 + (n % 10) as u8);
        assert(out@ =~= old(out)@ + fixed_decimal(n as nat, width as nat));
    } else {
        assert(out@ =~= old(out)@ + fixed_decimal(n as nat, width as nat));
    }
}

/// Whether the name with the bytes `user` can stand in a key: whether the
/// bytes hold no separator.
pub fn is_valid_user(user: &[u8]) -> (valid: bool)
    ensures
        valid == valid_user(user@),
{
    let mut i: usize = 0;
    while i < user.len()
        invariant
            i <= user@.len(),
            forall|j: int| 0 <= j < i ==> user@[j] != SEPARATOR,
        decreases user@.len() - i,
    {
        if user[i] == SEPARATOR {
            return false;
        }
        i = i + 1;
    }
    true
}

/// The bytes of `debts/<user>` followed by `last`.
fn user_bound(user: &[u8], last: u8) -> (bound: Vec<u8>)
    ensures
        bound@ == root() + user@ + seq![last],
{
    let mut bound: Vec<u8> = Vec::new();
    bound.push(100);
    bound.push(101);
    bound.push(98);
    bound.push(116);
    bound.push(115);
    bound.push(47);
    assert(bound@ =~= root());
    bound.extend_from_slice(user);
    bound.push(last);
    bound
}

/// The prefix under which the records of the user with the bytes `user` are
/// filed: the start of the range of that user.
pub fn prefix_of(user: &[u8]) -> (prefix: Vec<u8>)
    ensures
        prefix@ == user_prefix(user@),
{
    user_bound(user, SEPARATOR)
}

/// The end of the range that holds the records of the user with the bytes
/// `user`: the first key after all keys with the prefix of that user.
pub fn end_of(user: &[u8]) -> (end: Vec<u8>)
    ensures
        end@ == user_end(user@),
{
    user_bound(user, AFTER_SEPARATOR)
}

/// The key of the record that is filed at `time` for the user with the bytes
/// `user`.
pub fn encode_key(user: &[u8], time: u128) -> (key: Vec<u8>)
    ensures
        key@ == record_key(user@, time as nat),
{
    let mut key = user_bound(user, SEPARATOR);
    push_fixed_decimal(&mut key, time, TIME_WIDTH);
    key
}


/// Takes a record key apart into the bytes of the user name and the time, or
/// returns nothing where `key` is not the key of any record.
pub fn decode_key(key: &[u8]) -> (parts: Option<(Vec<u8>, u128)>)
    ensures
        match decoded(key@) {
            Some((user, time)) => parts matches Some((u, t)) && u@ == user && t == time,
            None => parts is None,
        },
{
    let fixed: usize = 6 + 1 + TIME_WIDTH;
    if key.len() < fixed {
        return None;
    }
    let name_len: usize = key.len() - fixed;
    let ghost user = key@.subrange(6, 6 + name_len);
    let ghost digits = key@.subrange(key@.len() - TIME_WIDTH, key@.len() as int);
    if key[0] != 100 || key[1] != 101 || key[2] != 98 || key[3] != 116 || key[4] != 115 || key[5]
        != 47 {
        assert(key@.subrange(0, 6)[0] == key@[0]);
        assert(key@.subrange(0, 6)[1] == key@[1]);
        assert(key@.subrange(0, 6)[2] == key@[2]);
        assert(key@.subrange(0, 6)[3] == key@[3]);
        assert(key@.subrange(0, 6)[4] == key@[4]);
        assert(key@.subrange(0, 6)[5] == key@[5]);
        return None;
    }
    assert(key@.subrange(0, 6) =~= root());
    if key[6 + name_len] != SEPARATOR {
        return None;
    }
    let mut name: Vec<u8> = Vec::new();
    let mut i: usize = 0;
    while i < name_len
        invariant
            i <= name_len,
            name_len + 46 == key@.len(),
            key@.len() <= usize::MAX,
            user == key@.subrange(6, 6 + name_len),
            name@ == user.subrange(0, i as int),
            forall|j: int| 0 <= j < i ==> user[j] != SEPARATOR,
        decreases name_len - i,
    {
        let b = key[6 + i];
        assert(user[i as int] == b);
        if b == SEPARATOR {
            return None;
        }
        name.push(b);
        assert(name@ =~= user.subrange(0, i + 1));
        i = i + 1;
    }
    assert(name@ =~= user);
    let first: usize = key.len() - TIME_WIDTH;
    let mut time: u128 = 0;
    let mut k: usize = 0;
    while k < TIME_WIDTH
        invariant
            k <= TIME_WIDTH,
            first + TIME_WIDTH == key@.len(),
            key@.len() <= usize::MAX,
            digits == key@.subrange(key@.len() - TIME_WIDTH, key@.len() as int),
            forall|j: int| 0 <= j < k ==> is_digit_byte(#[trigger] digits[j]),
            time == digits_number(digits.subrange(0, k as int)),
        decreases TIME_WIDTH - k,
    {
        let b = key[first + k];
        let ghost done = digits.subrange(0, k as int);
        let ghost next = digits.subrange(0, k + 1);
        assert(digits[k as int] == b);
        if b < 48 || b > 57 {
            return None;
        }
        proof {
            assert(next.drop_last() =~= done);
            assert(next.last() == b);
        }
        let d: u128 = (b - 48) as u128;
        if time > (u128::MAX - d) / 10 {
            proof {
                assert(digits_number(next) > u128::MAX);
                if forall|j: int| 0 <= j < digits.len() ==> is_digit_byte(#[trigger] digits[j]) {
                    lemma_digits_number_grows(digits, k + 1);
                }
            }
            return None;
        }
        time = time * 10 + d;
        k = k + 1;
    }
    assert(digits.subrange(0, TIME_WIDTH as int) =~= digits);
    Some((name, time))
}

} // verus!
