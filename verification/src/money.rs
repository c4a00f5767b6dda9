//! Exact signed currency amounts, counted in cents.

use core::cmp::Ordering;
use vstd::arithmetic::div_mod::{
    lemma_add_mod_noop_right, lemma_mod_add_multiples_vanish, lemma_mod_sub_multiples_vanish,
    lemma_small_mod,
};
use vstd::prelude::*;
use vstd::std_specs::cmp::PartialOrdSpec;
use vstd::std_specs::ops::{AddSpec, NegSpec, SubSpec};

use crate::text::{
    all_digits, chars_of, decimal, digit_char, digit_text, digits_value, is_digit, push_decimal,
};

verus! {

/// The value that 64-bit two's-complement arithmetic gives for the exact result
/// `x`: the one integer in the range of `i64` that differs from `x` by a multiple
/// of 2^64. A result that fits is left as it is.
pub open spec fn wrap(x: int) -> int {
    let r = x % 0x1_0000_0000_0000_0000;
    if r > i64::MAX {
        r - 0x1_0000_0000_0000_0000
    } else {
        r
    }
}

/// What wrapping does to a result that is at most one turn of 2^64 out of the
/// range of `i64`: it takes the turn back. A result in the range stays.
pub proof fn lemma_wrap_takes_one_turn_back(x: int)
    ensures
        i64::MIN <= x <= i64::MAX ==> wrap(x) == x,
        i64::MAX < x <= i64::MAX + 0x1_0000_0000_0000_0000 ==> wrap(x) == x
            - 0x1_0000_0000_0000_0000,
        i64::MIN - 0x1_0000_0000_0000_0000 <= x < i64::MIN ==> wrap(x) == x
            + 0x1_0000_0000_0000_0000,
{
    let m = 0x1_0000_0000_0000_0000int;
    if 0 <= x < m {
        lemma_small_mod(x as nat, m as nat);
    } else if -m <= x < 0 {
        lemma_small_mod((x + m) as nat, m as nat);
        lemma_mod_add_multiples_vanish(x, m);
    } else if m <= x < 2 * m {
        lemma_small_mod((x - m) as nat, m as nat);
        lemma_mod_sub_multiples_vanish(x, m);
    }
}

/// A signed amount of money as a whole number of cents.
///
/// Sums, differences and negations wrap round where the exact result does not
/// fit in 64 bits; every result that fits is exact.
#[derive(Debug, Copy, Clone, PartialEq, Eq, Structural, Ord)]
pub struct Money(pub i64);

impl View for Money {
    type V = int;

    open spec fn view(&self) -> int {
        self.0 as int
    }
}

impl Money {
    /// The amount that has the value `cents`, for a value in the range of `i64`.
    pub open spec fn of(cents: int) -> Money {
        Money(cents as i64)
    }

    /// What [`Money::from_cents`] returns.
    pub open spec fn spec_from_cents(cents: i64) -> Money {
        Money(cents)
    }

    /// What [`Money::from_dollars`] returns.
    pub open spec fn spec_from_dollars(dollars: i64) -> Money {
        Money::of(wrap(dollars * 100))
    }

    /// What [`Money::zero`] returns.
    pub open spec fn spec_zero() -> Money {
        Money(0)
    }

    /// What [`Money::to_cents`] returns.
    pub open spec fn spec_to_cents(&self) -> i64 {
        self.0
    }

    /// The amount of `cents` cents.
    #[verifier::when_used_as_spec(spec_from_cents)]
    pub fn from_cents(cents: i64) -> (m: Money)
        ensures
            m == Money::spec_from_cents(cents),
            m@ == cents,
    {
        Money(cents)
    }

    /// The amount of `dollars` dollars, a hundred cents each: exact where a
    /// hundred times `dollars` fits in 64 bits, wrapped round otherwise.
    #[verifier::when_used_as_spec(spec_from_dollars)]
    pub fn from_dollars(dollars: i64) -> (m: Money)
        ensures
            m == Money::spec_from_dollars(dollars),
            m@ == wrap(dollars * 100),
            i64::MIN <= dollars * 100 <= i64::MAX ==> m@ == dollars * 100,
    {
        Money(dollars.wrapping_mul(100))
    }

    /// No money at all.
    #[verifier::when_used_as_spec(spec_zero)]
    pub fn zero() -> (m: Money)
        ensures
            m == Money::spec_zero(),
            m@ == 0,
    {
        Money(0)
    }

    /// The number of cents in this amount.
    #[verifier::when_used_as_spec(spec_to_cents)]
    pub fn to_cents(&self) -> (cents: i64)
        ensures
            cents == self.spec_to_cents(),
            cents == self@,
    {
        self.0
    }

    /// Reads an amount from a text such as `12`, `$12` or `12.50`.
    ///
    /// The text is read as [`amount_of`] says. Any other text is handed back in
    /// [`ParseError::MalformedAmount`].
    pub fn from_money_string(string: String) -> (parsed: Result<Money, ParseError>)
        ensures
            match amount_of(string@) {
                Some(amount) => parsed == Ok::<Money, ParseError>(amount),
                None => parsed matches Err(ParseError::MalformedAmount(text)) && text@ == string@,
            },
    {
        let chars = chars_of(string.as_str());
        let len = chars.len();
        let start: usize = if len > 0 && chars[0] == '$' {
            1
        } else {
            0
        };
        let ghost t = chars@.subrange(start as int, len as int);
        proof {
            assert(t.subrange(0, t.len() as int) =~= t);
            if start == 0 {
                assert(t =~= string@);
            }
        }
        let mut dot: usize = start;
        while dot < len && chars[dot] != '.'
            invariant
                start <= dot <= len,
                len == chars@.len(),
                t == chars@.subrange(start as int, len as int),
                first_dot(t) == (dot - start) + first_dot(t.subrange(dot - start, t.len() as int)),
            decreases len - dot,
        {
            proof {
                let rest = t.subrange(dot - start, t.len() as int);
                assert(rest.drop_first() =~= t.subrange(dot + 1 - start, t.len() as int));
            }
            dot = dot + 1;
        }
        proof {
            assert(t.subrange(0, dot - start) =~= chars@.subrange(start as int, dot as int));
            if dot < len {
                assert(t.subrange(dot - start + 1, t.len() as int) =~= chars@.subrange(
                    dot + 1,
                    len as int,
                ));
            } else {
                assert(t.subrange(0, t.len() as int) =~= t);
            }
        }
        if dot == len {
            match parse_integer(&chars, start, len) {
                Some(dollars) => Ok(Money::from_dollars(dollars)),
                None => Err(ParseError::MalformedAmount(string)),
            }
        } else {
            match (parse_integer(&chars, start, dot), parse_integer(&chars, dot + 1, len)) {
                (Some(dollars), Some(cents)) => Ok(
                    Money::from_dollars(dollars) + Money::from_cents(cents),
                ),
                _ => Err(ParseError::MalformedAmount(string)),
            }
        }
    }

    /// Writes the amount as [`amount_text`] says: `+$30.00`, `-$20.05`, `$0.00`.
    pub fn to_string(&self) -> (text: String)
        ensures
            text@ == amount_text(self@),
    {
        let cents = self.0;
        let magnitude: u64 = if cents < 0 {
            ((-(cents + 1)) as u64) + 1
        } else {
            cents as u64
        };
        proof {
            reveal_strlit("+");
            reveal_strlit("-");
            reveal_strlit("$");
            reveal_strlit(".");
        }
        let mut text = String::new();
        if cents > 0 {
            text.append("+");
        } else if cents < 0 {
            text.append("-");
        }
        text.append("$");
        push_decimal(&mut text, magnitude / 100);
        text.append(".");
        text.append(digit_text(magnitude % 100 / 10));
        text.append(digit_text(magnitude % 10));
        assert(text@ =~= amount_text(self@));
        text
    }
}

impl vstd::std_specs::ops::AddSpecImpl for Money {
    open spec fn obeys_add_spec() -> bool {
        true
    }

    open spec fn add_req(self, rhs: Money) -> bool {
        true
    }

    open spec fn add_spec(self, rhs: Money) -> Money {
        Money::of(wrap(self@ + rhs@))
    }
}

impl core::ops::Add for Money {
    type Output = Money;

    fn add(self, rhs: Money) -> (sum: Money) {
        proof {
            lemma_wrap_takes_one_turn_back(self@ + rhs@);
        }
        Money(self.0.wrapping_add(rhs.0))
    }
}

impl vstd::std_specs::ops::SubSpecImpl for Money {
    open spec fn obeys_sub_spec() -> bool {
        true
    }

    open spec fn sub_req(self, rhs: Money) -> bool {
        true
    }

    open spec fn sub_spec(self, rhs: Money) -> Money {
        Money::of(wrap(self@ - rhs@))
    }
}

impl core::ops::Sub for Money {
    type Output = Money;

    fn sub(self, rhs: Money) -> (difference: Money) {
        proof {
            lemma_wrap_takes_one_turn_back(self@ - rhs@);
        }
        Money(self.0.wrapping_sub(rhs.0))
    }
}

impl vstd::std_specs::ops::NegSpecImpl for Money {
    open spec fn obeys_neg_spec() -> bool {
        true
    }

    open spec fn neg_req(self) -> bool {
        true
    }

    open spec fn neg_spec(self) -> Money {
        Money::of(wrap(-self@))
    }
}

impl core::ops::Neg for Money {
    type Output = Money;

    fn neg(self) -> (negation: Money) {
        proof {
            lemma_wrap_takes_one_turn_back(-self@);
        }
        Money(0i64.wrapping_sub(self.0))
    }
}

impl vstd::std_specs::cmp::PartialOrdSpecImpl for Money {
    open spec fn obeys_partial_cmp_spec() -> bool {
        true
    }

    open spec fn partial_cmp_spec(&self, other: &Money) -> Option<Ordering> {
        if self.0 < other.0 {
            Some(Ordering::Less)
        } else if self.0 > other.0 {
            Some(Ordering::Greater)
        } else {
            Some(Ordering::Equal)
        }
    }
}

impl PartialOrd for Money {
    fn partial_cmp(&self, other: &Money) -> (order: Option<Ordering>) {
        if self.0 < other.0 {
            Some(Ordering::Less)
        } else if self.0 > other.0 {
            Some(Ordering::Greater)
        } else {
            Some(Ordering::Equal)
        }
    }
}

/// Why a text was not read as an amount of money.
#[derive(Debug, PartialEq, Eq)]
pub enum ParseError {
    /// The text, given back as it came, is not of the form `x` or `x.xx`.
    MalformedAmount(String),
}

/// The integer that `s` writes: an optional `+` or `-`, then at least one
/// digit and nothing else, with a value in the range of `i64`.
pub open spec fn integer_of(s: Seq<char>) -> Option<int> {
    let signed = s.len() > 0 && (s[0] == '+' || s[0] == '-');
    let digits = if signed {
        s.subrange(1, s.len() as int)
    } else {
        s
    };
    let value = if s.len() > 0 && s[0] == '-' {
        -digits_value(digits)
    } else {
        digits_value(digits)
    };
    if digits.len() > 0 && all_digits(digits) && i64::MIN <= value <= i64::MAX {
        Some(value)
    } else {
        None
    }
}

/// Reads the integer that the characters of `chars` from `from` up to `to` write.
pub(crate) fn parse_integer(chars: &Vec<char>, from: usize, to: usize) -> (value: Option<i64>)
    requires
        from <= to <= chars@.len(),
    ensures
        match integer_of(chars@.subrange(from as int, to as int)) {
            Some(v) => value == Some(v as i64),
            None => value is None,
        },
{
    let ghost s = chars@.subrange(from as int, to as int);
    let negative = from < to && chars[from] == '-';
    let signed = from < to && (chars[from] == '+' || chars[from] == '-');
    let first: usize = if signed {
        from + 1
    } else {
        from
    };
    let ghost digits = chars@.subrange(first as int, to as int);
    proof {
        if signed {
            assert(digits =~= s.subrange(1, s.len() as int));
        } else {
            assert(digits =~= s);
        }
    }
    let ghost expected = integer_of(s);
    if first == to {
        return None;
    }
    // The magnitude read so far, as long as it is at most 2^63; beyond that
    // only the fact that it is too large is kept.
    let mut magnitude: u128 = 0;
    let mut too_large = false;
    let mut i: usize = first;
    while i < to
        invariant
            first <= i <= to <= chars@.len(),
            digits == chars@.subrange(first as int, to as int),
            from <= to,
            expected == integer_of(chars@.subrange(from as int, to as int)),
            !all_digits(digits) ==> expected is None,
            all_digits(digits.subrange(0, i - first)),
            !too_large ==> magnitude == digits_value(digits.subrange(0, i - first)),
            !too_large ==> magnitude <= 0x8000_0000_0000_0000,
            too_large ==> digits_value(digits.subrange(0, i - first)) > 0x8000_0000_0000_0000,
        decreases to - i,
    {
        let c = chars[i];
        let ghost before = digits.subrange(0, i - first);
        let ghost after = digits.subrange(0, i + 1 - first);
        proof {
            assert(after.drop_last() =~= before);
            assert(after.last() == c);
            assert(digits[i - first] == c);
        }
        if !(c >= '0' && c <= '9') {
            proof {
                assert(!is_digit(digits[i - first]));
            }
            return None;
        }
        let d: u128 = (c as u32 - '0' as u32) as u128;
        if !too_large {
            magnitude = magnitude * 10 + d;
            if magnitude > 0x8000_0000_0000_0000 {
                too_large = true;
            }
        }
        i = i + 1;
    }
    proof {
        assert(digits.subrange(0, to - first) =~= digits);
    }
    if too_large {
        None
    } else if negative {
        if magnitude == 0x8000_0000_0000_0000 {
            Some(i64::MIN)
        } else {
            Some(-(magnitude as i64))
        }
    } else if magnitude <= 0x7fff_ffff_ffff_ffff {
        Some(magnitude as i64)
    } else {
        None
    }
}

/// The place of the first `.` in `s`, or the length of `s` where it has none.
pub open spec fn first_dot(s: Seq<char>) -> int
    decreases s.len(),
{
    if s.len() == 0 || s[0] == '.' {
        0
    } else {
        1 + first_dot(s.drop_first())
    }
}

/// The amount that the text `s` writes, if it writes one.
///
/// One leading `$` is passed over. What is left is an integer of dollars, or an
/// integer of dollars, a `.` and an integer of cents; each of the two is read as
/// [`integer_of`] says, sign and all. The cents are taken as they are written
/// and added to the dollars: `3.5` is three dollars and five cents, and `-1.50`
/// is one dollar owed and fifty cents had, fifty cents short of nothing. The sum
/// wraps round as every sum of amounts does.
pub open spec fn amount_of(s: Seq<char>) -> Option<Money> {
    let t = if s.len() > 0 && s[0] == '$' {
        s.subrange(1, s.len() as int)
    } else {
        s
    };
    let dot = first_dot(t);
    if dot == t.len() {
        match integer_of(t) {
            Some(dollars) => Some(Money::of(wrap(dollars * 100))),
            None => None,
        }
    } else {
        match (integer_of(t.subrange(0, dot)), integer_of(t.subrange(dot + 1, t.len() as int))) {
            (Some(dollars), Some(cents)) => Some(Money::of(wrap(wrap(dollars * 100) + cents))),
            _ => None,
        }
    }
}

/// The text of an amount of `cents` cents: `+` or `-` unless it is nothing, `$`,
/// the whole dollars of its magnitude, `.`, and the remaining cents in two digits.
pub open spec fn amount_text(cents: int) -> Seq<char> {
    let magnitude = if cents < 0 {
        -cents
    } else {
        cents
    };
    let sign = if cents > 0 {
        seq!['+']
    } else if cents < 0 {
        seq!['-']
    } else {
        Seq::<char>::empty()
    };
    sign + seq!['$'] + decimal((magnitude / 100) as nat) + seq![
        '.',
        digit_char(magnitude % 100 / 10),
        digit_char(magnitude % 10),
    ]
}

/// Turning cents into an amount and back gives the same cents.
pub proof fn lemma_cents_round_trip(cents: i64)
    ensures
        Money::from_cents(cents).to_cents() == cents,
{
}

/// An amount of dollars is the amount of a hundred times as many cents: of the
/// wrapped product always, and so of the product itself where it fits.
pub proof fn lemma_dollars_are_hundreds_of_cents(dollars: i64)
    ensures
        Money::from_dollars(dollars) == Money::from_cents(wrap(dollars * 100) as i64),
        i64::MIN <= dollars * 100 <= i64::MAX ==> Money::from_dollars(dollars)
            == Money::from_cents((dollars * 100) as i64),
{
}

/// Negating twice gives the amount back, and an amount and its negation sum to
/// nothing. Both hold of every amount, the least one included.
pub proof fn lemma_negation_cancels(m: Money)
    ensures
        m.neg_spec().neg_spec() == m,
        m.add_spec(m.neg_spec()) == Money::zero(),
{
}

/// Sums, differences and negations are exact wherever the exact result fits in
/// 64 bits.
pub proof fn lemma_exact_where_it_fits(a: Money, b: Money)
    ensures
        i64::MIN <= a@ + b@ <= i64::MAX ==> a.add_spec(b)@ == a@ + b@,
        i64::MIN <= a@ - b@ <= i64::MAX ==> a.sub_spec(b)@ == a@ - b@,
        a@ != i64::MIN ==> a.neg_spec()@ == -a@,
{
}

/// Wrapping lands in the range of `i64`, leaves alone what is in it already, and
/// may be done before a further sum or only after it.
pub proof fn lemma_wrap_absorbs(x: int, y: int)
    ensures
        i64::MIN <= wrap(x) <= i64::MAX,
        i64::MIN <= x <= i64::MAX ==> wrap(x) == x,
        wrap(wrap(x) + y) == wrap(x + y),
        wrap(y + wrap(x)) == wrap(y + x),
{
    let m = 0x1_0000_0000_0000_0000int;
    lemma_add_mod_noop_right(y, x, m);
    lemma_mod_sub_multiples_vanish(x % m + y, m);
    assert((x % m + y) % m == (x + y) % m);
    assert((x % m - m + y) % m == (x + y) % m);
}

/// Subtracting an amount is adding its negation.
pub proof fn lemma_difference_adds_negation(a: Money, b: Money)
    ensures
        a.sub_spec(b) == a.add_spec(b.neg_spec()),
{
    lemma_wrap_absorbs(-b@, a@);
    lemma_wrap_absorbs(a@ - b@, 0);
    assert(a.sub_spec(b)@ == wrap(a@ - b@));
    assert(a.add_spec(b.neg_spec())@ == wrap(a@ + wrap(-b@)));
}

/// A sum does not depend on the order of the two amounts, and adding nothing
/// changes nothing.
pub proof fn lemma_sum_commutes(a: Money, b: Money)
    ensures
        a.add_spec(b) == b.add_spec(a),
        a.add_spec(Money::zero()) == a,
{
}

/// A sum of three amounts does not depend on which two are added first.
pub proof fn lemma_sum_regroups(a: Money, b: Money, c: Money)
    ensures
        a.add_spec(b).add_spec(c) == a.add_spec(b.add_spec(c)),
{
    let left = wrap(wrap(a@ + b@) + c@);
    let right = wrap(a@ + wrap(b@ + c@));
    assert(left == right) by {
        lemma_wrap_absorbs(a@ + b@, c@);
        lemma_wrap_absorbs(b@ + c@, a@);
    }
    lemma_wrap_absorbs(a@ + b@, 0);
    lemma_wrap_absorbs(b@ + c@, 0);
    assert(a.add_spec(b)@ == wrap(a@ + b@));
    assert(b.add_spec(c)@ == wrap(b@ + c@));
    assert(a.add_spec(b).add_spec(c)@ == left);
    assert(a.add_spec(b.add_spec(c))@ == right);
}

/// Amounts are ordered as their numbers of cents are: any two are comparable,
/// and equal exactly when neither is less.
pub proof fn lemma_order_is_by_cents(a: Money, b: Money)
    ensures
        a.partial_cmp_spec(&b) == Some(Ordering::Less) <==> a@ < b@,
        a.partial_cmp_spec(&b) == Some(Ordering::Equal) <==> a == b,
        a.partial_cmp_spec(&b) == Some(Ordering::Greater) <==> a@ > b@,
        a == b <==> a@ == b@,
{
}

} // verus!
