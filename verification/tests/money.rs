use debt_ledger::money::{Money, ParseError};

#[test]
fn cents_round_trip() {
    for c in [0i64, 1, -1, 99, 100, 1250, i64::MAX, i64::MIN] {
        assert_eq!(Money::from_cents(c).to_cents(), c);
    }
}

#[test]
fn dollars_are_hundreds_of_cents() {
    for d in [0i64, 1, -1, 30, -20, 92233720368547758, -92233720368547758] {
        assert_eq!(Money::from_dollars(d), Money::from_cents(d * 100));
    }
}

#[test]
fn dollars_wrap_beyond_the_range() {
    assert_eq!(
        Money::from_dollars(i64::MAX),
        Money::from_cents(i64::MAX.wrapping_mul(100))
    );
    assert_eq!(Money::from_dollars(92233720368547759).to_cents(), -9223372036854775716);
}

#[test]
fn zero_is_no_cents() {
    assert_eq!(Money::zero().to_cents(), 0);
    assert_eq!(Money::zero(), Money::from_cents(0));
}

#[test]
fn sums_and_differences_are_exact() {
    let a = Money::from_cents(1250);
    let b = Money::from_cents(-300);
    assert_eq!((a + b).to_cents(), 950);
    assert_eq!((a - b).to_cents(), 1550);
    assert_eq!((b - a).to_cents(), -1550);
    assert_eq!((-a).to_cents(), -1250);
    assert_eq!((-b).to_cents(), 300);
}

#[test]
fn negation_cancels() {
    for c in [0i64, 1, -1, 1250, i64::MAX, i64::MIN] {
        let m = Money::from_cents(c);
        assert_eq!(-(-m), m);
        assert_eq!(m + (-m), Money::zero());
    }
}

#[test]
fn arithmetic_wraps_at_the_ends() {
    let most = Money::from_cents(i64::MAX);
    let least = Money::from_cents(i64::MIN);
    let one = Money::from_cents(1);
    assert_eq!(most + one, least);
    assert_eq!(least - one, most);
    assert_eq!(-least, least);
}

#[test]
fn order_is_by_cents() {
    let small = Money::from_cents(-5);
    let large = Money::from_cents(7);
    assert!(small < large);
    assert!(large > small);
    assert!(small <= small);
    assert!(Money::from_dollars(1) == Money::from_cents(100));
    assert_eq!(small.partial_cmp(&large), Some(std::cmp::Ordering::Less));
    assert_eq!(large.cmp(&small), std::cmp::Ordering::Greater);
    assert_eq!(small.max(large), large);
}

#[test]
fn writes_canonical_texts() {
    assert_eq!(Money::from_dollars(30).to_string(), "+$30.00");
    assert_eq!(Money::from_dollars(-20).to_string(), "-$20.00");
    assert_eq!(Money::zero().to_string(), "$0.00");
}

#[test]
fn writes_cents_in_two_digits() {
    assert_eq!(Money::from_cents(5).to_string(), "+$0.05");
    assert_eq!(Money::from_cents(-5).to_string(), "-$0.05");
    assert_eq!(Money::from_cents(1250).to_string(), "+$12.50");
    assert_eq!(Money::from_cents(-199).to_string(), "-$1.99");
    assert_eq!(Money::from_cents(100).to_string(), "+$1.00");
}

#[test]
fn writes_the_ends_of_the_range() {
    assert_eq!(
        Money::from_cents(i64::MAX).to_string(),
        "+$92233720368547758.07"
    );
    assert_eq!(
        Money::from_cents(i64::MIN).to_string(),
        "-$92233720368547758.08"
    );
}

#[test]
fn reads_whole_dollars() {
    assert_eq!(
        Money::from_money_string("1".to_string()),
        Ok(Money::from_dollars(1))
    );
    assert_eq!(
        Money::from_money_string("$1".to_string()),
        Ok(Money::from_dollars(1))
    );
    assert_eq!(
        Money::from_money_string("0".to_string()),
        Ok(Money::zero())
    );
    assert_eq!(
        Money::from_money_string("007".to_string()),
        Ok(Money::from_dollars(7))
    );
}

#[test]
fn reads_dollars_and_cents() {
    assert_eq!(
        Money::from_money_string("12.50".to_string()),
        Ok(Money::from_cents(1250))
    );
    assert_eq!(
        Money::from_money_string("$12.50".to_string()),
        Ok(Money::from_cents(1250))
    );
    assert_eq!(
        Money::from_money_string("0.05".to_string()),
        Ok(Money::from_cents(5))
    );
}

#[test]
fn reads_signs() {
    assert_eq!(
        Money::from_money_string("-5".to_string()),
        Ok(Money::from_cents(-500))
    );
    assert_eq!(
        Money::from_money_string("+5".to_string()),
        Ok(Money::from_cents(500))
    );
    assert_eq!(
        Money::from_money_string("$-5".to_string()),
        Ok(Money::from_cents(-500))
    );
}

#[test]
fn takes_the_cents_as_written() {
    assert_eq!(
        Money::from_money_string("3.5".to_string()),
        Ok(Money::from_cents(305))
    );
    assert_eq!(
        Money::from_money_string("1.250".to_string()),
        Ok(Money::from_cents(350))
    );
    assert_eq!(
        Money::from_money_string("-1.50".to_string()),
        Ok(Money::from_cents(-50))
    );
}

fn malformed(text: &str) {
    assert_eq!(
        Money::from_money_string(text.to_string()),
        Err(ParseError::MalformedAmount(text.to_string()))
    );
}

#[test]
fn rejects_more_than_one_point() {
    malformed("1.2.3");
    malformed("1..2");
    malformed("1.2.");
}

#[test]
fn rejects_what_is_no_number() {
    malformed("");
    malformed("$");
    malformed("abc");
    malformed("12a");
    malformed("1 2");
    malformed(" 1");
    malformed("1,50");
    malformed("+");
    malformed("-");
    malformed("--1");
}

#[test]
fn rejects_an_empty_side_of_the_point() {
    malformed("1.");
    malformed(".5");
    malformed(".");
    malformed("$.");
}

#[test]
fn rejects_a_symbol_that_does_not_lead() {
    malformed("1$");
    malformed("1$2");
    malformed("$$1");
    malformed("+$30.00");
    malformed("-$20.00");
}

#[test]
fn rejects_integers_beyond_the_range() {
    malformed("9223372036854775808");
    malformed("-9223372036854775809");
    malformed("1.9223372036854775808");
    malformed("99999999999999999999999999999999999999999");
}

#[test]
fn reads_the_ends_of_the_range() {
    assert_eq!(
        Money::from_money_string("0.9223372036854775807".to_string()),
        Ok(Money::from_cents(i64::MAX))
    );
    assert_eq!(
        Money::from_money_string("0.-9223372036854775808".to_string()),
        Ok(Money::from_cents(i64::MIN))
    );
    assert_eq!(
        Money::from_money_string("92233720368547758.07".to_string()),
        Ok(Money::from_cents(i64::MAX))
    );
}

#[test]
fn reads_wrap_like_sums() {
    assert_eq!(
        Money::from_money_string("92233720368547758.08".to_string()),
        Ok(Money::from_dollars(92233720368547758) + Money::from_cents(8))
    );
    assert_eq!(
        Money::from_money_string("92233720368547758.08".to_string()),
        Ok(Money::from_cents(i64::MIN))
    );
}

#[test]
fn rejects_digits_that_are_not_ascii() {
    malformed("١٢");
    malformed("１");
}
