use debt_ledger::debt::Debt;
use debt_ledger::money::Money;

fn lunch() -> Debt {
    Debt {
        creditor: "bob".to_string(),
        debtor: "alice".to_string(),
        time: 1_700_000_000_000_000_000,
        amount: Money::from_cents(1250),
    }
}

#[test]
fn negation_swaps_the_parties() {
    let mirror = lunch().clone_negated();
    assert_eq!(mirror.creditor, "alice");
    assert_eq!(mirror.debtor, "bob");
    assert_eq!(mirror.time, 1_700_000_000_000_000_000);
    assert_eq!(mirror.amount, Money::from_cents(-1250));
}

#[test]
fn negation_negates_the_amount() {
    let debt = lunch();
    assert_eq!(debt.clone_negated().amount, -debt.amount);
}

#[test]
fn negation_twice_is_the_debt() {
    let debt = lunch();
    assert_eq!(debt.clone_negated().clone_negated(), debt);
}

#[test]
fn negation_twice_is_the_debt_at_the_ends() {
    for cents in [0, i64::MAX, i64::MIN] {
        let debt = Debt {
            creditor: "a".to_string(),
            debtor: "b".to_string(),
            time: u128::MAX,
            amount: Money::from_cents(cents),
        };
        assert_eq!(debt.clone_negated().clone_negated(), debt);
        assert_eq!(debt.clone_negated().amount, -debt.amount);
    }
}

#[test]
fn negation_leaves_the_debt_alone() {
    let debt = lunch();
    let _ = debt.clone_negated();
    assert_eq!(debt, lunch());
}

#[test]
fn clone_is_the_same_debt() {
    let debt = lunch();
    assert_eq!(debt.clone(), debt);
}
