//! Debts: who owes whom how much, and since when.

use vstd::prelude::*;
use vstd::std_specs::ops::NegSpec;

use crate::money::{wrap, Money};
use crate::name::same_text;

verus! {

/// One obligation between two parties, as seen by its creditor.
///
/// A positive amount is owed to the creditor by the debtor; a negative amount
/// is the same obligation seen from the other side. No operation of this
/// library changes a debt once it is made.
#[derive(Debug, PartialEq, Eq)]
pub struct Debt {
    /// The party that is owed the amount.
    pub creditor: String,
    /// The party that owes the amount.
    pub debtor: String,
    /// When the debt was recorded, in nanoseconds since the Unix epoch.
    pub time: u128,
    /// The amount owed.
    pub amount: Money,
}

/// What a debt says, apart from how it is held in memory.
pub struct DebtView {
    pub creditor: Seq<char>,
    pub debtor: Seq<char>,
    pub time: nat,
    pub amount: int,
}

impl DebtView {
    /// The same obligation seen from the other side: the parties change places,
    /// the amount changes its sign, the time stays.
    pub open spec fn negated(self) -> DebtView {
        DebtView {
            creditor: self.debtor,
            debtor: self.creditor,
            time: self.time,
            amount: wrap(-self.amount),
        }
    }
}

impl View for Debt {
    type V = DebtView;

    open spec fn view(&self) -> DebtView {
        DebtView {
            creditor: self.creditor@,
            debtor: self.debtor@,
            time: self.time as nat,
            amount: self.amount@,
        }
    }
}

impl Clone for Debt {
    fn clone(&self) -> (copy: Debt)
        ensures
            copy == *self,
    {
        Debt {
            creditor: self.creditor.clone(),
            debtor: self.debtor.clone(),
            time: self.time,
            amount: self.amount,
        }
    }
}

impl Debt {
    /// What [`Debt::clone_negated`] returns.
    pub open spec fn spec_clone_negated(&self) -> Debt {
        Debt {
            creditor: self.debtor,
            debtor: self.creditor,
            time: self.time,
            amount: self.amount.neg_spec(),
        }
    }

    /// The debt seen from the other side: creditor and debtor change places,
    /// the amount is negated, the time is kept.
    #[verifier::when_used_as_spec(spec_clone_negated)]
    pub fn clone_negated(&self) -> (mirror: Debt)
        ensures
            mirror == self.spec_clone_negated(),
            mirror@ == self@.negated(),
    {
        Debt {
            creditor: self.debtor.clone(),
            debtor: self.creditor.clone(),
            time: self.time,
            amount: core::ops::Neg::neg(self.amount),
        }
    }
}

/// Whether `a` and `b` say the same: the same parties, time and amount.
pub fn same_debt(a: &Debt, b: &Debt) -> (same: bool)
    ensures
        same == (a@ == b@),
{
    same_text(a.creditor.as_str(), b.creditor.as_str()) && same_text(
        a.debtor.as_str(),
        b.debtor.as_str(),
    ) && a.time == b.time && a.amount == b.amount
}

/// Negating a debt twice gives the debt back, and the amount of the negated
/// debt is the negation of the amount. What holds of the debts holds of what
/// they say.
pub proof fn lemma_negation_mirrors(debt: Debt)
    ensures
        debt.clone_negated().clone_negated() == debt,
        debt.clone_negated().amount == debt.amount.neg_spec(),
        debt.clone_negated()@ == debt@.negated(),
        debt@.negated().negated() == debt@,
        debt@.negated().amount == debt.amount.neg_spec()@,
{
}

} // verus!
