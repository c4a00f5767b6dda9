//! An exact, double-entry ledger of debts between named users.
//!
//! Amounts are whole numbers of cents ([`money`]); no amount is ever held,
//! read or written as a floating-point number. A debt ([`debt`]) says who owes
//! whom how much since when. Recording a debt ([`ledger`]) files it twice in an
//! ordered store ([`store`]): once for the creditor, and once, negated, for the
//! debtor. The keys ([`key`]) begin with the name of the user that a record is
//! filed for and end with the time of the record, so the records of one user lie
//! together in the order of their times, and the balance of a user
//! ([`balance`]) is the sum over one range of keys.
//!
//! Three choices are made here once and hold throughout:
//!
//! - Arithmetic on amounts wraps round in 64 bits. Every result that fits is
//!   exact, and no operation fails or stops the program.
//! - In a text such as `3.5` the part after the point is a number of cents as
//!   it is written: five cents, not fifty.
//! - The two records of a debt are written in one step on a store that the
//!   caller holds exclusively, after everything that could turn the debt down
//!   has been looked at. A debt that is turned down writes nothing.

pub mod money;
pub mod text;
pub mod order;
pub mod key;
pub mod name;
pub mod debt;
pub mod store;
pub mod balance;
pub mod ledger;
pub mod data;
