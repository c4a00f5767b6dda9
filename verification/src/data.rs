//! What the pages of the application read: the users, and the debts on file.

use vstd::prelude::*;

use crate::debt::{Debt, DebtView};
use crate::key::{end_of, prefix_of};
use crate::balance::{balance, balance_of, records_of};
use crate::money::amount_text;
use crate::store::{views, LedgerStore, Record, RecordView};

verus! {

/// The names of the users, in the order in which they are offered.
pub open spec fn user_names() -> Seq<Seq<char>> {
    seq![
        seq!['a', 'l', 'i', 'c', 'e'],
        seq!['b', 'o', 'b'],
        seq!['b', 'e', 'n'],
        seq!['m', 'i', 't', 'c', 'h', 'e', 'l', 'l'],
    ]
}

/// The texts of `names`, in the same order.
pub open spec fn texts(names: Seq<String>) -> Seq<Seq<char>> {
    names.map_values(|name: String| name@)
}

/// The debts of `records`, in the same order.
pub open spec fn debts_in(records: Seq<RecordView>) -> Seq<DebtView> {
    records.map_values(|record: RecordView| record.debt)
}

/// What each of `debts` says, in the same order.
pub open spec fn debt_views(debts: Seq<Debt>) -> Seq<DebtView> {
    debts.map_values(|debt: Debt| debt@)
}

/// One line of the page of balances: a user, and the text of what the user is
/// owed on balance.
#[derive(Debug, PartialEq, Eq)]
pub struct UserBalance {
    /// The name of the user.
    pub username: String,
    /// The balance of the user, written as an amount is written.
    pub balance: String,
}

/// What a line of the page of balances says.
pub struct UserBalanceView {
    pub username: Seq<char>,
    pub balance: Seq<char>,
}

impl View for UserBalance {
    type V = UserBalanceView;

    open spec fn view(&self) -> UserBalanceView {
        UserBalanceView { username: self.username@, balance: self.balance@ }
    }
}

/// What each of `lines` says, in the same order.
pub open spec fn line_views(lines: Seq<UserBalance>) -> Seq<UserBalanceView> {
    lines.map_values(|line: UserBalance| line@)
}

/// The page of balances of the store `s`: a line for each user, in the order of
/// the users, with the balance that the store gives for that user.
pub open spec fn balance_lines(s: Seq<RecordView>) -> Seq<UserBalanceView> {
    user_names().map_values(
        |name: Seq<char>|
            UserBalanceView { username: name, balance: amount_text(balance_of(s, name)@) },
    )
}

/// The users between whom debts can be recorded.
pub fn get_users() -> (users: Vec<String>)
    ensures
        texts(users@) == user_names(),
{
    proof {
        reveal_strlit("alice");
        reveal_strlit("bob");
        reveal_strlit("ben");
        reveal_strlit("mitchell");
    }
    let mut users: Vec<String> = Vec::new();
    users.push("alice".to_owned());
    users.push("bob".to_owned());
    users.push("ben".to_owned());
    users.push("mitchell".to_owned());
    proof {
        assert(users@[0]@ =~= user_names()[0]);
        assert(users@[1]@ =~= user_names()[1]);
        assert(users@[2]@ =~= user_names()[2]);
        assert(users@[3]@ =~= user_names()[3]);
        assert(texts(users@) =~= user_names());
    }
    users
}

/// The balance of every user, for the page of balances.
pub fn get_balances(store: &LedgerStore) -> (lines: Vec<UserBalance>)
    ensures
        line_views(lines@) == balance_lines(store@),
{
    let users = get_users();
    let mut lines: Vec<UserBalance> = Vec::new();
    let mut i: usize = 0;
    while i < users.len()
        invariant
            i <= users@.len(),
            texts(users@) == user_names(),
            line_views(lines@) == balance_lines(store@).subrange(0, i as int),
        decreases users@.len() - i,
    {
        let username = users[i].clone();
        let owed = balance(store, username.as_str());
        let line = UserBalance { username, balance: owed.to_string() };
        proof {
            assert(texts(users@)[i as int] == users@[i as int]@);
            assert(line_views(lines@.push(line)) =~= line_views(lines@).push(line@));
            assert(balance_lines(store@).subrange(0, i + 1) =~= balance_lines(store@).subrange(
                0,
                i as int,
            ).push(line@));
        }
        lines.push(line);
        i = i + 1;
    }
    proof {
        assert(texts(users@).len() == users@.len());
        assert(balance_lines(store@).subrange(0, i as int) =~= balance_lines(store@));
    }
    lines
}

/// The debts of `records`, in the same order.
fn debts_of(records: &Vec<Record>) -> (debts: Vec<Debt>)
    ensures
        debt_views(debts@) == debts_in(views(records@)),
{
    let mut debts: Vec<Debt> = Vec::new();
    let mut i: usize = 0;
    while i < records.len()
        invariant
            i <= records@.len(),
            debt_views(debts@) == debts_in(views(records@)).subrange(0, i as int),
        decreases records@.len() - i,
    {
        let debt = records[i].debt.clone();
        proof {
            assert(debt_views(debts@.push(debt)) =~= debt_views(debts@).push(debt@));
            assert(debts_in(views(records@)).subrange(0, i + 1) =~= debts_in(
                views(records@),
            ).subrange(0, i as int).push(debt@));
        }
        debts.push(debt);
        i = i + 1;
    }
    proof {
        assert(debts_in(views(records@)).subrange(0, i as int) =~= debts_in(views(records@)));
    }
    debts
}

/// Every debt on file, in the order of the keys: user by user, and for each
/// user in the order of the times. Each recorded debt occurs twice, once from
/// the side of each party.
pub fn get_all_debts(store: &LedgerStore) -> (debts: Vec<Debt>)
    ensures
        debt_views(debts@) == debts_in(store@),
{
    let records = store.all();
    debts_of(&records)
}

/// The debts that involve `user`, each from the side of `user`, in the order
/// of their times: the debts filed in the range of keys of `user`.
pub fn get_debts_involving(store: &LedgerStore, user: &str) -> (debts: Vec<Debt>)
    ensures
        debt_views(debts@) == debts_in(records_of(store@, user@)),
{
    let prefix = prefix_of(user.as_bytes());
    let end = end_of(user.as_bytes());
    let records = store.range(prefix.as_slice(), end.as_slice());
    debts_of(&records)
}

} // verus!
