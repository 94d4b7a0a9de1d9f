use vstd::prelude::*;

use crate::amount::Amount;

verus! {

/// A person taking part in groups.
#[derive(Debug)]
pub struct User {
    pub id: String,
    pub name: Option<String>,
    pub phone: Option<String>,
    pub email: Option<String>,
    pub notification_token: Option<String>,
}

/// The net balance between two users in one group and currency.
#[derive(Debug)]
pub struct OwedInGroup {
    pub group_id: String,
    pub amount: Amount,
}

impl OwedInGroup {
    /// The entry as (group, currency, signed amount).
    pub open spec fn entry(&self) -> (Seq<char>, Seq<char>, int) {
        (self.group_id@, self.amount.currency_id@, self.amount.amount as int)
    }
}

/// A user's preferences.
#[derive(Debug)]
pub struct UserConfig {
    pub user_id: String,
    pub default_currency_id: String,
}

/// What was spent in one category.
#[derive(Debug)]
pub struct CategorisedAmount {
    pub category: String,
    pub amount: Amount,
}

/// Someone who proved a contact address but has not signed up yet.
#[derive(Debug)]
pub struct Unregistered {
    pub phone: Option<String>,
    pub email: Option<String>,
}

/// A signed-up user.
#[derive(Debug)]
pub struct Registered<'a> {
    pub user: &'a User,
}

/// Who the current caller is, once they proved a contact address.
#[derive(Debug)]
pub enum UserAuth<'a> {
    Unregistered(Unregistered),
    Registered(Registered<'a>),
}

} // verus!
