use vstd::prelude::*;

use crate::group::{copy_text, Group};
use crate::split::Split;

verus! {

/// Money that `created_by` spent on behalf of group `group_id`.
#[derive(Debug)]
pub struct Expense {
    pub id: String,
    pub title: String,
    pub created_at: String,
    pub created_by: String,
    pub group_id: String,
    pub amount: i64,
    pub currency_id: String,
    pub category: String,
    pub note: Option<String>,
    pub image_id: Option<String>,
    pub updated_at: String,
    pub transaction_at: String,
}

impl Expense {
    /// A copy of the expense.
    pub fn copy(&self) -> (r: Expense)
        ensures
            r == *self,
    {
        Expense {
            id: self.id.clone(),
            title: self.title.clone(),
            created_at: self.created_at.clone(),
            created_by: self.created_by.clone(),
            group_id: self.group_id.clone(),
            amount: self.amount,
            currency_id: self.currency_id.clone(),
            category: self.category.clone(),
            note: copy_text(&self.note),
            image_id: copy_text(&self.image_id),
            updated_at: self.updated_at.clone(),
            transaction_at: self.transaction_at.clone(),
        }
    }
}

/// One participant's share of an expense.
#[derive(Debug)]
pub struct SplitInput {
    pub amount: i64,
    pub user_id: String,
}

/// An expense together with the direct group that was found or made for it.
#[derive(Debug)]
pub struct NonGroupExpense {
    pub group: Group,
    pub expense: Expense,
}

/// One entry of a history that mixes expenses and ledger rows.
#[derive(Debug)]
pub struct ExpenseMixSplit {
    pub expense: Option<Expense>,
    pub split: Option<Split>,
}

} // verus!
