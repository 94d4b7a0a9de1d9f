use vstd::prelude::*;

use crate::group::copy_text;

verus! {

/// The kind of a ledger row.
#[derive(Clone, Copy, Debug, PartialEq, Eq, Structural)]
pub enum TransactionType {
    ExpenseSplit,
    CrossGroupSettlement,
    CurrencyConversion,
    CashPaid,
}

/// The stored name of a transaction type.
pub open spec fn kind_name(t: TransactionType) -> Seq<char> {
    match t {
        TransactionType::ExpenseSplit => "ExpenseSplit"@,
        TransactionType::CrossGroupSettlement => "CrossGroupSettlement"@,
        TransactionType::CurrencyConversion => "CurrencyConversion"@,
        TransactionType::CashPaid => "CashPaid"@,
    }
}

/// The type whose stored name is `s`; an unknown name reads as a cash payment.
pub open spec fn kind_of_name(s: Seq<char>) -> TransactionType {
    if s == "ExpenseSplit"@ {
        TransactionType::ExpenseSplit
    } else if s == "CrossGroupSettlement"@ {
        TransactionType::CrossGroupSettlement
    } else if s == "CurrencyConversion"@ {
        TransactionType::CurrencyConversion
    } else {
        TransactionType::CashPaid
    }
}

impl TransactionType {
    /// The name under which the type is stored in a row.
    pub fn name(&self) -> (r: String)
        ensures
            r@ == kind_name(*self),
    {
        match self {
            TransactionType::ExpenseSplit => "ExpenseSplit".to_string(),
            TransactionType::CrossGroupSettlement => "CrossGroupSettlement".to_string(),
            TransactionType::CurrencyConversion => "CurrencyConversion".to_string(),
            TransactionType::CashPaid => "CashPaid".to_string(),
        }
    }
}

/// One directed debt: `from_user` owes `to_user` `amount` minor units of
/// `currency_id`, booked in group `group_id`.
#[derive(Debug)]
pub struct Split {
    pub id: String,
    pub expense_id: Option<String>,
    pub group_id: String,
    pub amount: i64,
    pub currency_id: String,
    pub from_user: String,
    pub to_user: String,
    pub transaction_type: String,
    pub part_transaction: Option<String>,
    pub created_at: String,
    pub created_by: String,
    pub with_group_id: Option<String>,
    pub note: Option<String>,
    pub image_id: Option<String>,
    pub updated_at: String,
    pub transaction_at: String,
    pub transaction_metadata: Option<String>,
}

impl Split {
    /// A copy of the row.
    pub fn copy(&self) -> (r: Split)
        ensures
            r == *self,
    {
        Split {
            id: self.id.clone(),
            expense_id: copy_text(&self.expense_id),
            group_id: self.group_id.clone(),
            amount: self.amount,
            currency_id: self.currency_id.clone(),
            from_user: self.from_user.clone(),
            to_user: self.to_user.clone(),
            transaction_type: self.transaction_type.clone(),
            part_transaction: copy_text(&self.part_transaction),
            created_at: self.created_at.clone(),
            created_by: self.created_by.clone(),
            with_group_id: copy_text(&self.with_group_id),
            note: copy_text(&self.note),
            image_id: copy_text(&self.image_id),
            updated_at: self.updated_at.clone(),
            transaction_at: self.transaction_at.clone(),
            transaction_metadata: copy_text(&self.transaction_metadata),
        }
    }

    /// The row's transaction type, read from its stored name.
    pub fn get_transaction_type(&self) -> (r: TransactionType)
        ensures
            r == kind_of_name(self.transaction_type@),
    {
        let kinds = [
            TransactionType::ExpenseSplit,
            TransactionType::CrossGroupSettlement,
            TransactionType::CurrencyConversion,
        ];
        let mut i: usize = 0;
        while i < 3
            invariant
                0 <= i <= 3,
                kinds@ == seq![
                    TransactionType::ExpenseSplit,
                    TransactionType::CrossGroupSettlement,
                    TransactionType::CurrencyConversion,
                ],
                forall|k: int| 0 <= k < i ==> self.transaction_type@ != kind_name(kinds@[k]),
            decreases 3 - i,
        {
            let name = kinds[i].name();
            if self.transaction_type == name {
                return kinds[i];
            }
            i = i + 1;
        }
        TransactionType::CashPaid
    }
}

/// Copies of every row of `v`.
pub fn copy_rows(v: &Vec<Split>) -> (r: Vec<Split>)
    ensures
        r@ == v@,
{
    let mut out: Vec<Split> = Vec::new();
    let mut i: usize = 0;
    while i < v.len()
        invariant
            0 <= i <= v.len(),
            out@ == v@.take(i as int),
        decreases v.len() - i,
    {
        out.push(v[i].copy());
        assert(out@ =~= v@.take(i as int + 1));
        i = i + 1;
    }
    assert(v@.take(v.len() as int) =~= v@);
    out
}

} // verus!
