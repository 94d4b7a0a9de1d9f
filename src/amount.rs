use vstd::prelude::*;

verus! {

/// A quantity of money in minor units of a currency.
#[derive(Debug)]
pub struct Amount {
    pub amount: i64,
    pub currency_id: String,
}

} // verus!
