use vstd::prelude::*;

verus! {

/// A currency. `rate_nanos` is its exchange rate against the base unit in
/// billionths (a rate of 80.0 is 80_000_000_000); `decimals` is the number of
/// minor-unit digits.
#[derive(Debug)]
pub struct Currency {
    pub id: String,
    pub display_name: String,
    pub rate_nanos: u64,
    pub symbol: String,
    pub decimals: u32,
}

} // verus!
