use vstd::prelude::*;

use crate::currency::Currency;

verus! {

/// Ten to the power `n`.
pub open spec fn pow10(n: nat) -> nat
    decreases n,
{
    if n == 0 {
        1
    } else {
        10 * pow10((n - 1) as nat)
    }
}

/// The numerator of a conversion of `amount` minor units: the amount in minor
/// units of the target, times the target's rate.
pub open spec fn conversion_numerator(amount: int, to: Currency) -> int {
    amount * pow10(to.decimals as nat) * to.rate_nanos
}

/// The denominator of a conversion: the source's minor-unit scale times its rate.
pub open spec fn conversion_denominator(from: Currency) -> int {
    pow10(from.decimals as nat) * from.rate_nanos
}

/// `amount` minor units of `from` in minor units of `to`, rounded toward zero:
/// `amount * 10^(to.decimals - from.decimals) / from.rate * to.rate`.
pub open spec fn converted(amount: int, from: Currency, to: Currency) -> int {
    conversion_numerator(amount, to) / conversion_denominator(from)
}

/// Whether the conversion of `amount` can be computed: the source's rate is not
/// zero, the numerator and the denominator fit in a `u128`, and the result in
/// an `i64`.
pub open spec fn convertible(amount: int, from: Currency, to: Currency) -> bool {
    &&& from.rate_nanos > 0
    &&& conversion_numerator(amount, to) <= u128::MAX
    &&& conversion_denominator(from) <= u128::MAX
    &&& converted(amount, from, to) <= i64::MAX
}

proof fn lemma_pow10_grows(a: nat, b: nat)
    requires
        a <= b,
    ensures
        1 <= pow10(a) <= pow10(b),
    decreases b,
{
    if b > 0 {
        if a < b {
            lemma_pow10_grows(a, (b - 1) as nat);
        }
    }
    if a > 0 {
        lemma_pow10_grows((a - 1) as nat, (a - 1) as nat);
    }
}

/// Ten to the power `n`, where it fits in a `u128`.
fn pow10_checked(n: u32) -> (r: Option<u128>)
    ensures
        r is Some <==> pow10(n as nat) <= u128::MAX,
        r is Some ==> r->0 == pow10(n as nat),
{
    let mut acc: u128 = 1;
    let mut k: u32 = 0;
    while k < n
        invariant
            0 <= k <= n,
            acc == pow10(k as nat),
        decreases n - k,
    {
        match acc.checked_mul(10) {
            Some(v) => {
                acc = v;
            },
            None => {
                proof {
                    lemma_pow10_grows((k + 1) as nat, n as nat);
                }
                return None;
            },
        }
        k = k + 1;
    }
    Some(acc)
}

/// Converts `amount` minor units of `from` into minor units of `to` at the two
/// currencies' current rates, rounding toward zero; `None` where the result
/// cannot be computed (see `convertible`).
pub fn convert_amount(amount: i64, from: &Currency, to: &Currency) -> (r: Option<i64>)
    requires
        amount >= 0,
    ensures
        r is Some <==> convertible(amount as int, *from, *to),
        r is Some ==> r->0 == converted(amount as int, *from, *to),
{
    let ghost num = conversion_numerator(amount as int, *to);
    let ghost den = conversion_denominator(*from);
    if from.rate_nanos == 0 {
        return None;
    }
    let p_from = match pow10_checked(from.decimals) {
        Some(p) => p,
        None => {
            proof {
                assert(pow10(from.decimals as nat) * from.rate_nanos >= pow10(from.decimals as nat)) by (nonlinear_arith)
                    requires from.rate_nanos >= 1, pow10(from.decimals as nat) >= 0;
            }
            return None;
        },
    };
    let den_x = match p_from.checked_mul(from.rate_nanos as u128) {
        Some(d) => d,
        None => {
            return None;
        },
    };
    assert(den_x == den);
    proof {
        lemma_pow10_grows(0, from.decimals as nat);
    }
    assert(den > 0) by (nonlinear_arith)
        requires den == pow10(from.decimals as nat) * from.rate_nanos, from.rate_nanos >= 1, pow10(from.decimals as nat) >= 1;
    if amount == 0 || to.rate_nanos == 0 {
        assert(num == 0) by (nonlinear_arith)
            requires num == amount * pow10(to.decimals as nat) * to.rate_nanos, amount == 0 || to.rate_nanos == 0;
        assert(converted(amount as int, *from, *to) == 0);
        return Some(0);
    }
    proof {
        lemma_pow10_grows(0, to.decimals as nat);
        lemma_pow10_grows(0, from.decimals as nat);
    }
    let p_to = match pow10_checked(to.decimals) {
        Some(p) => p,
        None => {
            assert(num >= pow10(to.decimals as nat)) by (nonlinear_arith)
                requires num == amount * pow10(to.decimals as nat) * to.rate_nanos, amount >= 1, to.rate_nanos >= 1, pow10(to.decimals as nat) >= 1;
            return None;
        },
    };
    let scaled = match (amount as u128).checked_mul(p_to) {
        Some(s) => s,
        None => {
            assert(num >= amount * pow10(to.decimals as nat)) by (nonlinear_arith)
                requires num == amount * pow10(to.decimals as nat) * to.rate_nanos, amount >= 1, to.rate_nanos >= 1, pow10(to.decimals as nat) >= 1;
            return None;
        },
    };
    let num_x = match scaled.checked_mul(to.rate_nanos as u128) {
        Some(n) => n,
        None => {
            return None;
        },
    };
    assert(num_x == num);
    let q = num_x / den_x;
    if q > i64::MAX as u128 {
        return None;
    }
    Some(q as i64)
}

} // verus!
