//! Currency conversion: fiat amounts become XMR amounts at a quoted price.
//!
//! Both operands are fixed-point values scaled by 10^12, so the owed XMR in
//! atomic units is `amount * 10^12 / price`, rounded half up to the nearest
//! atomic unit — twelve fractional digits, the precision of the ledger.

use vstd::prelude::*;
use vstd::arithmetic::div_mod::{
    lemma_div_by_multiple, lemma_div_is_ordered, lemma_div_pos_is_pos, lemma_fundamental_div_mod,
    lemma_mod_division_less_than_divisor,
};
use crate::amount::{Amount, MAX_ATOMIC};
use crate::errors::GatewayError;

verus! {

/// `n / d` as a rounded integer quotient, ties upward.
pub open spec fn round_half_up(n: int, d: int) -> int
    recommends
        d > 0,
{
    (2 * n + d) / (2 * d)
}

/// Atomic XMR owed for `amount` atomic units of a currency priced at
/// `price` currency units per XMR, both scaled by 10^12: the scales cancel,
/// leaving `amount * 10^12 / price` rounded half up.
pub open spec fn converted_atomic(amount: int, price: int) -> int {
    round_half_up(amount * 1_000_000_000_000, price)
}

/// Converts an amount of a non-XMR currency into XMR at the given price.
/// Rejects a zero price (a negative one never reaches this type) and a
/// result beyond the gateway's range; otherwise the result is exactly the
/// half-up rounding of `amount / price` at twelve fractional digits.
pub fn convert_to_xmr(amount: Amount, price: Amount) -> (r: Result<Amount, GatewayError>)
    requires
        amount.wf(),
        price.wf(),
    ensures
        match r {
            Ok(o) => price.atomic > 0 && o.wf() && o.atomic as int == converted_atomic(
                amount.atomic as int,
                price.atomic as int,
            ),
            Err(e) => e == GatewayError::InvalidAmount && (price.atomic == 0 || converted_atomic(
                amount.atomic as int,
                price.atomic as int,
            ) >= MAX_ATOMIC),
        },
{
    if price.atomic == 0 {
        return Err(GatewayError::InvalidAmount);
    }
    let num: u128 = 2 * amount.atomic * 1_000_000_000_000 + price.atomic;
    let den: u128 = 2 * price.atomic;
    let q: u128 = num / den;
    proof {
        assert(num as int == 2 * (amount.atomic as int * 1_000_000_000_000) + price.atomic as int);
    }
    if q >= MAX_ATOMIC {
        Err(GatewayError::InvalidAmount)
    } else {
        Ok(Amount { atomic: q })
    }
}

/// Conversion is monotonic in the amount: at one price, a larger amount of
/// the currency never yields less XMR.
pub proof fn lemma_convert_monotone_amount(a1: int, a2: int, p: int)
    requires
        0 <= a1 <= a2,
        p > 0,
    ensures
        converted_atomic(a1, p) <= converted_atomic(a2, p),
{
    lemma_div_is_ordered(2 * (a1 * 1_000_000_000_000) + p, 2 * (a2 * 1_000_000_000_000) + p, 2 * p);
}

/// Conversion is antitone in the price: at one amount, a higher XMR price
/// never yields more XMR.
pub proof fn lemma_convert_antitone_price(a: int, p1: int, p2: int)
    requires
        0 <= a,
        0 < p1 <= p2,
    ensures
        converted_atomic(a, p2) <= converted_atomic(a, p1),
{
    let n = a * 1_000_000_000_000;
    let q2 = (2 * n + p2) / (2 * p2);
    lemma_fundamental_div_mod(2 * n + p2, 2 * p2);
    lemma_mod_division_less_than_divisor(2 * n + p2, 2 * p2);
    assert(q2 * (2 * p2) <= 2 * n + p2) by (nonlinear_arith)
        requires
            2 * n + p2 == (2 * p2) * q2 + (2 * n + p2) % (2 * p2),
            (2 * n + p2) % (2 * p2) >= 0,
    ;
    lemma_div_pos_is_pos(2 * n + p2, 2 * p2);
    assert(q2 * (2 * p1) <= 2 * n + p1) by (nonlinear_arith)
        requires
            q2 * (2 * p2) <= 2 * n + p2,
            0 < p1 <= p2,
            n >= 0,
            q2 >= 0,
    ;
    lemma_div_is_ordered(q2 * (2 * p1), 2 * n + p1, 2 * p1);
    lemma_div_by_multiple(q2, 2 * p1);
}

} // verus!
