//! The pure half of the price-feed client: currency-code normalization and
//! validation of the quoted price. The HTTP fetch itself stays outside the
//! library and hands in the feed's number as decimal text.

use vstd::prelude::*;
use crate::amount::{parse_decimal, parse_decimal_text, Amount};
use crate::errors::GatewayError;

verus! {

/// Lowercase for ASCII letters, the identity elsewhere.
pub open spec fn lower_byte(b: u8) -> u8 {
    if 65 <= b && b <= 90 {
        (b + 32) as u8
    } else {
        b
    }
}

pub open spec fn lower_seq(s: Seq<u8>) -> Seq<u8> {
    s.map_values(|b: u8| lower_byte(b))
}

/// Normalizes a merchant-supplied currency code to the lowercase form the
/// price feed expects, both in its query and as the key of its answer.
pub fn currency_for_feed(currency: &[u8]) -> (r: Vec<u8>)
    ensures
        r@ == lower_seq(currency@),
{
    let n: usize = currency.len();
    let mut out: Vec<u8> = Vec::new();
    let mut i: usize = 0;
    while i < n
        invariant
            i <= n,
            n == currency@.len(),
            out@ == lower_seq(currency@.take(i as int)),
        decreases n - i,
    {
        let b = currency[i];
        let lb: u8 = if b >= 65 && b <= 90 {
            b + 32
        } else {
            b
        };
        out.push(lb);
        proof {
            assert(lower_seq(currency@.take(i as int)).push(lower_byte(currency@[i as int]))
                =~= lower_seq(currency@.take(i + 1)));
        }
        i += 1;
    }
    proof {
        assert(currency@.take(n as int) =~= currency@);
    }
    out
}

/// Validates the feed's quote for one currency. Text that does not parse
/// means the feed's answer is unusable (`PriceUnavailable`); a zero or
/// negative price must never be trusted (`InvalidPrice`); anything else is
/// a positive price, scaled by 10^12 like every amount.
pub fn parse_price(text: &[u8]) -> (r: Result<Amount, GatewayError>)
    ensures
        match r {
            Ok(p) => p.wf() && p.atomic > 0 && parse_decimal(text@) == Some(p.atomic as int),
            Err(e) => match parse_decimal(text@) {
                None => e == GatewayError::PriceUnavailable,
                Some(v) => v <= 0 && e == GatewayError::InvalidPrice,
            },
        },
{
    match parse_decimal_text(text) {
        None => Err(GatewayError::PriceUnavailable),
        Some(p) => {
            if p.negative || p.magnitude == 0 {
                Err(GatewayError::InvalidPrice)
            } else {
                Ok(Amount { atomic: p.magnitude })
            }
        },
    }
}

} // verus!
