//! Invoice issuance: validate the requested amount, convert it into XMR
//! when it is denominated in another currency, and attach the wallet's
//! freshly allocated subaddress.

use vstd::prelude::*;
use crate::amount::{
    format_atomic, format_atomic_text, parse_decimal, parse_decimal_text, Amount, SignedAmount,
    MAX_ATOMIC,
};
use crate::convert::{convert_to_xmr, converted_atomic};
use crate::errors::GatewayError;
use crate::wallet::SubaddressResult;

verus! {

/// Uppercase for ASCII letters, the identity elsewhere.
pub open spec fn upper_byte(b: u8) -> u8 {
    if 97 <= b && b <= 122 {
        (b - 32) as u8
    } else {
        b
    }
}

pub open spec fn upper_seq(s: Seq<u8>) -> Seq<u8> {
    s.map_values(|b: u8| upper_byte(b))
}

/// The bytes of "XMR".
pub open spec fn xmr_code() -> Seq<u8> {
    seq![88u8, 77u8, 82u8]
}

/// Whether a currency code names XMR itself, case-insensitively.
pub open spec fn is_xmr(currency: Seq<u8>) -> bool {
    upper_seq(currency) == xmr_code()
}

/// The currency assumed when a request names none.
pub fn default_currency() -> (r: Vec<u8>)
    ensures
        r@ == xmr_code(),
        is_xmr(r@),
{
    let mut v: Vec<u8> = Vec::new();
    v.push(88);
    v.push(77);
    v.push(82);
    proof {
        assert(v@ =~= xmr_code());
        assert(upper_seq(v@) =~= xmr_code());
    }
    v
}

/// Case-insensitive test whether the requested currency is XMR.
pub fn currency_is_xmr(currency: &[u8]) -> (b: bool)
    ensures
        b == is_xmr(currency@),
{
    if currency.len() != 3 {
        proof {
            assert(upper_seq(currency@).len() == currency@.len());
        }
        return false;
    }
    let u0: u8 = to_upper(currency[0]);
    let u1: u8 = to_upper(currency[1]);
    let u2: u8 = to_upper(currency[2]);
    let b = u0 == 88 && u1 == 77 && u2 == 82;
    proof {
        if b {
            assert(upper_seq(currency@) =~= xmr_code());
        } else {
            if upper_seq(currency@) == xmr_code() {
                assert(upper_seq(currency@)[0] == upper_byte(currency@[0]));
                assert(upper_seq(currency@)[1] == upper_byte(currency@[1]));
                assert(upper_seq(currency@)[2] == upper_byte(currency@[2]));
            }
        }
    }
    b
}

fn to_upper(b: u8) -> (r: u8)
    ensures
        r == upper_byte(b),
{
    if b >= 97 && b <= 122 {
        b - 32
    } else {
        b
    }
}

/// An issued invoice. Its identity is the subaddress index; the owed
/// amount is held exactly, in atomic units.
pub struct Invoice {
    pub address: String,
    pub account_index: u32,
    pub address_index: u32,
    pub amount_owed: Amount,
}

impl Invoice {
    /// The owed amount as canonical decimal XMR text.
    pub fn amount_xmr_text(&self) -> (r: Vec<u8>)
        ensures
            r@ == format_atomic(self.amount_owed.atomic as nat),
    {
        format_atomic_text(self.amount_owed.atomic)
    }
}

/// Validates a merchant-supplied amount: it must parse as a decimal and be
/// strictly positive, else the request is rejected with `InvalidAmount`
/// before anything else — in particular before any price lookup and before
/// any subaddress is allocated.
pub fn parse_positive_amount(amount_text: &[u8]) -> (r: Result<Amount, GatewayError>)
    ensures
        match r {
            Ok(a) => a.wf() && a.atomic > 0 && parse_decimal(amount_text@) == Some(
                a.atomic as int,
            ),
            Err(e) => {
                &&& e == GatewayError::InvalidAmount
                &&& (parse_decimal(amount_text@) is None || parse_decimal(
                    amount_text@,
                ).unwrap() <= 0)
            },
        },
{
    match parse_decimal_text(amount_text) {
        None => Err(GatewayError::InvalidAmount),
        Some(a) => {
            if a.negative || a.magnitude == 0 {
                Err(GatewayError::InvalidAmount)
            } else {
                Ok(Amount { atomic: a.magnitude })
            }
        },
    }
}

/// Decides the XMR amount an invoice will carry.
///
/// The amount text must parse to a positive decimal, else `InvalidAmount`.
/// For XMR itself the owed amount is exactly the parsed value. For any
/// other currency a quoted price must be supplied: a missing one is
/// `PriceUnavailable`, a non-positive or overflowing conversion is
/// `InvalidAmount`, and otherwise the owed amount is exactly
/// `amount / price` rounded half up at twelve fractional digits.
pub fn invoice_amount(amount_text: &[u8], currency: &[u8], price: Option<SignedAmount>) -> (r:
    Result<Amount, GatewayError>)
    requires
        price is Some ==> price.unwrap().wf(),
    ensures
        match r {
            Ok(owed) => {
                &&& parse_decimal(amount_text@) is Some
                &&& parse_decimal(amount_text@).unwrap() > 0
                &&& owed.wf()
                &&& if is_xmr(currency@) {
                    owed.atomic as int == parse_decimal(amount_text@).unwrap()
                } else {
                    &&& price is Some
                    &&& price.unwrap().value() > 0
                    &&& owed.atomic as int == converted_atomic(
                        parse_decimal(amount_text@).unwrap(),
                        price.unwrap().value(),
                    )
                }
            },
            Err(e) => {
                let pv = parse_decimal(amount_text@);
                if pv is None || pv.unwrap() <= 0 {
                    e == GatewayError::InvalidAmount
                } else if is_xmr(currency@) {
                    false
                } else if price is None {
                    e == GatewayError::PriceUnavailable
                } else if price.unwrap().value() <= 0 {
                    e == GatewayError::InvalidAmount
                } else {
                    e == GatewayError::InvalidAmount && converted_atomic(
                        pv.unwrap(),
                        price.unwrap().value(),
                    ) >= MAX_ATOMIC
                }
            },
        },
{
    match parse_positive_amount(amount_text) {
        Err(e) => Err(e),
        Ok(amt) => {
            if currency_is_xmr(currency) {
                Ok(amt)
            } else {
                match price {
                    None => Err(GatewayError::PriceUnavailable),
                    Some(p) => {
                        if p.negative || p.magnitude == 0 {
                            Err(GatewayError::InvalidAmount)
                        } else {
                            convert_to_xmr(amt, Amount { atomic: p.magnitude })
                        }
                    },
                }
            }
        },
    }
}

/// Attaches the wallet's allocation to the computed amount. The invoice
/// reports exactly the allocated address and index, under account zero.
pub fn build_invoice(owed: Amount, sub: SubaddressResult) -> (inv: Invoice)
    ensures
        inv.address == sub.address,
        inv.account_index == 0,
        inv.address_index == sub.address_index,
        inv.amount_owed == owed,
{
    Invoice {
        address: sub.address,
        account_index: 0,
        address_index: sub.address_index,
        amount_owed: owed,
    }
}

/// An invoice's identity is its subaddress index: invoices carrying the
/// distinct indices that distinct allocations return are distinct.
pub proof fn lemma_invoice_identity(a: Invoice, b: Invoice)
    requires
        a.address_index != b.address_index,
    ensures
        a != b,
{
}

/// For an invoice issued in XMR itself, the decimal text it displays
/// denotes exactly the value the request's text denoted: the owed amount
/// passes through unchanged, in normalized decimal form.
pub proof fn lemma_xmr_invoice_text_exact(amount_text: Seq<u8>, owed: Amount)
    requires
        owed.wf(),
        parse_decimal(amount_text) == Some(owed.atomic as int),
    ensures
        parse_decimal(format_atomic(owed.atomic as nat)) == parse_decimal(amount_text),
{
    crate::amount::lemma_format_parse_roundtrip(owed.atomic);
}

} // verus!
