//! Payment verification: aggregate the transfers seen for one invoice's
//! subaddress and decide whether it is paid.

use vstd::prelude::*;
use crate::amount::{parse_decimal, parse_decimal_text, SignedAmount};
use crate::errors::GatewayError;
use crate::wallet::TransferEntry;

verus! {

/// Exact sum of the transfers' amounts in atomic units.
pub open spec fn total_atomic(ts: Seq<TransferEntry>) -> int
    decreases ts.len(),
{
    if ts.len() == 0 {
        0
    } else {
        total_atomic(ts.drop_last()) + ts.last().amount
    }
}

/// The aggregation policy for confirmations is the minimum across all
/// contributing transfers — an invoice is only as confirmed as the
/// least-confirmed part of its payment — and zero when there are none.
pub open spec fn min_confirmations(ts: Seq<TransferEntry>) -> u64
    decreases ts.len(),
{
    if ts.len() == 0 {
        0
    } else if ts.len() == 1 {
        ts[0].confirmations
    } else {
        let rest = min_confirmations(ts.drop_last());
        if ts.last().confirmations < rest {
            ts.last().confirmations
        } else {
            rest
        }
    }
}

/// Payment status derived fresh from the wallet's live transfer list.
pub struct PaymentStatus {
    pub total_received_atomic: u128,
    pub confirmations: u64,
    pub tx_count: usize,
    pub paid: bool,
}

/// Decides payment status for one invoice: the exact integer sum of all
/// matching transfers (confirmed and pool), the minimum confirmation depth,
/// the transfer count, and `paid` exactly when the total received is at
/// least the expected amount — equality counts as paid.
pub fn evaluate_payment(transfers: &Vec<TransferEntry>, expected: SignedAmount) -> (r:
    PaymentStatus)
    ensures
        r.total_received_atomic as int == total_atomic(transfers@),
        r.confirmations == min_confirmations(transfers@),
        r.tx_count == transfers@.len(),
        r.paid == (total_atomic(transfers@) >= expected.value()),
{
    let n: usize = transfers.len();
    let mut i: usize = 0;
    let mut total: u128 = 0;
    let mut conf: u64 = 0;
    while i < n
        invariant
            i <= n,
            n == transfers@.len(),
            total as int == total_atomic(transfers@.take(i as int)),
            total as int <= i * 0xffff_ffff_ffff_ffffu64 as int,
            conf as int == if i == 0 {
                0
            } else {
                min_confirmations(transfers@.take(i as int)) as int
            },
        decreases n - i,
    {
        proof {
            assert(transfers@.take(i + 1).drop_last() =~= transfers@.take(i as int));
            assert(transfers@.take(i + 1).last() == transfers@[i as int]);
        }
        let a: u64 = transfers[i].amount;
        let c: u64 = transfers[i].confirmations;
        total = total + a as u128;
        if i == 0 {
            conf = c;
        } else if c < conf {
            conf = c;
        }
        i += 1;
    }
    proof {
        assert(transfers@.take(n as int) =~= transfers@);
    }
    let paid: bool = if expected.negative {
        true
    } else {
        total >= expected.magnitude
    };
    PaymentStatus { total_received_atomic: total, confirmations: conf, tx_count: n, paid }
}

/// The full payment check: parse the expected amount, then aggregate.
/// Fails with `InvalidAmount` exactly when the expected-amount text does
/// not parse; otherwise every field is fixed by the transfer list.
pub fn check_payment(transfers: &Vec<TransferEntry>, expected_text: &[u8]) -> (r: Result<
    PaymentStatus,
    GatewayError,
>)
    ensures
        match r {
            Ok(st) => {
                &&& parse_decimal(expected_text@) is Some
                &&& st.total_received_atomic as int == total_atomic(transfers@)
                &&& st.confirmations == min_confirmations(transfers@)
                &&& st.tx_count == transfers@.len()
                &&& st.paid == (total_atomic(transfers@) >= parse_decimal(
                    expected_text@,
                ).unwrap())
            },
            Err(e) => e == GatewayError::InvalidAmount && parse_decimal(expected_text@) is None,
        },
{
    match parse_decimal_text(expected_text) {
        None => Err(GatewayError::InvalidAmount),
        Some(expected) => Ok(evaluate_payment(transfers, expected)),
    }
}

} // verus!
