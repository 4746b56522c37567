//! Wallet-facing data shapes and the pure halves of the wallet client: the
//! endpoint URL normalization and the merge of the two transfer buckets.

use vstd::prelude::*;

verus! {

/// Answer to a subaddress allocation: the new receiving address and its
/// index within the account, the invoice's identity.
pub struct SubaddressResult {
    pub address: String,
    pub address_index: u32,
}

/// One incoming transfer as the wallet reports it: an amount in atomic
/// units, a confirmation depth (zero for pool transactions), and the
/// transaction id, which is informational only.
pub struct TransferEntry {
    pub amount: u64,
    pub confirmations: u64,
    pub txid: String,
}

/// The bytes of "/json_rpc", the single endpoint path of the wallet RPC.
pub open spec fn json_rpc_suffix() -> Seq<u8> {
    seq![47u8, 106u8, 115u8, 111u8, 110u8, 95u8, 114u8, 112u8, 99u8]
}

/// A URL with every trailing slash removed.
pub open spec fn trim_trailing_slashes(s: Seq<u8>) -> Seq<u8>
    decreases s.len(),
{
    if s.len() > 0 && s.last() == 47u8 {
        trim_trailing_slashes(s.drop_last())
    } else {
        s
    }
}

/// The wallet endpoint for a configured base URL: left alone when it
/// already ends in "/json_rpc", otherwise trailing slashes are dropped and
/// "/json_rpc" is appended.
pub open spec fn normalized_rpc_url(s: Seq<u8>) -> Seq<u8> {
    if s.len() >= 9 && s.subrange(s.len() - 9, s.len() as int) == json_rpc_suffix() {
        s
    } else {
        trim_trailing_slashes(s) + json_rpc_suffix()
    }
}

fn json_rpc_suffix_vec() -> (v: Vec<u8>)
    ensures
        v@ == json_rpc_suffix(),
{
    let mut v: Vec<u8> = Vec::new();
    v.push(47);
    v.push(106);
    v.push(115);
    v.push(111);
    v.push(110);
    v.push(95);
    v.push(114);
    v.push(112);
    v.push(99);
    proof {
        assert(v@ =~= json_rpc_suffix());
    }
    v
}

fn ends_with_json_rpc(url: &[u8], sfx: &Vec<u8>) -> (b: bool)
    requires
        sfx@ == json_rpc_suffix(),
    ensures
        b == (url@.len() >= 9 && url@.subrange(url@.len() - 9, url@.len() as int)
            == json_rpc_suffix()),
{
    let n: usize = url.len();
    if n < 9 {
        return false;
    }
    let mut k: usize = 0;
    while k < 9
        invariant
            9 <= n,
            n == url@.len(),
            sfx@ == json_rpc_suffix(),
            k <= 9,
            forall|j: int| 0 <= j < k ==> url@[n - 9 + j] == json_rpc_suffix()[j],
        decreases 9 - k,
    {
        if url[n - 9 + k] != sfx[k] {
            proof {
                if url@.subrange(n - 9, n as int) == json_rpc_suffix() {
                    assert(url@.subrange(n - 9, n as int)[k as int] == url@[n - 9 + k]);
                }
            }
            return false;
        }
        k += 1;
    }
    proof {
        assert(url@.subrange(n - 9, n as int) =~= json_rpc_suffix());
    }
    true
}

/// Normalizes a configured wallet URL so that calls always hit the
/// backend's single "/json_rpc" endpoint, whether or not the operator wrote
/// the path or left trailing slashes.
pub fn normalize_rpc_url(url: &[u8]) -> (r: Vec<u8>)
    ensures
        r@ == normalized_rpc_url(url@),
{
    let sfx = json_rpc_suffix_vec();
    let n: usize = url.len();
    if ends_with_json_rpc(url, &sfx) {
        let mut out: Vec<u8> = Vec::new();
        let mut i: usize = 0;
        while i < n
            invariant
                i <= n,
                n == url@.len(),
                out@ == url@.take(i as int),
            decreases n - i,
        {
            out.push(url[i]);
            proof {
                assert(url@.take(i as int).push(url@[i as int]) =~= url@.take(i + 1));
            }
            i += 1;
        }
        proof {
            assert(url@.take(n as int) =~= url@);
        }
        out
    } else {
        let mut m: usize = n;
        proof {
            assert(url@.take(n as int) =~= url@);
        }
        while m > 0 && url[m - 1] == 47
            invariant
                m <= n,
                n == url@.len(),
                trim_trailing_slashes(url@) == trim_trailing_slashes(url@.take(m as int)),
            decreases m,
        {
            proof {
                assert(url@.take(m as int).last() == url@[m - 1]);
                assert(url@.take(m as int).drop_last() =~= url@.take(m - 1));
            }
            m -= 1;
        }
        proof {
            if m == 0 {
                assert(url@.take(0) =~= Seq::<u8>::empty());
                assert(trim_trailing_slashes(url@) == url@.take(m as int));
            } else {
                assert(url@.take(m as int).last() == url@[m - 1]);
                assert(trim_trailing_slashes(url@) == url@.take(m as int));
            }
        }
        let mut out: Vec<u8> = Vec::new();
        let mut i: usize = 0;
        while i < m
            invariant
                i <= m <= n,
                n == url@.len(),
                out@ == url@.take(i as int),
            decreases m - i,
        {
            out.push(url[i]);
            proof {
                assert(url@.take(i as int).push(url@[i as int]) =~= url@.take(i + 1));
            }
            i += 1;
        }
        let mut k: usize = 0;
        while k < 9
            invariant
                k <= 9,
                sfx@ == json_rpc_suffix(),
                m <= n == url@.len(),
                trim_trailing_slashes(url@) == url@.take(m as int),
                out@ == url@.take(m as int) + json_rpc_suffix().take(k as int),
            decreases 9 - k,
        {
            out.push(sfx[k]);
            proof {
                assert((url@.take(m as int) + json_rpc_suffix().take(k as int)).push(
                    json_rpc_suffix()[k as int],
                ) =~= url@.take(m as int) + json_rpc_suffix().take(k + 1));
            }
            k += 1;
        }
        proof {
            assert(json_rpc_suffix().take(9) =~= json_rpc_suffix());
        }
        out
    }
}

/// Concatenates the wallet's two transfer buckets — confirmed on-chain
/// transfers, then unconfirmed pool transfers — into one sequence. Both
/// buckets count: omitting the pool would report an invoice unpaid in the
/// window between broadcast and first confirmation.
pub fn merge_transfer_buckets(confirmed: Option<Vec<TransferEntry>>, pool: Option<Vec<TransferEntry>>) -> (r: Vec<TransferEntry>)
    ensures
        r@ == (match confirmed {
            Some(c) => c@,
            None => Seq::<TransferEntry>::empty(),
        }) + (match pool {
            Some(p) => p@,
            None => Seq::<TransferEntry>::empty(),
        }),
{
    let mut out: Vec<TransferEntry> = match confirmed {
        Some(c) => c,
        None => Vec::new(),
    };
    let ghost first = out@;
    match pool {
        Some(mut p) => {
            out.append(&mut p);
        },
        None => {
            proof {
                assert(first + Seq::<TransferEntry>::empty() =~= first);
            }
        },
    }
    out
}

} // verus!
