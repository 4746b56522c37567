use moneromerchd::amount::{format_atomic_text, parse_decimal_text, Amount, SignedAmount};
use moneromerchd::config::Config;
use moneromerchd::convert::convert_to_xmr;
use moneromerchd::errors::GatewayError;
use moneromerchd::invoice::{
    build_invoice, currency_is_xmr, default_currency, invoice_amount, parse_positive_amount,
};
use moneromerchd::payment::{check_payment, evaluate_payment};
use moneromerchd::price::{currency_for_feed, parse_price};
use moneromerchd::rpc::{resolve_response, JsonRpcError, JsonRpcRequest, JsonRpcResponse, RpcId};
use moneromerchd::wallet::{merge_transfer_buckets, normalize_rpc_url, SubaddressResult, TransferEntry};

fn parsed(s: &str) -> Option<SignedAmount> {
    parse_decimal_text(s.as_bytes())
}

fn transfer(amount: u64, confirmations: u64, txid: &str) -> TransferEntry {
    TransferEntry { amount, confirmations, txid: txid.to_owned() }
}

#[test]
fn parse_simple_amounts() {
    assert_eq!(parsed("1.5"), Some(SignedAmount { negative: false, magnitude: 1_500_000_000_000 }));
    assert_eq!(parsed("0.51"), Some(SignedAmount { negative: false, magnitude: 510_000_000_000 }));
    assert_eq!(parsed("007"), Some(SignedAmount { negative: false, magnitude: 7_000_000_000_000 }));
    assert_eq!(parsed("1."), Some(SignedAmount { negative: false, magnitude: 1_000_000_000_000 }));
    assert_eq!(parsed(".5"), Some(SignedAmount { negative: false, magnitude: 500_000_000_000 }));
    assert_eq!(
        parsed("0.000000000001"),
        Some(SignedAmount { negative: false, magnitude: 1 })
    );
}

#[test]
fn parse_signs() {
    assert_eq!(parsed("-2"), Some(SignedAmount { negative: true, magnitude: 2_000_000_000_000 }));
    assert_eq!(parsed("+2.5"), Some(SignedAmount { negative: false, magnitude: 2_500_000_000_000 }));
    // negative zero normalizes to plain zero
    assert_eq!(parsed("-0"), Some(SignedAmount { negative: false, magnitude: 0 }));
}

#[test]
fn parse_rejects_malformed_text() {
    assert_eq!(parsed(""), None);
    assert_eq!(parsed("."), None);
    assert_eq!(parsed("-"), None);
    assert_eq!(parsed("abc"), None);
    assert_eq!(parsed("1..2"), None);
    assert_eq!(parsed("1.2.3"), None);
    assert_eq!(parsed("1a"), None);
    assert_eq!(parsed(" 1"), None);
    assert_eq!(parsed("1 "), None);
}

#[test]
fn parse_atomic_precision_boundary() {
    // a thirteenth fractional digit is finer than an atomic unit
    assert_eq!(parsed("0.0000000000001"), None);
    // unless it is zero, which changes nothing
    assert_eq!(
        parsed("1.0000000000000"),
        Some(SignedAmount { negative: false, magnitude: 1_000_000_000_000 })
    );
}

#[test]
fn parse_range_boundary() {
    assert_eq!(parsed("100000000000000"), None);
    assert_eq!(
        parsed("99999999999999"),
        Some(SignedAmount { negative: false, magnitude: 99_999_999_999_999_000_000_000_000 })
    );
}

#[test]
fn format_canonical_text() {
    assert_eq!(format_atomic_text(510_000_000_000), b"0.51".to_vec());
    assert_eq!(format_atomic_text(1_000_000_000_000), b"1".to_vec());
    assert_eq!(format_atomic_text(1_500_000_000_000), b"1.5".to_vec());
    assert_eq!(format_atomic_text(0), b"0".to_vec());
    assert_eq!(format_atomic_text(1_000_000_000_001), b"1.000000000001".to_vec());
    assert_eq!(format_atomic_text(123), b"0.000000000123".to_vec());
}

#[test]
fn format_parse_round_trip() {
    for atomic in [0u128, 1, 510_000_000_000, 1_000_000_000_000, 123_456_789_012_345] {
        let text = format_atomic_text(atomic);
        let back = parse_decimal_text(&text).expect("canonical text must parse");
        assert!(!back.negative);
        assert_eq!(back.magnitude, atomic);
    }
}

#[test]
fn convert_exact_quotient() {
    // 100 units at 50 units per XMR owes exactly 2 XMR
    let amount = Amount { atomic: 100_000_000_000_000 };
    let price = Amount { atomic: 50_000_000_000_000 };
    assert_eq!(convert_to_xmr(amount, price), Ok(Amount { atomic: 2_000_000_000_000 }));
}

#[test]
fn convert_rounds_half_up() {
    // one atomic unit at two XMR per unit is half an atomic unit: rounds up
    assert_eq!(
        convert_to_xmr(Amount { atomic: 1 }, Amount { atomic: 2_000_000_000_000 }),
        Ok(Amount { atomic: 1 })
    );
    // below the midpoint it rounds down
    assert_eq!(
        convert_to_xmr(Amount { atomic: 1 }, Amount { atomic: 3_000_000_000_000 }),
        Ok(Amount { atomic: 0 })
    );
    // a third of an XMR truncates at twelve digits
    assert_eq!(
        convert_to_xmr(Amount { atomic: 1_000_000_000_000 }, Amount { atomic: 3_000_000_000_000 }),
        Ok(Amount { atomic: 333_333_333_333 })
    );
}

#[test]
fn convert_monotonic_samples() {
    // monotonic in the amount at a fixed price
    let price = Amount { atomic: 7_000_000_000_000 };
    let mut last = 0u128;
    for a in [1u128, 5, 100, 1_000_000_000_000, 9_000_000_000_000_000] {
        let owed = convert_to_xmr(Amount { atomic: a }, price).unwrap().atomic;
        assert!(owed >= last);
        last = owed;
    }
    // antitone in the price at a fixed amount
    let amount = Amount { atomic: 9_000_000_000_000_000 };
    let mut last = u128::MAX;
    for p in [1_000_000u128, 1_000_000_000_000, 3_000_000_000_000, 50_000_000_000_000] {
        let owed = convert_to_xmr(amount, Amount { atomic: p }).unwrap().atomic;
        assert!(owed <= last);
        last = owed;
    }
}

#[test]
fn convert_rejects_zero_price() {
    assert_eq!(
        convert_to_xmr(Amount { atomic: 1 }, Amount { atomic: 0 }),
        Err(GatewayError::InvalidAmount)
    );
}

#[test]
fn payment_aggregates_confirmed_and_pool() {
    // one confirmed transfer of 0.5 XMR and one pool transfer of 0.01 XMR
    let confirmed = vec![transfer(500_000_000_000, 3, "aa")];
    let pool = vec![transfer(10_000_000_000, 0, "bb")];
    let transfers = merge_transfer_buckets(Some(confirmed), Some(pool));
    let status = check_payment(&transfers, b"0.51").unwrap();
    assert_eq!(status.total_received_atomic, 510_000_000_000);
    assert_eq!(format_atomic_text(status.total_received_atomic), b"0.51".to_vec());
    assert_eq!(status.confirmations, 0);
    assert_eq!(status.tx_count, 2);
    assert!(status.paid);
}

#[test]
fn payment_boundary_equality_is_paid() {
    let transfers = vec![transfer(1_000_000_000_000, 1, "aa")];
    let status = check_payment(&transfers, b"1.000000000000").unwrap();
    assert!(status.paid);
    let transfers = vec![transfer(999_999_999_999, 1, "aa")];
    let status = check_payment(&transfers, b"1.000000000000").unwrap();
    assert!(!status.paid);
}

#[test]
fn payment_empty_transfer_list() {
    let transfers: Vec<TransferEntry> = Vec::new();
    let status = check_payment(&transfers, b"0").unwrap();
    assert_eq!(status.total_received_atomic, 0);
    assert_eq!(status.confirmations, 0);
    assert_eq!(status.tx_count, 0);
    assert!(status.paid);
    let status = check_payment(&transfers, b"0.1").unwrap();
    assert!(!status.paid);
}

#[test]
fn payment_negative_expected_counts_as_paid() {
    let transfers: Vec<TransferEntry> = Vec::new();
    let expected = parse_decimal_text(b"-1").unwrap();
    let status = evaluate_payment(&transfers, expected);
    assert!(status.paid);
}

#[test]
fn payment_minimum_confirmation_policy() {
    let transfers = vec![transfer(1, 9, "aa"), transfer(1, 2, "bb"), transfer(1, 5, "cc")];
    let status = evaluate_payment(&transfers, SignedAmount { negative: false, magnitude: 0 });
    assert_eq!(status.confirmations, 2);
}

#[test]
fn payment_rejects_unparsable_expected_amount() {
    let transfers: Vec<TransferEntry> = Vec::new();
    assert!(matches!(
        check_payment(&transfers, b"zzz"),
        Err(GatewayError::InvalidAmount)
    ));
}

#[test]
fn rpc_missing_result_is_protocol_error() {
    // "result": null with no error object must not become a default value
    let resp: JsonRpcResponse<u32> = JsonRpcResponse {
        jsonrpc: "2.0".to_owned(),
        id: RpcId::Str("0".to_owned()),
        result: None,
        error: None,
    };
    assert_eq!(resolve_response(resp), Err(GatewayError::ProtocolError));
}

#[test]
fn rpc_error_takes_precedence_over_result() {
    let resp: JsonRpcResponse<u32> = JsonRpcResponse {
        jsonrpc: "2.0".to_owned(),
        id: RpcId::Int(0),
        result: Some(7),
        error: Some(JsonRpcError { code: -32601, message: "no such method".to_owned() }),
    };
    assert_eq!(
        resolve_response(resp),
        Err(GatewayError::BackendRejected { code: -32601, message: "no such method".to_owned() })
    );
}

#[test]
fn rpc_result_accepted_without_error() {
    let resp: JsonRpcResponse<u32> = JsonRpcResponse {
        jsonrpc: "2.0".to_owned(),
        id: RpcId::Null,
        result: Some(7),
        error: None,
    };
    assert_eq!(resolve_response(resp), Ok(7));
}

#[test]
fn rpc_request_envelope() {
    let req = JsonRpcRequest::new("get_transfers", 42u32);
    assert_eq!(req.jsonrpc, "2.0");
    assert_eq!(req.id, "0");
    assert_eq!(req.method, "get_transfers");
    assert_eq!(req.params, 42);
}

#[test]
fn url_normalization() {
    assert_eq!(
        normalize_rpc_url(b"http://127.0.0.1:18083"),
        b"http://127.0.0.1:18083/json_rpc".to_vec()
    );
    assert_eq!(normalize_rpc_url(b"http://host/"), b"http://host/json_rpc".to_vec());
    assert_eq!(normalize_rpc_url(b"http://host///"), b"http://host/json_rpc".to_vec());
    assert_eq!(
        normalize_rpc_url(b"http://host/json_rpc"),
        b"http://host/json_rpc".to_vec()
    );
}

#[test]
fn merge_keeps_order_and_handles_missing_buckets() {
    let merged = merge_transfer_buckets(
        Some(vec![transfer(1, 1, "aa"), transfer(2, 2, "bb")]),
        Some(vec![transfer(3, 0, "cc")]),
    );
    let ids: Vec<&str> = merged.iter().map(|t| t.txid.as_str()).collect();
    assert_eq!(ids, vec!["aa", "bb", "cc"]);
    assert_eq!(merge_transfer_buckets(None, None).len(), 0);
    assert_eq!(merge_transfer_buckets(Some(vec![transfer(1, 1, "aa")]), None).len(), 1);
    assert_eq!(merge_transfer_buckets(None, Some(vec![transfer(1, 0, "aa")])).len(), 1);
}

#[test]
fn currency_codes() {
    assert!(currency_is_xmr(b"XMR"));
    assert!(currency_is_xmr(b"xmr"));
    assert!(currency_is_xmr(b"Xmr"));
    assert!(!currency_is_xmr(b"usd"));
    assert!(!currency_is_xmr(b"XM"));
    assert!(!currency_is_xmr(b"XMRX"));
    assert_eq!(default_currency(), b"XMR".to_vec());
    assert_eq!(currency_for_feed(b"USD"), b"usd".to_vec());
    assert_eq!(currency_for_feed(b"eur"), b"eur".to_vec());
}

#[test]
fn price_validation() {
    assert_eq!(parse_price(b"142.5"), Ok(Amount { atomic: 142_500_000_000_000 }));
    assert_eq!(parse_price(b"0"), Err(GatewayError::InvalidPrice));
    assert_eq!(parse_price(b"-3"), Err(GatewayError::InvalidPrice));
    assert_eq!(parse_price(b"n/a"), Err(GatewayError::PriceUnavailable));
}

#[test]
fn invoice_in_xmr_echoes_amount_exactly() {
    let owed = invoice_amount(b"1.5", b"XMR", None).unwrap();
    assert_eq!(owed.atomic, 1_500_000_000_000);
    let sub = SubaddressResult { address: "subaddr".to_owned(), address_index: 4 };
    let inv = build_invoice(owed, sub);
    assert_eq!(inv.amount_xmr_text(), b"1.5".to_vec());
    assert_eq!(inv.account_index, 0);
    assert_eq!(inv.address_index, 4);
    assert_eq!(inv.address, "subaddr");
    // normalized form: the value survives, the spelling is canonical
    let owed = invoice_amount(b"01.50", b"xmr", None).unwrap();
    assert_eq!(format_atomic_text(owed.atomic), b"1.5".to_vec());
}

#[test]
fn invoice_rejects_bad_amounts() {
    for bad in [&b"-1"[..], &b"0"[..], &b"abc"[..], &b""[..], &b"1.2.3"[..]] {
        assert!(matches!(
            invoice_amount(bad, b"XMR", None),
            Err(GatewayError::InvalidAmount)
        ));
    }
}

#[test]
fn positive_amount_validation() {
    assert_eq!(
        parse_positive_amount(b"2.5"),
        Ok(Amount { atomic: 2_500_000_000_000 })
    );
    for bad in [&b"0"[..], &b"-0.1"[..], &b"x"[..]] {
        assert_eq!(parse_positive_amount(bad), Err(GatewayError::InvalidAmount));
    }
}

#[test]
fn invoice_conversion_overflow_is_rejected() {
    // the largest parsable amount at the smallest positive price converts
    // to more XMR than the gateway's range
    let tiny_price = Some(SignedAmount { negative: false, magnitude: 1 });
    assert!(matches!(
        invoice_amount(b"99999999999999", b"usd", tiny_price),
        Err(GatewayError::InvalidAmount)
    ));
}

#[test]
fn invoice_conversion_path() {
    let price = Some(SignedAmount { negative: false, magnitude: 50_000_000_000_000 });
    let owed = invoice_amount(b"100", b"usd", price).unwrap();
    assert_eq!(owed.atomic, 2_000_000_000_000);
    assert!(matches!(
        invoice_amount(b"100", b"usd", None),
        Err(GatewayError::PriceUnavailable)
    ));
    let negative = Some(SignedAmount { negative: true, magnitude: 5 });
    assert!(matches!(
        invoice_amount(b"100", b"usd", negative),
        Err(GatewayError::InvalidAmount)
    ));
}

struct StubWallet {
    next_index: u32,
}

impl StubWallet {
    fn create_subaddress(&mut self) -> SubaddressResult {
        let idx = self.next_index;
        self.next_index += 1;
        SubaddressResult { address: format!("sub{}", idx), address_index: idx }
    }
}

#[test]
fn concurrent_issuance_gets_distinct_indices() {
    // the backend increments its counter per allocation; each invoice keeps
    // the index it was allocated, so no two invoices share one
    let mut wallet = StubWallet { next_index: 0 };
    let mut seen: Vec<u32> = Vec::new();
    for _ in 0..8 {
        let owed = invoice_amount(b"1", b"XMR", None).unwrap();
        let inv = build_invoice(owed, wallet.create_subaddress());
        assert!(!seen.contains(&inv.address_index));
        seen.push(inv.address_index);
    }
}

#[test]
fn failed_issuance_allocates_no_subaddress() {
    // the amount is validated before any allocation happens
    let mut wallet = StubWallet { next_index: 0 };
    let r = invoice_amount(b"-1", b"XMR", None);
    assert!(matches!(r, Err(GatewayError::InvalidAmount)));
    // the stub was never asked for an address
    assert_eq!(wallet.next_index, 0);
    let owed = invoice_amount(b"1", b"XMR", None).unwrap();
    let inv = build_invoice(owed, wallet.create_subaddress());
    assert_eq!(inv.address_index, 0);
}

#[test]
fn config_defaults() {
    let c = Config::default();
    assert_eq!(c.wallet_rpc_url, "http://127.0.0.1:18083");
    assert_eq!(c.wallet_rpc_user, None);
    assert_eq!(c.wallet_rpc_password, None);
    assert_eq!(c.wallet_dir, "wallet");
    assert_eq!(c.listen, "127.0.0.1:8080");
}
