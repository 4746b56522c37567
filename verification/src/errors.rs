use vstd::prelude::*;

verus! {

/// The gateway's error taxonomy.
///
/// Client input errors (`InvalidAmount`), price-feed failures
/// (`UnknownCurrency`, `InvalidPrice`, `PriceUnavailable`) and wallet-backend
/// failures (`BackendUnreachable`, `BackendRejected`, `ProtocolError`) share
/// one channel so every workflow reports through the same type.
#[derive(Debug, Clone, PartialEq, Eq)]
pub enum GatewayError {
    /// The merchant-supplied amount was unparsable or non-positive.
    InvalidAmount,
    /// The price feed has no quote for the requested currency code.
    UnknownCurrency,
    /// The price feed returned a zero or negative price, which is never trusted.
    InvalidPrice,
    /// The price feed could not be reached or its answer could not be read.
    PriceUnavailable,
    /// Transport to the wallet backend failed.
    BackendUnreachable { message: String },
    /// The wallet backend answered with a structured RPC error object.
    BackendRejected { code: i32, message: String },
    /// The wallet backend's answer was malformed: neither result nor error.
    ProtocolError,
}

} // verus!
