//! The JSON-RPC envelope spoken to the wallet backend, and the order in
//! which a response resolves: an error object always wins, a missing result
//! is a protocol violation, and only then is the result accepted.

use vstd::prelude::*;
use crate::errors::GatewayError;

verus! {

/// Request envelope: protocol version tag, request id, method and params.
pub struct JsonRpcRequest<T> {
    pub jsonrpc: &'static str,
    pub id: &'static str,
    pub method: &'static str,
    pub params: T,
}

impl<T> JsonRpcRequest<T> {
    /// Builds the envelope for one call, tagged with protocol version 2.0.
    pub fn new(method: &'static str, params: T) -> (r: JsonRpcRequest<T>)
        ensures
            r.jsonrpc@ == "2.0"@,
            r.id@ == "0"@,
            r.method@ == method@,
            r.params == params,
    {
        JsonRpcRequest { jsonrpc: "2.0", id: "0", method, params }
    }
}

/// Response envelope. The backend may legally return `result: null`, so
/// both fields are optional and their combination must be resolved.
pub struct JsonRpcResponse<T> {
    pub jsonrpc: String,
    pub id: RpcId,
    pub result: Option<T>,
    pub error: Option<JsonRpcError>,
}

/// Structured error object carried by a rejecting response.
#[derive(Debug, Clone, PartialEq, Eq)]
pub struct JsonRpcError {
    pub code: i32,
    pub message: String,
}

/// A response's id echoes the request's: a string, a number, or null.
#[derive(Debug, Clone, PartialEq, Eq)]
pub enum RpcId {
    Str(String),
    Int(i64),
    Null,
}

/// Resolves a decoded response body into the call's outcome.
///
/// The resolution order is fixed: a present `error` object always takes
/// precedence, even when a `result` is also present; with no error, a
/// missing `result` is rejected as a protocol violation rather than being
/// treated as an empty value; only then is the result handed out.
pub fn resolve_response<T>(resp: JsonRpcResponse<T>) -> (r: Result<T, GatewayError>)
    ensures
        match resp.error {
            Some(e) => r == Err::<T, GatewayError>(
                GatewayError::BackendRejected { code: e.code, message: e.message },
            ),
            None => match resp.result {
                Some(v) => r == Ok::<T, GatewayError>(v),
                None => r == Err::<T, GatewayError>(GatewayError::ProtocolError),
            },
        },
{
    match resp.error {
        Some(e) => Err(GatewayError::BackendRejected { code: e.code, message: e.message }),
        None => match resp.result {
            Some(v) => Ok(v),
            None => Err(GatewayError::ProtocolError),
        },
    }
}

} // verus!
