//! The JSON codec boundary. Property values are opaque JSON documents;
//! the core never interprets them, it only serializes them on write and
//! parses them back on read.

use vstd::prelude::*;

use crate::types::Error;

verus! {

#[verifier::external_type_specification]
#[verifier::external_body]
pub struct ExJsonValue(serde_json::Value);

/// The byte serialization of a JSON value. It is a function of the value
/// alone: object keys live in ordered maps, so the writer is
/// deterministic across processes and machines.
pub uninterp spec fn json_bytes_of(v: serde_json::Value) -> Seq<u8>;

/// The parse serde_json gives a byte string: `Some` exactly when the
/// parser accepts it. It is a function of the bytes alone: the parser's
/// recursion limit is a fixed compile-time constant, so acceptance does
/// not vary by process or machine. Note that the writer is not depth
/// limited while the parser is, so not every serialization parses back.
pub uninterp spec fn json_parse_of(b: Seq<u8>) -> Option<serde_json::Value>;

/// Relies on serde_json::to_vec: serializing a self-describing `Value`
/// into a byte vector cannot fail (the writer is infallible and object
/// keys are strings), and writes its canonical byte form, named
/// `json_bytes_of`.
#[verifier::external_body]
pub fn json_to_bytes(v: &serde_json::Value) -> (r: Result<Vec<u8>, Error>)
    ensures
        r is Ok,
        r matches Ok(b) ==> b@ == json_bytes_of(*v),
{
    match serde_json::to_vec(v) {
        Ok(b) => Ok(b),
        Err(_) => Err(Error::JsonEncode),
    }
}

/// Relies on serde_json::from_slice: it accepts exactly the byte strings
/// named by `json_parse_of`, and on the canonical serialization of a
/// value it can only return that value back.
#[verifier::external_body]
pub fn json_from_bytes(b: &Vec<u8>) -> (r: Result<serde_json::Value, Error>)
    ensures
        r matches Ok(w) ==> json_parse_of(b@) == Some(w),
        r is Err ==> json_parse_of(b@) is None,
        r matches Ok(w) ==> (forall|v: serde_json::Value| b@ == json_bytes_of(v) ==> w == v),
        r matches Err(e) ==> e == Error::JsonDecode,
{
    match serde_json::from_slice(b.as_slice()) {
        Ok(v) => Ok(v),
        Err(_) => Err(Error::JsonDecode),
    }
}

} // verus!
