//! A base62 codec for 128-bit values.
//!
//! The codec translates between an unsigned 128-bit integer (the sixteen raw
//! bytes of a UUID, read big-endian) and its base62 text form over the
//! alphabet `0-9 A-Z a-z`, most significant digit first, with no padding.

use vstd::prelude::*;

pub mod bytes;
pub mod codec;
pub mod error;

verus! {

pub use crate::error::Base62Error;

use crate::bytes::be_bytes_value;
use crate::codec::base62_value;
use crate::codec::decode_ok;
use crate::codec::is_canonical;

/// Encodes a 16-byte big-endian buffer — a UUID's raw bytes — as canonical
/// base62 text of at most 22 characters. A buffer of any other length is
/// rejected as `InvalidInput`; on a 16-byte buffer the call always
/// succeeds.
pub fn base62_encode(input: &[u8]) -> (r: Result<String, Base62Error>)
    ensures
        r is Ok <==> input@.len() == 16,
        r is Ok ==> {
            let s = r->Ok_0@;
            &&& is_canonical(s)
            &&& base62_value(s) == be_bytes_value(input@)
            &&& s.len() <= 22
        },
        r is Err ==> r->Err_0 == Base62Error::InvalidInput,
{
    match bytes::value_from_be_bytes(input) {
        Ok(v) => Ok(codec::encode(v)),
        Err(e) => Err(e),
    }
}

/// Decodes base62 text back to the 16 big-endian bytes of the value it
/// denotes. It succeeds exactly on non-empty alphabet-only strings whose
/// value fits in 128 bits; everything else is rejected as `DecodeError`.
pub fn base62_decode(input: &str) -> (r: Result<Vec<u8>, Base62Error>)
    ensures
        r is Ok <==> decode_ok(input@),
        r is Ok ==> {
            let out = r->Ok_0@;
            &&& out.len() == 16
            &&& be_bytes_value(out) == base62_value(input@)
        },
        r is Err ==> r->Err_0 == Base62Error::DecodeError,
{
    match codec::decode(input) {
        Ok(v) => Ok(bytes::value_to_be_bytes(v)),
        Err(e) => Err(e),
    }
}

} // verus!
