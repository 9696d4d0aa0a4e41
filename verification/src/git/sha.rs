//! SHA-1 helpers.
use vstd::prelude::*;
use crate::model::object::{frame, object_frame};
use crate::model::outside::{hex_encode, sha1, sha1_of};
use crate::model::text::hex;

verus! {

pub fn sha1_hex(data: &[u8]) -> (s: String)
    ensures
        s@ == hex(sha1_of(data@)),
{
    hex_encode(sha1(data).as_slice())
}

/// The object id, in hexadecimal.
pub fn object_id(kind: &str, body: &[u8]) -> (s: String)
    ensures
        s@ == hex(sha1_of(object_frame(kind@, body@))),
{
    let framed = frame(kind, body);
    sha1_hex(framed.as_slice())
}

pub fn raw_sha1(data: &[u8]) -> (id: [u8; 20])
    ensures
        id@ == sha1_of(data@),
{
    sha1(data)
}

} // verus!
