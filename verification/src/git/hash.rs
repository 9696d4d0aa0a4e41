//! Object id helpers.
use vstd::prelude::*;
use crate::model::bytes::oid_at;
use crate::model::object::{frame, object_frame};
use crate::model::outside::{hex_decode, hex_encode, sha1_smol, sha1_smol_of, trim, trimmed};
use crate::model::text::{hex, is_hex, unhex};

verus! {

/// The object id of raw content of type `kind_name`: the SHA-1 of the framed content.
pub fn object_id(kind_name: &str, content: &[u8]) -> (id: [u8; 20])
    ensures
        id@ == sha1_smol_of(object_frame(kind_name@, content@)),
{
    let framed = frame(kind_name, content);
    sha1_smol(framed.as_slice())
}

pub fn sha1_hex(data: &[u8]) -> (s: String)
    ensures
        s@ == hex(sha1_smol_of(data@)),
{
    hex_encode(sha1_smol(data).as_slice())
}

pub fn sha1_bytes(data: &[u8]) -> (id: [u8; 20])
    ensures
        id@ == sha1_smol_of(data@),
{
    sha1_smol(data)
}

pub fn to_hex(id: &[u8; 20]) -> (s: String)
    ensures
        s@ == hex(id@),
{
    hex_encode(id.as_slice())
}

/// Reads the 40 hexadecimal digits of an id; white space around them is ignored.
pub fn parse_hex(s: &str) -> (r: Option<[u8; 20]>)
    ensures
        ({
            let t = trimmed(s@);
            match r {
                Some(id) => is_hex(t) && t.len() == 40 && id@ == unhex(t),
                None => !is_hex(t) || t.len() != 40,
            }
        }),
{
    let t = trim(s);
    match hex_decode(t.as_str()) {
        None => None,
        Some(v) => {
            if v.len() != 20 {
                return None;
            }
            let id = oid_at(v.as_slice(), 0);
            assert(id@ =~= v@);
            Some(id)
        },
    }
}

} // verus!
