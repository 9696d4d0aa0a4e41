//! Object ids of typed payloads.
use vstd::prelude::*;
use crate::git::types::ObjType;
use crate::model::bytes::oid_at;
use crate::model::object::{frame, object_frame};
use crate::model::outside::{hex_decode, hex_encode, sha1, sha1_of};
use crate::model::text::{hex, is_hex, unhex};

verus! {

/// Computes the object id for inflated payload bytes: the SHA-1 of the framed payload.
pub fn git_id(kind: ObjType, payload: &[u8]) -> (id: [u8; 20])
    ensures
        id@ == sha1_of(object_frame(kind.text(), payload@)),
{
    let framed = frame(kind.name(), payload);
    sha1(framed.as_slice())
}

pub fn to_hex(id: &[u8; 20]) -> (s: String)
    ensures
        s@ == hex(id@),
{
    hex_encode(id.as_slice())
}

/// Reads the 40 hexadecimal digits of an id.
pub fn from_hex(s: &str) -> (r: Option<[u8; 20]>)
    ensures
        match r {
            Some(id) => is_hex(s@) && s@.len() == 40 && id@ == unhex(s@),
            None => !is_hex(s@) || s@.len() != 40,
        },
{
    match hex_decode(s) {
        None => None,
        Some(v) => {
            if v.len() != 20 {
                return None;
            }
            let id = oid_at(v.as_slice(), 0);
            assert(id@ =~= v@);
            Some(id)
        },
    }
}

/// The hexadecimal form of an id is read back as that id.
pub proof fn hex_form_is_read_back(id: Seq<u8>)
    requires
        id.len() == 20,
    ensures
        is_hex(hex(id)),
        hex(id).len() == 40,
        unhex(hex(id)) == id,
{
    crate::model::text::hex_roundtrip(id);
}

} // verus!
