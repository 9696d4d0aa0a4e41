//! Object ids and their comparison.
use vstd::prelude::*;
use crate::git::types::ObjType;
use crate::model::bytes::{oid_at, same_bytes};
use crate::model::crc::crc32_of;
use crate::model::object::{frame, object_frame};
use crate::model::outside::{crc32fast_hash, hex_decode, hex_encode, sha1, sha1_of};
use crate::model::text::{hex, is_hex, unhex};

verus! {

/// Recomputes an object id. A delta has no name in an object frame.
pub fn hash_object(ty: ObjType, content: &[u8]) -> (id: [u8; 20])
    requires
        !ty.delta(),
    ensures
        id@ == sha1_of(object_frame(ty.text(), content@)),
{
    let framed = frame(ty.name(), content);
    sha1(framed.as_slice())
}

/// Reads exactly 40 hexadecimal digits.
pub fn hex20(s: &str) -> (r: Option<[u8; 20]>)
    ensures
        match r {
            Some(id) => is_hex(s@) && s@.len() == 40 && id@ == unhex(s@),
            None => !is_hex(s@) || s@.len() != 40,
        },
{
    match hex_decode(s) {
        None => None,
        Some(v) => {
            if v.len() != 20 {
                return None;
            }
            let id = oid_at(v.as_slice(), 0);
            assert(id@ =~= v@);
            Some(id)
        },
    }
}

pub fn to_hex(oid: &[u8; 20]) -> (s: String)
    ensures
        s@ == hex(oid@),
{
    hex_encode(oid.as_slice())
}

/// Whether `prefix` is the whole id.
pub fn oid_matches(oid: &[u8; 20], prefix: &[u8]) -> (r: bool)
    ensures
        r == (oid@ == prefix@),
{
    same_bytes(oid.as_slice(), prefix)
}

pub fn crc32_zlib_bytes(data: &[u8]) -> (crc: u32)
    ensures
        crc == crc32_of(data@),
{
    crc32fast_hash(data)
}

} // verus!
