//! Object types, object ids and the variable-length sizes of deltas.
use vstd::prelude::*;
use crate::model::object::{frame, object_frame};
use crate::model::outside::{hex_encode, sha1, sha1_of};
use crate::model::text::{hex, same_text};
use crate::model::varint::{le128_scan, scan_le128, Scan};

verus! {

#[derive(Clone, Copy, PartialEq, Eq, Debug, Hash, Structural)]
pub enum ObjType {
    Commit,
    Tree,
    Blob,
    Tag,
    OfsDelta,
    RefDelta,
}

impl ObjType {
    pub open spec fn of_code(code: u8) -> Option<ObjType> {
        if code == 1 {
            Some(ObjType::Commit)
        } else if code == 2 {
            Some(ObjType::Tree)
        } else if code == 3 {
            Some(ObjType::Blob)
        } else if code == 4 {
            Some(ObjType::Tag)
        } else if code == 6 {
            Some(ObjType::OfsDelta)
        } else if code == 7 {
            Some(ObjType::RefDelta)
        } else {
            None
        }
    }

    pub open spec fn of_text(name: Seq<char>) -> Option<ObjType> {
        if name == "commit"@ {
            Some(ObjType::Commit)
        } else if name == "tree"@ {
            Some(ObjType::Tree)
        } else if name == "blob"@ {
            Some(ObjType::Blob)
        } else if name == "tag"@ {
            Some(ObjType::Tag)
        } else if name == "ofs_delta"@ {
            Some(ObjType::OfsDelta)
        } else if name == "ref_delta"@ {
            Some(ObjType::RefDelta)
        } else {
            None
        }
    }

    pub open spec fn text(self) -> Seq<char> {
        match self {
            ObjType::Commit => "commit"@,
            ObjType::Tree => "tree"@,
            ObjType::Blob => "blob"@,
            ObjType::Tag => "tag"@,
            ObjType::OfsDelta => "ofs_delta"@,
            ObjType::RefDelta => "ref_delta"@,
        }
    }

    pub open spec fn delta(self) -> bool {
        self == ObjType::OfsDelta || self == ObjType::RefDelta
    }

    pub fn from_code(code: u8) -> (r: Option<ObjType>)
        ensures
            r == Self::of_code(code),
    {
        match code {
            1 => Some(ObjType::Commit),
            2 => Some(ObjType::Tree),
            3 => Some(ObjType::Blob),
            4 => Some(ObjType::Tag),
            6 => Some(ObjType::OfsDelta),
            7 => Some(ObjType::RefDelta),
            _ => None,
        }
    }

    pub fn from_name(name: &str) -> (r: Option<ObjType>)
        ensures
            r == Self::of_text(name@),
    {
        if same_text(name, "commit") {
            Some(ObjType::Commit)
        } else if same_text(name, "tree") {
            Some(ObjType::Tree)
        } else if same_text(name, "blob") {
            Some(ObjType::Blob)
        } else if same_text(name, "tag") {
            Some(ObjType::Tag)
        } else if same_text(name, "ofs_delta") {
            Some(ObjType::OfsDelta)
        } else if same_text(name, "ref_delta") {
            Some(ObjType::RefDelta)
        } else {
            None
        }
    }

    pub fn name(&self) -> (s: &'static str)
        ensures
            s@ == self.text(),
    {
        match self {
            ObjType::Commit => "commit",
            ObjType::Tree => "tree",
            ObjType::Blob => "blob",
            ObjType::Tag => "tag",
            ObjType::OfsDelta => "ofs_delta",
            ObjType::RefDelta => "ref_delta",
        }
    }

    pub fn is_delta(&self) -> (r: bool)
        ensures
            r == self.delta(),
    {
        matches!(*self, ObjType::OfsDelta | ObjType::RefDelta)
    }
}

/// A type is read back from its name.
pub proof fn names_are_read_back(t: ObjType)
    ensures
        ObjType::of_text(t.text()) == Some(t),
{
    reveal_strlit("commit");
    reveal_strlit("tree");
    reveal_strlit("blob");
    reveal_strlit("tag");
    reveal_strlit("ofs_delta");
    reveal_strlit("ref_delta");
    assert("commit"@.len() == 6 && "tree"@.len() == 4 && "blob"@.len() == 4 && "tag"@.len() == 3);
    assert("ofs_delta"@.len() == 9 && "ref_delta"@.len() == 9);
    assert("tree"@[0] == 't' && "blob"@[0] == 'b');
    assert("ofs_delta"@[0] == 'o' && "ref_delta"@[0] == 'r');
}

/// The hexadecimal object id: the SHA-1 of `<type> <size>\0<content>`.
pub fn oid_hex(kind_name: &str, content: &[u8]) -> (s: String)
    ensures
        s@ == hex(sha1_of(object_frame(kind_name@, content@))),
{
    let framed = frame(kind_name, content);
    let id = sha1(framed.as_slice());
    hex_encode(id.as_slice())
}

pub fn sha1_hex(bytes: &[u8]) -> (s: String)
    ensures
        s@ == hex(sha1_of(bytes@)),
{
    let id = sha1(bytes);
    hex_encode(id.as_slice())
}

/// Reads the little-endian number of 7-bit groups at `pos` and moves `pos` behind what was read.
pub fn read_size_varint(buf: &[u8], pos: &mut usize) -> (r: Result<u64, String>)
    ensures
        ({
            let s = if *old(pos) <= buf@.len() {
                buf@.skip(*old(pos) as int)
            } else {
                Seq::empty()
            };
            match le128_scan(s) {
                Scan::Value { value, len } => r == Ok::<u64, String>(value) && *final(pos) == *old(pos) + len,
                Scan::Truncated => r matches Err(e) && e@ == "变长整数读取越界"@ && *final(pos) == *old(pos)
                    + s.len(),
                Scan::TooLong => r matches Err(e) && e@ == "变长整数过长"@ && *final(pos) == *old(pos) + 10,
            }
        }),
{
    if *pos > buf.len() {
        return Err("变长整数读取越界".to_owned());
    }
    proof {
        crate::model::varint::lemma_run_bounds(buf@.skip(*pos as int));
    }
    match scan_le128(buf, *pos) {
        Scan::Value { value, len } => {
            *pos = *pos + len;
            Ok(value)
        },
        Scan::Truncated => {
            *pos = buf.len();
            Err("变长整数读取越界".to_owned())
        },
        Scan::TooLong => {
            assert(*pos + 10 <= buf.len());
            *pos = *pos + 10;
            Err("变长整数过长".to_owned())
        },
    }
}

} // verus!
