//! Object types, headers and ids, and a preview of content.
use vstd::prelude::*;
use vstd::string::{StrSliceExecFns, StringExecFns};
use crate::model::object::{frame, object_frame};
use crate::model::outside::{hex_decode, hex_encode, lossy_text, sha1, sha1_of, utf8_lossy};
use crate::model::text::{hex, is_hex, unhex};
use crate::model::varint::{
    ends, head_bytes, header_code, header_size, header_size_at, le128_scan, lemma_run_bounds, run_at, scan_le128,
    touched, word, Scan,
};

verus! {

#[derive(Debug, Clone, Copy, PartialEq, Eq, Structural)]
pub enum ObjType {
    Commit,
    Tree,
    Blob,
    Tag,
    OfsDelta,
    RefDelta,
}

impl ObjType {
    /// The type with a pack code.
    pub open spec fn of_code(code: u8) -> Option<ObjType> {
        if code == 1 {
            Some(ObjType::Commit)
        } else if code == 2 {
            Some(ObjType::Tree)
        } else if code == 3 {
            Some(ObjType::Blob)
        } else if code == 4 {
            Some(ObjType::Tag)
        } else if code == 6 {
            Some(ObjType::OfsDelta)
        } else if code == 7 {
            Some(ObjType::RefDelta)
        } else {
            None
        }
    }

    /// The name of the type.
    pub open spec fn text(self) -> Seq<char> {
        match self {
            ObjType::Commit => "commit"@,
            ObjType::Tree => "tree"@,
            ObjType::Blob => "blob"@,
            ObjType::Tag => "tag"@,
            ObjType::OfsDelta => "ofs-delta"@,
            ObjType::RefDelta => "ref-delta"@,
        }
    }

    pub fn from_code(code: u8) -> (r: Option<ObjType>)
        ensures
            r == Self::of_code(code),
    {
        match code {
            1 => Some(ObjType::Commit),
            2 => Some(ObjType::Tree),
            3 => Some(ObjType::Blob),
            4 => Some(ObjType::Tag),
            6 => Some(ObjType::OfsDelta),
            7 => Some(ObjType::RefDelta),
            _ => None,
        }
    }

    pub fn name(self) -> (s: &'static str)
        ensures
            s@ == self.text(),
    {
        match self {
            ObjType::Commit => "commit",
            ObjType::Tree => "tree",
            ObjType::Blob => "blob",
            ObjType::Tag => "tag",
            ObjType::OfsDelta => "ofs-delta",
            ObjType::RefDelta => "ref-delta",
        }
    }

    /// Whether objects of the type are stored whole.
    pub fn is_base(self) -> (r: bool)
        ensures
            r == (self != ObjType::OfsDelta && self != ObjType::RefDelta),
    {
        matches!(self, ObjType::Commit | ObjType::Tree | ObjType::Blob | ObjType::Tag)
    }
}

/// Reads the size and type header of a pack entry: the type code, the size and the bytes that
/// the header takes.
pub fn read_entry_header(buf: &[u8]) -> (r: Option<(u8, u64, usize)>)
    ensures
        match r {
            Some((kind, size, n)) => {
                &&& ends(buf@)
                &&& kind == header_code(buf@[0])
                &&& size as nat == header_size(head_bytes(buf@)) % word()
                &&& n == touched(buf@)
            },
            None => !ends(buf@),
        },
{
    assert(buf@.skip(0) =~= buf@);
    let k: usize = run_at(buf, 0);
    if k >= buf.len() {
        return None;
    }
    assert(head_bytes(buf@) =~= buf@.subrange(0, k + 1));
    let kind: u8 = (buf[0] / 16) % 8;
    Some((kind, header_size_at(buf, 0, k + 1), k + 1))
}

/// Where a reader stands after it has read what it could of a number at the head of `s`.
pub open spec fn read_upto(s: Seq<u8>) -> nat {
    match le128_scan(s) {
        Scan::Value { len, .. } => len as nat,
        Scan::TooLong => 10,
        Scan::Truncated => s.len(),
    }
}

/// Reads a number of a delta, moving `pos` over what was read.
pub fn read_delta_varint(buf: &[u8], pos: &mut usize) -> (r: Option<u64>)
    ensures
        *old(pos) <= buf@.len() ==> match le128_scan(buf@.skip(*old(pos) as int)) {
            Scan::Value { value, .. } => r == Some(value),
            _ => r is None,
        },
        *old(pos) <= buf@.len() ==> *final(pos) == *old(pos) + read_upto(buf@.skip(*old(pos) as int)),
        *old(pos) > buf@.len() ==> r is None && *final(pos) == *old(pos),
{
    let at: usize = *pos;
    if at > buf.len() {
        return None;
    }
    match scan_le128(buf, at) {
        Scan::Value { value, len } => {
            *pos = at + len;
            Some(value)
        },
        Scan::TooLong => {
            proof {
                lemma_run_bounds(buf@.skip(at as int));
            }
            *pos = at + 10;
            None
        },
        Scan::Truncated => {
            *pos = buf.len();
            None
        },
    }
}

pub fn to_hex(bytes: &[u8]) -> (s: String)
    ensures
        s@ == hex(bytes@),
{
    hex_encode(bytes)
}

pub fn from_hex(s: &str) -> (r: Option<Vec<u8>>)
    ensures
        r is Some <==> is_hex(s@),
        r matches Some(v) ==> v@ == unhex(s@),
{
    hex_decode(s)
}

/// The id of an object.
pub fn git_object_id(kind: ObjType, body: &[u8]) -> (id: [u8; 20])
    ensures
        id@ == sha1_of(object_frame(kind.text(), body@)),
{
    let framed = frame(kind.name(), body);
    sha1(framed.as_slice())
}

/// The SHA-1 of bytes, as packs and indexes end with.
pub fn sha1_bytes(data: &[u8]) -> (id: [u8; 20])
    ensures
        id@ == sha1_of(data@),
{
    sha1(data)
}

/// A byte that is shown as it is.
pub open spec fn printable(b: u8) -> bool {
    b == 10 || b == 9 || (0x20 <= b && b <= 0x7e)
}

/// How many of the first `n` bytes are shown as they are.
pub open spec fn printable_of(s: Seq<u8>, n: nat) -> nat
    decreases n,
{
    if n == 0 {
        0
    } else {
        printable_of(s, (n - 1) as nat) + if printable(s[n - 1]) {
            1nat
        } else {
            0
        }
    }
}

/// A text with every NUL character written out.
pub open spec fn without_nul(s: Seq<char>) -> Seq<char>
    decreases s.len(),
{
    if s.len() == 0 {
        Seq::empty()
    } else {
        without_nul(s.drop_last()) + if s.last() == '\0' {
            "\\0"@
        } else {
            seq![s.last()]
        }
    }
}

/// The part of content that a preview looks at.
pub open spec fn looked_at(data: Seq<u8>) -> Seq<u8> {
    if data.len() > 4096 {
        data.take(4096)
    } else {
        data
    }
}

/// The hexadecimal form of at most 64 bytes.
pub open spec fn first_hex(s: Seq<u8>) -> Seq<char> {
    if s.len() > 64 {
        hex(s.take(64))
    } else {
        hex(s)
    }
}

/// The preview of content: text when more than 85 of 100 bytes are printable.
pub open spec fn summary_of(data: Seq<u8>) -> Seq<char> {
    let s = looked_at(data);
    if s.len() == 0 {
        "(empty)"@
    } else if 100 * printable_of(s, s.len()) > 85 * s.len() {
        without_nul(lossy_text(s))
    } else {
        "binary: "@ + first_hex(s) + if data.len() > 64 {
            "…"@
        } else {
            ""@
        }
    }
}

fn write_nuls(s: &str) -> (r: String)
    ensures
        r@ == without_nul(s@),
{
    let n: usize = s.unicode_len();
    let mut r = String::new();
    let mut i: usize = 0;
    assert(s@.take(0) =~= Seq::empty());
    while i < n
        invariant
            n == s@.len(),
            i <= n,
            r@ == without_nul(s@.take(i as int)),
        decreases n - i,
    {
        let c: char = s.get_char(i);
        let ghost was = r@;
        proof {
            assert(s@.take(i + 1).drop_last() =~= s@.take(i as int));
            assert(s@.take(i + 1).last() == c);
        }
        if c == '\0' {
            r.append("\\0");
        } else {
            r.push(c);
            assert(r@ =~= was + seq![c]);
        }
        i += 1;
    }
    assert(s@.take(n as int) =~= s@);
    r
}

/// A best-effort preview of content.
pub fn summarize(data: &[u8]) -> (out: String)
    ensures
        out@ == summary_of(data@),
{
    let total: usize = data.len();
    let len: usize = if total < 4096 {
        total
    } else {
        4096
    };
    let slice = vstd::slice::slice_subrange(data, 0, len);
    assert(slice@ =~= looked_at(data@));
    let ghost s = looked_at(data@);
    let mut count: u64 = 0;
    let mut i: usize = 0;
    while i < len
        invariant
            i <= len <= 4096,
            len == slice@.len(),
            slice@ == s,
            count <= i,
            count == printable_of(s, i as nat),
        decreases len - i,
    {
        let b: u8 = slice[i];
        if b == 10 || b == 9 || (0x20 <= b && b <= 0x7e) {
            count += 1;
        }
        i += 1;
    }
    if len == 0 {
        return "(empty)".to_owned();
    }
    if 100 * count > 85 * (len as u64) {
        let text = utf8_lossy(slice);
        return write_nuls(text.as_str());
    }
    let shown: usize = if len > 64 {
        64
    } else {
        len
    };
    let part = vstd::slice::slice_subrange(slice, 0, shown);
    assert(part@ =~= if s.len() > 64 {
        s.take(64)
    } else {
        s
    });
    let mut out = "binary: ".to_owned();
    let text = hex_encode(part);
    out.append(text.as_str());
    if total > 64 {
        out.append("…");
    } else {
        out.append("");
    }
    out
}

/// All bytes count when all are printable, and none when none is.
proof fn lemma_printable(s: Seq<u8>, n: nat)
    requires
        n <= s.len(),
    ensures
        printable_of(s, n) <= n,
        (forall|i: int| 0 <= i < n ==> printable(#[trigger] s[i])) ==> printable_of(s, n) == n,
        (forall|i: int| 0 <= i < n ==> !printable(#[trigger] s[i])) ==> printable_of(s, n) == 0,
    decreases n,
{
    if n > 0 {
        lemma_printable(s, (n - 1) as nat);
    }
}

/// Content that is all printable is previewed as text, content of which nothing is printable as digits,
/// and no content says so.
pub proof fn previews_tell_text_from_bytes(data: Seq<u8>)
    requires
        0 < data.len() <= 64,
    ensures
        (forall|i: int|
            0 <= i < data.len() ==> (#[trigger] data[i] == 9 || data[i] == 10 || 32 <= data[i] < 127)) ==> summary_of(data)
            == without_nul(lossy_text(data)),
        (forall|i: int|
            0 <= i < data.len() ==> (#[trigger] data[i] < 9 || 10 < data[i] < 32 || data[i] > 126)) ==> summary_of(data)
            == "binary: "@ + hex(data),
        summary_of(Seq::empty()) == "(empty)"@,
{
    lemma_printable(data, data.len());
    reveal_strlit("");
    if forall|i: int| 0 <= i < data.len() ==> (#[trigger] data[i] < 9 || 10 < data[i] < 32 || data[i] > 126) {
        assert forall|i: int| 0 <= i < data.len() implies !printable(#[trigger] data[i]) by {}
        assert("binary: "@ + hex(data) + ""@ =~= "binary: "@ + hex(data));
    }
    if forall|i: int| 0 <= i < data.len() ==> (#[trigger] data[i] == 9 || data[i] == 10 || 32 <= data[i] < 127) {
        assert forall|i: int| 0 <= i < data.len() implies printable(#[trigger] data[i]) by {}
    }
}

} // verus!
