//! Object types and the number encodings of pack headers, offsets and delta sizes.
use vstd::prelude::*;
use vstd::string::StringExecFns;
use crate::model::bytes::oid_at;
use crate::model::object::{frame, object_frame};
use crate::model::outside::{hex_decode, hex_encode, sha1, sha1_of};
use crate::model::text::{dec, hex, is_hex, push_dec, same_text, unhex};
use crate::model::varint::{
    head_bytes, header_bytes, header_size, le128_bytes, le128_scan_late, ofs128, ofs128_at, ofs128_bytes,
    push_header, push_le128, push_ofs128, run_at, scan_le128_late, touched, word, Scan,
};

verus! {

pub const OID_LEN: usize = 20;

/// What is wrong with an encoding.
#[derive(Debug)]
pub enum FormatError {
    /// A name, code or id that is not known.
    Parse(String),
    /// A number that is cut off or too long.
    Bad(String),
}

impl FormatError {
    pub open spec fn is_parse(self, m: Seq<char>) -> bool {
        self matches FormatError::Parse(s) && s@ == m
    }

    pub open spec fn is_bad(self, m: Seq<char>) -> bool {
        self matches FormatError::Bad(s) && s@ == m
    }
}

#[derive(Debug, Clone, Copy, PartialEq, Eq, Hash, Structural)]
pub enum ObjType {
    Commit,
    Tree,
    Blob,
    Tag,
    OfsDelta,
    RefDelta,
}

impl ObjType {
    pub open spec fn of_code(c: u8) -> Option<ObjType> {
        if c == 1 {
            Some(ObjType::Commit)
        } else if c == 2 {
            Some(ObjType::Tree)
        } else if c == 3 {
            Some(ObjType::Blob)
        } else if c == 4 {
            Some(ObjType::Tag)
        } else if c == 6 {
            Some(ObjType::OfsDelta)
        } else if c == 7 {
            Some(ObjType::RefDelta)
        } else {
            None
        }
    }

    pub open spec fn of_text(s: Seq<char>) -> Option<ObjType> {
        if s == "commit"@ {
            Some(ObjType::Commit)
        } else if s == "tree"@ {
            Some(ObjType::Tree)
        } else if s == "blob"@ {
            Some(ObjType::Blob)
        } else if s == "tag"@ {
            Some(ObjType::Tag)
        } else {
            None
        }
    }

    pub open spec fn text(self) -> Seq<char> {
        match self {
            ObjType::Commit => "commit"@,
            ObjType::Tree => "tree"@,
            ObjType::Blob => "blob"@,
            ObjType::Tag => "tag"@,
            ObjType::OfsDelta => "ofs-delta"@,
            ObjType::RefDelta => "ref-delta"@,
        }
    }

    pub open spec fn delta(self) -> bool {
        self == ObjType::OfsDelta || self == ObjType::RefDelta
    }

    /// The pack code of a type that is not a delta.
    pub open spec fn base_code(self) -> Option<u8> {
        match self {
            ObjType::Commit => Some(1u8),
            ObjType::Tree => Some(2u8),
            ObjType::Blob => Some(3u8),
            ObjType::Tag => Some(4u8),
            _ => None,
        }
    }

    pub fn from_pack_code(c: u8) -> (r: Result<ObjType, FormatError>)
        ensures
            match r {
                Ok(t) => Self::of_code(c) == Some(t),
                Err(e) => Self::of_code(c) is None && e.is_parse("unknown pack object type "@ + dec(c as nat)),
            },
    {
        match c {
            1 => Ok(ObjType::Commit),
            2 => Ok(ObjType::Tree),
            3 => Ok(ObjType::Blob),
            4 => Ok(ObjType::Tag),
            6 => Ok(ObjType::OfsDelta),
            7 => Ok(ObjType::RefDelta),
            _ => {
                let mut m = "unknown pack object type ".to_owned();
                push_dec(&mut m, c as u64);
                Err(FormatError::Parse(m))
            },
        }
    }

    pub fn from_loose_name(s: &str) -> (r: Result<ObjType, FormatError>)
        ensures
            match r {
                Ok(t) => Self::of_text(s@) == Some(t),
                Err(e) => Self::of_text(s@) is None && e.is_parse("unknown loose object type "@ + s@),
            },
    {
        if same_text(s, "commit") {
            Ok(ObjType::Commit)
        } else if same_text(s, "tree") {
            Ok(ObjType::Tree)
        } else if same_text(s, "blob") {
            Ok(ObjType::Blob)
        } else if same_text(s, "tag") {
            Ok(ObjType::Tag)
        } else {
            let mut m = "unknown loose object type ".to_owned();
            m.append(s);
            Err(FormatError::Parse(m))
        }
    }

    pub fn is_delta(self) -> (r: bool)
        ensures
            r == self.delta(),
    {
        matches!(self, ObjType::OfsDelta | ObjType::RefDelta)
    }

    pub fn name(self) -> (s: &'static str)
        ensures
            s@ == self.text(),
    {
        match self {
            ObjType::Commit => "commit",
            ObjType::Tree => "tree",
            ObjType::Blob => "blob",
            ObjType::Tag => "tag",
            ObjType::OfsDelta => "ofs-delta",
            ObjType::RefDelta => "ref-delta",
        }
    }

    pub fn code(self) -> (r: Option<u8>)
        ensures
            r == self.base_code(),
    {
        match self {
            ObjType::Commit => Some(1),
            ObjType::Tree => Some(2),
            ObjType::Blob => Some(3),
            ObjType::Tag => Some(4),
            _ => None,
        }
    }
}

/// The object id: the SHA-1 of the framed content.
pub fn hash_object(kind: ObjType, body: &[u8]) -> (id: [u8; 20])
    ensures
        id@ == sha1_of(object_frame(kind.text(), body@)),
{
    let framed = frame(kind.name(), body);
    sha1(framed.as_slice())
}

pub fn oid_hex(id: &[u8; 20]) -> (s: String)
    ensures
        s@ == hex(id@),
{
    hex_encode(id.as_slice())
}

/// The bytes of a number whose first byte is given apart: up to and with the first of `rest`
/// that does not continue, or all of `rest`.
pub open spec fn with_first(first: u8, rest: Seq<u8>) -> Seq<u8> {
    seq![first] + head_bytes(rest)
}

/// Decodes the size of a pack entry header whose first byte was read. All of `rest` up to and
/// with the first byte that does not continue counts. Returns (size, bytes of the header).
pub fn decode_size(first: u8, rest: &[u8]) -> (r: (u64, usize))
    requires
        rest@.len() < usize::MAX,
    ensures
        r.0 as nat == header_size(with_first(first, rest@)) % word(),
        r.1 == 1 + touched(rest@),
{
    let k: usize = run_at(rest, 0);
    assert(rest@.skip(0) =~= rest@);
    let n: usize = if k < rest.len() {
        k + 1
    } else {
        rest.len()
    };
    let mut whole: Vec<u8> = Vec::new();
    whole.push(first);
    crate::model::bytes::push_range(&mut whole, rest, 0, n);
    assert(whole@ =~= with_first(first, rest@));
    assert(whole@.subrange(0, n + 1) =~= whole@);
    (crate::model::varint::header_size_at(whole.as_slice(), 0, n + 1), n + 1)
}

/// Decodes the negative-offset integer of an offset delta whose first byte was read.
pub fn decode_ofs_distance(first: u8, rest: &[u8]) -> (r: (u64, usize))
    requires
        rest@.len() < usize::MAX,
    ensures
        r.0 as nat == ofs128(with_first(first, rest@)) % word(),
        r.1 == 1 + touched(rest@),
{
    let k: usize = run_at(rest, 0);
    assert(rest@.skip(0) =~= rest@);
    let n: usize = if k < rest.len() {
        k + 1
    } else {
        rest.len()
    };
    let mut whole: Vec<u8> = Vec::new();
    whole.push(first);
    crate::model::bytes::push_range(&mut whole, rest, 0, n);
    assert(whole@ =~= with_first(first, rest@));
    assert(whole@.subrange(0, n + 1) =~= whole@);
    (ofs128_at(whole.as_slice(), 0, n + 1), n + 1)
}

/// Little-endian base-128 number used for delta base and result sizes.
pub fn decode_delta_varint(buf: &[u8]) -> (r: Result<(u64, usize), FormatError>)
    ensures
        match r {
            Ok((v, n)) => le128_scan_late(buf@) == (Scan::Value { value: v, len: n }) && n <= buf@.len(),
            Err(e) => {
                ||| le128_scan_late(buf@) is TooLong && e.is_bad("delta varint too long"@)
                ||| le128_scan_late(buf@) is Truncated && e.is_bad("truncated delta varint"@)
            },
        },
{
    assert(buf@.skip(0) =~= buf@);
    match scan_le128_late(buf, 0) {
        Scan::Value { value, len } => Ok((value, len)),
        Scan::TooLong => Err(FormatError::Bad("delta varint too long".to_owned())),
        Scan::Truncated => Err(FormatError::Bad("truncated delta varint".to_owned())),
    }
}

/// Encodes a pack entry header. A delta cannot be encoded as an entry type.
pub fn encode_size(kind: ObjType, size: u64) -> (out: Vec<u8>)
    requires
        !kind.delta(),
    ensures
        out@ == header_bytes(kind.base_code()->0 as nat, size as nat),
{
    let code: u8 = match kind.code() {
        Some(c) => c,
        None => 0,
    };
    let mut out: Vec<u8> = Vec::new();
    push_header(&mut out, code, size);
    assert(out@ =~= header_bytes(code as nat, size as nat));
    out
}

/// Encodes the negative-offset integer of an offset delta.
pub fn encode_ofs_distance(dist: u64) -> (out: Vec<u8>)
    ensures
        out@ == ofs128_bytes(dist as nat),
{
    let mut out: Vec<u8> = Vec::new();
    push_ofs128(&mut out, dist);
    assert(out@ =~= ofs128_bytes(dist as nat));
    out
}

/// Encodes a little-endian base-128 number.
pub fn encode_delta_varint(size: u64) -> (out: Vec<u8>)
    ensures
        out@ == le128_bytes(size as nat),
{
    let mut out: Vec<u8> = Vec::new();
    push_le128(&mut out, size);
    assert(out@ =~= le128_bytes(size as nat));
    out
}

/// Whether a text is the hexadecimal form of an object id.
pub open spec fn oid_text_ok(s: Seq<char>) -> bool {
    is_hex(s) && s.len() == 40
}

/// Parses the hexadecimal form of an object id; white space around it is ignored.
pub fn parse_oid(s: &str) -> (r: Result<[u8; 20], FormatError>)
    ensures
        ({
            let t = crate::model::outside::trimmed(s@);
            match r {
                Ok(id) => oid_text_ok(t) && id@ == unhex(t),
                Err(e) => {
                    ||| !is_hex(t) && e.is_parse("bad oid hex"@)
                    ||| is_hex(t) && t.len() != 40 && e.is_parse("oid must be 40 hex chars"@)
                },
            }
        }),
{
    let t = crate::model::outside::trim(s);
    match hex_decode(t.as_str()) {
        None => Err(FormatError::Parse("bad oid hex".to_owned())),
        Some(v) => {
            if v.len() != 20 {
                return Err(FormatError::Parse("oid must be 40 hex chars".to_owned()));
            }
            let id = oid_at(v.as_slice(), 0);
            assert(id@ =~= v@);
            Ok(id)
        },
    }
}

/// Decoding what was encoded gives the size, the distance or the number back.
pub proof fn encodings_are_read_back(kind: ObjType, v: u64)
    requires
        !kind.delta(),
    ensures
        ({
            let b = header_bytes(kind.base_code()->0 as nat, v as nat);
            let rest = b.skip(1);
            &&& b.len() > 0
            &&& b[0] >= 128 ==> header_size(with_first(b[0], rest)) == v && 1 + touched(rest) == b.len()
            &&& b[0] < 128 ==> header_size(seq![b[0]]) == v && b.len() == 1
        }),
        ({
            let b = ofs128_bytes(v as nat);
            let rest = b.skip(1);
            &&& b.len() > 0
            &&& b[0] >= 128 ==> ofs128(with_first(b[0], rest)) == v && 1 + touched(rest) == b.len()
            &&& b[0] < 128 ==> ofs128(seq![b[0]]) == v && b.len() == 1
        }),
        le128_scan_late(le128_bytes(v as nat)) == (Scan::Value {
            value: v,
            len: le128_bytes(v as nat).len() as usize,
        }),
{
    let code = kind.base_code()->0 as nat;
    crate::model::varint::header_roundtrip(code, v as nat);
    crate::model::varint::ofs128_roundtrip(v as nat);
    crate::model::varint::le128_roundtrip(v as nat);
    lemma_tail(header_bytes(code, v as nat));
    lemma_tail(ofs128_bytes(v as nat));
    let n = le128_bytes(v as nat);
    assert(n + Seq::<u8>::empty() =~= n);
    crate::model::varint::lemma_head_of_number(n, Seq::empty());
    vstd::arithmetic::div_mod::lemma_small_mod(v as nat, word());
}

proof fn lemma_tail(b: Seq<u8>)
    requires
        crate::model::varint::one_number(b),
    ensures
        b[0] >= 128 ==> with_first(b[0], b.skip(1)) == b && 1 + touched(b.skip(1)) == b.len(),
        b[0] < 128 ==> b == seq![b[0]],
{
    let rest = b.skip(1);
    if b[0] >= 128 {
        assert(crate::model::varint::one_number(rest));
        assert(rest + Seq::<u8>::empty() =~= rest);
        crate::model::varint::lemma_head_of_number(rest, Seq::empty());
        assert(with_first(b[0], rest) =~= b);
    } else {
        assert(b =~= seq![b[0]]);
    }
}

} // verus!
