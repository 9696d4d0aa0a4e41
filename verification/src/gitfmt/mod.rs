//! Low-level object format primitives: object ids, zlib streams and pack parsing.
pub mod pack;
pub mod zlib;
use vstd::prelude::*;
use vstd::string::StringExecFns;
use vstd::utf8::{decode_utf8, encode_utf8, valid_utf8};
use crate::model::bytes::{copy_range, find_byte, first_at, same_bytes};
use crate::model::object::{
    dec_bytes, dec_bytes_roundtrip, frame, lemma_frame_head, lemma_names_are_words, object_frame,
};
use crate::model::outside::{hex_encode, sha1, sha1_of, utf8_error_text, utf8_text};
use crate::model::text::{
    after, before, dec, decimal, hex, is_hex, parse_decimal, push_dec, same_text, split_once, unhex,
};
use crate::model::varint::{
    ends, head_bytes, le128_scan, ofs128, ofs128_at, run, run_at, scan_le128, touched, word, Scan,
};
use crate::git::oid::from_hex;

verus! {

/// 20-byte SHA-1 object id.
#[derive(Clone, Copy, PartialEq, Eq, Hash, PartialOrd, Ord, Debug)]
pub struct Oid(pub [u8; 20]);

impl Oid {
    pub fn zero() -> (o: Self)
        ensures
            o.0@ == Seq::new(20, |i: int| 0u8),
    {
        let o = Oid([0; 20]);
        assert(o.0@ =~= Seq::new(20, |i: int| 0u8));
        o
    }

    /// The id that forty hexadecimal digits of either case spell.
    pub fn from_hex(s: &str) -> (r: Option<Self>)
        ensures
            match r {
                Some(o) => is_hex(s@) && s@.len() == 40 && o.0@ == unhex(s@),
                None => !is_hex(s@) || s@.len() != 40,
            },
    {
        match from_hex(s) {
            Some(id) => Some(Oid(id)),
            None => None,
        }
    }

    pub fn hex(&self) -> (s: String)
        ensures
            s@ == hex(self.0@),
    {
        hex_encode(self.0.as_slice())
    }

    pub fn is_zero(&self) -> (r: bool)
        ensures
            r == (self.0@ == Seq::new(20, |i: int| 0u8)),
    {
        let z = Oid::zero();
        same_bytes(self.0.as_slice(), z.0.as_slice())
    }
}

/// The object types of a pack.
#[derive(Clone, Copy, Debug, PartialEq, Eq, Structural)]
pub enum ObjType {
    Commit,
    Tree,
    Blob,
    Tag,
    OfsDelta,
    RefDelta,
}

impl ObjType {
    /// The type that three bits stand for.
    pub open spec fn of_code(v: u8) -> Option<ObjType> {
        if v == 1 {
            Some(ObjType::Commit)
        } else if v == 2 {
            Some(ObjType::Tree)
        } else if v == 3 {
            Some(ObjType::Blob)
        } else if v == 4 {
            Some(ObjType::Tag)
        } else if v == 6 {
            Some(ObjType::OfsDelta)
        } else if v == 7 {
            Some(ObjType::RefDelta)
        } else {
            None
        }
    }

    /// The name of a type.
    pub open spec fn text(self) -> Seq<char> {
        match self {
            ObjType::Commit => "commit"@,
            ObjType::Tree => "tree"@,
            ObjType::Blob => "blob"@,
            ObjType::Tag => "tag"@,
            ObjType::OfsDelta => "ofs-delta"@,
            ObjType::RefDelta => "ref-delta"@,
        }
    }

    /// The type needs a base.
    pub open spec fn delta(self) -> bool {
        self == ObjType::OfsDelta || self == ObjType::RefDelta
    }

    /// The whole type that a name stands for.
    pub open spec fn of_name(s: Seq<char>) -> Option<ObjType> {
        if s == "commit"@ {
            Some(ObjType::Commit)
        } else if s == "tree"@ {
            Some(ObjType::Tree)
        } else if s == "blob"@ {
            Some(ObjType::Blob)
        } else if s == "tag"@ {
            Some(ObjType::Tag)
        } else {
            None
        }
    }

    pub fn from_u8(v: u8) -> (r: Option<ObjType>)
        ensures
            r == ObjType::of_code(v),
    {
        match v {
            1 => Some(ObjType::Commit),
            2 => Some(ObjType::Tree),
            3 => Some(ObjType::Blob),
            4 => Some(ObjType::Tag),
            6 => Some(ObjType::OfsDelta),
            7 => Some(ObjType::RefDelta),
            _ => None,
        }
    }

    pub fn name(self) -> (s: &'static str)
        ensures
            s@ == self.text(),
    {
        match self {
            ObjType::Commit => "commit",
            ObjType::Tree => "tree",
            ObjType::Blob => "blob",
            ObjType::Tag => "tag",
            ObjType::OfsDelta => "ofs-delta",
            ObjType::RefDelta => "ref-delta",
        }
    }

    pub fn is_delta(self) -> (r: bool)
        ensures
            r == self.delta(),
    {
        match self {
            ObjType::OfsDelta => true,
            ObjType::RefDelta => true,
            _ => false,
        }
    }

    pub fn base_name(self) -> (r: Option<&'static str>)
        ensures
            match r {
                Some(s) => !self.delta() && s@ == self.text(),
                None => self.delta(),
            },
    {
        match self {
            ObjType::OfsDelta => None,
            ObjType::RefDelta => None,
            _ => Some(self.name()),
        }
    }
}

/// The bytes from `pos` on; none when `pos` is past the end.
pub open spec fn from_pos(buf: Seq<u8>, pos: usize) -> Seq<u8> {
    if pos < buf.len() {
        buf.skip(pos as int)
    } else {
        Seq::empty()
    }
}

/// Reads a little-endian size number, returning its value and the bytes used.
pub fn read_size_varint(buf: &[u8], pos: usize) -> (r: Result<(u64, usize), String>)
    ensures
        match (r, le128_scan(from_pos(buf@, pos))) {
            (Ok((v, n)), Scan::Value { value, len }) => v == value && n == len && pos + n <= buf@.len() && n
                > 0,
            (Err(e), Scan::Truncated) => e@ == "size varint runs past end of data"@,
            (Err(e), Scan::TooLong) => e@ == "size varint too long"@,
            _ => false,
        },
{
    if pos >= buf.len() {
        assert(run(Seq::<u8>::empty()) == 0);
        return Err("size varint runs past end of data".to_owned());
    }
    match scan_le128(buf, pos) {
        Scan::Value { value, len } => Ok((value, len)),
        Scan::Truncated => Err("size varint runs past end of data".to_owned()),
        Scan::TooLong => Err("size varint too long".to_owned()),
    }
}

/// Reads the distance of an ofs-delta, returning its value and the bytes used.
pub fn read_ofs_varint(buf: &[u8], pos: usize) -> (r: Result<(u64, usize), String>)
    ensures
        ({
            let s = from_pos(buf@, pos);
            match r {
                Ok((v, n)) => ends(s) && v == ofs128(head_bytes(s)) % word() && n == touched(s) && pos + n
                    <= buf@.len(),
                Err(e) => !ends(s) && e@ == "ofs varint runs past end of data"@,
            }
        }),
{
    if pos >= buf.len() {
        return Err("ofs varint runs past end of data".to_owned());
    }
    let ghost s = buf@.skip(pos as int);
    let k: usize = run_at(buf, pos);
    if pos + k >= buf.len() {
        return Err("ofs varint runs past end of data".to_owned());
    }
    assert(head_bytes(s) =~= buf@.subrange(pos as int, pos + k + 1));
    Ok((ofs128_at(buf, pos, k + 1), k + 1))
}

/// The id of an object of a whole type.
pub fn git_object_id(kind: ObjType, content: &[u8]) -> (o: Oid)
    requires
        !kind.delta(),
    ensures
        o.0@ == sha1_of(object_frame(kind.text(), content@)),
{
    let framed = frame(kind.name(), content);
    Oid(sha1(framed.as_slice()))
}

/// What a framed object holds: its type and its content, or what is wrong with it.
pub open spec fn framed(f: Seq<u8>) -> Result<(ObjType, Seq<u8>), Seq<char>> {
    let nul = first_at(f, 0);
    let head = decode_utf8(f.take(nul as int));
    let body = f.skip(nul as int + 1);
    if nul >= f.len() {
        Err("loose object missing NUL frame separator"@)
    } else if !valid_utf8(f.take(nul as int)) {
        Err(utf8_error_text(f.take(nul as int)))
    } else {
        match after(head, ' ') {
            None => Err("loose object header missing space"@),
            Some(len) => match ObjType::of_name(before(head, ' ')) {
                None => Err("unknown loose object type "@ + before(head, ' ')),
                Some(kind) => match decimal(encode_utf8(len), usize::MAX as nat) {
                    None => Err("loose object length not numeric"@),
                    Some(n) => if body.len() != n {
                        Err(
                            "loose object length mismatch: header says "@ + dec(n) + ", body is "@ + dec(
                                body.len(),
                            ),
                        )
                    } else {
                        Ok((kind, body))
                    },
                },
            },
        }
    }
}

fn whole_type(name: &str) -> (r: Option<ObjType>)
    ensures
        r == ObjType::of_name(name@),
{
    if same_text(name, "commit") {
        Some(ObjType::Commit)
    } else if same_text(name, "tree") {
        Some(ObjType::Tree)
    } else if same_text(name, "blob") {
        Some(ObjType::Blob)
    } else if same_text(name, "tag") {
        Some(ObjType::Tag)
    } else {
        None
    }
}

/// Splits a framed object into its type and its content.
pub fn parse_loose_frame(data: &[u8]) -> (r: Result<(ObjType, Vec<u8>), String>)
    ensures
        match r {
            Ok((kind, body)) => framed(data@) == Ok::<(ObjType, Seq<u8>), Seq<char>>((kind, body@)),
            Err(e) => framed(data@) == Err::<(ObjType, Seq<u8>), Seq<char>>(e@),
        },
{
    let nul: usize = find_byte(data, 0);
    if nul >= data.len() {
        return Err("loose object missing NUL frame separator".to_owned());
    }
    let bytes = vstd::slice::slice_subrange(data, 0, nul);
    assert(bytes@ =~= data@.take(nul as int));
    let head = match utf8_text(bytes) {
        Ok(h) => h,
        Err(e) => return Err(e),
    };
    let (name, rest) = split_once(head.as_str(), ' ');
    let len = match rest {
        Some(l) => l,
        None => return Err("loose object header missing space".to_owned()),
    };
    let kind = match whole_type(name.as_str()) {
        Some(k) => k,
        None => {
            let mut m = "unknown loose object type ".to_owned();
            m.append(name.as_str());
            return Err(m);
        },
    };
    let declared: u64 = match parse_decimal(len.as_str().as_bytes()) {
        Some(n) => n,
        None => return Err("loose object length not numeric".to_owned()),
    };
    if declared > usize::MAX as u64 {
        return Err("loose object length not numeric".to_owned());
    }
    let body = copy_range(data, nul + 1, data.len());
    assert(body@ =~= data@.skip(nul as int + 1));
    if body.len() as u64 != declared {
        let mut m = "loose object length mismatch: header says ".to_owned();
        push_dec(&mut m, declared);
        m.append(", body is ");
        push_dec(&mut m, body.len() as u64);
        return Err(m);
    }
    Ok((kind, body))
}

proof fn lemma_framed(kind: ObjType, n: nat, body: Seq<u8>)
    requires
        !kind.delta(),
        n <= usize::MAX,
    ensures
        ({
            let f = encode_utf8(kind.text()) + seq![32u8] + dec_bytes(n) + seq![0u8] + body;
            if body.len() == n {
                framed(f) == Ok::<(ObjType, Seq<u8>), Seq<char>>((kind, body))
            } else {
                framed(f) is Err
            }
        }),
{
    lemma_names_are_words();
    assert(ObjType::of_name(kind.text()) == Some(kind));
    lemma_frame_head(kind.text(), n, body);
    dec_bytes_roundtrip(n);
}

/// A framed object is split into the type and the content that it was made of, whatever they are.
/// With more bytes behind it, or without some of its last, it is refused.
pub proof fn frames_are_split_again(kind: ObjType, body: Seq<u8>, more: Seq<u8>, cut: nat)
    requires
        !kind.delta(),
        body.len() <= usize::MAX,
    ensures
        framed(object_frame(kind.text(), body)) == Ok::<(ObjType, Seq<u8>), Seq<char>>((kind, body)),
        more.len() > 0 ==> framed(object_frame(kind.text(), body) + more) is Err,
        0 < cut <= body.len() ==> framed(
            object_frame(kind.text(), body).take(object_frame(kind.text(), body).len() - cut),
        ) is Err,
{
    let f = object_frame(kind.text(), body);
    let head = encode_utf8(kind.text()) + seq![32u8] + dec_bytes(body.len()) + seq![0u8];
    lemma_framed(kind, body.len(), body);
    lemma_framed(kind, body.len(), body + more);
    assert(f + more =~= head + (body + more));
    if 0 < cut <= body.len() {
        let less = body.take(body.len() - cut);
        lemma_framed(kind, body.len(), less);
        assert(f.take(f.len() - cut) =~= head + less);
    }
}

/// How a byte shows in a preview.
pub open spec fn shown(b: u8) -> Seq<char> {
    if b == 10 || b == 9 || 0x20 <= b <= 0x7e {
        seq![b as char]
    } else if b >= 0x80 {
        seq!['\u{fffd}']
    } else {
        seq![
            '\\',
            if b == 0 {
                '0'
            } else if b == 8 {
                'b'
            } else if b == 12 {
                'f'
            } else if b == 13 {
                'r'
            } else {
                'x'
            },
        ]
    }
}

/// How bytes show in a preview.
pub open spec fn all_shown(s: Seq<u8>) -> Seq<char>
    decreases s.len(),
{
    if s.len() == 0 {
        Seq::empty()
    } else {
        all_shown(s.drop_last()) + shown(s.last())
    }
}

/// Renders content as text for previews, replacing control bytes; an ellipsis stands for what
/// is left out.
pub fn preview(content: &[u8], max: usize) -> (out: String)
    ensures
        out@ == if content@.len() > max {
            all_shown(content@.take(max as int)).push('…')
        } else {
            all_shown(content@)
        },
{
    let n: usize = if content.len() > max {
        max
    } else {
        content.len()
    };
    let mut out = String::new();
    let mut i: usize = 0;
    assert(content@.take(0) =~= Seq::empty());
    while i < n
        invariant
            i <= n <= content@.len(),
            out@ == all_shown(content@.take(i as int)),
        decreases n - i,
    {
        let b: u8 = content[i];
        let ghost was = out@;
        if b == 10 || b == 9 || (0x20 <= b && b <= 0x7e) {
            out.push(b as char);
        } else if b >= 0x80 {
            out.push('\u{fffd}');
        } else {
            out.push('\\');
            out.push(
                if b == 0 {
                    '0'
                } else if b == 8 {
                    'b'
                } else if b == 12 {
                    'f'
                } else if b == 13 {
                    'r'
                } else {
                    'x'
                },
            );
        }
        proof {
            assert(content@.take(i + 1).drop_last() =~= content@.take(i as int));
            assert(content@.take(i + 1).last() == b);
            assert(out@ =~= was + shown(b));
        }
        i += 1;
    }
    if content.len() > max {
        out.push('…');
    } else {
        assert(content@.take(n as int) =~= content@);
    }
    out
}

/// A preview shows byte by byte: a plain one as itself, one above the plain range as the mark for what is
/// no text, and a control byte as a backslash with its letter.
pub proof fn bytes_are_shown_one_by_one(s: Seq<u8>, b: u8)
    ensures
        ({
            let more = all_shown(s.push(b));
            let fewer = all_shown(s);
            &&& 32 <= b <= 126 || b == 9 || b == 10 ==> more == fewer.push(b as char)
            &&& b > 127 ==> more == fewer.push('\u{fffd}')
            &&& b < 9 || 10 < b < 32 || b == 127 ==> more.len() == fewer.len() + 2 && more[fewer.len() as int] == '\\'
            &&& b == 0 ==> more.last() == '0'
            &&& b == 8 ==> more.last() == 'b'
            &&& b == 12 ==> more.last() == 'f'
            &&& b == 13 ==> more.last() == 'r'
        }),
{
    let t = s.push(b);
    assert(t.drop_last() =~= s);
    assert(all_shown(t) == all_shown(s) + shown(b));
    if 32 <= b <= 126 || b == 9 || b == 10 {
        assert(all_shown(t) =~= all_shown(s).push(b as char));
    }
    if b > 127 {
        assert(all_shown(t) =~= all_shown(s).push('\u{fffd}'));
    }
}

} // verus!
