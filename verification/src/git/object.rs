//! Object types and framed objects.
use vstd::prelude::*;
use vstd::string::StringExecFns;
use vstd::utf8::{decode_utf8, valid_utf8};
use crate::git::sha::object_id;
use crate::model::bytes::{copy_range, find_byte, first_at, lemma_first_at, same_bytes};
use crate::model::object::{blob_bytes, commit_bytes, object_frame, tag_bytes, tree_bytes};
use crate::model::outside::{debug_text, quoted, sha1_of, utf8_error_text, utf8_text};
use crate::model::text::{dec, decimal, hex, parse_decimal, push_dec};

verus! {

#[derive(Debug, Clone, Copy, PartialEq, Eq, Hash, Structural)]
pub enum ObjType {
    Commit,
    Tree,
    Blob,
    Tag,
    OfsDelta,
    RefDelta,
}

impl ObjType {
    pub open spec fn of_code(c: u8) -> Option<ObjType> {
        if c == 1 {
            Some(ObjType::Commit)
        } else if c == 2 {
            Some(ObjType::Tree)
        } else if c == 3 {
            Some(ObjType::Blob)
        } else if c == 4 {
            Some(ObjType::Tag)
        } else if c == 6 {
            Some(ObjType::OfsDelta)
        } else if c == 7 {
            Some(ObjType::RefDelta)
        } else {
            None
        }
    }

    pub open spec fn number(self) -> u8 {
        match self {
            ObjType::Commit => 1,
            ObjType::Tree => 2,
            ObjType::Blob => 3,
            ObjType::Tag => 4,
            ObjType::OfsDelta => 6,
            ObjType::RefDelta => 7,
        }
    }

    pub open spec fn text(self) -> Seq<char> {
        match self {
            ObjType::Commit => "commit"@,
            ObjType::Tree => "tree"@,
            ObjType::Blob => "blob"@,
            ObjType::Tag => "tag"@,
            ObjType::OfsDelta => "ofs-delta"@,
            ObjType::RefDelta => "ref-delta"@,
        }
    }

    pub open spec fn delta(self) -> bool {
        self == ObjType::OfsDelta || self == ObjType::RefDelta
    }

    pub open spec fn of_bytes(name: Seq<u8>) -> Option<ObjType> {
        if name == commit_bytes() {
            Some(ObjType::Commit)
        } else if name == tree_bytes() {
            Some(ObjType::Tree)
        } else if name == blob_bytes() {
            Some(ObjType::Blob)
        } else if name == tag_bytes() {
            Some(ObjType::Tag)
        } else {
            None
        }
    }

    pub fn code(self) -> (c: u8)
        ensures
            c == self.number(),
    {
        match self {
            ObjType::Commit => 1,
            ObjType::Tree => 2,
            ObjType::Blob => 3,
            ObjType::Tag => 4,
            ObjType::OfsDelta => 6,
            ObjType::RefDelta => 7,
        }
    }

    pub fn from_code(c: u8) -> (r: Option<ObjType>)
        ensures
            r == Self::of_code(c),
    {
        match c {
            1 => Some(ObjType::Commit),
            2 => Some(ObjType::Tree),
            3 => Some(ObjType::Blob),
            4 => Some(ObjType::Tag),
            6 => Some(ObjType::OfsDelta),
            7 => Some(ObjType::RefDelta),
            _ => None,
        }
    }

    pub fn name(self) -> (s: &'static str)
        ensures
            s@ == self.text(),
    {
        match self {
            ObjType::Commit => "commit",
            ObjType::Tree => "tree",
            ObjType::Blob => "blob",
            ObjType::Tag => "tag",
            ObjType::OfsDelta => "ofs-delta",
            ObjType::RefDelta => "ref-delta",
        }
    }

    pub fn is_delta(self) -> (r: bool)
        ensures
            r == self.delta(),
    {
        matches!(self, ObjType::OfsDelta | ObjType::RefDelta)
    }
}

/// The code of a type is read back as that type.
pub proof fn codes_are_read_back(t: ObjType)
    ensures
        ObjType::of_code(t.number()) == Some(t),
{
}

#[derive(Debug)]
pub struct GitObject {
    pub kind: ObjType,
    pub body: Vec<u8>,
}

impl GitObject {
    /// The id of the object, in hexadecimal.
    pub open spec fn id_text(self) -> Seq<char> {
        hex(sha1_of(object_frame(self.kind.text(), self.body@)))
    }

    /// Builds a fully reconstructed object and verifies its id.
    pub fn reconstruct(kind: ObjType, body: Vec<u8>) -> (r: (Self, String, String))
        ensures
            r.0.kind == kind,
            r.0.body@ == body@,
            r.1@ == r.0.id_text(),
            r.2@ == r.1@,
    {
        let want = object_id(kind.name(), body.as_slice());
        let got = want.clone();
        (GitObject { kind, body }, want, got)
    }

    pub fn id(&self) -> (s: String)
        ensures
            s@ == self.id_text(),
    {
        object_id(self.kind.name(), self.body.as_slice())
    }
}

/// The part of `s` before its first space.
pub open spec fn first_word(s: Seq<u8>) -> Seq<u8> {
    s.take(first_at(s, 32) as int)
}

/// The part of `s` between its first and its second space; nothing when there is no space.
pub open spec fn second_word(s: Seq<u8>) -> Option<Seq<u8>> {
    if first_at(s, 32) < s.len() {
        Some(first_word(s.skip(first_at(s, 32) as int + 1)))
    } else {
        None
    }
}

/// What a framed object holds, or what is wrong with it.
pub open spec fn framed(data: Seq<u8>) -> Result<(ObjType, Seq<u8>), Seq<char>> {
    let nul = first_at(data, 0);
    let header = data.take(nul as int);
    let body = data.skip(nul as int + 1);
    if nul == data.len() {
        Err("object frame missing NUL"@)
    } else if !valid_utf8(header) {
        Err(utf8_error_text(header))
    } else {
        match ObjType::of_bytes(first_word(header)) {
            None => Err(
                "unknown object type Some("@ + debug_text(decode_utf8(first_word(header))) + ")"@,
            ),
            Some(kind) => match second_word(header) {
                None => Err("frame missing size"@),
                Some(w) => match decimal(w, usize::MAX as nat) {
                    None => Err("frame size not a number"@),
                    Some(size) => if body.len() != size {
                        Err("declared size "@ + dec(size) + " but body length "@ + dec(body.len()))
                    } else {
                        Ok((kind, body))
                    },
                },
            },
        }
    }
}

fn type_of_bytes(name: &[u8]) -> (r: Option<ObjType>)
    ensures
        r == ObjType::of_bytes(name@),
{
    let commit: [u8; 6] = [99, 111, 109, 109, 105, 116];
    let tree: [u8; 4] = [116, 114, 101, 101];
    let blob: [u8; 4] = [98, 108, 111, 98];
    let tag: [u8; 3] = [116, 97, 103];
    assert(commit@ =~= commit_bytes());
    assert(tree@ =~= tree_bytes());
    assert(blob@ =~= blob_bytes());
    assert(tag@ =~= tag_bytes());
    if same_bytes(name, commit.as_slice()) {
        Some(ObjType::Commit)
    } else if same_bytes(name, tree.as_slice()) {
        Some(ObjType::Tree)
    } else if same_bytes(name, blob.as_slice()) {
        Some(ObjType::Blob)
    } else if same_bytes(name, tag.as_slice()) {
        Some(ObjType::Tag)
    } else {
        None
    }
}

/// Parses a framed object: its type name, its size, a NUL and its content.
pub fn parse_object_frame(data: &[u8]) -> (r: Result<(ObjType, Vec<u8>), String>)
    ensures
        match r {
            Ok((kind, body)) => framed(data@) == Ok::<(ObjType, Seq<u8>), Seq<char>>((kind, body@)),
            Err(e) => framed(data@) == Err::<(ObjType, Seq<u8>), Seq<char>>(e@),
        },
{
    let nul: usize = find_byte(data, 0);
    if nul >= data.len() {
        return Err("object frame missing NUL".to_owned());
    }
    let header = vstd::slice::slice_subrange(data, 0, nul);
    assert(header@ =~= data@.take(nul as int));
    match utf8_text(header) {
        Err(e) => return Err(e),
        Ok(_) => {},
    }
    let sp: usize = find_byte(header, 32);
    let word = vstd::slice::slice_subrange(header, 0, sp);
    assert(word@ =~= first_word(header@));
    let kind = match type_of_bytes(word) {
        Some(k) => k,
        None => {
            proof {
                lemma_word_is_text(header@);
            }
            let text = match utf8_text(word) {
                Ok(t) => t,
                Err(e) => e,
            };
            let mut m = "unknown object type Some(".to_owned();
            m.append(quoted(text.as_str()).as_str());
            m.append(")");
            return Err(m);
        },
    };
    if sp >= header.len() {
        return Err("frame missing size".to_owned());
    }
    let tail = vstd::slice::slice_subrange(header, sp + 1, header.len());
    assert(tail@ =~= header@.skip(sp as int + 1));
    let sp2: usize = find_byte(tail, 32);
    let num = vstd::slice::slice_subrange(tail, 0, sp2);
    assert(num@ =~= first_word(tail@));
    let size: u64 = match parse_decimal(num) {
        Some(v) => v,
        None => return Err("frame size not a number".to_owned()),
    };
    if size > usize::MAX as u64 {
        return Err("frame size not a number".to_owned());
    }
    let body = copy_range(data, nul + 1, data.len());
    assert(body@ =~= data@.skip(nul as int + 1));
    if body.len() as u64 != size {
        let mut m = "declared size ".to_owned();
        push_dec(&mut m, size);
        m.append(" but body length ");
        push_dec(&mut m, body.len() as u64);
        return Err(m);
    }
    Ok((kind, body))
}

/// The part of a text before its first space is itself text.
proof fn lemma_word_is_text(s: Seq<u8>)
    requires
        valid_utf8(s),
    ensures
        valid_utf8(first_word(s)),
{
    lemma_first_at(s, 32);
    let k = first_at(s, 32) as int;
    if k < s.len() {
        vstd::utf8::is_char_boundary_iff_is_leading_byte(s, k);
        vstd::utf8::valid_utf8_split(s, k);
        assert(first_word(s) =~= s.subrange(0, k));
    } else {
        assert(first_word(s) =~= s);
    }
}

} // verus!
