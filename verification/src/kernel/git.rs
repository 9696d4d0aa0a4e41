//! Low-level object format helpers.
use vstd::prelude::*;
use vstd::utf8::valid_utf8;
use crate::model::bytes::{find_byte, first_at, same_bytes};
use crate::model::object::{blob_bytes, commit_bytes, frame, object_frame, tag_bytes, tree_bytes};
use crate::model::outside::{sha1, sha1_of, utf8_text};
use crate::model::text::{dec, decimal, parse_decimal, push_dec};
use crate::model::varint::{
    ends, head_bytes, header_code, header_size, header_size_at, le128_scan, ofs128, ofs128_at, run_at,
    scan_le128, touched, word, Scan,
};

verus! {

/// The type of an object.
#[derive(Clone, Copy, PartialEq, Eq, Debug, Hash, Structural)]
pub enum GitType {
    Commit,
    Tree,
    Blob,
    Tag,
}

impl GitType {
    /// The name of the type in an object frame.
    pub open spec fn text(self) -> Seq<char> {
        match self {
            GitType::Commit => "commit"@,
            GitType::Tree => "tree"@,
            GitType::Blob => "blob"@,
            GitType::Tag => "tag"@,
        }
    }

    /// The type with a given code in a pack entry header.
    pub open spec fn of_code(code: u8) -> Option<GitType> {
        if code == 1 {
            Some(GitType::Commit)
        } else if code == 2 {
            Some(GitType::Tree)
        } else if code == 3 {
            Some(GitType::Blob)
        } else if code == 4 {
            Some(GitType::Tag)
        } else {
            None
        }
    }

    /// The type with a given name.
    pub open spec fn of_bytes(name: Seq<u8>) -> Option<GitType> {
        if name == commit_bytes() {
            Some(GitType::Commit)
        } else if name == tree_bytes() {
            Some(GitType::Tree)
        } else if name == blob_bytes() {
            Some(GitType::Blob)
        } else if name == tag_bytes() {
            Some(GitType::Tag)
        } else {
            None
        }
    }

    pub fn name(self) -> (s: &'static str)
        ensures
            s@ == self.text(),
    {
        match self {
            GitType::Commit => "commit",
            GitType::Tree => "tree",
            GitType::Blob => "blob",
            GitType::Tag => "tag",
        }
    }

    pub fn from_code(code: u8) -> (r: Option<GitType>)
        ensures
            r == Self::of_code(code),
    {
        match code {
            1 => Some(GitType::Commit),
            2 => Some(GitType::Tree),
            3 => Some(GitType::Blob),
            4 => Some(GitType::Tag),
            _ => None,
        }
    }

    pub fn from_name(name: &[u8]) -> (r: Option<GitType>)
        ensures
            r == Self::of_bytes(name@),
    {
        let commit: [u8; 6] = [99, 111, 109, 109, 105, 116];
        let tree: [u8; 4] = [116, 114, 101, 101];
        let blob: [u8; 4] = [98, 108, 111, 98];
        let tag: [u8; 3] = [116, 97, 103];
        assert(commit@ =~= commit_bytes());
        assert(tree@ =~= tree_bytes());
        assert(blob@ =~= blob_bytes());
        assert(tag@ =~= tag_bytes());
        if same_bytes(name, commit.as_slice()) {
            Some(GitType::Commit)
        } else if same_bytes(name, tree.as_slice()) {
            Some(GitType::Tree)
        } else if same_bytes(name, blob.as_slice()) {
            Some(GitType::Blob)
        } else if same_bytes(name, tag.as_slice()) {
            Some(GitType::Tag)
        } else {
            None
        }
    }
}

/// The object id: the SHA-1 of the framed content.
pub fn git_object_id(kind: GitType, data: &[u8]) -> (id: [u8; 20])
    ensures
        id@ == sha1_of(object_frame(kind.text(), data@)),
{
    let framed = frame(kind.name(), data);
    sha1(framed.as_slice())
}

/// The type of a pack entry as recorded in its header.
#[derive(Clone, Copy, PartialEq, Eq, Debug, Hash, Structural)]
pub enum EntryType {
    Base(GitType),
    OfsDelta,
    RefDelta,
}

impl EntryType {
    pub open spec fn text(self) -> Seq<char> {
        match self {
            EntryType::Base(t) => t.text(),
            EntryType::OfsDelta => "ofs-delta"@,
            EntryType::RefDelta => "ref-delta"@,
        }
    }

    pub open spec fn of_code(code: u8) -> Option<EntryType> {
        match GitType::of_code(code) {
            Some(t) => Some(EntryType::Base(t)),
            None => if code == 6 {
                Some(EntryType::OfsDelta)
            } else if code == 7 {
                Some(EntryType::RefDelta)
            } else {
                None
            },
        }
    }

    pub fn label(self) -> (s: &'static str)
        ensures
            s@ == self.text(),
    {
        match self {
            EntryType::Base(t) => t.name(),
            EntryType::OfsDelta => "ofs-delta",
            EntryType::RefDelta => "ref-delta",
        }
    }

    pub fn from_pack_code(code: u8) -> (r: Option<EntryType>)
        ensures
            r == Self::of_code(code),
    {
        match GitType::from_code(code) {
            Some(t) => Some(EntryType::Base(t)),
            None => match code {
                6 => Some(EntryType::OfsDelta),
                7 => Some(EntryType::RefDelta),
                _ => None,
            },
        }
    }
}

#[derive(Debug)]
pub enum ParseError {
    Truncated(String),
    BadEncoding(String),
}

impl ParseError {
    /// The message of the error.
    pub open spec fn text(self) -> Seq<char> {
        match self {
            ParseError::Truncated(s) => s@,
            ParseError::BadEncoding(s) => s@,
        }
    }

    pub fn message(&self) -> (s: String)
        ensures
            s@ == self.text(),
    {
        match self {
            ParseError::Truncated(s) => s.clone(),
            ParseError::BadEncoding(s) => s.clone(),
        }
    }

    /// Truncation with the given message.
    pub open spec fn is_truncated(self, m: Seq<char>) -> bool {
        self matches ParseError::Truncated(s) && s@ == m
    }

    /// Bad encoding with the given message.
    pub open spec fn is_bad(self, m: Seq<char>) -> bool {
        self matches ParseError::BadEncoding(s) && s@ == m
    }
}

fn truncated(m: &str) -> (e: ParseError)
    ensures
        e.is_truncated(m@),
{
    ParseError::Truncated(m.to_owned())
}

fn bad(m: &str) -> (e: ParseError)
    ensures
        e.is_bad(m@),
{
    ParseError::BadEncoding(m.to_owned())
}

/// The bytes from `pos` on.
pub open spec fn from_pos(buf: Seq<u8>, pos: usize) -> Seq<u8> {
    if pos <= buf.len() {
        buf.skip(pos as int)
    } else {
        Seq::empty()
    }
}

/// Reads the type and size header of a pack entry. Returns (type, size, header end).
pub fn read_entry_head(buf: &[u8], pos: usize) -> (r: Result<(EntryType, u64, usize), ParseError>)
    ensures
        ({
            let s = from_pos(buf@, pos);
            match r {
                Ok((t, size, end)) => {
                    &&& ends(s)
                    &&& EntryType::of_code(header_code(s[0])) == Some(t)
                    &&& size as nat == header_size(head_bytes(s)) % word()
                    &&& end == pos + touched(s)
                },
                Err(e) => {
                    ||| s.len() == 0 && e.is_truncated("entry header byte missing"@)
                    ||| s.len() > 0 && EntryType::of_code(header_code(s[0])) is None && e.is_bad(
                        "unknown pack object type "@ + dec(header_code(s[0]) as nat),
                    )
                    ||| s.len() > 0 && EntryType::of_code(header_code(s[0])) is Some && !ends(s)
                        && e.is_truncated("size varint truncated"@)
                },
            }
        }),
{
    if pos >= buf.len() {
        return Err(truncated("entry header byte missing"));
    }
    let ghost s = from_pos(buf@, pos);
    let first: u8 = buf[pos];
    let code: u8 = (first / 16) % 8;
    match EntryType::from_pack_code(code) {
        None => {
            let mut m = "unknown pack object type ".to_owned();
            push_dec(&mut m, code as u64);
            Err(ParseError::BadEncoding(m))
        },
        Some(t) => {
            let k: usize = run_at(buf, pos);
            if k >= buf.len() - pos {
                return Err(truncated("size varint truncated"));
            }
            assert(head_bytes(s) =~= buf@.subrange(pos as int, pos + k + 1));
            Ok((t, header_size_at(buf, pos, k + 1), pos + k + 1))
        },
    }
}

/// Reads the negative relative offset of an offset delta. Returns (distance, header end).
pub fn read_ofs_distance(buf: &[u8], pos: usize) -> (r: Result<(u64, usize), ParseError>)
    ensures
        ({
            let s = from_pos(buf@, pos);
            match r {
                Ok((dist, end)) => {
                    &&& ends(s)
                    &&& dist as nat == ofs128(head_bytes(s)) % word()
                    &&& end == pos + touched(s)
                },
                Err(e) => {
                    ||| s.len() == 0 && e.is_truncated("ofs byte missing"@)
                    ||| s.len() > 0 && !ends(s) && e.is_truncated("ofs varint truncated"@)
                },
            }
        }),
{
    if pos >= buf.len() {
        return Err(truncated("ofs byte missing"));
    }
    let ghost s = from_pos(buf@, pos);
    let k: usize = run_at(buf, pos);
    if k >= buf.len() - pos {
        return Err(truncated("ofs varint truncated"));
    }
    assert(head_bytes(s) =~= buf@.subrange(pos as int, pos + k + 1));
    Ok((ofs128_at(buf, pos, k + 1), pos + k + 1))
}

/// Reads a little-endian number of a delta payload.
pub fn read_delta_varint(buf: &[u8], pos: usize) -> (r: Result<(u64, usize), ParseError>)
    ensures
        ({
            let s = le128_scan(from_pos(buf@, pos));
            match r {
                Ok((v, end)) => s matches Scan::Value { value, len } && v == value && end == pos + len
                    && pos < end <= buf@.len(),
                Err(e) => {
                    ||| s is Truncated && e.is_truncated("delta varint truncated"@)
                    ||| s is TooLong && e.is_bad("delta varint too long"@)
                },
            }
        }),
{
    if pos > buf.len() {
        return Err(truncated("delta varint truncated"));
    }
    match scan_le128(buf, pos) {
        Scan::Value { value, len } => Ok((value, pos + len)),
        Scan::Truncated => Err(truncated("delta varint truncated")),
        Scan::TooLong => Err(bad("delta varint too long")),
    }
}

/// What stands before the NUL of a framed object.
pub open spec fn frame_header(buf: Seq<u8>) -> Seq<u8> {
    buf.take(first_at(buf, 0) as int)
}

/// The type name of a framed object: what stands before the first space.
pub open spec fn frame_type(header: Seq<u8>) -> Seq<u8> {
    header.take(first_at(header, 32) as int)
}

/// The size of a framed object: what stands after the first space.
pub open spec fn frame_size(header: Seq<u8>) -> Seq<u8> {
    header.skip(first_at(header, 32) as int + 1)
}

/// Parses the header of a loose object. Returns (type, size, content start).
pub fn parse_loose_header(buf: &[u8]) -> (r: Result<(GitType, usize, usize), ParseError>)
    ensures
        ({
            let nul = first_at(buf@, 0);
            let header = frame_header(buf@);
            let sp = first_at(header, 32);
            let kind = GitType::of_bytes(frame_type(header));
            let num = frame_size(header);
            let size = decimal(num, usize::MAX as nat);
            match r {
                Ok((t, n, start)) => {
                    &&& nul < buf@.len() && sp < header.len()
                    &&& kind == Some(t)
                    &&& valid_utf8(num)
                    &&& size == Some(n as nat)
                    &&& start == nul + 1
                },
                Err(e) => {
                    ||| nul == buf@.len() && e.is_bad("loose header NUL missing"@)
                    ||| nul < buf@.len() && sp == header.len() && e.is_bad("loose header space missing"@)
                    ||| nul < buf@.len() && sp < header.len() && kind is None && e.is_bad(
                        "unknown loose type"@,
                    )
                    ||| nul < buf@.len() && sp < header.len() && kind is Some && !valid_utf8(num) && e.is_bad(
                        "loose size not ascii"@,
                    )
                    ||| nul < buf@.len() && sp < header.len() && kind is Some && valid_utf8(num)
                        && size is None && e.is_bad("loose size not numeric"@)
                },
            }
        }),
{
    let nul: usize = find_byte(buf, 0);
    if nul >= buf.len() {
        return Err(bad("loose header NUL missing"));
    }
    let header = vstd::slice::slice_subrange(buf, 0, nul);
    assert(header@ =~= frame_header(buf@));
    let sp: usize = find_byte(header, 32);
    if sp >= header.len() {
        return Err(bad("loose header space missing"));
    }
    let name = vstd::slice::slice_subrange(header, 0, sp);
    assert(name@ =~= frame_type(header@));
    let num = vstd::slice::slice_subrange(header, sp + 1, header.len());
    assert(num@ =~= frame_size(header@));
    match GitType::from_name(name) {
        None => Err(bad("unknown loose type")),
        Some(t) => {
            match utf8_text(num) {
                Err(_) => Err(bad("loose size not ascii")),
                Ok(_) => match parse_decimal(num) {
                    None => Err(bad("loose size not numeric")),
                    Some(v) => if v <= usize::MAX as u64 {
                        Ok((t, v as usize, nul + 1))
                    } else {
                        Err(bad("loose size not numeric"))
                    },
                },
            }
        },
    }
}

/// The code of a type is read back as that type, and so is its name.
pub proof fn type_names_and_codes_are_inverse(t: GitType)
    ensures
        GitType::of_bytes(vstd::utf8::encode_utf8(t.text())) == Some(t),
        exists|c: u8| 1 <= c <= 4 && #[trigger] GitType::of_code(c) == Some(t),
{
    crate::model::object::lemma_type_names();
    assert(GitType::of_code(1) == Some(GitType::Commit));
    assert(GitType::of_code(2) == Some(GitType::Tree));
    assert(GitType::of_code(3) == Some(GitType::Blob));
    assert(GitType::of_code(4) == Some(GitType::Tag));
    assert(commit_bytes().len() == 6 && tree_bytes().len() == 4 && blob_bytes().len() == 4);
    assert(tree_bytes()[0] != blob_bytes()[0]);
}

} // verus!
