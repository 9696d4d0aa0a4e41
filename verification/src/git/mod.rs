//! Low level object, pack and index primitives.
use vstd::prelude::*;
use vstd::string::StringExecFns;
use crate::model::bytes::push_all;
use crate::model::object::{frame, object_frame};
use crate::model::outside::{
    lemma_zlib_push, sha1_smol, sha1_smol_of, zlib_call, zlib_consumed, zlib_packed, zlib_produced, ZlibReader,
    ZlibStatus,
};
use crate::model::text::same_text;
use crate::model::varint::{
    ends, head_bytes, header_code, header_size, header_size_at, ofs128, ofs128_at, run_at, touched, word,
};

pub mod base;
pub mod builder;
pub mod delta;
pub mod hash;
pub mod idx;
pub mod index;
pub mod inflate;
pub mod loose;
pub mod object;
pub mod object_id;
pub mod oid;
pub mod pack;
pub mod sha;
pub mod types;
pub mod varint;
pub mod writer;
pub mod zdec;
pub mod zlib;

verus! {

/// Object types, identified by the numeric code used in pack entries.
#[derive(Debug, Clone, Copy, PartialEq, Eq, Hash, Structural)]
pub enum GitType {
    Commit,
    Tree,
    Blob,
    Tag,
    /// Offset delta: the base is addressed by a negative pack offset.
    OfsDelta,
    /// Reference delta: the base is addressed by a 20 byte object id.
    RefDelta,
}

impl GitType {
    /// The type with a given pack code.
    pub open spec fn of_code(code: u8) -> Option<GitType> {
        if code == 1 {
            Some(GitType::Commit)
        } else if code == 2 {
            Some(GitType::Tree)
        } else if code == 3 {
            Some(GitType::Blob)
        } else if code == 4 {
            Some(GitType::Tag)
        } else if code == 6 {
            Some(GitType::OfsDelta)
        } else if code == 7 {
            Some(GitType::RefDelta)
        } else {
            None
        }
    }

    pub open spec fn text(self) -> Seq<char> {
        match self {
            GitType::Commit => "commit"@,
            GitType::Tree => "tree"@,
            GitType::Blob => "blob"@,
            GitType::Tag => "tag"@,
            GitType::OfsDelta => "ofs-delta"@,
            GitType::RefDelta => "ref-delta"@,
        }
    }

    pub open spec fn delta(self) -> bool {
        self == GitType::OfsDelta || self == GitType::RefDelta
    }

    /// The object type with a given name.
    pub open spec fn of_text(name: Seq<char>) -> Option<GitType> {
        if name == "commit"@ {
            Some(GitType::Commit)
        } else if name == "tree"@ {
            Some(GitType::Tree)
        } else if name == "blob"@ {
            Some(GitType::Blob)
        } else if name == "tag"@ {
            Some(GitType::Tag)
        } else {
            None
        }
    }

    pub fn from_pack(code: u8) -> (r: Option<GitType>)
        ensures
            r == Self::of_code(code),
    {
        match code {
            1 => Some(GitType::Commit),
            2 => Some(GitType::Tree),
            3 => Some(GitType::Blob),
            4 => Some(GitType::Tag),
            6 => Some(GitType::OfsDelta),
            7 => Some(GitType::RefDelta),
            _ => None,
        }
    }

    pub fn is_delta(self) -> (r: bool)
        ensures
            r == self.delta(),
    {
        matches!(self, GitType::OfsDelta | GitType::RefDelta)
    }

    pub fn base_type_code(self) -> (r: Option<u8>)
        ensures
            r is Some <==> !self.delta(),
            r matches Some(c) ==> Self::of_code(c) == Some(self),
    {
        match self {
            GitType::Commit => Some(1),
            GitType::Tree => Some(2),
            GitType::Blob => Some(3),
            GitType::Tag => Some(4),
            _ => None,
        }
    }

    pub fn name(self) -> (s: &'static str)
        ensures
            s@ == self.text(),
    {
        match self {
            GitType::Commit => "commit",
            GitType::Tree => "tree",
            GitType::Blob => "blob",
            GitType::Tag => "tag",
            GitType::OfsDelta => "ofs-delta",
            GitType::RefDelta => "ref-delta",
        }
    }

    pub fn from_name(name: &str) -> (r: Option<GitType>)
        ensures
            r == Self::of_text(name@),
    {
        if same_text(name, "commit") {
            Some(GitType::Commit)
        } else if same_text(name, "tree") {
            Some(GitType::Tree)
        } else if same_text(name, "blob") {
            Some(GitType::Blob)
        } else if same_text(name, "tag") {
            Some(GitType::Tag)
        } else {
            None
        }
    }
}

/// The object id: the SHA-1 of the framed content.
pub fn git_object_id(kind_name: &str, data: &[u8]) -> (id: [u8; 20])
    ensures
        id@ == sha1_smol_of(object_frame(kind_name@, data@)),
{
    let framed = frame(kind_name, data);
    sha1_smol(framed.as_slice())
}

/// The payload of a loose object: the framed content.
pub fn loose_payload(kind_name: &str, data: &[u8]) -> (out: Vec<u8>)
    ensures
        out@ == object_frame(kind_name@, data@),
{
    frame(kind_name, data)
}

/// Reads the size and type header of a pack entry.
/// Returns (type code, size, bytes consumed).
pub fn read_pack_entry_header(data: &[u8], pos: usize) -> (r: Result<(u8, u64, usize), String>)
    ensures
        ({
            let s = if pos <= data@.len() {
                data@.skip(pos as int)
            } else {
                Seq::empty()
            };
            match r {
                Ok((code, size, n)) => {
                    &&& ends(s)
                    &&& code == header_code(s[0])
                    &&& size as nat == header_size(head_bytes(s)) % word()
                    &&& n == touched(s)
                },
                Err(e) => {
                    ||| s.len() == 0 && e@ == "unexpected end of pack entry header"@
                    ||| s.len() > 0 && !ends(s) && e@ == "truncated pack entry header (continuation)"@
                },
            }
        }),
{
    if pos >= data.len() {
        return Err("unexpected end of pack entry header".to_owned());
    }
    let ghost s = data@.skip(pos as int);
    let k: usize = run_at(data, pos);
    if k >= data.len() - pos {
        return Err("truncated pack entry header (continuation)".to_owned());
    }
    assert(head_bytes(s) =~= data@.subrange(pos as int, pos + k + 1));
    let code: u8 = (data[pos] / 16) % 8;
    Ok((code, header_size_at(data, pos, k + 1), k + 1))
}

/// Reads the negative-offset encoding of an offset delta.
/// Returns (offset distance, bytes consumed).
pub fn read_ofs_distance(data: &[u8], pos: usize) -> (r: Result<(u64, usize), String>)
    ensures
        ({
            let s = if pos <= data@.len() {
                data@.skip(pos as int)
            } else {
                Seq::empty()
            };
            match r {
                Ok((dist, n)) => {
                    &&& ends(s)
                    &&& dist as nat == ofs128(head_bytes(s)) % word()
                    &&& n == touched(s)
                },
                Err(e) => {
                    ||| s.len() == 0 && e@ == "truncated ofs-delta header"@
                    ||| s.len() > 0 && !ends(s) && e@ == "truncated ofs-delta offset"@
                },
            }
        }),
{
    if pos >= data.len() {
        return Err("truncated ofs-delta header".to_owned());
    }
    let ghost s = data@.skip(pos as int);
    let k: usize = run_at(data, pos);
    if k >= data.len() - pos {
        return Err("truncated ofs-delta offset".to_owned());
    }
    assert(head_bytes(s) =~= data@.subrange(pos as int, pos + k + 1));
    Ok((ofs128_at(data, pos, k + 1), k + 1))
}

/// What a stream at the head of `source` inflates to, after the calls that `rooms` tells of.
pub open spec fn inflate_run(source: Seq<u8>, rooms: Seq<nat>) -> Result<(Seq<u8>, nat), Seq<char>>
    decreases
        source.len() - zlib_consumed(source, rooms) + usize::MAX - zlib_produced(
            source,
            rooms,
        ).len(),
{
    let made = zlib_produced(source, rooms);
    let used = zlib_consumed(source, rooms);
    let next = rooms.push(4096);
    let call = zlib_call(source, next);
    let out = made + call.produced;
    if call.status == ZlibStatus::Failed {
        Err("zlib error: "@ + call.message)
    } else if call.status == ZlibStatus::StreamEnd {
        Ok((out, used + call.consumed))
    } else if call.consumed == 0 && call.produced.len() == 0 && used >= source.len() {
        Err("truncated zlib stream (no more input)"@)
    } else if call.consumed == 0 && call.produced.len() == 0 {
        Err("zlib stalled without progress"@)
    } else if zlib_consumed(source, next) == used + call.consumed && zlib_produced(
        source,
        next,
    ) == out && used + call.consumed <= source.len() && out.len() <= usize::MAX {
        inflate_run(source, next)
    } else {
        Err("zlib stalled without progress"@)
    }
}

/// What the stream at `start` inflates to.
pub open spec fn inflate_at(data: Seq<u8>, start: usize) -> Result<(Seq<u8>, nat), Seq<char>> {
    if start > data.len() {
        Err("truncated zlib stream (no more input)"@)
    } else {
        inflate_run(data.skip(start as int), Seq::empty())
    }
}

/// Decompresses one zlib stream starting at `start`, stopping at the stream
/// boundary (rather than reading to the end of the buffer).
/// Returns the decompressed bytes and the number of compressed bytes consumed.
///
/// A stream that the encoder wrote is read back whole, whatever follows it.
pub fn inflate_one(data: &[u8], start: usize) -> (r: Result<(Vec<u8>, usize), String>)
    ensures
        match r {
            Ok((out, used)) => inflate_at(data@, start) == Ok::<(Seq<u8>, nat), Seq<char>>((out@, used as nat))
                && start + used <= data@.len(),
            Err(e) => inflate_at(data@, start) == Err::<(Seq<u8>, nat), Seq<char>>(e@),
        },
        forall|x: Seq<u8>|
            start <= data@.len() && #[trigger] zlib_packed(x).is_prefix_of(data@.skip(start as int)) ==> (
            r matches Ok(v) && v.0@ == x && v.1 == zlib_packed(x).len()),
{
    if start > data.len() {
        return Err("truncated zlib stream (no more input)".to_owned());
    }
    let source = vstd::slice::slice_subrange(data, start, data.len());
    assert(source@ =~= data@.skip(start as int));
    let mut z = ZlibReader::start(source);
    let mut out: Vec<u8> = Vec::new();
    let mut pos: usize = 0;
    loop
        invariant
            z.source() == source@,
            source@ == data@.skip(start as int),
            start + source@.len() == data@.len(),
            pos == zlib_consumed(source@, z.rooms()),
            pos <= source.len(),
            out@ == zlib_produced(source@, z.rooms()),
            inflate_run(source@, Seq::empty()) == inflate_run(source@, z.rooms()),
            forall|x: Seq<u8>| #[trigger]
                zlib_packed(x).is_prefix_of(source@) ==> pos <= zlib_packed(x).len(),
        decreases source@.len() - pos + usize::MAX - out@.len(),
    {
        let ghost rooms = z.rooms();
        let call = z.step(source, 4096);
        proof {
            lemma_zlib_push(source@, rooms, 4096);
        }
        push_all(&mut out, call.produced.as_slice());
        pos += call.consumed;
        assert(out@.len() == out.len());
        match call.status {
            ZlibStatus::Failed => {
                let mut m = "zlib error: ".to_owned();
                m.append(call.message.as_str());
                return Err(m);
            },
            ZlibStatus::StreamEnd => {
                return Ok((out, pos));
            },
            _ => {},
        }
        if call.consumed == 0 && call.produced.len() == 0 {
            if pos >= source.len() {
                return Err("truncated zlib stream (no more input)".to_owned());
            }
            return Err("zlib stalled without progress".to_owned());
        }
    }
}

/// A name is read back as the type it names, and a delta has no name in an object frame.
pub proof fn kind_names_are_read_back(t: GitType)
    ensures
        GitType::of_text(t.text()) == if t.delta() {
            None
        } else {
            Some(t)
        },
        exists|c: u8| #[trigger] GitType::of_code(c) == Some(t),
{
    reveal_strlit("commit");
    reveal_strlit("tree");
    reveal_strlit("blob");
    reveal_strlit("tag");
    reveal_strlit("ofs-delta");
    reveal_strlit("ref-delta");
    assert("commit"@.len() == 6 && "tree"@.len() == 4 && "blob"@.len() == 4 && "tag"@.len() == 3);
    assert("ofs-delta"@.len() == 9 && "ref-delta"@.len() == 9);
    assert("tree"@[0] == 't' && "blob"@[0] == 'b');
    assert(GitType::of_code(1) == Some(GitType::Commit));
    assert(GitType::of_code(2) == Some(GitType::Tree));
    assert(GitType::of_code(3) == Some(GitType::Blob));
    assert(GitType::of_code(4) == Some(GitType::Tag));
    assert(GitType::of_code(6) == Some(GitType::OfsDelta));
    assert(GitType::of_code(7) == Some(GitType::RefDelta));
}

} // verus!
