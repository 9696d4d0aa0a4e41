//! Loose objects: a single zlib stream of a framed object.
use vstd::prelude::*;
use vstd::string::{StrSliceExecFns, StringExecFns};
use vstd::utf8::{encode_utf8, encode_utf8_valid_utf8, is_ascii_chars_encode_utf8, valid_utf8};
use crate::kernel::git::{frame_header, frame_size, frame_type, parse_loose_header, GitType};
use crate::model::bytes::{copy_range, first_at, lemma_first_at_is, oid_at, push_all};
use crate::model::object::{
    blob_bytes, commit_bytes, dec_bytes, dec_bytes_roundtrip, lemma_frame_head, lemma_names_are_words,
    lemma_type_names, object_frame, tag_bytes, tree_bytes,
};
use crate::model::outside::{
    hex_decode, lemma_zlib_push, zlib_call, zlib_consumed, zlib_packed, zlib_produced, ZlibReader, ZlibStatus,
};
use crate::model::text::{dec, decimal, is_hex, push_dec, unhex};

verus! {

#[derive(Debug)]
pub struct ParsedLoose {
    /// Object id advertised by the on-disk path (xx/yyyy...), if available.
    pub path_oid: Option<[u8; 20]>,
    pub kind: GitType,
    pub content: Result<Vec<u8>, String>,
    pub declared_size: u64,
    /// Consumed compressed bytes from the start of the file.
    pub consumed: Option<usize>,
}

/// What a whole file inflates to, after the calls that `rooms` tells of.
pub open spec fn loose_run(source: Seq<u8>, rooms: Seq<nat>) -> Result<(Seq<u8>, nat), Seq<char>>
    decreases
        source.len() - zlib_consumed(source, rooms) + usize::MAX - zlib_produced(
            source,
            rooms,
        ).len(),
{
    let made = zlib_produced(source, rooms);
    let used = zlib_consumed(source, rooms);
    let next = rooms.push(8192);
    let call = zlib_call(source, next);
    let out = made + call.produced;
    if call.status == ZlibStatus::Failed {
        Err(call.message)
    } else if call.status == ZlibStatus::StreamEnd {
        Ok((out, used + call.consumed))
    } else if call.status == ZlibStatus::BufError && call.produced.len() == 0 && (call.consumed == 0
        || used + call.consumed == source.len()) {
        Err("loose zlib stream truncated"@)
    } else if zlib_consumed(source, next) == used + call.consumed && zlib_produced(
        source,
        next,
    ) == out && used + call.consumed <= source.len() && out.len() <= usize::MAX && call.consumed
        + call.produced.len() > 0 {
        loose_run(source, next)
    } else {
        Err("loose zlib stream truncated"@)
    }
}

/// What the header of a framed object says: its type and size, or what is wrong with it.
pub open spec fn loose_head(buf: Seq<u8>) -> Result<(GitType, nat), Seq<char>> {
    let header = frame_header(buf);
    if first_at(buf, 0) == buf.len() {
        Err("loose header NUL missing"@)
    } else if first_at(header, 32) == header.len() {
        Err("loose header space missing"@)
    } else {
        match GitType::of_bytes(frame_type(header)) {
            None => Err("unknown loose type"@),
            Some(t) => if !valid_utf8(frame_size(header)) {
                Err("loose size not ascii"@)
            } else {
                match decimal(frame_size(header), usize::MAX as nat) {
                    None => Err("loose size not numeric"@),
                    Some(n) => Ok((t, n)),
                }
            },
        }
    }
}

/// The record of an object whose stream inflated to `out`.
pub open spec fn is_loose_of(p: ParsedLoose, out: Seq<u8>, consumed: nat, path_oid: Option<[u8; 20]>) -> bool {
    &&& p.path_oid == path_oid
    &&& p.consumed == Some(consumed as usize)
    &&& match loose_head(out) {
        Err(m) => {
            &&& p.kind == GitType::Blob
            &&& p.declared_size == 0
            &&& p.content matches Err(e) && e@ == "loose header: "@ + m
        },
        Ok((t, n)) => {
            let body = out.skip(first_at(out, 0) as int + 1);
            &&& p.kind == t
            &&& p.declared_size == n
            &&& if body.len() == n {
                p.content matches Ok(c) && c@ == body
            } else {
                p.content matches Err(e) && e@ == "loose header declares "@ + dec(n) + " bytes but body is "@
                    + dec(body.len()) + " bytes"@
            }
        },
    }
}

/// The record of an object whose stream could not be inflated.
pub open spec fn is_broken_loose(p: ParsedLoose, m: Seq<char>, path_oid: Option<[u8; 20]>) -> bool {
    &&& p.path_oid == path_oid
    &&& p.kind == GitType::Blob
    &&& p.declared_size == 0
    &&& p.consumed is None
    &&& p.content matches Err(e) && e@ == m
}

/// Interprets the bytes that a loose object inflated to.
pub fn read_inflated(out: &[u8], consumed: usize, path_oid: Option<[u8; 20]>) -> (p: ParsedLoose)
    ensures
        is_loose_of(p, out@, consumed as nat, path_oid),
{
    match parse_loose_header(out) {
        Err(e) => {
            let mut m = "loose header: ".to_owned();
            m.append(e.message().as_str());
            ParsedLoose {
                path_oid,
                kind: GitType::Blob,
                content: Err(m),
                declared_size: 0,
                consumed: Some(consumed),
            }
        },
        Ok((kind, size, body_start)) => {
            let body = copy_range(out, body_start, out.len());
            assert(body@ =~= out@.skip(first_at(out@, 0) as int + 1));
            let content: Result<Vec<u8>, String> = if body.len() == size {
                Ok(body)
            } else {
                let mut m = "loose header declares ".to_owned();
                push_dec(&mut m, size as u64);
                m.append(" bytes but body is ");
                push_dec(&mut m, body.len() as u64);
                m.append(" bytes");
                Err(m)
            };
            ParsedLoose { path_oid, kind, content, declared_size: size as u64, consumed: Some(consumed) }
        },
    }
}

/// Inflates and interprets a loose object. The stream is self-delimiting; one that fails to
/// terminate is reported. A stream that the encoder wrote is read back whole.
pub fn parse_loose(buf: &[u8], path_oid: Option<[u8; 20]>) -> (p: ParsedLoose)
    ensures
        match loose_run(buf@, Seq::empty()) {
            Err(m) => is_broken_loose(p, m, path_oid),
            Ok((out, consumed)) => is_loose_of(p, out, consumed, path_oid),
        },
        forall|x: Seq<u8>| #[trigger]
            zlib_packed(x).is_prefix_of(buf@) ==> is_loose_of(p, x, zlib_packed(x).len(), path_oid),
{
    let mut z = ZlibReader::start(buf);
    let mut out: Vec<u8> = Vec::new();
    let mut pos: usize = 0;
    loop
        invariant
            z.source() == buf@,
            pos == zlib_consumed(buf@, z.rooms()),
            pos <= buf@.len(),
            out@ == zlib_produced(buf@, z.rooms()),
            loose_run(buf@, Seq::empty()) == loose_run(buf@, z.rooms()),
        decreases buf@.len() - pos + usize::MAX - out@.len(),
    {
        let ghost rooms = z.rooms();
        let total: usize = buf.len();
        let call = z.step(buf, 8192);
        proof {
            lemma_zlib_push(buf@, rooms, 8192);
        }
        push_all(&mut out, call.produced.as_slice());
        pos += call.consumed;
        let size: usize = out.len();
        match call.status {
            ZlibStatus::Failed => {
                return ParsedLoose {
                    path_oid,
                    kind: GitType::Blob,
                    content: Err(call.message),
                    declared_size: 0,
                    consumed: None,
                };
            },
            ZlibStatus::StreamEnd => {
                return read_inflated(out.as_slice(), pos, path_oid);
            },
            ZlibStatus::BufError => {
                if call.produced.len() == 0 && (call.consumed == 0 || pos == buf.len()) {
                    return ParsedLoose {
                        path_oid,
                        kind: GitType::Blob,
                        content: Err("loose zlib stream truncated".to_owned()),
                        declared_size: 0,
                        consumed: None,
                    };
                }
            },
            _ => {},
        }
    }
}

/// A path without its separators.
pub open spec fn without_separators(s: Seq<char>) -> Seq<char>
    decreases s.len(),
{
    if s.len() == 0 {
        Seq::empty()
    } else {
        let head = without_separators(s.drop_last());
        if s.last() == '/' || s.last() == '\\' {
            head
        } else {
            head.push(s.last())
        }
    }
}

/// The object id that a relative path spells.
pub open spec fn path_id(s: Seq<char>) -> Option<Seq<u8>> {
    let c = without_separators(s);
    if c.len() == 40 && is_hex(c) {
        Some(unhex(c))
    } else {
        None
    }
}

/// Tries to interpret an import path like "ab/cdef...<38 hex>" as an object id.
pub fn oid_from_relpath(relpath: &str) -> (r: Option<[u8; 20]>)
    ensures
        match r {
            Some(id) => path_id(relpath@) == Some(id@),
            None => path_id(relpath@) is None,
        },
{
    let n: usize = relpath.unicode_len();
    let mut cleaned = String::new();
    let mut kept: usize = 0;
    let mut i: usize = 0;
    while i < n
        invariant
            n == relpath@.len(),
            i <= n,
            kept <= i,
            kept == cleaned@.len(),
            cleaned@ == without_separators(relpath@.take(i as int)),
        decreases n - i,
    {
        let c: char = relpath.get_char(i);
        proof {
            assert(relpath@.take(i + 1).drop_last() =~= relpath@.take(i as int));
        }
        if c != '/' && c != '\\' {
            cleaned.push(c);
            kept += 1;
        }
        i += 1;
    }
    assert(relpath@.take(n as int) =~= relpath@);
    if kept != 40 {
        return None;
    }
    match hex_decode(cleaned.as_str()) {
        None => None,
        Some(v) => {
            assert(v@.len() == 20);
            let id = oid_at(v.as_slice(), 0);
            assert(id@ =~= v@);
            Some(id)
        },
    }
}

/// A framed object is split into its type and its content again, and so a loose object that was
/// framed and compressed is read back.
pub proof fn frames_are_split_again(t: GitType, body: Seq<u8>)
    requires
        body.len() <= usize::MAX,
    ensures
        ({
            let f = object_frame(t.text(), body);
            &&& loose_head(f) == Ok::<(GitType, nat), Seq<char>>((t, body.len()))
            &&& f.skip(first_at(f, 0) as int + 1) == body
            &&& forall|p: ParsedLoose, n: nat, path_oid: Option<[u8; 20]>| #[trigger]
                is_loose_of(p, f, n, path_oid) ==> p.kind == t && p.declared_size == body.len() && (
                p.content matches Ok(c) && c@ == body)
        }),
{
    let name = t.text();
    let n = body.len();
    let f = object_frame(name, body);
    lemma_names_are_words();
    lemma_type_names();
    lemma_frame_head(name, n, body);
    dec_bytes_roundtrip(n);
    encode_utf8_valid_utf8(dec(n));
    is_ascii_chars_encode_utf8(name);
    let header = frame_header(f);
    let bytes = encode_utf8(name);
    assert(header == bytes + seq![32u8] + dec_bytes(n));
    assert forall|i: int| 0 <= i < bytes.len() implies header[i] != 32 by {
        assert(header[i] == bytes[i]);
        assert(bytes[i] == name[i] as u8);
        assert(name[i] != ' ');
    }
    lemma_first_at_is(header, 32, bytes.len());
    assert(frame_type(header) =~= bytes);
    assert(frame_size(header) =~= dec_bytes(n));
    assert(commit_bytes().len() == 6 && tree_bytes().len() == 4 && blob_bytes().len() == 4 && tag_bytes().len() == 3);
    assert(tree_bytes()[0] == 116 && blob_bytes()[0] == 98);
}

/// A text without a separator.
pub open spec fn one_part(s: Seq<char>) -> bool {
    forall|i: int| 0 <= i < s.len() ==> #[trigger] s[i] != '/' && s[i] != '\\'
}

proof fn lemma_joined(a: Seq<char>, b: Seq<char>)
    requires
        one_part(b),
    ensures
        without_separators(a + b) == without_separators(a) + b,
    decreases b.len(),
{
    if b.len() == 0 {
        assert(a + b =~= a);
        assert(without_separators(a) + b =~= without_separators(a));
    } else {
        let t = b.drop_last();
        assert(one_part(t)) by {
            assert forall|i: int| 0 <= i < t.len() implies #[trigger] t[i] != '/' && t[i] != '\\' by {
                assert(t[i] == b[i]);
            }
        }
        lemma_joined(a, t);
        assert((a + b).drop_last() =~= a + t);
        assert((a + b).last() == b[b.len() - 1]);
        assert((without_separators(a) + t).push(b.last()) =~= without_separators(a) + b);
    }
}

/// The id of a fanned out path is spelled by the directory and the name together: forty digits are read
/// as twenty bytes, and anything else is no id.
pub proof fn a_fanned_out_path_spells_its_id(dir: Seq<char>, name: Seq<char>)
    requires
        one_part(dir),
        one_part(name),
    ensures
        dir.len() + name.len() == 40 && is_hex(dir + name) ==> path_id(dir + seq!['/'] + name) == Some(
            unhex(dir + name),
        ) && path_id(dir + name) == Some(unhex(dir + name)),
        dir.len() + name.len() != 40 || !is_hex(dir + name) ==> path_id(dir + seq!['/'] + name) is None && path_id(
            dir + name,
        ) is None,
{
    let none = Seq::<char>::empty();
    lemma_joined(none, dir);
    assert(none + dir =~= dir);
    assert(without_separators(dir) =~= dir);
    lemma_joined(dir, name);
    let d = dir + seq!['/'];
    assert(d.drop_last() =~= dir && d.last() == '/');
    assert(without_separators(d) =~= dir);
    lemma_joined(d, name);
}

} // verus!
