//! Inflation of the payload of a pack entry, and the content of the base of a chain.
use vstd::prelude::*;
use vstd::string::StringExecFns;
use crate::entry::rows::{EntryModel, EntryRow};
use crate::git::loose::{declared, read_payload};
use crate::git::{inflate_one, inflate_run, GitType};
use crate::gitobj::ObjType;
use crate::model::bytes::{first_at, push_all};
use crate::model::outside::{
    debug_text, lemma_zlib_push, lossy_text, quoted, zlib_call, zlib_consumed, zlib_packed, zlib_produced,
    ZlibReader, ZlibStatus,
};
use crate::model::text::{before, dec, push_dec, same_text, starts_with};

verus! {

/// What the stream that makes up `source` inflates to under a cap, after the calls that `rooms`
/// tells of.
pub open spec fn entry_run(source: Seq<u8>, cap: u64, rooms: Seq<nat>) -> Result<Seq<u8>, Seq<char>>
    decreases
        source.len() - zlib_consumed(source, rooms) + cap - zlib_produced(
            source,
            rooms,
        ).len(),
{
    let made = zlib_produced(source, rooms);
    let used = zlib_consumed(source, rooms);
    let next = rooms.push(4096);
    let call = zlib_call(source, next);
    let out = made + call.produced;
    if call.status == ZlibStatus::Failed {
        Err("zlib decode error: "@ + call.message)
    } else if out.len() > cap {
        Err("size fraud: inflated bytes exceeded declared size "@ + dec(cap as nat) + " mid-stream"@)
    } else if call.status == ZlibStatus::StreamEnd {
        if used + call.consumed != source.len() {
            Err(dec((source.len() - used - call.consumed) as nat) + " trailing bytes after entry zlib stream"@)
        } else {
            Ok(out)
        }
    } else if call.consumed == 0 && call.produced.len() == 0 {
        Err("zlib stream truncated ("@ + dec(out.len()) + " inflated bytes so far)"@)
    } else if zlib_consumed(source, next) == used + call.consumed && zlib_produced(
        source,
        next,
    ) == out && used + call.consumed <= source.len() {
        entry_run(source, cap, next)
    } else {
        Err("zlib stream truncated ("@ + dec(out.len()) + " inflated bytes so far)"@)
    }
}

/// What the payload of an entry inflates to.
pub open spec fn payload_of(e: EntryModel, cap: u64) -> Result<Seq<u8>, Seq<char>> {
    let head = e.data_offset - e.offset;
    if !(0 <= head <= e.raw.len()) {
        Err("entry header offset exceeds raw length"@)
    } else {
        entry_run(e.raw.skip(head), cap, Seq::empty())
    }
}

/// Decompresses the zlib payload of a pack entry, aborting as soon as the
/// inflated stream exceeds `cap` bytes ("size fraud discovered mid-inflate").
///
/// An entry whose payload is exactly a stream that the encoder wrote is read back whole.
pub fn inflate_pack_payload(entry: &EntryRow, cap: u64) -> (r: Result<Vec<u8>, String>)
    ensures
        match r {
            Ok(v) => payload_of(entry.deep_view(), cap) == Ok::<Seq<u8>, Seq<char>>(v@),
            Err(e) => payload_of(entry.deep_view(), cap) == Err::<Seq<u8>, Seq<char>>(e@),
        },
        forall|x: Seq<u8>|
            0 <= entry.data_offset - entry.offset <= entry.raw@.len() && x.len() <= cap
                && #[trigger] zlib_packed(x) == entry.raw@.skip(entry.data_offset - entry.offset) ==> (
            r matches Ok(v) && v@ == x),
{
    if entry.data_offset < entry.offset || entry.data_offset - entry.offset > entry.raw.len() as u64 {
        return Err("entry header offset exceeds raw length".to_owned());
    }
    let head: usize = (entry.data_offset - entry.offset) as usize;
    let source = vstd::slice::slice_subrange(entry.raw.as_slice(), head, entry.raw.len());
    assert(source@ =~= entry.raw@.skip(head as int));
    let mut z = ZlibReader::start(source);
    let mut out: Vec<u8> = Vec::new();
    let mut pos: usize = 0;
    loop
        invariant
            z.source() == source@,
            source@ == entry.raw@.skip(entry.data_offset - entry.offset),
            0 <= entry.data_offset - entry.offset <= entry.raw@.len(),
            pos == zlib_consumed(source@, z.rooms()),
            pos <= source.len(),
            out@ == zlib_produced(source@, z.rooms()),
            out@.len() <= cap,
            entry_run(source@, cap, Seq::empty()) == entry_run(source@, cap, z.rooms()),
        decreases source@.len() - pos + cap - out@.len(),
    {
        let ghost rooms = z.rooms();
        let call = z.step(source, 4096);
        proof {
            lemma_zlib_push(source@, rooms, 4096);
            assert forall|x: Seq<u8>| #[trigger] zlib_packed(x) == source@ implies zlib_packed(x).is_prefix_of(
                source@,
            ) by {}
        }
        push_all(&mut out, call.produced.as_slice());
        pos += call.consumed;
        match call.status {
            ZlibStatus::Failed => {
                let mut m = "zlib decode error: ".to_owned();
                m.append(call.message.as_str());
                return Err(m);
            },
            _ => {},
        }
        if out.len() as u64 > cap {
            let mut m = "size fraud: inflated bytes exceeded declared size ".to_owned();
            push_dec(&mut m, cap);
            m.append(" mid-stream");
            return Err(m);
        }
        match call.status {
            ZlibStatus::StreamEnd => {
                if pos != source.len() {
                    let mut m = String::new();
                    push_dec(&mut m, (source.len() - pos) as u64);
                    m.append(" trailing bytes after entry zlib stream");
                    assert(m@ =~= dec((source@.len() - pos) as nat)
                        + " trailing bytes after entry zlib stream"@);
                    return Err(m);
                }
                return Ok(out);
            },
            _ => {},
        }
        if call.consumed == 0 && call.produced.len() == 0 {
            let mut m = "zlib stream truncated (".to_owned();
            push_dec(&mut m, out.len() as u64);
            m.append(" inflated bytes so far)");
            return Err(m);
        }
    }
}

/// The kind of trouble that a message tells of.
pub open spec fn trouble_kind(m: Seq<char>) -> Seq<char> {
    if "size fraud"@.is_prefix_of(m) {
        "size_fraud"@
    } else {
        "zlib_error"@
    }
}

pub fn kind_of_trouble(m: &str) -> (s: &'static str)
    ensures
        s@ == trouble_kind(m@),
{
    if starts_with(m, "size fraud") {
        "size_fraud"
    } else {
        "zlib_error"
    }
}

/// The type that a name of a loose object stands for.
pub open spec fn loose_type(name: Seq<char>) -> Option<ObjType> {
    match GitType::of_text(name) {
        Some(GitType::Commit) => Some(ObjType::Commit),
        Some(GitType::Tree) => Some(ObjType::Tree),
        Some(GitType::Blob) => Some(ObjType::Blob),
        Some(GitType::Tag) => Some(ObjType::Tag),
        _ => None,
    }
}

/// The content and type of a loose object that serves as a base.
pub open spec fn loose_base(raw: Seq<u8>) -> Result<(Seq<u8>, ObjType), (Seq<char>, Seq<char>)> {
    match inflate_run(raw, Seq::empty()) {
        Err(m) => Err(("zlib_error"@, m)),
        Ok((p, _)) => {
            let nul = first_at(p, 0);
            let header = lossy_text(p.take(nul as int));
            let name = before(header, ' ');
            let body = p.skip(nul as int + 1);
            if nul == p.len() {
                Err(("zlib_error"@, "loose object missing NUL header terminator"@))
            } else {
                match loose_type(name) {
                    None => Err(("zlib_error"@, "unknown loose object type "@ + debug_text(name))),
                    Some(t) => if declared(header) != body.len() {
                        Err(
                            (
                                "size_fraud"@,
                                "loose object declares "@ + dec(declared(header)) + " bytes but contains "@
                                    + dec(body.len()),
                            ),
                        )
                    } else {
                        Ok((body, t))
                    },
                }
            }
        },
    }
}

/// The content and type of the base of a chain, in a source of the given kind.
pub open spec fn base_content(e: EntryModel, source_kind: Option<Seq<char>>) -> Result<
    (Seq<u8>, ObjType),
    (Seq<char>, Seq<char>),
> {
    match source_kind {
        None => Err(("io"@, "Query returned no rows"@)),
        Some(kind) => if kind == "loose"@ {
            loose_base(e.raw)
        } else {
            match ObjType::of_text(e.obj_type) {
                None => Err(("bad_type"@, "unknown object type "@ + e.obj_type)),
                Some(t) => if t.delta() {
                    Err(("bad_base"@, "delta cannot be a chain base"@))
                } else {
                    match payload_of(e, e.declared_size) {
                        Err(m) => Err((trouble_kind(m), m)),
                        Ok(c) => if c.len() != e.declared_size {
                            Err(
                                (
                                    "size_fraud"@,
                                    "entry at "@ + dec(e.offset as nat) + " declares "@ + dec(
                                        e.declared_size as nat,
                                    ) + " bytes but inflated to "@ + dec(c.len()),
                                ),
                            )
                        } else {
                            Ok((c, t))
                        },
                    }
                },
            }
        },
    }
}

/// The base of a chain, as an executable result models it.
pub open spec fn base_view(r: Result<(Vec<u8>, ObjType), (&'static str, String)>) -> Result<
    (Seq<u8>, ObjType),
    (Seq<char>, Seq<char>),
> {
    match r {
        Ok((c, t)) => Ok((c@, t)),
        Err((k, m)) => Err((k@, m@)),
    }
}

fn load_loose(raw: &[u8]) -> (r: Result<(Vec<u8>, ObjType), (&'static str, String)>)
    ensures
        base_view(r) == loose_base(raw@),
{
    assert(raw@.skip(0) =~= raw@);
    let payload = match inflate_one(raw, 0) {
        Ok((p, _)) => p,
        Err(e) => return Err(("zlib_error", e)),
    };
    let nul: usize = crate::model::bytes::find_byte(payload.as_slice(), 0);
    if nul >= payload.len() {
        return Err(("zlib_error", "loose object missing NUL header terminator".to_owned()));
    }
    let p = read_payload(payload.as_slice());
    let t = match GitType::from_name(p.kind_name.as_str()) {
        Some(GitType::Commit) => ObjType::Commit,
        Some(GitType::Tree) => ObjType::Tree,
        Some(GitType::Blob) => ObjType::Blob,
        Some(GitType::Tag) => ObjType::Tag,
        _ => {
            let mut m = "unknown loose object type ".to_owned();
            m.append(quoted(p.kind_name.as_str()).as_str());
            return Err(("zlib_error", m));
        },
    };
    if p.declared_size != p.data.len() {
        let mut m = "loose object declares ".to_owned();
        push_dec(&mut m, p.declared_size as u64);
        m.append(" bytes but contains ");
        push_dec(&mut m, p.data.len() as u64);
        return Err(("size_fraud", m));
    }
    Ok((p.data, t))
}

/// Loads the content of the base of a chain.
pub fn load_base(entry: &EntryRow, source_kind: Option<&str>) -> (r: Result<
    (Vec<u8>, ObjType),
    (&'static str, String),
>)
    ensures
        base_view(r) == base_content(
            entry.deep_view(),
            match source_kind {
                Some(k) => Some(k@),
                None => None,
            },
        ),
{
    let kind = match source_kind {
        Some(k) => k,
        None => return Err(("io", "Query returned no rows".to_owned())),
    };
    if same_text(kind, "loose") {
        return load_loose(entry.raw.as_slice());
    }
    let t = match ObjType::from_name(entry.obj_type.as_str()) {
        Some(t) => t,
        None => {
            let mut m = "unknown object type ".to_owned();
            m.append(entry.obj_type.as_str());
            return Err(("bad_type", m));
        },
    };
    if t.is_delta() {
        return Err(("bad_base", "delta cannot be a chain base".to_owned()));
    }
    let content = match inflate_pack_payload(entry, entry.declared_size) {
        Ok(c) => c,
        Err(e) => return Err((kind_of_trouble(e.as_str()), e)),
    };
    if content.len() as u64 != entry.declared_size {
        let mut m = "entry at ".to_owned();
        push_dec(&mut m, entry.offset);
        m.append(" declares ");
        push_dec(&mut m, entry.declared_size);
        m.append(" bytes but inflated to ");
        push_dec(&mut m, content.len() as u64);
        return Err(("size_fraud", m));
    }
    Ok((content, t))
}

} // verus!
