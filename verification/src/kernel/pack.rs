//! Version 2 packs: header scan, zlib boundaries, CRC and pack checksum.
use vstd::prelude::*;
use vstd::string::StringExecFns;
use crate::kernel::git::{from_pos, read_entry_head, read_ofs_distance, EntryType, GitType};
use crate::kernel::inflate::{inflate_stream, stream_at, Fault, InflateError};
use crate::model::bytes::{be32, begins_with, oid_at, read_be32, same_bytes};
use crate::model::crc::crc32_of;
use crate::model::outside::{crc32fast_hash, sha1, sha1_of, zlib_packed};
use crate::model::text::{dec, push_dec};
use crate::model::varint::{
    ends, head_bytes, header_bytes, header_code, header_roundtrip, header_size, lemma_head_of_number, ofs128,
    ofs128_bytes, ofs128_roundtrip, touched, word,
};

verus! {

#[derive(Debug)]
pub enum StreamError {
    Zlib(String),
    SizeMismatch { declared: u64, actual: u64 },
    SizeSpoof { declared: u64 },
}

impl View for StreamError {
    type V = Fault;

    open spec fn view(&self) -> Fault {
        match self {
            StreamError::Zlib(s) => Fault::Zlib(s@),
            StreamError::SizeMismatch { declared, actual } => Fault::SizeMismatch {
                declared: *declared,
                actual: *actual,
            },
            StreamError::SizeSpoof { declared } => Fault::SizeSpoof { declared: *declared },
        }
    }
}

/// The message of a stream error.
pub open spec fn fault_text(f: Fault) -> Seq<char> {
    match f {
        Fault::Zlib(s) => s,
        Fault::SizeMismatch { declared, actual } => "declared inflated size "@ + dec(declared as nat)
            + " but stream produced "@ + dec(actual as nat) + " bytes"@,
        Fault::SizeSpoof { declared } => "stream exceeded declared size "@ + dec(declared as nat)
            + " (size spoof detected mid-inflate)"@,
    }
}

/// The short name of a stream error.
pub open spec fn fault_label(f: Fault) -> Seq<char> {
    match f {
        Fault::Zlib(_) => "zlib"@,
        Fault::SizeMismatch { .. } => "size-mismatch"@,
        Fault::SizeSpoof { .. } => "size-spoof"@,
    }
}

impl StreamError {
    pub fn label(&self) -> (s: &'static str)
        ensures
            s@ == fault_label(self@),
    {
        match self {
            StreamError::Zlib(_) => "zlib",
            StreamError::SizeMismatch { .. } => "size-mismatch",
            StreamError::SizeSpoof { .. } => "size-spoof",
        }
    }

    pub fn message(&self) -> (m: String)
        ensures
            m@ == fault_text(self@),
    {
        match self {
            StreamError::Zlib(s) => s.clone(),
            StreamError::SizeMismatch { declared, actual } => {
                let mut m = "declared inflated size ".to_owned();
                push_dec(&mut m, *declared);
                m.append(" but stream produced ");
                push_dec(&mut m, *actual);
                m.append(" bytes");
                m
            },
            StreamError::SizeSpoof { declared } => {
                let mut m = "stream exceeded declared size ".to_owned();
                push_dec(&mut m, *declared);
                m.append(" (size spoof detected mid-inflate)");
                m
            },
        }
    }

    pub fn of_inflate(e: InflateError) -> (s: StreamError)
        ensures
            s@ == e@,
    {
        match e {
            InflateError::ZlibError(m) => StreamError::Zlib(m),
            InflateError::SizeMismatch { declared, actual } => StreamError::SizeMismatch {
                declared,
                actual,
            },
            InflateError::SizeSpoof { declared } => StreamError::SizeSpoof { declared },
        }
    }
}

#[derive(Debug)]
pub struct PackEntry {
    pub index: usize,
    /// Absolute offset of the entry header in the pack file.
    pub offset: u64,
    /// Absolute offset where the zlib stream begins.
    pub data_offset: u64,
    /// Absolute offset just past the zlib stream.
    pub end_offset: u64,
    pub etype: EntryType,
    pub declared_size: u64,
    pub ofs_distance: Option<u64>,
    pub base_oid: Option<[u8; 20]>,
    /// CRC32 over the compressed bytes (indexable against an .idx).
    pub crc32: Option<u32>,
    /// Inflated bytes: object content for bases, delta payload for deltas.
    pub inflated: Result<Vec<u8>, StreamError>,
}

/// The model of a pack entry.
pub ghost struct EntryModel {
    pub index: nat,
    pub offset: nat,
    pub data_offset: nat,
    pub end_offset: nat,
    pub etype: EntryType,
    pub declared_size: u64,
    pub ofs_distance: Option<u64>,
    pub base_oid: Option<Seq<u8>>,
    pub crc32: Option<u32>,
    pub inflated: Result<Seq<u8>, Fault>,
}

impl View for PackEntry {
    type V = EntryModel;

    open spec fn view(&self) -> EntryModel {
        EntryModel {
            index: self.index as nat,
            offset: self.offset as nat,
            data_offset: self.data_offset as nat,
            end_offset: self.end_offset as nat,
            etype: self.etype,
            declared_size: self.declared_size,
            ofs_distance: self.ofs_distance,
            base_oid: match self.base_oid {
                Some(id) => Some(id@),
                None => None,
            },
            crc32: self.crc32,
            inflated: match self.inflated {
                Ok(v) => Ok(v@),
                Err(e) => Err(e@),
            },
        }
    }
}

#[derive(Debug)]
pub struct ParsedPack {
    pub version: u32,
    pub num_entries: u32,
    pub entries: Vec<PackEntry>,
    pub trailer_sha: [u8; 20],
    pub computed_sha: [u8; 20],
    pub checksum_ok: bool,
    /// Fatal scanner failure (entries after this point are unreachable).
    pub scan_error: Option<String>,
}

/// The models of a list of entries.
pub open spec fn models(v: Seq<PackEntry>) -> Seq<EntryModel> {
    v.map_values(|e: PackEntry| e@)
}

/// The magic number of a pack.
pub open spec fn pack_magic() -> Seq<u8> {
    seq![80u8, 65, 67, 75]
}

/// What is known of an entry before its data: its type, its size, the distance or the id of
/// its base, and where its data begin.
pub ghost struct HeadModel {
    pub etype: EntryType,
    pub size: u64,
    pub ofs_distance: Option<u64>,
    pub base_oid: Option<Seq<u8>>,
    pub data: nat,
}

/// The message of an entry header that cannot be read.
pub open spec fn head_trouble(s: Seq<u8>) -> Option<Seq<char>> {
    if s.len() == 0 {
        Some("entry header byte missing"@)
    } else if EntryType::of_code(header_code(s[0])) is None {
        Some("unknown pack object type "@ + dec(header_code(s[0]) as nat))
    } else if !ends(s) {
        Some("size varint truncated"@)
    } else {
        None
    }
}

/// The message of an offset that cannot be read.
pub open spec fn ofs_trouble(s: Seq<u8>) -> Option<Seq<char>> {
    if s.len() == 0 {
        Some("ofs byte missing"@)
    } else if !ends(s) {
        Some("ofs varint truncated"@)
    } else {
        None
    }
}

/// The head of the entry with number `index` at `pos`, or why it cannot be read.
pub open spec fn head_at(buf: Seq<u8>, index: nat, pos: nat) -> Result<HeadModel, Seq<char>> {
    let s = buf.skip(pos as int);
    if pos + 2 > buf.len() - 20 {
        Err("entry "@ + dec(index) + ": header runs past pack body"@)
    } else {
        match head_trouble(s) {
            Some(m) => Err("entry "@ + dec(index) + " at offset "@ + dec(pos) + ": "@ + m),
            None => {
                let etype = EntryType::of_code(header_code(s[0]))->0;
                let size = (header_size(head_bytes(s)) % word()) as u64;
                let p = pos + touched(s);
                let rest = buf.skip(p as int);
                match etype {
                    EntryType::Base(_) => Ok(
                        HeadModel { etype, size, ofs_distance: None, base_oid: None, data: p },
                    ),
                    EntryType::OfsDelta => match ofs_trouble(rest) {
                        Some(m) => Err("entry "@ + dec(index) + " ofs distance: "@ + m),
                        None => Ok(
                            HeadModel {
                                etype,
                                size,
                                ofs_distance: Some((ofs128(head_bytes(rest)) % word()) as u64),
                                base_oid: None,
                                data: p + touched(rest),
                            },
                        ),
                    },
                    EntryType::RefDelta => if p + 20 > buf.len() - 20 {
                        Err("entry "@ + dec(index) + ": ref base oid truncated"@)
                    } else {
                        Ok(
                            HeadModel {
                                etype,
                                size,
                                ofs_distance: None,
                                base_oid: Some(buf.subrange(p as int, p as int + 20)),
                                data: p + 20,
                            },
                        )
                    },
                }
            },
        }
    }
}

/// The entry with head `h` at `pos`, whose stream gives `outcome`.
pub open spec fn entry_of(
    buf: Seq<u8>,
    index: nat,
    pos: nat,
    h: HeadModel,
    outcome: Result<(Seq<u8>, nat), Fault>,
) -> EntryModel {
    EntryModel {
        index,
        offset: pos,
        data_offset: h.data,
        end_offset: match outcome {
            Ok((_, n)) => h.data + n,
            Err(_) => h.data,
        },
        etype: h.etype,
        declared_size: h.size,
        ofs_distance: h.ofs_distance,
        base_oid: h.base_oid,
        crc32: match outcome {
            Ok((_, n)) => Some(crc32_of(buf.subrange(h.data as int, h.data as int + n))),
            Err(_) => None,
        },
        inflated: match outcome {
            Ok((data, _)) => Ok(data),
            Err(f) => Err(f),
        },
    }
}

/// The entries that a scan finds from entry `index` at `pos` on, after `found`, and why it
/// stops short, if it does.
pub open spec fn scanned(buf: Seq<u8>, count: nat, index: nat, pos: nat, found: Seq<EntryModel>) -> (
    Seq<EntryModel>,
    Option<Seq<char>>,
)
    decreases count - index,
{
    if index >= count {
        (found, None)
    } else {
        match head_at(buf, index, pos) {
            Err(m) => (found, Some(m)),
            Ok(h) => {
                let outcome = stream_at(buf, h.data as usize, h.size);
                let e = entry_of(buf, index, pos, h, outcome);
                match outcome {
                    Ok(_) => scanned(buf, count, index + 1, e.end_offset, found.push(e)),
                    Err(_) => (
                        found.push(e),
                        Some(
                            "entry "@ + dec(index) + " at offset "@ + dec(pos)
                                + ": failed to inflate; subsequent entries cannot be located"@,
                        ),
                    ),
                }
            },
        }
    }
}

/// What is read of an entry before its data.
pub struct EntryHead {
    pub etype: EntryType,
    pub size: u64,
    pub ofs_distance: Option<u64>,
    pub base_oid: Option<[u8; 20]>,
    pub data: usize,
}

impl View for EntryHead {
    type V = HeadModel;

    open spec fn view(&self) -> HeadModel {
        HeadModel {
            etype: self.etype,
            size: self.size,
            ofs_distance: self.ofs_distance,
            base_oid: match self.base_oid {
                Some(id) => Some(id@),
                None => None,
            },
            data: self.data as nat,
        }
    }
}

fn entry_note(index: usize, rest: &str) -> (m: String)
    ensures
        m@ == "entry "@ + dec(index as nat) + rest@,
{
    let mut m = "entry ".to_owned();
    push_dec(&mut m, index as u64);
    m.append(rest);
    m
}

/// Reads the head of the entry with number `index` at `pos`.
pub fn read_head(buf: &[u8], index: usize, pos: usize) -> (r: Result<EntryHead, String>)
    requires
        32 <= buf@.len(),
        pos <= buf@.len(),
    ensures
        match r {
            Ok(h) => head_at(buf@, index as nat, pos as nat) == Ok::<HeadModel, Seq<char>>(h@) && h.data
                <= buf@.len(),
            Err(m) => head_at(buf@, index as nat, pos as nat) == Err::<HeadModel, Seq<char>>(m@),
        },
{
    let body: usize = buf.len() - 20;
    if body < 2 || pos > body - 2 {
        return Err(entry_note(index, ": header runs past pack body"));
    }
    assert(from_pos(buf@, pos) == buf@.skip(pos as int));
    let (etype, size, p) = match read_entry_head(buf, pos) {
        Ok(v) => v,
        Err(e) => {
            let mut m = entry_note(index, " at offset ");
            push_dec(&mut m, pos as u64);
            m.append(": ");
            m.append(e.message().as_str());
            return Err(m);
        },
    };
    proof {
        crate::model::varint::lemma_run_bounds(buf@.skip(pos as int));
        assert(from_pos(buf@, p) == buf@.skip(p as int));
        crate::model::varint::lemma_run_bounds(buf@.skip(p as int));
    }
    match etype {
        EntryType::OfsDelta => match read_ofs_distance(buf, p) {
            Ok((d, np)) => Ok(EntryHead { etype, size, ofs_distance: Some(d), base_oid: None, data: np }),
            Err(e) => {
                let mut m = entry_note(index, " ofs distance: ");
                m.append(e.message().as_str());
                Err(m)
            },
        },
        EntryType::RefDelta => {
            if body < 20 || p > body - 20 {
                return Err(entry_note(index, ": ref base oid truncated"));
            }
            let id = oid_at(buf, p);
            Ok(EntryHead { etype, size, ofs_distance: None, base_oid: Some(id), data: p + 20 })
        },
        EntryType::Base(_) => Ok(EntryHead { etype, size, ofs_distance: None, base_oid: None, data: p }),
    }
}

/// The tables and checksums of a parsed pack.
pub open spec fn is_pack(p: ParsedPack, b: Seq<u8>) -> bool {
    let s = scanned(b, be32(b, 8) as nat, 0, 12, Seq::empty());
    &&& p.version == 2
    &&& p.num_entries == be32(b, 8)
    &&& models(p.entries@) == s.0
    &&& match s.1 {
        Some(m) => p.scan_error matches Some(e) && e@ == m,
        None => p.scan_error is None,
    }
    &&& p.trailer_sha@ == b.subrange(b.len() - 20, b.len() as int)
    &&& p.computed_sha@ == sha1_of(b.take(b.len() - 20))
    &&& p.checksum_ok == (p.trailer_sha@ == p.computed_sha@)
}

/// An entry as it is written: its type, the distance or the id of its base, and its data.
pub ghost struct Written {
    pub etype: EntryType,
    pub distance: nat,
    pub base: Seq<u8>,
    pub data: Seq<u8>,
}

/// The code of the type of an entry.
pub open spec fn type_code(t: EntryType) -> nat {
    match t {
        EntryType::Base(GitType::Commit) => 1,
        EntryType::Base(GitType::Tree) => 2,
        EntryType::Base(GitType::Blob) => 3,
        EntryType::Base(GitType::Tag) => 4,
        EntryType::OfsDelta => 6,
        EntryType::RefDelta => 7,
    }
}

/// How an entry names its base.
pub open spec fn base_bytes(w: Written) -> Seq<u8> {
    match w.etype {
        EntryType::Base(_) => Seq::empty(),
        EntryType::OfsDelta => ofs128_bytes(w.distance),
        EntryType::RefDelta => w.base,
    }
}

/// The bytes of an entry.
pub open spec fn written_entry(w: Written) -> Seq<u8> {
    header_bytes(type_code(w.etype), w.data.len()) + base_bytes(w) + zlib_packed(w.data)
}

/// The bytes of the first `n` entries.
pub open spec fn written(ws: Seq<Written>, n: nat) -> Seq<u8>
    decreases n,
{
    if n == 0 {
        Seq::empty()
    } else {
        written(ws, (n - 1) as nat) + written_entry(ws[n - 1])
    }
}

/// Whether an entry can be written: its numbers fit in a word, the id of its base has its length,
/// and its stream has bytes.
pub open spec fn can_be_written(w: Written) -> bool {
    &&& w.data.len() < word()
    &&& w.distance < word()
    &&& w.etype == EntryType::RefDelta ==> w.base.len() == 20
    &&& zlib_packed(w.data).len() > 0
}

/// Whether bytes are a pack of entries: their number, the entries one after the other, and a
/// trailer.
pub open spec fn is_written(b: Seq<u8>, ws: Seq<Written>) -> bool {
    &&& b.len() >= 32
    &&& pack_magic().is_prefix_of(b)
    &&& be32(b, 4) == 2
    &&& be32(b, 8) == ws.len()
    &&& b.subrange(12, b.len() - 20) == written(ws, ws.len())
    &&& forall|i: int| 0 <= i < ws.len() ==> can_be_written(#[trigger] ws[i])
}

/// Whether an entry was found as it was written.
pub open spec fn found_as(e: EntryModel, w: Written, offset: nat) -> bool {
    &&& e.offset == offset
    &&& e.end_offset == offset + written_entry(w).len()
    &&& e.etype == w.etype
    &&& e.declared_size == w.data.len()
    &&& e.ofs_distance == if w.etype == EntryType::OfsDelta {
        Some(w.distance as u64)
    } else {
        None
    }
    &&& e.base_oid == if w.etype == EntryType::RefDelta {
        Some(w.base)
    } else {
        None
    }
    &&& e.inflated == Ok::<Seq<u8>, Fault>(w.data)
    &&& e.data_offset + zlib_packed(w.data).len() == e.end_offset
    &&& e.crc32 == Some(crc32_of(zlib_packed(w.data)))
}

/// Whether the first `n` entries were found as they were written.
pub open spec fn all_found(es: Seq<EntryModel>, ws: Seq<Written>, n: nat) -> bool {
    &&& es.len() == n
    &&& forall|i: int|
        0 <= i < n ==> found_as(#[trigger] es[i], ws[i], 12 + written(ws, i as nat).len())
}

proof fn lemma_written(ws: Seq<Written>, i: nat, n: nat)
    requires
        i < n,
    ensures
        written(ws, i).len() + written_entry(ws[i as int]).len() <= written(ws, n).len(),
        written(ws, n).subrange(
            written(ws, i).len() as int,
            (written(ws, i).len() + written_entry(ws[i as int]).len()) as int,
        ) == written_entry(ws[i as int]),
    decreases n,
{
    let a = written(ws, i).len() as int;
    let b = a + written_entry(ws[i as int]).len();
    let s = written(ws, (n - 1) as nat);
    let t = written_entry(ws[n - 1]);
    if i == n - 1 {
        assert(written(ws, n).subrange(a, b) =~= t);
    } else {
        lemma_written(ws, i, (n - 1) as nat);
        assert(written(ws, n).subrange(a, b) =~= s.subrange(a, b));
    }
}

/// The head of an entry is read as it was written, and its stream follows.
#[verifier::spinoff_prover]
#[verifier::rlimit(80)]
proof fn lemma_head(b: Seq<u8>, ws: Seq<Written>, i: nat)
    requires
        is_written(b, ws),
        i < ws.len(),
    ensures
        ({
            let w = ws[i as int];
            let pos = 12 + written(ws, i).len();
            let data = pos + header_bytes(type_code(w.etype), w.data.len()).len() + base_bytes(w).len();
            &&& head_at(b, i, pos) == Ok::<HeadModel, Seq<char>>(
                HeadModel {
                    etype: w.etype,
                    size: w.data.len() as u64,
                    ofs_distance: if w.etype == EntryType::OfsDelta {
                        Some(w.distance as u64)
                    } else {
                        None
                    },
                    base_oid: if w.etype == EntryType::RefDelta {
                        Some(w.base)
                    } else {
                        None
                    },
                    data,
                },
            )
            &&& zlib_packed(w.data).is_prefix_of(b.skip(data as int))
            &&& data + zlib_packed(w.data).len() + 20 <= b.len()
            &&& data + zlib_packed(w.data).len() == pos + written_entry(w).len()
        }),
{
    let w = ws[i as int];
    assert(can_be_written(w));
    let head = header_bytes(type_code(w.etype), w.data.len());
    let base = base_bytes(w);
    let z = zlib_packed(w.data);
    let e = written_entry(w);
    let pos = 12 + written(ws, i).len();
    lemma_written(ws, i, ws.len());
    let body = b.subrange(12, b.len() - 20);
    assert(pos + e.len() <= b.len() - 20);
    let tail = b.skip((pos + e.len()) as int);
    let s = b.skip(pos as int);
    assert(s =~= e + tail) by {
        assert forall|k: int| 0 <= k < e.len() implies s[k] == e[k] by {
            assert(body.subrange(pos - 12, pos - 12 + e.len())[k] == e[k]);
        }
    }
    header_roundtrip(type_code(w.etype), w.data.len());
    assert(s =~= head + (base + z + tail));
    lemma_head_of_number(head, base + z + tail);
    assert(s[0] == head[0]);
    let p = pos + head.len();
    let rest = b.skip(p as int);
    assert(rest =~= s.skip(head.len() as int));
    assert((head + (base + z + tail)).skip(head.len() as int) =~= base + (z + tail));
    if w.etype == EntryType::OfsDelta {
        ofs128_roundtrip(w.distance);
        lemma_head_of_number(base, z + tail);
    }
    if w.etype == EntryType::RefDelta {
        assert(b.subrange(p as int, p as int + 20) =~= rest.take(20));
        assert((base + (z + tail)).take(20) =~= w.base);
    }
    let data = p + base.len();
    assert(b.skip(data as int) =~= rest.skip(base.len() as int));
    assert((base + (z + tail)).skip(base.len() as int) =~= z + tail);
    assert(z.is_prefix_of(b.skip(data as int)));
    assert(w.data.len() % word() == w.data.len()) by (nonlinear_arith)
        requires
            w.data.len() < word(),
    ;
    assert(w.distance % word() == w.distance) by (nonlinear_arith)
        requires
            w.distance < word(),
    ;
}

/// What begins at a place stands there.
proof fn lemma_stands(b: Seq<u8>, at: nat, z: Seq<u8>)
    requires
        z.is_prefix_of(b.skip(at as int)),
        at + z.len() <= b.len(),
    ensures
        b.subrange(at as int, (at + z.len()) as int) == z,
{
    let s = b.skip(at as int);
    assert(b.subrange(at as int, (at + z.len()) as int) =~= s.subrange(0, z.len() as int));
}

/// Parses a pack: every entry up to the first that cannot be located, and the checksums.
///
/// The entries of a pack that was written as such are all found as they were written.
pub fn parse_pack(buf: &[u8]) -> (r: Result<ParsedPack, String>)
    ensures
        match r {
            Ok(p) => buf@.len() >= 32 && pack_magic().is_prefix_of(buf@) && be32(buf@, 4) == 2 && is_pack(
                p,
                buf@,
            ),
            Err(e) => {
                ||| buf@.len() < 32 && e@ == "file shorter than pack header+trailer"@
                ||| buf@.len() >= 32 && !pack_magic().is_prefix_of(buf@) && e@ == "bad pack magic"@
                ||| buf@.len() >= 32 && pack_magic().is_prefix_of(buf@) && be32(buf@, 4) != 2 && e@
                    == "unsupported pack version "@ + dec(be32(buf@, 4) as nat)
            },
        },
        forall|ws: Seq<Written>| #[trigger]
            is_written(buf@, ws) ==> (r matches Ok(p) && p.scan_error is None && all_found(
                models(p.entries@),
                ws,
                ws.len(),
            )),
{
    if buf.len() < 32 {
        return Err("file shorter than pack header+trailer".to_owned());
    }
    let magic: [u8; 4] = [80, 65, 67, 75];
    assert(magic@ =~= pack_magic());
    if !begins_with(buf, magic.as_slice()) {
        return Err("bad pack magic".to_owned());
    }
    let version: u32 = read_be32(buf, 4);
    if version != 2 {
        let mut m = "unsupported pack version ".to_owned();
        push_dec(&mut m, version as u64);
        return Err(m);
    }
    let num_entries: u32 = read_be32(buf, 8);
    let count: usize = num_entries as usize;
    let mut entries: Vec<PackEntry> = Vec::new();
    let mut scan_error: Option<String> = None;
    let mut pos: usize = 12;
    let mut index: usize = 0;
    let mut stopped: bool = false;
    let ghost goal = scanned(buf@, count as nat, 0, 12, Seq::empty());
    assert(models(entries@) =~= Seq::empty());
    while index < count && !stopped
        invariant
            32 <= buf@.len(),
            pos <= buf.len(),
            index <= count,
            goal == scanned(buf@, count as nat, 0, 12, Seq::empty()),
            !stopped ==> scan_error is None && goal == scanned(
                buf@,
                count as nat,
                index as nat,
                pos as nat,
                models(entries@),
            ),
            stopped ==> goal.0 == models(entries@) && (scan_error matches Some(e) && goal.1 == Some(e@)),
            count == be32(buf@, 8),
            stopped ==> forall|ws: Seq<Written>| !#[trigger] is_written(buf@, ws),
            !stopped ==> forall|ws: Seq<Written>| #[trigger]
                is_written(buf@, ws) ==> pos == 12 + written(ws, index as nat).len() && all_found(
                    models(entries@),
                    ws,
                    index as nat,
                ),
        decreases count - index, if stopped { 0int } else { 1int },
    {
        match read_head(buf, index, pos) {
            Err(m) => {
                proof {
                    assert forall|ws: Seq<Written>| !#[trigger] is_written(buf@, ws) by {
                        if is_written(buf@, ws) {
                            lemma_head(buf@, ws, index as nat);
                        }
                    }
                }
                scan_error = Some(m);
                stopped = true;
            },
            Ok(h) => {
                let ghost before = entries@;
                let ghost at = pos;
                match inflate_stream(buf, h.data, h.size) {
                    Ok(v) => {
                        let end: usize = h.data + v.consumed;
                        let raw = vstd::slice::slice_subrange(buf, h.data, end);
                        let crc: u32 = crc32fast_hash(raw);
                        let ghost hm = h@;
                        entries.push(
                            PackEntry {
                                index,
                                offset: pos as u64,
                                data_offset: h.data as u64,
                                end_offset: end as u64,
                                etype: h.etype,
                                declared_size: h.size,
                                ofs_distance: h.ofs_distance,
                                base_oid: h.base_oid,
                                crc32: Some(crc),
                                inflated: Ok(v.data),
                            },
                        );
                        proof {
                            let e = entry_of(
                                buf@,
                                index as nat,
                                pos as nat,
                                hm,
                                stream_at(buf@, hm.data as usize, hm.size),
                            );
                            assert(entries@.last()@ == e);
                            assert(models(entries@) =~= models(before).push(e));
                            assert forall|ws: Seq<Written>| #[trigger] is_written(buf@, ws) implies end == 12
                                + written(ws, (index + 1) as nat).len() && all_found(
                                models(entries@),
                                ws,
                                (index + 1) as nat,
                            ) by {
                                lemma_head(buf@, ws, index as nat);
                                let w = ws[index as int];
                                assert(zlib_packed(w.data).is_prefix_of(buf@.skip(hm.data as int)));
                                lemma_stands(buf@, hm.data, zlib_packed(w.data));
                                assert(found_as(e, w, at as nat));
                            }
                        }
                        pos = end;
                        index += 1;
                    },
                    Err(e) => {
                        let mut m = entry_note(index, " at offset ");
                        push_dec(&mut m, pos as u64);
                        m.append(": failed to inflate; subsequent entries cannot be located");
                        let ghost hm = h@;
                        entries.push(
                            PackEntry {
                                index,
                                offset: pos as u64,
                                data_offset: h.data as u64,
                                end_offset: h.data as u64,
                                etype: h.etype,
                                declared_size: h.size,
                                ofs_distance: h.ofs_distance,
                                base_oid: h.base_oid,
                                crc32: None,
                                inflated: Err(StreamError::of_inflate(e)),
                            },
                        );
                        proof {
                            let e = entry_of(
                                buf@,
                                index as nat,
                                pos as nat,
                                hm,
                                stream_at(buf@, hm.data as usize, hm.size),
                            );
                            assert(entries@.last()@ == e);
                            assert(models(entries@) =~= models(before).push(e));
                            assert forall|ws: Seq<Written>| !#[trigger] is_written(buf@, ws) by {
                                if is_written(buf@, ws) {
                                    lemma_head(buf@, ws, index as nat);
                                    let w = ws[index as int];
                                    assert(zlib_packed(w.data).is_prefix_of(buf@.skip(hm.data as int)));
                                }
                            }
                        }
                        scan_error = Some(m);
                        stopped = true;
                    },
                }
            },
        }
    }
    let n: usize = buf.len();
    let body = vstd::slice::slice_subrange(buf, 0, n - 20);
    assert(body@ =~= buf@.take(buf@.len() - 20));
    let computed_sha = sha1(body);
    let trailer_sha = oid_at(buf, n - 20);
    let checksum_ok: bool = same_bytes(trailer_sha.as_slice(), computed_sha.as_slice());
    Ok(ParsedPack { version, num_entries, entries, trailer_sha, computed_sha, checksum_ok, scan_error })
}

} // verus!
