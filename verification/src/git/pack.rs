//! Parses a `.pack` file, preserving raw offsets and zlib boundaries.
use vstd::prelude::*;
use vstd::string::StringExecFns;
use crate::git::delta::{self, result_of, DeltaError, DeltaInstr, DeltaResult, DeltaTrouble};
use crate::git::types::ObjType;
use crate::git::zlib::{drained, inflate_one, ZlibTrouble};
use crate::model::bytes::{be32, begins_with, oid_at, read_be32, same_bytes};
use crate::model::crc::crc32_of;
use crate::model::entryhead::{distances_are_read, has_head, heads_are_read};
use crate::model::outside::{crc32fast_hash, hex_encode, sha1, sha1_of, zlib_packed};
use crate::model::text::{dec, hex, push_dec, same_text};
use crate::model::varint::{
    ends, head_bytes, header_bytes, header_code, header_size, header_size_at, ofs128, ofs128_at, ofs128_bytes,
    run_at, touched, word,
};

verus! {

/// Per-object inflation hard cap while parsing (forensic safety bound).
pub const PARSE_INFLATE_CAP: usize = 0x1000_0000;

#[derive(Debug)]
pub struct PackProblem {
    pub code: String,
    pub message: String,
    pub offset: Option<u64>,
    pub range: Option<(u64, u64)>,
}

/// The model of a problem.
pub ghost struct ProblemModel {
    pub code: Seq<char>,
    pub message: Seq<char>,
    pub offset: Option<u64>,
    pub range: Option<(u64, u64)>,
}

impl View for PackProblem {
    type V = ProblemModel;

    open spec fn view(&self) -> ProblemModel {
        ProblemModel { code: self.code@, message: self.message@, offset: self.offset, range: self.range }
    }
}

/// The models of a list of problems.
pub open spec fn problem_models(v: Seq<PackProblem>) -> Seq<ProblemModel> {
    v.map_values(|p: PackProblem| p@)
}

#[derive(Debug, Clone, Copy)]
pub enum DeltaRef {
    /// Offset delta: negative distance encoded in the entry, resolved target
    /// absolute offset (None when the distance runs outside the pack).
    Ofs { distance: u64, target: Option<u64> },
    /// Reference delta: 20-byte base object id.
    Ref([u8; 20]),
}

/// The model of a base reference.
pub ghost enum RefModel {
    Ofs { distance: u64, target: Option<u64> },
    Ref(Seq<u8>),
}

impl View for DeltaRef {
    type V = RefModel;

    open spec fn view(&self) -> RefModel {
        match self {
            DeltaRef::Ofs { distance, target } => RefModel::Ofs { distance: *distance, target: *target },
            DeltaRef::Ref(id) => RefModel::Ref(id@),
        }
    }
}

#[derive(Debug)]
pub struct PackEntry {
    /// Absolute offset of the entry's first header byte.
    pub offset: u64,
    pub header_len: usize,
    pub obj_type: Option<ObjType>,
    /// Raw pack type tag (even if unknown).
    pub type_tag: u8,
    pub declared_size: u64,
    pub delta_ref: Option<DeltaRef>,
    /// Offset where the zlib payload begins.
    pub payload_offset: u64,
    /// Bytes consumed by the zlib stream (boundary).
    pub zlib_consumed: Option<usize>,
    pub end_offset: Option<u64>,
    /// CRC32 over the *raw on-disk* entry bytes (header + zlib stream),
    /// matching what a v2 index stores.
    pub crc32: Option<u32>,
    pub inflated: Option<Vec<u8>>,
    pub problems: Vec<PackProblem>,
}

/// The model of an entry.
pub ghost struct EntryModel {
    pub offset: u64,
    pub header_len: usize,
    pub obj_type: Option<ObjType>,
    pub type_tag: u8,
    pub declared_size: u64,
    pub delta_ref: Option<RefModel>,
    pub payload_offset: u64,
    pub zlib_consumed: Option<usize>,
    pub end_offset: Option<u64>,
    pub crc32: Option<u32>,
    pub inflated: Option<Seq<u8>>,
    pub problems: Seq<ProblemModel>,
}

impl View for PackEntry {
    type V = EntryModel;

    open spec fn view(&self) -> EntryModel {
        EntryModel {
            offset: self.offset,
            header_len: self.header_len,
            obj_type: self.obj_type,
            type_tag: self.type_tag,
            declared_size: self.declared_size,
            delta_ref: match self.delta_ref {
                Some(r) => Some(r@),
                None => None,
            },
            payload_offset: self.payload_offset,
            zlib_consumed: self.zlib_consumed,
            end_offset: self.end_offset,
            crc32: self.crc32,
            inflated: match self.inflated {
                Some(v) => Some(v@),
                None => None,
            },
            problems: problem_models(self.problems@),
        }
    }
}

/// The codes of problems that make an entry unusable.
pub open spec fn corrupting(code: Seq<char>) -> bool {
    ||| code == "unknown_type"@
    ||| code == "bad_header"@
    ||| code == "ofs_out_of_bounds"@
    ||| code == "ref_truncated"@
    ||| code == "zlib_error"@
    ||| code == "spoofed_size"@
    ||| code == "size_mismatch"@
}

impl PackEntry {
    pub fn is_corrupt(&self) -> (r: bool)
        ensures
            r == exists|i: int| 0 <= i < self.problems@.len() && corrupting(#[trigger] self.problems@[i].code@),
    {
        let mut i: usize = 0;
        while i < self.problems.len()
            invariant
                i <= self.problems@.len(),
                forall|j: int| 0 <= j < i ==> !corrupting(#[trigger] self.problems@[j].code@),
            decreases self.problems@.len() - i,
        {
            let c = self.problems[i].code.as_str();
            if same_text(c, "unknown_type") || same_text(c, "bad_header") || same_text(
                c,
                "ofs_out_of_bounds",
            ) || same_text(c, "ref_truncated") || same_text(c, "zlib_error") || same_text(
                c,
                "spoofed_size",
            ) || same_text(c, "size_mismatch") {
                assert(corrupting(self.problems@[i as int].code@));
                return true;
            }
            i += 1;
        }
        false
    }
}

#[derive(Debug)]
pub struct PackSummary {
    pub version: u32,
    pub num_objects: u32,
    pub header_len: usize,
    pub trailer_offset: Option<u64>,
    /// SHA1 stored in the final 20 bytes, hex.
    pub stored_checksum: Option<String>,
    /// Recomputed SHA1 over all preceding bytes, hex.
    pub actual_checksum: Option<String>,
    pub checksum_valid: bool,
    pub entries: Vec<PackEntry>,
    pub problems: Vec<PackProblem>,
}

/// A problem at an offset, without a byte range.
pub open spec fn noted(code: Seq<char>, message: Seq<char>, offset: Option<u64>) -> ProblemModel {
    ProblemModel { code, message, offset, range: None }
}

fn problem(code: &str, message: String, offset: Option<u64>) -> (p: PackProblem)
    ensures
        p@ == noted(code@, message@, offset),
{
    PackProblem { code: code.to_owned(), message, offset, range: None }
}

/// The type, size and length of the entry header at the head of `s`.
pub open spec fn obj_header(s: Seq<u8>) -> Option<(ObjType, u64, nat)> {
    if ends(s) && ObjType::of_code(header_code(s[0])) is Some {
        Some(
            (
                ObjType::of_code(header_code(s[0]))->0,
                (header_size(head_bytes(s)) % word()) as u64,
                touched(s),
            ),
        )
    } else {
        None
    }
}

/// Reads the entry header at `pos`.
fn read_pack_obj_header(data: &[u8], pos: usize) -> (r: Option<(ObjType, u64, usize)>)
    requires
        pos <= data@.len(),
    ensures
        match r {
            Some((t, size, n)) => obj_header(data@.skip(pos as int)) == Some((t, size, n as nat)) && n > 0
                && pos + n <= data@.len(),
            None => obj_header(data@.skip(pos as int)) is None,
        },
{
    let ghost s = data@.skip(pos as int);
    let k: usize = run_at(data, pos);
    if k >= data.len() - pos {
        return None;
    }
    let code: u8 = (data[pos] / 16) % 8;
    match ObjType::from_pack_code(code) {
        Err(_) => None,
        Ok(t) => {
            assert(head_bytes(s) =~= data@.subrange(pos as int, pos + k + 1));
            Some((t, header_size_at(data, pos, k + 1), k + 1))
        },
    }
}

/// The distance and length of the offset at the head of `s`.
pub open spec fn ofs_field(s: Seq<u8>) -> Option<(u64, nat)> {
    if ends(s) {
        Some(((ofs128(head_bytes(s)) % word()) as u64, touched(s)))
    } else {
        None
    }
}

fn read_ofs_distance(data: &[u8], pos: usize) -> (r: Option<(u64, usize)>)
    requires
        pos <= data@.len(),
    ensures
        match r {
            Some((d, n)) => ofs_field(data@.skip(pos as int)) == Some((d, n as nat)) && pos + n <= data@.len(),
            None => ofs_field(data@.skip(pos as int)) is None,
        },
{
    let ghost s = data@.skip(pos as int);
    let k: usize = run_at(data, pos);
    if k >= data.len() - pos {
        return None;
    }
    assert(head_bytes(s) =~= data@.subrange(pos as int, pos + k + 1));
    Some((ofs128_at(data, pos, k + 1), k + 1))
}

/// An entry of which nothing but its place and its type bits is known.
pub open spec fn bare(data: Seq<u8>, off: u64) -> EntryModel {
    EntryModel {
        offset: off,
        header_len: 0,
        obj_type: None,
        type_tag: if off < data.len() {
            header_code(data[off as int])
        } else {
            0
        },
        declared_size: 0,
        delta_ref: None,
        payload_offset: off,
        zlib_consumed: None,
        end_offset: None,
        crc32: None,
        inflated: None,
        problems: Seq::empty(),
    }
}

/// An entry whose header was read, up to the place where its data begin.
pub open spec fn headed(data: Seq<u8>, off: u64) -> Result<EntryModel, EntryModel> {
    let e = bare(data, off);
    if off > data.len() {
        Err(
            EntryModel {
                problems: seq![
                    noted("bad_header"@, "entry offset runs past end of pack"@, Some(off)),
                ],
                ..e
            },
        )
    } else {
        match obj_header(data.skip(off as int)) {
            None => Err(
                EntryModel {
                    problems: seq![noted("bad_header"@, "cannot parse object entry header"@, Some(off))],
                    ..e
                },
            ),
            Some((t, size, n)) => {
                let e = EntryModel { obj_type: Some(t), declared_size: size, header_len: n as usize, ..e };
                let p = off + n;
                if t == ObjType::OfsDelta {
                    match ofs_field(data.skip(p)) {
                        None => Err(
                            EntryModel {
                                problems: seq![
                                    noted("bad_header"@, "truncated ofs-delta distance"@, Some(off)),
                                ],
                                ..e
                            },
                        ),
                        Some((distance, m)) => Ok(
                            EntryModel {
                                delta_ref: Some(
                                    RefModel::Ofs {
                                        distance,
                                        target: if distance <= off {
                                            Some((off - distance) as u64)
                                        } else {
                                            None
                                        },
                                    },
                                ),
                                problems: if distance <= off {
                                    Seq::empty()
                                } else {
                                    seq![
                                        noted(
                                            "ofs_out_of_bounds"@,
                                            "ofs-delta distance "@ + dec(distance as nat) + " at offset "@
                                                + dec(off as nat) + " precedes pack start"@,
                                            Some(off),
                                        ),
                                    ]
                                },
                                payload_offset: (p + m) as u64,
                                ..e
                            },
                        ),
                    }
                } else if t == ObjType::RefDelta {
                    if p + 20 > data.len() {
                        Err(
                            EntryModel {
                                problems: seq![
                                    noted(
                                        "ref_truncated"@,
                                        "ref-delta base oid runs past pack end"@,
                                        Some(off),
                                    ),
                                ],
                                ..e
                            },
                        )
                    } else {
                        Ok(
                            EntryModel {
                                delta_ref: Some(RefModel::Ref(data.subrange(p, p + 20))),
                                payload_offset: (p + 20) as u64,
                                ..e
                            },
                        )
                    }
                } else {
                    Ok(EntryModel { payload_offset: p as u64, ..e })
                }
            },
        }
    }
}

/// Where the data of the entry at `off` begin.
pub open spec fn payload_start(data: Seq<u8>, off: u64) -> int {
    match headed(data, off) {
        Ok(e) => e.payload_offset as int,
        Err(e) => e.payload_offset as int,
    }
}

/// An entry with the outcome of inflating its data.
pub open spec fn filled(
    data: Seq<u8>,
    e: EntryModel,
    outcome: Result<(Seq<u8>, nat), ZlibTrouble>,
) -> EntryModel {
    let p = e.payload_offset;
    match outcome {
        Ok((out, n)) => EntryModel {
            zlib_consumed: Some(n as usize),
            end_offset: Some((p + n) as u64),
            crc32: Some(crc32_of(data.subrange(e.offset as int, p + n))),
            inflated: Some(out),
            problems: if out.len() != e.declared_size {
                e.problems.push(
                    ProblemModel {
                        code: "spoofed_size"@,
                        message: "header declares "@ + dec(e.declared_size as nat)
                            + " inflated bytes but zlib stream is "@ + dec(out.len()) + " bytes"@,
                        offset: Some(e.offset),
                        range: Some((e.offset, p)),
                    },
                )
            } else {
                e.problems
            },
            ..e
        },
        Err(t) => EntryModel {
            problems: e.problems.push(
                ProblemModel {
                    code: if t.code == "inflation_cap"@ {
                        "inflation_cap"@
                    } else {
                        "zlib_error"@
                    },
                    message: t.message,
                    offset: Some(e.offset),
                    range: Some((p, (p + t.consumed) as u64)),
                },
            ),
            ..e
        },
    }
}

/// The entry at `off`.
pub open spec fn entry_at(data: Seq<u8>, off: u64) -> EntryModel {
    match headed(data, off) {
        Err(e) => e,
        Ok(e) => filled(
            data,
            e,
            drained(data.skip(e.payload_offset as int), PARSE_INFLATE_CAP as nat, Seq::empty()),
        ),
    }
}

/// Reads the header of the entry at `off`.
fn read_entry_head(data: &[u8], off: u64) -> (r: Result<PackEntry, PackEntry>)
    ensures
        match r {
            Ok(e) => headed(data@, off) == Ok::<EntryModel, EntryModel>(e@) && off <= e.payload_offset
                <= data@.len() && e.offset == off,
            Err(e) => headed(data@, off) == Err::<EntryModel, EntryModel>(e@),
        },
{
    let len: u64 = data.len() as u64;
    let type_tag: u8 = if off < len {
        (data[off as usize] / 16) % 8
    } else {
        0
    };
    let mut e = PackEntry {
        offset: off,
        header_len: 0,
        obj_type: None,
        type_tag,
        declared_size: 0,
        delta_ref: None,
        payload_offset: off,
        zlib_consumed: None,
        end_offset: None,
        crc32: None,
        inflated: None,
        problems: Vec::new(),
    };
    assert(problem_models(e.problems@) =~= Seq::empty());
    if off > len {
        e.problems.push(
            problem("bad_header", "entry offset runs past end of pack".to_owned(), Some(off)),
        );
        assert(problem_models(e.problems@) =~= seq![
            noted("bad_header"@, "entry offset runs past end of pack"@, Some(off)),
        ]);
        return Err(e);
    }
    let at: usize = off as usize;
    let (t, size, n) = match read_pack_obj_header(data, at) {
        Some(v) => v,
        None => {
            e.problems.push(
                problem("bad_header", "cannot parse object entry header".to_owned(), Some(off)),
            );
            assert(problem_models(e.problems@) =~= seq![
                noted("bad_header"@, "cannot parse object entry header"@, Some(off)),
            ]);
            return Err(e);
        },
    };
    e.obj_type = Some(t);
    e.declared_size = size;
    e.header_len = n;
    let p: usize = at + n;
    match t {
        ObjType::OfsDelta => {
            match read_ofs_distance(data, p) {
                None => {
                    e.problems.push(
                        problem("bad_header", "truncated ofs-delta distance".to_owned(), Some(off)),
                    );
                    assert(problem_models(e.problems@) =~= seq![
                        noted("bad_header"@, "truncated ofs-delta distance"@, Some(off)),
                    ]);
                    return Err(e);
                },
                Some((distance, m)) => {
                    let target: Option<u64> = if distance <= off {
                        Some(off - distance)
                    } else {
                        let mut msg = "ofs-delta distance ".to_owned();
                        push_dec(&mut msg, distance);
                        msg.append(" at offset ");
                        push_dec(&mut msg, off);
                        msg.append(" precedes pack start");
                        let ghost text = msg@;
                        e.problems.push(problem("ofs_out_of_bounds", msg, Some(off)));
                        assert(problem_models(e.problems@) =~= seq![
                            noted("ofs_out_of_bounds"@, text, Some(off)),
                        ]);
                        None
                    };
                    e.delta_ref = Some(DeltaRef::Ofs { distance, target });
                    e.payload_offset = (p + m) as u64;
                },
            }
        },
        ObjType::RefDelta => {
            if data.len() < 20 || p > data.len() - 20 {
                e.problems.push(
                    problem("ref_truncated", "ref-delta base oid runs past pack end".to_owned(), Some(off)),
                );
                assert(problem_models(e.problems@) =~= seq![
                    noted("ref_truncated"@, "ref-delta base oid runs past pack end"@, Some(off)),
                ]);
                return Err(e);
            }
            let id = oid_at(data, p);
            e.delta_ref = Some(DeltaRef::Ref(id));
            e.payload_offset = (p + 20) as u64;
        },
        _ => {
            e.payload_offset = p as u64;
        },
    }
    Ok(e)
}

/// Parses the entry at `off`. Data that the encoder wrote, within the cap, are read back whole.
pub fn parse_entry(data: &[u8], off: u64) -> (e: PackEntry)
    ensures
        e@ == entry_at(data@, off),
        forall|x: Seq<u8>|
            headed(data@, off) is Ok && #[trigger] zlib_packed(x).is_prefix_of(
                data@.skip(payload_start(data@, off)),
            ) && x.len() <= PARSE_INFLATE_CAP ==> (e.inflated matches Some(v) && v@ == x),
{
    let mut e = match read_entry_head(data, off) {
        Ok(e) => e,
        Err(e) => return e,
    };
    let ghost h = e@;
    let p: usize = e.payload_offset as usize;
    let source = vstd::slice::slice_subrange(data, p, data.len());
    assert(source@ =~= data@.skip(p as int));
    let ghost before = e.problems@;
    match inflate_one(source, e.declared_size, PARSE_INFLATE_CAP) {
        Ok(o) => {
            let end: usize = p + o.consumed;
            let raw = vstd::slice::slice_subrange(data, off as usize, end);
            e.zlib_consumed = Some(o.consumed);
            e.end_offset = Some(end as u64);
            e.crc32 = Some(crc32fast_hash(raw));
            if o.size_mismatch {
                let mut m = "header declares ".to_owned();
                push_dec(&mut m, e.declared_size);
                m.append(" inflated bytes but zlib stream is ");
                push_dec(&mut m, o.data.len() as u64);
                m.append(" bytes");
                let q = PackProblem {
                    code: "spoofed_size".to_owned(),
                    message: m,
                    offset: Some(off),
                    range: Some((off, p as u64)),
                };
                let ghost qm = q@;
                e.problems.push(q);
                assert(problem_models(e.problems@) =~= problem_models(before).push(qm));
            }
            e.inflated = Some(o.data);
        },
        Err(t) => {
            assert(p + t.consumed <= data.len());
            let code: &str = if same_text(t.code, "inflation_cap") {
                "inflation_cap"
            } else {
                "zlib_error"
            };
            let q = PackProblem {
                code: code.to_owned(),
                message: t.message,
                offset: Some(off),
                range: Some((p as u64, (p + t.consumed) as u64)),
            };
            let ghost qm = q@;
            e.problems.push(q);
            assert(problem_models(e.problems@) =~= problem_models(before).push(qm));
        },
    }
    e
}

/// Where the entry at `off` ends; nothing when that cannot be found out.
pub open spec fn entry_end(data: Seq<u8>, off: u64) -> Option<u64> {
    match headed(data, off) {
        Err(_) => None,
        Ok(e) => match drained(
            data.skip(e.payload_offset as int),
            PARSE_INFLATE_CAP as nat,
            Seq::empty(),
        ) {
            Ok((_, n)) => Some((e.payload_offset + n) as u64),
            Err(_) => None,
        },
    }
}

/// Only finds where the entry at `off` ends (used while discovering offsets).
fn peek_entry_end(data: &[u8], off: u64) -> (r: Option<u64>)
    ensures
        r == entry_end(data@, off),
        r matches Some(end) ==> off <= end <= data@.len(),
{
    let e = match read_entry_head(data, off) {
        Ok(e) => e,
        Err(_) => return None,
    };
    let p: usize = e.payload_offset as usize;
    let source = vstd::slice::slice_subrange(data, p, data.len());
    assert(source@ =~= data@.skip(p as int));
    match inflate_one(source, e.declared_size, PARSE_INFLATE_CAP) {
        Ok(o) => {
            assert(p + o.consumed <= data.len());
            Some((p + o.consumed) as u64)
        },
        Err(_) => None,
    }
}

/// The offsets that a sequential walk finds from `cur` on, after `found`.
pub open spec fn walked(data: Seq<u8>, count: nat, cur: u64, found: Seq<u64>) -> Seq<u64>
    decreases count - found.len(),
{
    if cur + 20 < data.len() && found.len() < count {
        match entry_end(data, cur) {
            Some(end) => walked(data, count, end, found.push(cur)),
            None => found.push(cur),
        }
    } else {
        found
    }
}

fn walk(data: &[u8], count: u32) -> (v: Vec<u64>)
    ensures
        v@ == walked(data@, count as nat, 12, Seq::empty()),
{
    let mut v: Vec<u64> = Vec::new();
    let mut cur: u64 = 12;
    let mut stopped: bool = false;
    let len: u64 = data.len() as u64;
    assert(v@ =~= Seq::empty());
    while !stopped && len > 20 && cur < len - 20 && v.len() < count as usize
        invariant
            len == data@.len(),
            v@.len() <= count,
            !stopped ==> walked(data@, count as nat, 12, Seq::empty()) == walked(
                data@,
                count as nat,
                cur,
                v@,
            ),
            stopped ==> walked(data@, count as nat, 12, Seq::empty()) == v@,
        decreases count - v@.len(), if stopped { 0int } else { 1int },
    {
        v.push(cur);
        match peek_entry_end(data, cur) {
            Some(end) => {
                cur = end;
            },
            None => {
                stopped = true;
            },
        }
    }
    v
}

/// The models of a list of entries.
pub open spec fn entry_models(v: Seq<PackEntry>) -> Seq<EntryModel> {
    v.map_values(|e: PackEntry| e@)
}

/// The offsets at which entries are read.
pub open spec fn chosen_offsets(data: Seq<u8>, known: Option<Seq<u64>>) -> Seq<u64> {
    match known {
        Some(o) => o,
        None => walked(data, be32(data, 8) as nat, 12, Seq::empty()),
    }
}

/// The problems of a pack with a good signature.
pub open spec fn pack_problems(data: Seq<u8>, known: Option<Seq<u64>>) -> Seq<ProblemModel> {
    let version = be32(data, 4);
    let count = be32(data, 8);
    let found = chosen_offsets(data, known).len();
    let split = data.len() - 20;
    let a: Seq<ProblemModel> = if version != 2 {
        seq![
            noted(
                "unsupported_version"@,
                "pack version "@ + dec(version as nat) + " (only v2 supported)"@,
                Some(4u64),
            ),
        ]
    } else {
        Seq::empty()
    };
    let b: Seq<ProblemModel> = if known is None && found != count {
        seq![
            noted(
                "object_count_mismatch"@,
                "header declares "@ + dec(count as nat) + " objects, "@ + dec(found) + " could be located"@,
                Some(12u64),
            ),
        ]
    } else {
        Seq::empty()
    };
    let c: Seq<ProblemModel> = if data.len() < 20 {
        seq![noted("truncated"@, "pack shorter than 20 bytes"@, None)]
    } else if data.skip(split) != sha1_of(data.take(split)) {
        seq![
            noted(
                "pack_checksum_mismatch"@,
                "stored pack SHA1 does not match recomputed SHA1"@,
                Some(split as u64),
            ),
        ]
    } else {
        Seq::empty()
    };
    a + b + c
}

/// The magic number of a pack.
pub open spec fn signature() -> Seq<u8> {
    seq![80u8, 65, 67, 75]
}

/// What is read of a pack.
pub open spec fn is_summary(s: PackSummary, data: Seq<u8>, known: Option<Seq<u64>>) -> bool {
    if data.len() < 12 || !signature().is_prefix_of(data) {
        &&& s.version == 0
        &&& s.num_objects == 0
        &&& s.header_len == if data.len() < 12 {
            data.len()
        } else {
            12
        }
        &&& s.trailer_offset is None
        &&& s.stored_checksum is None
        &&& s.actual_checksum is None
        &&& !s.checksum_valid
        &&& s.entries@.len() == 0
        &&& problem_models(s.problems@) == seq![
            noted("bad_signature"@, "missing PACK signature"@, None),
        ]
    } else {
        let offs = chosen_offsets(data, known);
        let split = data.len() - 20;
        &&& s.version == be32(data, 4)
        &&& s.num_objects == be32(data, 8)
        &&& s.header_len == 12
        &&& entry_models(s.entries@) == Seq::new(offs.len(), |i: int| entry_at(data, offs[i]))
        &&& problem_models(s.problems@) == pack_problems(data, known)
        &&& if data.len() < 20 {
            s.trailer_offset is None && s.stored_checksum is None && s.actual_checksum is None
                && !s.checksum_valid
        } else {
            &&& s.trailer_offset == Some(split as u64)
            &&& s.stored_checksum matches Some(t) && t@ == hex(data.skip(split))
            &&& s.actual_checksum matches Some(t) && t@ == hex(sha1_of(data.take(split)))
            &&& s.checksum_valid == (data.skip(split) == sha1_of(data.take(split)))
        }
    }
}

/// The offsets of an optional list.
pub open spec fn known_view(known: Option<&[u64]>) -> Option<Seq<u64>> {
    match known {
        Some(o) => Some(o@),
        None => None,
    }
}

/// Parses a pack. When `known_offsets` is supplied (from a paired .idx) every
/// listed offset is parsed directly; otherwise entries are discovered by
/// sequential zlib-boundary walking.
pub fn parse_pack(data: &[u8], known_offsets: Option<&[u64]>) -> (s: PackSummary)
    ensures
        is_summary(s, data@, known_view(known_offsets)),
{
    let ghost known = known_view(known_offsets);
    let mut problems: Vec<PackProblem> = Vec::new();
    let head: [u8; 4] = [80, 65, 67, 75];
    assert(head@ =~= signature());
    if data.len() < 12 || !begins_with(data, head.as_slice()) {
        problems.push(problem("bad_signature", "missing PACK signature".to_owned(), None));
        assert(problem_models(problems@) =~= seq![
            noted("bad_signature"@, "missing PACK signature"@, None),
        ]);
        let header_len: usize = if data.len() < 12 {
            data.len()
        } else {
            12
        };
        return PackSummary {
            version: 0,
            num_objects: 0,
            header_len,
            trailer_offset: None,
            stored_checksum: None,
            actual_checksum: None,
            checksum_valid: false,
            entries: Vec::new(),
            problems,
        };
    }
    let version: u32 = read_be32(data, 4);
    let num_objects: u32 = read_be32(data, 8);
    let ghost mut listed: Seq<ProblemModel> = Seq::empty();
    assert(problem_models(problems@) =~= listed);
    if version != 2 {
        let mut m = "pack version ".to_owned();
        push_dec(&mut m, version as u64);
        m.append(" (only v2 supported)");
        let q = problem("unsupported_version", m, Some(4));
        proof {
            listed = listed.push(q@);
        }
        problems.push(q);
        assert(problem_models(problems@) =~= listed);
    }
    let ghost offs = chosen_offsets(data@, known);
    let ghost all = Seq::new(offs.len(), |i: int| entry_at(data@, offs[i]));
    let mut entries: Vec<PackEntry> = Vec::new();
    assert(entry_models(entries@) =~= all.take(0));
    match known_offsets {
        Some(o) => {
            let mut i: usize = 0;
            while i < o.len()
                invariant
                    i <= o@.len(),
                    offs == o@,
                    all == Seq::new(offs.len(), |i: int| entry_at(data@, offs[i])),
                    entry_models(entries@) == all.take(i as int),
                decreases o@.len() - i,
            {
                let ghost before = entries@;
                let e = parse_entry(data, o[i]);
                let ghost em = e@;
                entries.push(e);
                proof {
                    assert(entry_models(entries@) =~= entry_models(before).push(em));
                    assert(all.take(i as int).push(all[i as int]) =~= all.take(i + 1));
                }
                i += 1;
            }
        },
        None => {
            let o = walk(data, num_objects);
            let mut i: usize = 0;
            while i < o.len()
                invariant
                    i <= o@.len(),
                    offs == o@,
                    all == Seq::new(offs.len(), |i: int| entry_at(data@, offs[i])),
                    entry_models(entries@) == all.take(i as int),
                decreases o@.len() - i,
            {
                let ghost before = entries@;
                let e = parse_entry(data, o[i]);
                let ghost em = e@;
                entries.push(e);
                proof {
                    assert(entry_models(entries@) =~= entry_models(before).push(em));
                    assert(all.take(i as int).push(all[i as int]) =~= all.take(i + 1));
                }
                i += 1;
            }
        },
    }
    assert(all.take(offs.len() as int) =~= all);
    assert(entry_models(entries@).len() == entries@.len());
    if known_offsets.is_none() && entries.len() as u64 != num_objects as u64 {
        let mut m = "header declares ".to_owned();
        push_dec(&mut m, num_objects as u64);
        m.append(" objects, ");
        push_dec(&mut m, entries.len() as u64);
        m.append(" could be located");
        let q = problem("object_count_mismatch", m, Some(12));
        proof {
            listed = listed.push(q@);
        }
        problems.push(q);
        assert(problem_models(problems@) =~= listed);
    }
    let mut s = PackSummary {
        version,
        num_objects,
        header_len: 12,
        trailer_offset: None,
        stored_checksum: None,
        actual_checksum: None,
        checksum_valid: false,
        entries,
        problems: Vec::new(),
    };
    if data.len() >= 20 {
        let split: usize = data.len() - 20;
        let stored = vstd::slice::slice_subrange(data, split, data.len());
        let body = vstd::slice::slice_subrange(data, 0, split);
        assert(stored@ =~= data@.skip(split as int));
        assert(body@ =~= data@.take(split as int));
        let computed = sha1(body);
        s.trailer_offset = Some(split as u64);
        s.stored_checksum = Some(hex_encode(stored));
        s.actual_checksum = Some(hex_encode(computed.as_slice()));
        s.checksum_valid = same_bytes(stored, computed.as_slice());
        if !s.checksum_valid {
            let q = problem(
                "pack_checksum_mismatch",
                "stored pack SHA1 does not match recomputed SHA1".to_owned(),
                Some(split as u64),
            );
            proof {
                listed = listed.push(q@);
            }
            problems.push(q);
            assert(problem_models(problems@) =~= listed);
        }
    } else {
        let q = problem("truncated", "pack shorter than 20 bytes".to_owned(), None);
        proof {
            listed = listed.push(q@);
        }
        problems.push(q);
        assert(problem_models(problems@) =~= listed);
    }
    assert(listed =~= pack_problems(data@, known));
    s.problems = problems;
    s
}

/// Applies a delta, so that parsing rules live in one place.
pub fn apply(base: &[u8], d: &[u8]) -> (r: Result<DeltaResult, DeltaError>)
    ensures
        match r {
            Ok(v) => result_of(base@, d@) == Ok::<(Seq<u8>, Seq<DeltaInstr>), DeltaTrouble>(
                (v.output@, v.instrs@),
            ),
            Err(e) => result_of(base@, d@) == Err::<(Seq<u8>, Seq<DeltaInstr>), DeltaTrouble>(e@),
        },
{
    delta::apply_delta(base, d)
}

/// The type bits of an entry.
pub open spec fn bits_of(t: ObjType) -> nat {
    match t {
        ObjType::Commit => 1,
        ObjType::Tree => 2,
        ObjType::Blob => 3,
        ObjType::Tag => 4,
        ObjType::OfsDelta => 6,
        ObjType::RefDelta => 7,
    }
}

/// An entry is told as it stands: its type and size as its head spells them, the base that it names,
/// the end of its stream, the checksum of all its bytes, and what its stream inflates to. It has no
/// problem exactly when the base of a delta does not precede the pack, and the stream can be read
/// and inflates to the size that was declared.
pub proof fn an_entry_is_told_as_it_stands(data: Seq<u8>, off: u64, t: ObjType, size: nat, base: Seq<u8>, distance: nat)
    requires
        data.len() <= usize::MAX,
        has_head(data, off as int, bits_of(t), size, base),
        t == ObjType::OfsDelta ==> distance < 0x1_0000_0000_0000_0000 && base == ofs128_bytes(distance),
        t == ObjType::RefDelta ==> base.len() == 20,
        t != ObjType::OfsDelta && t != ObjType::RefDelta ==> base.len() == 0,
    ensures
        ({
            let e = entry_at(data, off);
            let p = off + header_bytes(bits_of(t), size).len() + base.len();
            let stream = drained(data.skip(p), PARSE_INFLATE_CAP as nat, Seq::empty());
            &&& e.offset == off
            &&& e.obj_type == Some(t)
            &&& e.declared_size == size
            &&& e.payload_offset == p
            &&& t == ObjType::RefDelta ==> e.delta_ref == Some(RefModel::Ref(base))
            &&& t == ObjType::OfsDelta ==> (e.delta_ref matches Some(RefModel::Ofs { distance: d, target }) && d == distance
                && (target matches Some(b) ==> b + distance == off) && (target is None <==> distance > off))
            &&& t != ObjType::OfsDelta && t != ObjType::RefDelta ==> e.delta_ref is None
            &&& stream is Ok && p + (stream->Ok_0).1 <= data.len() ==> {
                let out = (stream->Ok_0).0;
                let n = (stream->Ok_0).1;
                &&& e.inflated == Some(out)
                &&& e.end_offset == Some((p + n) as u64)
                &&& e.crc32 == Some(crc32_of(data.subrange(off as int, p + n)))
                &&& e.problems.len() == 0 <==> out.len() == size && (t == ObjType::OfsDelta ==> distance <= off)
            }
            &&& stream is Err ==> e.inflated is None && e.crc32 is None && e.end_offset is None && e.problems.len() > 0
        }),
{
    heads_are_read(data, off as int, bits_of(t), size, base);
    let at = off + header_bytes(bits_of(t), size).len();
    assert(ObjType::of_code(header_code(data.skip(off as int)[0])) == Some(t));
    assert(obj_header(data.skip(off as int)) is Some);
    if t == ObjType::OfsDelta {
        distances_are_read(data, at, distance);
    }
}

} // verus!
