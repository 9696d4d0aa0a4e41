//! Parser of pack files of version 2. Entries are parsed defensively: one bad object never
//! stops the rest of the pack from being examined while its end can be found.
use vstd::prelude::*;
use vstd::string::StringExecFns;
use crate::analyze::graph::text_opt;
use crate::gitfmt::zlib::{inflate_at, scan_run, Fault, InflateError};
use crate::gitfmt::{read_ofs_varint, ObjType, Oid};
use crate::model::bytes::{be32, begins_with, oid_at, read_be32, same_bytes};
use crate::model::crc::crc32_of;
use crate::model::entryhead::{distances_are_read, has_head, heads_are_read};
use crate::model::order::views;
use crate::model::outside::{crc32fast_hash, sha1, sha1_of};
use crate::model::text::{dec, push_dec, push_part, texts};
use crate::model::varint::{
    ends, head_bytes, header_bytes, header_code, header_size, header_size_at, le128_scan, ofs128, ofs128_bytes,
    scan_le128, touched, word, Scan,
};

verus! {

#[derive(Debug, Clone, Copy, PartialEq, Eq, Structural)]
pub enum EntryProblem {
    /// Header itself is undecodable / truncated.
    BadHeader,
    /// Reserved or unknown object type bits.
    BadType,
    /// ofs-delta distance does not land on an entry.
    OfsOutOfBounds,
    /// zlib stream corrupt / truncated.
    BadZlib,
    /// Declared size differs from what actually inflated ("size spoof").
    SizeSpoof,
    /// Inflated payload exceeds the safety cap.
    CapExceeded,
    /// Entry's zlib stream runs past the 20-byte pack trailer.
    OverlapsTrailer,
}

#[derive(Debug)]
pub struct PackEntry {
    /// Index within the pack (0-based parse order).
    pub ordinal: u32,
    /// Absolute offset of the entry header in the pack.
    pub offset: u64,
    pub kind: Option<ObjType>,
    pub declared_size: u64,
    /// Offset just past the entry header (where zlib data starts).
    pub data_start: u64,
    /// Absolute offset just past the zlib stream (next entry start).
    pub data_end: Option<u64>,
    pub compressed_len: Option<u64>,
    pub inflated: Option<Vec<u8>>,
    /// ref-delta base id, if applicable.
    pub ref_base: Option<Oid>,
    /// ofs-delta base absolute offset, if applicable.
    pub ofs_base: Option<u64>,
    pub problem: Option<EntryProblem>,
    pub problem_detail: Option<String>,
    /// CRC32 over the on-disk entry bytes (header + compressed data).
    pub crc32: Option<u32>,
    /// Oid claimed by a paired index for this offset.
    pub idx_oid: Option<Oid>,
}

/// The model of a pack entry.
pub ghost struct EntryModel {
    pub ordinal: u32,
    pub offset: u64,
    pub kind: Option<ObjType>,
    pub declared_size: u64,
    pub data_start: u64,
    pub data_end: Option<u64>,
    pub compressed_len: Option<u64>,
    pub inflated: Option<Seq<u8>>,
    pub ref_base: Option<Seq<u8>>,
    pub ofs_base: Option<u64>,
    pub problem: Option<EntryProblem>,
    pub problem_detail: Option<Seq<char>>,
    pub crc32: Option<u32>,
    pub idx_oid: Option<Seq<u8>>,
}

/// The bytes of an optional id.
pub open spec fn id_bytes(o: Option<Oid>) -> Option<Seq<u8>> {
    match o {
        Some(x) => Some(x.0@),
        None => None,
    }
}

impl View for PackEntry {
    type V = EntryModel;

    open spec fn view(&self) -> EntryModel {
        EntryModel {
            ordinal: self.ordinal,
            offset: self.offset,
            kind: self.kind,
            declared_size: self.declared_size,
            data_start: self.data_start,
            data_end: self.data_end,
            compressed_len: self.compressed_len,
            inflated: match self.inflated {
                Some(v) => Some(v@),
                None => None,
            },
            ref_base: id_bytes(self.ref_base),
            ofs_base: self.ofs_base,
            problem: self.problem,
            problem_detail: text_opt(self.problem_detail),
            crc32: self.crc32,
            idx_oid: id_bytes(self.idx_oid),
        }
    }
}

#[derive(Debug)]
pub struct PackFile {
    pub data: Vec<u8>,
    pub version: u32,
    pub num_objects: u32,
    /// SHA-1 stored in the trailing 20 bytes.
    pub trailer: Oid,
    pub computed_trailer: Oid,
    pub trailer_ok: bool,
    pub entries: Vec<PackEntry>,
    pub errors: Vec<String>,
}

/// The magic number of a pack.
pub open spec fn signature() -> Seq<u8> {
    seq![80u8, 65, 67, 75]
}

/// An entry of which only the header is known.
pub open spec fn headed(ordinal: u32, offset: nat, kind: Option<ObjType>, size: u64, data_start: nat) -> EntryModel {
    EntryModel {
        ordinal,
        offset: offset as u64,
        kind,
        declared_size: size,
        data_start: data_start as u64,
        data_end: None,
        compressed_len: None,
        inflated: None,
        ref_base: None,
        ofs_base: None,
        problem: None,
        problem_detail: None,
        crc32: None,
        idx_oid: None,
    }
}

/// An entry with a problem.
pub open spec fn faulty(e: EntryModel, p: EntryProblem, detail: Seq<char>) -> EntryModel {
    EntryModel { problem: Some(p), problem_detail: Some(detail), ..e }
}

/// What is found at a place: the end of the scan, the last entry, or an entry and where the
/// next one begins.
pub ghost enum Found {
    End(Seq<char>),
    Last(EntryModel),
    Next(EntryModel, nat),
}

/// What follows the header of an entry: where its data begin, or that it is bad.
pub ghost enum Behind {
    Data(EntryModel, nat),
    Bad(Found),
}

/// An entry starts at an offset.
pub open spec fn starts_at(entries: Seq<EntryModel>, offset: u64) -> bool {
    exists|i: int| 0 <= i < entries.len() && (#[trigger] entries[i]).offset == offset
}

/// What follows the header of an entry at `pos`, whose header takes `n` bytes.
pub open spec fn behind_header(
    d: Seq<u8>,
    entries: Seq<EntryModel>,
    e: EntryModel,
    kind: ObjType,
    pos: nat,
    n: nat,
) -> Behind {
    let limit = d.len() - 20;
    let at = pos + n;
    match kind {
        ObjType::RefDelta => if at + 20 > limit {
            Behind::Bad(
                Found::Last(
                    faulty(e, EntryProblem::BadHeader, "ref-delta base id runs into pack trailer"@),
                ),
            )
        } else {
            Behind::Data(
                EntryModel {
                    ref_base: Some(d.subrange(at as int, at as int + 20)),
                    data_start: (at + 20) as u64,
                    ..e
                },
                at + 20,
            )
        },
        ObjType::OfsDelta => {
            let s = d.skip(at as int);
            let dist = (ofs128(head_bytes(s)) % word()) as u64;
            let next = at + touched(s);
            if !ends(s) {
                Behind::Bad(
                    Found::Last(faulty(e, EntryProblem::BadHeader, "ofs varint runs past end of data"@)),
                )
            } else if dist > pos || dist == 0 {
                Behind::Bad(
                    Found::Next(
                        faulty(
                            EntryModel { data_start: next as u64, ..e },
                            EntryProblem::OfsOutOfBounds,
                            "ofs-delta distance "@ + dec(dist as nat)
                                + " does not point before entry offset "@ + dec(pos),
                        ),
                        next,
                    ),
                )
            } else {
                let base = (pos - dist) as u64;
                let e1 = EntryModel { ofs_base: Some(base), data_start: next as u64, ..e };
                if !starts_at(entries, base) {
                    Behind::Bad(
                        Found::Next(
                            faulty(
                                e1,
                                EntryProblem::OfsOutOfBounds,
                                "ofs-delta base offset "@ + dec(base as nat)
                                    + " matches no parsed entry"@,
                            ),
                            next,
                        ),
                    )
                } else {
                    Behind::Data(e1, next)
                }
            }
        },
        _ => Behind::Data(e, at),
    }
}

/// The problem that a failed inflation is.
pub open spec fn fault_problem(f: Fault) -> (EntryProblem, Seq<char>) {
    match f {
        Fault::BadStream(m) => (EntryProblem::BadZlib, m),
        Fault::CapExceeded { cap } => (
            EntryProblem::CapExceeded,
            "inflated payload exceeds safety cap "@ + dec(cap as nat),
        ),
    }
}

/// The message of a size that is a lie.
pub open spec fn spoof_text(declared: u64, actual: nat) -> Seq<char> {
    "size spoof: declared "@ + dec(declared as nat) + ", inflated "@ + dec(actual) + if actual > declared {
        " (more)"@
    } else {
        " (fewer)"@
    }
}

/// The entry at `pos` with its data, which begin at `at`. Data of another size than declared are
/// kept beside the mark.
pub open spec fn with_data(d: Seq<u8>, cap: u64, e: EntryModel, pos: nat, at: nat) -> Found {
    let limit = d.len() - 20;
    if at >= limit {
        Found::Last(faulty(e, EntryProblem::BadHeader, "object zlib data starts in trailer area"@))
    } else {
        match scan_run(d.skip(at as int), Some(e.declared_size), cap, Seq::empty()) {
            Err(f) => Found::Last(faulty(e, fault_problem(f).0, fault_problem(f).1)),
            Ok((data, n)) => {
                let end = at + n;
                let located = EntryModel {
                    inflated: Some(data),
                    data_end: Some(end as u64),
                    compressed_len: Some(n as u64),
                    crc32: Some(crc32_of(d.subrange(pos as int, end as int))),
                    ..e
                };
                if end > limit {
                    Found::Last(
                        faulty(
                            e,
                            EntryProblem::OverlapsTrailer,
                            "zlib stream ends at "@ + dec(end) + ", body limit "@ + dec(limit as nat),
                        ),
                    )
                } else if data.len() != e.declared_size {
                    Found::Next(
                        faulty(located, EntryProblem::SizeSpoof, spoof_text(e.declared_size, data.len())),
                        end,
                    )
                } else {
                    Found::Next(located, end)
                }
            },
        }
    }
}

/// What is found at `pos`, after `entries`.
pub open spec fn found_at(d: Seq<u8>, cap: u64, entries: Seq<EntryModel>, pos: nat, ordinal: u32) -> Found {
    let s = d.skip(pos as int);
    if pos >= d.len() - 20 {
        Found::End("entry #"@ + dec(ordinal as nat) + ": header runs into pack trailer"@)
    } else {
        match le128_scan(s) {
            Scan::Truncated => Found::End(
                "entry #"@ + dec(ordinal as nat) + " @"@ + dec(pos) + ": size varint runs past end of data"@,
            ),
            Scan::TooLong => Found::End(
                "entry #"@ + dec(ordinal as nat) + " @"@ + dec(pos) + ": size varint too long"@,
            ),
            Scan::Value { value: _, len } => {
                let code = header_code(s[0]);
                let size = (header_size(head_bytes(s)) % word()) as u64;
                let e = headed(ordinal, pos, ObjType::of_code(code), size, pos + len as nat);
                match ObjType::of_code(code) {
                    None => Found::Last(
                        faulty(
                            e,
                            EntryProblem::BadType,
                            "reserved/unknown object type "@ + dec(code as nat),
                        ),
                    ),
                    Some(kind) => match behind_header(d, entries, e, kind, pos, len as nat) {
                        Behind::Bad(f) => f,
                        Behind::Data(e1, at) => with_data(d, cap, e1, pos, at),
                    },
                }
            },
        }
    }
}

/// The errors with that of an entry, if it has a problem.
pub open spec fn noted(errors: Seq<Seq<char>>, e: EntryModel) -> Seq<Seq<char>> {
    match e.problem_detail {
        Some(m) => errors.push(
            "entry #"@ + dec(e.ordinal as nat) + " @"@ + dec(e.offset as nat) + ": "@ + m,
        ),
        None => errors,
    }
}

/// The entries and errors of a scan that goes on at `pos`.
pub open spec fn scanned(
    d: Seq<u8>,
    cap: u64,
    count: u32,
    pos: nat,
    ordinal: u32,
    entries: Seq<EntryModel>,
    errors: Seq<Seq<char>>,
) -> (Seq<EntryModel>, Seq<Seq<char>>)
    decreases count - ordinal,
{
    if ordinal >= count {
        (entries, errors)
    } else {
        match found_at(d, cap, entries, pos, ordinal) {
            Found::End(m) => (entries, errors.push(m)),
            Found::Last(e) => (entries.push(e), noted(errors, e)),
            Found::Next(e, next) => scanned(
                d,
                cap,
                count,
                next,
                (ordinal + 1) as u32,
                entries.push(e),
                noted(errors, e),
            ),
        }
    }
}

/// The entries and errors of a pack.
pub open spec fn pack_entries(d: Seq<u8>, cap: u64) -> (Seq<EntryModel>, Seq<Seq<char>>) {
    let count = be32(d, 8);
    let r = scanned(d, cap, count, 12, 0, Seq::empty(), Seq::empty());
    if r.0.len() != count {
        (
            r.0,
            r.1.push(
                "object count mismatch: header declares "@ + dec(count as nat) + ", parser recovered "@ + dec(
                    r.0.len(),
                ),
            ),
        )
    } else {
        r
    }
}

/// What one place of a pack holds.
pub enum Place {
    End(String),
    Last(PackEntry),
    Next(PackEntry, usize),
}

impl View for Place {
    type V = Found;

    open spec fn view(&self) -> Found {
        match self {
            Place::End(m) => Found::End(m@),
            Place::Last(e) => Found::Last(e@),
            Place::Next(e, n) => Found::Next(e@, *n as nat),
        }
    }
}

fn with_problem(e: PackEntry, p: EntryProblem, detail: String) -> (r: PackEntry)
    ensures
        r@ == faulty(e@, p, detail@),
{
    let mut r = e;
    r.problem = Some(p);
    r.problem_detail = Some(detail);
    r
}

fn lands(entries: &Vec<PackEntry>, offset: u64) -> (r: bool)
    ensures
        r == starts_at(views(entries@), offset),
{
    let ghost m = views(entries@);
    let mut i: usize = 0;
    while i < entries.len()
        invariant
            i <= entries@.len(),
            m == views(entries@),
            forall|j: int| 0 <= j < i ==> (#[trigger] m[j]).offset != offset,
        decreases entries@.len() - i,
    {
        assert(m[i as int] == entries@[i as int]@);
        if entries[i].offset == offset {
            return true;
        }
        i += 1;
    }
    false
}

fn inflate_entry(data: &Vec<u8>, cap: u64, e: PackEntry, pos: usize, at: usize) -> (r: Place)
    requires
        20 <= data@.len(),
        pos <= at <= data@.len(),
    ensures
        r@ == with_data(data@, cap, e@, pos as nat, at as nat),
        r matches Place::Next(_, n) ==> at <= n <= data@.len() - 20,
{
    let limit: usize = data.len() - 20;
    if at >= limit {
        return Place::Last(
            with_problem(
                e,
                EntryProblem::BadHeader,
                "object zlib data starts in trailer area".to_owned(),
            ),
        );
    }
    let declared: u64 = e.declared_size;
    match inflate_at(data.as_slice(), at, Some(declared), cap) {
        Err(InflateError::BadStream(m)) => Place::Last(with_problem(e, EntryProblem::BadZlib, m)),
        Err(InflateError::CapExceeded { cap: c }) => {
            let mut m = "inflated payload exceeds safety cap ".to_owned();
            push_dec(&mut m, c);
            Place::Last(with_problem(e, EntryProblem::CapExceeded, m))
        },
        Ok(inf) => {
            let end: usize = inf.compressed_end;
            assert(inf.data@.len() == inf.data.len());
            if end > limit {
                let mut m = "zlib stream ends at ".to_owned();
                push_dec(&mut m, end as u64);
                m.append(", body limit ");
                push_dec(&mut m, limit as u64);
                return Place::Last(with_problem(e, EntryProblem::OverlapsTrailer, m));
            }
            let mut r = e;
            r.data_end = Some(end as u64);
            r.compressed_len = Some(inf.compressed_len as u64);
            let bytes = vstd::slice::slice_subrange(data.as_slice(), pos, end);
            assert(bytes@ =~= data@.subrange(pos as int, end as int));
            r.crc32 = Some(crc32fast_hash(bytes));
            let mismatch: Option<(u64, u64)> = inf.size_mismatch;
            r.inflated = Some(inf.data);
            match mismatch {
                Some((d, a)) => {
                    let mut m = "size spoof: declared ".to_owned();
                    push_dec(&mut m, d);
                    m.append(", inflated ");
                    push_dec(&mut m, a);
                    if a > d {
                        m.append(" (more)");
                    } else {
                        m.append(" (fewer)");
                    }
                    Place::Next(with_problem(r, EntryProblem::SizeSpoof, m), end)
                },
                None => Place::Next(r, end),
            }
        },
    }
}

fn begin_message(ordinal: u32, pos: usize) -> (m: String)
    ensures
        m@ == "entry #"@ + dec(ordinal as nat) + " @"@ + dec(pos as nat),
{
    let mut m = "entry #".to_owned();
    push_dec(&mut m, ordinal as u64);
    m.append(" @");
    push_dec(&mut m, pos as u64);
    m
}

/// Reads what stands at one place of a pack.
fn parse_place(data: &Vec<u8>, cap: u64, entries: &Vec<PackEntry>, pos: usize, ordinal: u32) -> (r: Place)
    requires
        32 <= data@.len(),
        pos <= data@.len(),
    ensures
        r@ == found_at(data@, cap, views(entries@), pos as nat, ordinal),
        r matches Place::Next(_, n) ==> pos <= n <= data@.len(),
{
    let limit: usize = data.len() - 20;
    if pos >= limit {
        let mut m = "entry #".to_owned();
        push_dec(&mut m, ordinal as u64);
        m.append(": header runs into pack trailer");
        return Place::End(m);
    }
    let ghost s = data@.skip(pos as int);
    let n: usize = match scan_le128(data.as_slice(), pos) {
        Scan::Truncated => {
            let mut m = begin_message(ordinal, pos);
            m.append(": size varint runs past end of data");
            return Place::End(m);
        },
        Scan::TooLong => {
            let mut m = begin_message(ordinal, pos);
            m.append(": size varint too long");
            return Place::End(m);
        },
        Scan::Value { value: _, len } => len,
    };
    let code: u8 = (data[pos] / 16) % 8;
    assert(head_bytes(s) =~= data@.subrange(pos as int, pos + n));
    let size: u64 = header_size_at(data.as_slice(), pos, n);
    let mut e = PackEntry {
        ordinal,
        offset: pos as u64,
        kind: ObjType::from_u8(code),
        declared_size: size,
        data_start: (pos + n) as u64,
        data_end: None,
        compressed_len: None,
        inflated: None,
        ref_base: None,
        ofs_base: None,
        problem: None,
        problem_detail: None,
        crc32: None,
        idx_oid: None,
    };
    let kind = match ObjType::from_u8(code) {
        Some(k) => k,
        None => {
            let mut m = "reserved/unknown object type ".to_owned();
            push_dec(&mut m, code as u64);
            return Place::Last(with_problem(e, EntryProblem::BadType, m));
        },
    };
    let mut at: usize = pos + n;
    match kind {
        ObjType::RefDelta => {
            if at > limit || limit - at < 20 {
                return Place::Last(
                    with_problem(
                        e,
                        EntryProblem::BadHeader,
                        "ref-delta base id runs into pack trailer".to_owned(),
                    ),
                );
            }
            e.ref_base = Some(Oid(oid_at(data.as_slice(), at)));
            at += 20;
            e.data_start = at as u64;
        },
        ObjType::OfsDelta => {
            assert(crate::gitfmt::from_pos(data@, at) =~= data@.skip(at as int));
            match read_ofs_varint(data.as_slice(), at) {
                Err(m) => {
                    return Place::Last(with_problem(e, EntryProblem::BadHeader, m));
                },
                Ok((dist, k)) => {
                    at += k;
                    e.data_start = at as u64;
                    if dist > pos as u64 || dist == 0 {
                        let mut m = "ofs-delta distance ".to_owned();
                        push_dec(&mut m, dist);
                        m.append(" does not point before entry offset ");
                        push_dec(&mut m, pos as u64);
                        return Place::Next(with_problem(e, EntryProblem::OfsOutOfBounds, m), at);
                    }
                    let base: u64 = pos as u64 - dist;
                    e.ofs_base = Some(base);
                    if !lands(entries, base) {
                        let mut m = "ofs-delta base offset ".to_owned();
                        push_dec(&mut m, base);
                        m.append(" matches no parsed entry");
                        return Place::Next(with_problem(e, EntryProblem::OfsOutOfBounds, m), at);
                    }
                },
            }
        },
        _ => {},
    }
    inflate_entry(data, cap, e, pos, at)
}

fn push_entry(pack: &mut PackFile, e: PackEntry)
    ensures
        views(final(pack).entries@) == views(old(pack).entries@).push(e@),
        final(pack).entries@.len() == old(pack).entries@.len() + 1,
        texts(final(pack).errors@) == noted(texts(old(pack).errors@), e@),
        final(pack).data == old(pack).data,
        final(pack).version == old(pack).version,
        final(pack).num_objects == old(pack).num_objects,
        final(pack).trailer == old(pack).trailer,
        final(pack).computed_trailer == old(pack).computed_trailer,
        final(pack).trailer_ok == old(pack).trailer_ok,
{
    if let Some(detail) = &e.problem_detail {
        let mut m = "entry #".to_owned();
        push_dec(&mut m, e.ordinal as u64);
        m.append(" @");
        push_dec(&mut m, e.offset);
        m.append(": ");
        m.append(detail.as_str());
        push_part(&mut pack.errors, m);
    }
    let ghost before = views(pack.entries@);
    pack.entries.push(e);
    assert(views(pack.entries@) =~= before.push(e@));
}

/// Reads the entries of a pack.
fn parse_entries(pack: &mut PackFile, inflate_cap: u64)
    requires
        old(pack).data@.len() >= 32,
        old(pack).num_objects == be32(old(pack).data@, 8),
        old(pack).entries@.len() == 0,
        old(pack).errors@.len() == 0,
    ensures
        (views(final(pack).entries@), texts(final(pack).errors@)) == pack_entries(
            old(pack).data@,
            inflate_cap,
        ),
        final(pack).data == old(pack).data,
        final(pack).version == old(pack).version,
        final(pack).num_objects == old(pack).num_objects,
        final(pack).trailer == old(pack).trailer,
        final(pack).computed_trailer == old(pack).computed_trailer,
        final(pack).trailer_ok == old(pack).trailer_ok,
{
    let ghost d = pack.data@;
    let count: u32 = pack.num_objects;
    let mut pos: usize = 12;
    let mut ordinal: u32 = 0;
    let ghost all = scanned(d, inflate_cap, count, 12, 0, Seq::empty(), Seq::empty());
    proof {
        assert(views(pack.entries@) =~= Seq::empty());
        assert(texts(pack.errors@) =~= Seq::empty());
    }
    let mut open: bool = true;
    while open && ordinal < count
        invariant
            d == old(pack).data@,
            d.len() >= 32,
            count == old(pack).num_objects,
            pos <= d.len(),
            ordinal <= count,
            pack.entries@.len() <= count,
            open ==> pack.entries@.len() == ordinal,
            all == if open {
                scanned(
                    d,
                    inflate_cap,
                    count,
                    pos as nat,
                    ordinal,
                    views(pack.entries@),
                    texts(pack.errors@),
                )
            } else {
                (views(pack.entries@), texts(pack.errors@))
            },
            pack.data == old(pack).data,
            pack.version == old(pack).version,
            pack.num_objects == old(pack).num_objects,
            pack.trailer == old(pack).trailer,
            pack.computed_trailer == old(pack).computed_trailer,
            pack.trailer_ok == old(pack).trailer_ok,
        decreases count - ordinal, if open {
            1int
        } else {
            0int
        },
    {
        match parse_place(&pack.data, inflate_cap, &pack.entries, pos, ordinal) {
            Place::End(m) => {
                push_part(&mut pack.errors, m);
                open = false;
            },
            Place::Last(e) => {
                push_entry(pack, e);
                open = false;
            },
            Place::Next(e, next) => {
                push_entry(pack, e);
                pos = next;
                ordinal += 1;
            },
        }
    }
    let recovered: u64 = pack.entries.len() as u64;
    if recovered != count as u64 {
        let mut m = "object count mismatch: header declares ".to_owned();
        push_dec(&mut m, count as u64);
        m.append(", parser recovered ");
        push_dec(&mut m, recovered);
        push_part(&mut pack.errors, m);
    }
}

/// Parses a pack. One bad object never stops the rest of the pack from being examined while
/// its end can be found.
pub fn parse_pack(data: Vec<u8>, inflate_cap: u64) -> (r: Result<PackFile, String>)
    ensures
        ({
            let d = data@;
            match r {
                Ok(p) => {
                    &&& d.len() >= 32
                    &&& signature().is_prefix_of(d)
                    &&& be32(d, 4) == 2
                    &&& p.data@ == d
                    &&& p.version == 2
                    &&& p.num_objects == be32(d, 8)
                    &&& p.trailer.0@ == d.subrange(d.len() - 20, d.len() as int)
                    &&& p.computed_trailer.0@ == sha1_of(d.take(d.len() - 20))
                    &&& p.trailer_ok == (p.trailer.0@ == p.computed_trailer.0@)
                    &&& (views(p.entries@), texts(p.errors@)) == pack_entries(d, inflate_cap)
                },
                Err(m) => {
                    ||| d.len() < 32 && m@ == "pack too small: "@ + dec(d.len()) + " bytes"@
                    ||| d.len() >= 32 && !signature().is_prefix_of(d) && m@ == "missing PACK signature"@
                    ||| d.len() >= 32 && signature().is_prefix_of(d) && be32(d, 4) != 2 && m@
                        == "unsupported pack version "@ + dec(be32(d, 4) as nat)
                },
            }
        }),
{
    if data.len() < 32 {
        let mut m = "pack too small: ".to_owned();
        push_dec(&mut m, data.len() as u64);
        m.append(" bytes");
        return Err(m);
    }
    let magic: [u8; 4] = [80, 65, 67, 75];
    assert(magic@ =~= signature());
    if !begins_with(data.as_slice(), magic.as_slice()) {
        return Err("missing PACK signature".to_owned());
    }
    let version: u32 = read_be32(data.as_slice(), 4);
    if version != 2 {
        let mut m = "unsupported pack version ".to_owned();
        push_dec(&mut m, version as u64);
        return Err(m);
    }
    let num_objects: u32 = read_be32(data.as_slice(), 8);
    let body: usize = data.len() - 20;
    let trailer = Oid(oid_at(data.as_slice(), body));
    let bytes = vstd::slice::slice_subrange(data.as_slice(), 0, body);
    assert(bytes@ =~= data@.take(body as int));
    let computed_trailer = Oid(sha1(bytes));
    let trailer_ok: bool = same_bytes(trailer.0.as_slice(), computed_trailer.0.as_slice());
    let mut pack = PackFile {
        data,
        version,
        num_objects,
        trailer,
        computed_trailer,
        trailer_ok,
        entries: Vec::new(),
        errors: Vec::new(),
    };
    parse_entries(&mut pack, inflate_cap);
    Ok(pack)
}

/// No two entries of a scan begin at the same place, and they come in order.
pub proof fn entries_come_in_order(d: Seq<u8>, cap: u64)
    requires
        d.len() >= 32,
        d.len() <= usize::MAX,
    ensures
        ({
            let v = pack_entries(d, cap).0;
            forall|i: int, j: int|
                0 <= i < j < v.len() ==> (#[trigger] v[i]).offset < (#[trigger] v[j]).offset
        }),
{
    lemma_scan_in_order(d, cap, be32(d, 8), 12, 0, Seq::empty(), Seq::empty());
}

proof fn lemma_scan_in_order(
    d: Seq<u8>,
    cap: u64,
    count: u32,
    pos: nat,
    ordinal: u32,
    entries: Seq<EntryModel>,
    errors: Seq<Seq<char>>,
)
    requires
        d.len() >= 32,
        d.len() <= usize::MAX,
        pos <= d.len(),
        forall|i: int| 0 <= i < entries.len() ==> (#[trigger] entries[i]).offset < pos,
        forall|i: int, j: int|
            0 <= i < j < entries.len() ==> (#[trigger] entries[i]).offset < (#[trigger] entries[j]).offset,
    ensures
        ({
            let v = scanned(d, cap, count, pos, ordinal, entries, errors).0;
            forall|i: int, j: int|
                0 <= i < j < v.len() ==> (#[trigger] v[i]).offset < (#[trigger] v[j]).offset
        }),
    decreases count - ordinal,
{
    if ordinal < count {
        match found_at(d, cap, entries, pos, ordinal) {
            Found::End(m) => {},
            Found::Last(e) => {
                assert(e.offset == pos);
            },
            Found::Next(e, next) => {
                assert(e.offset == pos);
                if pos < next <= d.len() {
                    lemma_scan_in_order(
                        d,
                        cap,
                        count,
                        next,
                        (ordinal + 1) as u32,
                        entries.push(e),
                        noted(errors, e),
                    );
                }
            },
        }
    }
}

/// The type bits of an entry.
pub open spec fn bits_of(t: ObjType) -> nat {
    match t {
        ObjType::Commit => 1,
        ObjType::Tree => 2,
        ObjType::Blob => 3,
        ObjType::Tag => 4,
        ObjType::OfsDelta => 6,
        ObjType::RefDelta => 7,
    }
}

/// An entry whose stream ends before the trailer is told as it stands: its type and size as its head
/// spells them, the base that it names, where its data begin and end, the checksum of all its bytes
/// and its data. It is marked exactly when the data are of another size than declared, and the scan
/// goes on behind it.
pub proof fn an_entry_is_told_as_it_stands(
    d: Seq<u8>,
    cap: u64,
    entries: Seq<EntryModel>,
    pos: nat,
    ordinal: u32,
    t: ObjType,
    size: nat,
    base: Seq<u8>,
    distance: nat,
)
    requires
        d.len() <= usize::MAX,
        has_head(d, pos as int, bits_of(t), size, base),
        t == ObjType::OfsDelta ==> 0 < distance <= pos && base == ofs128_bytes(distance) && exists|i: int|
            0 <= i < entries.len() && (#[trigger] entries[i]).offset == pos - distance,
        t == ObjType::RefDelta ==> base.len() == 20,
        t != ObjType::OfsDelta && t != ObjType::RefDelta ==> base.len() == 0,
        ({
            let at = pos + header_bytes(bits_of(t), size).len() + base.len();
            &&& at + 20 < d.len()
            &&& scan_run(d.skip(at as int), Some(size as u64), cap, Seq::empty()) is Ok
            &&& at + (scan_run(d.skip(at as int), Some(size as u64), cap, Seq::empty())->Ok_0).1 + 20 <= d.len()
        }),
    ensures
        ({
            let at = pos + header_bytes(bits_of(t), size).len() + base.len();
            let (data, n) = scan_run(d.skip(at as int), Some(size as u64), cap, Seq::empty())->Ok_0;
            let f = found_at(d, cap, entries, pos, ordinal);
            &&& f is Next
            &&& f->Next_1 == at + n
            &&& ({
                let e = f->Next_0;
                &&& e.ordinal == ordinal && e.offset == pos && e.kind == Some(t) && e.declared_size == size
                &&& e.data_start == at && e.data_end == Some((at + n) as u64) && e.compressed_len == Some(n as u64)
                &&& e.crc32 == Some(crc32_of(d.subrange(pos as int, (at + n) as int)))
                &&& e.inflated == Some(data)
                &&& t == ObjType::RefDelta ==> e.ref_base == Some(base) && e.ofs_base is None
                &&& t == ObjType::OfsDelta ==> e.ofs_base == Some((pos - distance) as u64) && e.ref_base is None
                &&& t != ObjType::OfsDelta && t != ObjType::RefDelta ==> e.ref_base is None && e.ofs_base is None
                &&& e.problem is None <==> data.len() == size
                &&& e.problem is Some ==> e.problem == Some(EntryProblem::SizeSpoof)
            })
        }),
{
    heads_are_read(d, pos as int, bits_of(t), size, base);
    let at = pos + header_bytes(bits_of(t), size).len();
    assert(ObjType::of_code(header_code(d.skip(pos as int)[0])) == Some(t));
    if t == ObjType::OfsDelta {
        distances_are_read(d, at as int, distance);
        assert(starts_at(entries, (pos - distance) as u64));
    }
}

} // verus!
