//! File ingestion: sources, candidates and declared delta edges are recorded in the order of
//! import, and indexes are paired with packs.
use vstd::prelude::*;
use vstd::string::{StrSliceExecFns, StringExecFns};
use crate::analyze::graph::text_opt;
use crate::git::object_id::to_hex;
use crate::git::types::ObjType;
use crate::model::assoc::{put, IdMap};
use crate::model::bytes::{be32, begins_with, read_be32};
use crate::model::num::{signed, to_signed};
use crate::model::text::{
    ends_with_lower, find_last, hex, is_hex_char, last_at, lower_ends_with, part_of, same_text, stem, stem_of,
};

verus! {

/// The counts of an index of the first version do not decrease, and give its length.
pub open spec fn is_idx_v1(data: Seq<u8>) -> bool {
    &&& data.len() >= 1044
    &&& forall|i: int| 0 <= i < 255 ==> #[trigger] be32(data, 4 * i) <= be32(data, 4 * i + 4)
    &&& data.len() == 1024 + be32(data, 1020) * 24 + 20
}

/// What kind of file a name and bytes suggest.
pub open spec fn kind_of_file(data: Seq<u8>, filename: Seq<char>) -> Seq<char> {
    if lower_ends_with(filename, ".pack"@) {
        "pack"@
    } else if lower_ends_with(filename, ".idx"@) {
        "idx"@
    } else if seq![80u8, 65, 67, 75].is_prefix_of(data) {
        "pack"@
    } else if seq![255u8, 116, 79, 99].is_prefix_of(data) {
        "idx"@
    } else if is_idx_v1(data) {
        "idx"@
    } else {
        "loose"@
    }
}

pub fn looks_like_idx_v1(data: &[u8]) -> (r: bool)
    ensures
        r == is_idx_v1(data@),
{
    if data.len() < 1044 {
        return false;
    }
    let total: u64 = read_be32(data, 1020) as u64;
    let expected: u64 = 1024 + total * 24 + 20;
    let mut i: usize = 0;
    while i < 255
        invariant
            i <= 255,
            data@.len() >= 1044,
            forall|j: int| 0 <= j < i ==> #[trigger] be32(data@, 4 * j) <= be32(data@, 4 * j + 4),
        decreases 255 - i,
    {
        let a: u32 = read_be32(data, 4 * i);
        let b: u32 = read_be32(data, 4 * i + 4);
        if b < a {
            assert(be32(data@, 4 * (i as int)) > be32(data@, 4 * (i as int) + 4));
            return false;
        }
        i += 1;
    }
    expected == data.len() as u64
}

pub fn detect_kind(data: &[u8], filename: &str) -> (k: &'static str)
    ensures
        k@ == kind_of_file(data@, filename@),
{
    let pack: [u8; 4] = [80, 65, 67, 75];
    let idx: [u8; 4] = [255, 116, 79, 99];
    assert(pack@ =~= seq![80u8, 65, 67, 75]);
    assert(idx@ =~= seq![255u8, 116, 79, 99]);
    if ends_with_lower(filename, ".pack") {
        "pack"
    } else if ends_with_lower(filename, ".idx") {
        "idx"
    } else if begins_with(data, pack.as_slice()) {
        "pack"
    } else if begins_with(data, idx.as_slice()) {
        "idx"
    } else if looks_like_idx_v1(data) {
        "idx"
    } else {
        "loose"
    }
}

/// Forty hexadecimal digits.
pub open spec fn is_id(s: Seq<char>) -> bool {
    s.len() == 40 && forall|i: int| 0 <= i < s.len() ==> is_hex_char(#[trigger] s[i])
}

/// The last part of a path.
pub open spec fn base_name(s: Seq<char>) -> Seq<char> {
    match (last_at(s, '/', s.len()), last_at(s, '\\', s.len())) {
        (Some(a), Some(b)) => if a > b {
            s.subrange(a as int + 1, s.len() as int)
        } else {
            s.subrange(b as int + 1, s.len() as int)
        },
        (Some(a), None) => s.subrange(a as int + 1, s.len() as int),
        (None, Some(b)) => s.subrange(b as int + 1, s.len() as int),
        (None, None) => s,
    }
}

/// The id that the name of a loose object spells.
pub open spec fn loose_name_id(filename: Seq<char>) -> Option<Seq<char>> {
    let name = stem(base_name(filename), ".zlib"@);
    if is_id(name) {
        Some(name)
    } else {
        None
    }
}

fn is_id_text(s: &str) -> (r: bool)
    ensures
        r == is_id(s@),
{
    let n: usize = s.unicode_len();
    if n != 40 {
        return false;
    }
    let mut i: usize = 0;
    while i < n
        invariant
            n == s@.len(),
            i <= n,
            forall|j: int| 0 <= j < i ==> is_hex_char(#[trigger] s@[j]),
        decreases n - i,
    {
        let c: char = s.get_char(i);
        if !(('0' <= c && c <= '9') || ('a' <= c && c <= 'f') || ('A' <= c && c <= 'F')) {
            assert(!is_hex_char(s@[i as int]));
            return false;
        }
        i += 1;
    }
    true
}

/// Reads the id that the name of a loose object spells. The name has no separator left, so the
/// form with a directory of two digits does not occur.
pub fn loose_filename_oid(filename: &str) -> (r: Option<String>)
    ensures
        text_opt(r) == loose_name_id(filename@),
{
    let n: usize = filename.unicode_len();
    let a: Option<usize> = find_last(filename, '/');
    let b: Option<usize> = find_last(filename, '\\');
    let from: usize = match (a, b) {
        (Some(x), Some(y)) => if x > y {
            x + 1
        } else {
            y + 1
        },
        (Some(x), None) => x + 1,
        (None, Some(y)) => y + 1,
        (None, None) => 0,
    };
    let base = part_of(filename, from, n);
    assert(base@ =~= base_name(filename@));
    let name = stem_of(base.as_str(), ".zlib");
    if is_id_text(name.as_str()) {
        Some(name)
    } else {
        None
    }
}

/// A stored file.
#[derive(Debug)]
pub struct SourceRow {
    pub kind: String,
    pub filename: String,
    pub sha256: String,
    pub size: u64,
    pub version: Option<u32>,
    pub object_count: Option<u32>,
    /// The checksum in the trailer of a pack, or the id that names a loose object.
    pub stored_checksum_hex: Option<String>,
    /// The checksum of the pack: computed for a pack whose trailer differs, declared for an index.
    pub pack_checksum_hex: Option<String>,
    pub checksum_ok: bool,
    pub parse_status: String,
    pub parse_detail: String,
    pub pair_source_id: Option<i64>,
    pub pairing_note: Option<String>,
}

/// The model of a stored file.
pub ghost struct SourceModel {
    pub kind: Seq<char>,
    pub filename: Seq<char>,
    pub sha256: Seq<char>,
    pub size: u64,
    pub version: Option<u32>,
    pub object_count: Option<u32>,
    pub stored_checksum_hex: Option<Seq<char>>,
    pub pack_checksum_hex: Option<Seq<char>>,
    pub checksum_ok: bool,
    pub parse_status: Seq<char>,
    pub parse_detail: Seq<char>,
    pub pair_source_id: Option<i64>,
    pub pairing_note: Option<Seq<char>>,
}

impl DeepView for SourceRow {
    type V = SourceModel;

    open spec fn deep_view(&self) -> SourceModel {
        SourceModel {
            kind: self.kind@,
            filename: self.filename@,
            sha256: self.sha256@,
            size: self.size,
            version: self.version,
            object_count: self.object_count,
            stored_checksum_hex: text_opt(self.stored_checksum_hex),
            pack_checksum_hex: text_opt(self.pack_checksum_hex),
            checksum_ok: self.checksum_ok,
            parse_status: self.parse_status@,
            parse_detail: self.parse_detail@,
            pair_source_id: self.pair_source_id,
            pairing_note: text_opt(self.pairing_note),
        }
    }
}

/// A candidate object.
#[derive(Debug)]
pub struct CandidateRow {
    pub source_id: i64,
    pub pack_offset: Option<i64>,
    pub declared_oid_hex: Option<String>,
    pub computed_oid_hex: Option<String>,
    pub obj_type: String,
    pub claimed_size: i64,
    pub inflated_size: i64,
    pub compressed_len: i64,
    pub header_len: i64,
    pub entry_crc32: Option<u32>,
    pub idx_crc32: Option<u32>,
    pub crc_ok: Option<bool>,
    pub ofs_base_offset: Option<i64>,
    pub ref_base_oid_hex: Option<String>,
    pub parse_status: String,
    pub parse_detail: String,
}

/// The model of a candidate.
pub ghost struct CandidateModel {
    pub source_id: i64,
    pub pack_offset: Option<i64>,
    pub declared_oid_hex: Option<Seq<char>>,
    pub computed_oid_hex: Option<Seq<char>>,
    pub obj_type: Seq<char>,
    pub claimed_size: i64,
    pub inflated_size: i64,
    pub compressed_len: i64,
    pub header_len: i64,
    pub entry_crc32: Option<u32>,
    pub idx_crc32: Option<u32>,
    pub crc_ok: Option<bool>,
    pub ofs_base_offset: Option<i64>,
    pub ref_base_oid_hex: Option<Seq<char>>,
    pub parse_status: Seq<char>,
    pub parse_detail: Seq<char>,
}

impl DeepView for CandidateRow {
    type V = CandidateModel;

    open spec fn deep_view(&self) -> CandidateModel {
        CandidateModel {
            source_id: self.source_id,
            pack_offset: self.pack_offset,
            declared_oid_hex: text_opt(self.declared_oid_hex),
            computed_oid_hex: text_opt(self.computed_oid_hex),
            obj_type: self.obj_type@,
            claimed_size: self.claimed_size,
            inflated_size: self.inflated_size,
            compressed_len: self.compressed_len,
            header_len: self.header_len,
            entry_crc32: self.entry_crc32,
            idx_crc32: self.idx_crc32,
            crc_ok: self.crc_ok,
            ofs_base_offset: self.ofs_base_offset,
            ref_base_oid_hex: text_opt(self.ref_base_oid_hex),
            parse_status: self.parse_status@,
            parse_detail: self.parse_detail@,
        }
    }
}

/// The declared base of a candidate.
#[derive(Debug)]
pub struct EdgeRow {
    pub to_candidate_id: Option<i64>,
    pub to_oid_hex: Option<String>,
    pub to_offset: Option<i64>,
    pub kind: String,
}

/// The model of a declared base.
pub ghost struct EdgeModel {
    pub to_candidate_id: Option<i64>,
    pub to_oid_hex: Option<Seq<char>>,
    pub to_offset: Option<i64>,
    pub kind: Seq<char>,
}

impl DeepView for EdgeRow {
    type V = EdgeModel;

    open spec fn deep_view(&self) -> EdgeModel {
        EdgeModel {
            to_candidate_id: self.to_candidate_id,
            to_oid_hex: text_opt(self.to_oid_hex),
            to_offset: self.to_offset,
            kind: self.kind@,
        }
    }
}

/// The sources, the candidates and the declared base of each candidate, with the numbers that
/// the next rows get.
pub struct Catalog {
    pub sources: IdMap<SourceRow>,
    pub candidates: IdMap<CandidateRow>,
    pub edges: IdMap<EdgeRow>,
    pub next_source: i64,
    pub next_candidate: i64,
}

/// The model of a catalog.
pub ghost struct CatalogModel {
    pub sources: Seq<(i64, SourceModel)>,
    pub candidates: Seq<(i64, CandidateModel)>,
    pub edges: Seq<(i64, EdgeModel)>,
    pub next_source: i64,
    pub next_candidate: i64,
}

impl View for Catalog {
    type V = CatalogModel;

    open spec fn view(&self) -> CatalogModel {
        CatalogModel {
            sources: self.sources@,
            candidates: self.candidates@,
            edges: self.edges@,
            next_source: self.next_source,
            next_candidate: self.next_candidate,
        }
    }
}

/// An entry of a parsed pack.
#[derive(Debug)]
pub struct PackEntry {
    pub offset: u64,
    pub claim_oid: Option<[u8; 20]>,
    pub kind: ObjType,
    pub claimed_size: u64,
    pub inflated_len: u64,
    pub compressed_len: u64,
    pub header_len: u64,
    pub entry_crc32: u32,
    pub idx_crc32: Option<u32>,
    pub ofs_base_offset: Option<u64>,
    pub ref_base_oid: Option<[u8; 20]>,
    pub inflate_status: String,
    pub inflate_detail: String,
}

/// A parsed pack.
#[derive(Debug)]
pub struct PackImage {
    pub version: u32,
    pub count: u32,
    pub stored_checksum: [u8; 20],
    pub computed_checksum: [u8; 20],
    pub checksum_ok: bool,
    pub parse_error: Option<String>,
    pub entries: Vec<PackEntry>,
}

/// A record of a parsed index.
#[derive(Clone, Copy, Debug)]
pub struct IdxRecord {
    pub oid: [u8; 20],
    pub offset: u64,
    pub crc32: u32,
}

/// A parsed index.
#[derive(Debug)]
pub struct IdxImage {
    pub version: u32,
    pub count: u32,
    pub pack_checksum: [u8; 20],
    pub has_crc: bool,
    pub parse_error: Option<String>,
    pub records: Vec<IdxRecord>,
}

/// A parsed loose object.
#[derive(Debug)]
pub struct LooseImage {
    pub kind: Option<ObjType>,
    pub computed_oid: [u8; 20],
    pub body_len: u64,
    pub inflated_len: u64,
    pub compressed_len: u64,
    pub status: String,
    pub detail: String,
}

/// The outcome of an import.
#[derive(Debug)]
pub struct ImportReport {
    pub source_id: i64,
    pub kind: String,
    pub filename: String,
    pub sha256: String,
    pub parse_status: String,
    pub parse_detail: String,
    pub candidates: u64,
    pub duplicate: bool,
}

/// The model of an import report.
pub ghost struct ReportModel {
    pub source_id: i64,
    pub kind: Seq<char>,
    pub filename: Seq<char>,
    pub sha256: Seq<char>,
    pub parse_status: Seq<char>,
    pub parse_detail: Seq<char>,
    pub candidates: u64,
    pub duplicate: bool,
}

impl View for ImportReport {
    type V = ReportModel;

    open spec fn view(&self) -> ReportModel {
        ReportModel {
            source_id: self.source_id,
            kind: self.kind@,
            filename: self.filename@,
            sha256: self.sha256@,
            parse_status: self.parse_status@,
            parse_detail: self.parse_detail@,
            candidates: self.candidates,
            duplicate: self.duplicate,
        }
    }
}

/// The row of a source that was just stored.
pub open spec fn new_source(
    kind: Seq<char>,
    filename: Seq<char>,
    digest: Seq<char>,
    size: u64,
    status: Seq<char>,
    detail: Seq<char>,
) -> SourceModel {
    SourceModel {
        kind,
        filename,
        sha256: digest,
        size,
        version: None,
        object_count: None,
        stored_checksum_hex: None,
        pack_checksum_hex: None,
        checksum_ok: status == "ok"@,
        parse_status: status,
        parse_detail: detail,
        pair_source_id: None,
        pairing_note: None,
    }
}

/// A catalog with one more source.
pub open spec fn with_source(c: CatalogModel, row: SourceModel) -> CatalogModel {
    CatalogModel {
        sources: put(c.sources, c.next_source, row),
        next_source: (c.next_source + 1) as i64,
        ..c
    }
}

/// A catalog with one more candidate.
pub open spec fn with_candidate(c: CatalogModel, row: CandidateModel) -> CatalogModel {
    CatalogModel {
        candidates: put(c.candidates, c.next_candidate, row),
        next_candidate: (c.next_candidate + 1) as i64,
        ..c
    }
}

/// The text of an optional message.
pub open spec fn text_or(t: Option<String>, other: Seq<char>) -> Seq<char> {
    match t {
        Some(x) => x@,
        None => other,
    }
}

/// The complaint about a pack whose trailer differs from its content.
pub open spec fn checksum_detail(p: PackImage) -> Seq<char> {
    let m = "pack SHA1 mismatch: stored "@ + hex(p.stored_checksum@) + " != computed "@ + hex(
        p.computed_checksum@,
    );
    let d = text_or(p.parse_error, Seq::empty());
    if d.len() == 0 {
        m
    } else {
        m + "; "@ + d
    }
}

/// The row of a parsed pack.
pub open spec fn pack_row(filename: Seq<char>, digest: Seq<char>, size: u64, p: PackImage) -> SourceModel {
    let status = if !p.checksum_ok {
        "checksum_bad"@
    } else if p.parse_error is Some {
        "partial"@
    } else {
        "ok"@
    };
    SourceModel {
        version: Some(p.version),
        object_count: Some(p.count),
        stored_checksum_hex: Some(hex(p.stored_checksum@)),
        pack_checksum_hex: if p.checksum_ok {
            None
        } else {
            Some(hex(p.computed_checksum@))
        },
        ..new_source(
            "pack"@,
            filename,
            digest,
            size,
            status,
            if p.checksum_ok {
                text_or(p.parse_error, Seq::empty())
            } else {
                checksum_detail(p)
            },
        )
    }
}

/// The candidate of a pack entry.
pub open spec fn entry_row(sid: i64, e: PackEntry) -> CandidateModel {
    CandidateModel {
        source_id: sid,
        pack_offset: Some(signed(e.offset as nat)),
        declared_oid_hex: match e.claim_oid {
            Some(o) => Some(hex(o@)),
            None => None,
        },
        computed_oid_hex: None,
        obj_type: e.kind.text(),
        claimed_size: signed(e.claimed_size as nat),
        inflated_size: signed(e.inflated_len as nat),
        compressed_len: signed(e.compressed_len as nat),
        header_len: signed(e.header_len as nat),
        entry_crc32: Some(e.entry_crc32),
        idx_crc32: e.idx_crc32,
        crc_ok: match e.idx_crc32 {
            Some(x) => Some(x == e.entry_crc32),
            None => None,
        },
        ofs_base_offset: match e.ofs_base_offset {
            Some(o) => Some(signed(o as nat)),
            None => None,
        },
        ref_base_oid_hex: match e.ref_base_oid {
            Some(o) => Some(hex(o@)),
            None => None,
        },
        parse_status: e.inflate_status@,
        parse_detail: e.inflate_detail@,
    }
}

/// A catalog with the first `n` entries of a pack as candidates.
pub open spec fn with_entries(c: CatalogModel, sid: i64, v: Seq<PackEntry>, n: nat) -> CatalogModel
    decreases n,
{
    if n == 0 {
        c
    } else {
        with_candidate(with_entries(c, sid, v, (n - 1) as nat), entry_row(sid, v[n - 1]))
    }
}

/// The place of the last of the first `n` entries at an offset.
pub open spec fn entry_at(v: Seq<PackEntry>, offset: u64, n: nat) -> Option<nat>
    decreases n,
{
    if n == 0 {
        None
    } else if v[n - 1].offset == offset {
        Some((n - 1) as nat)
    } else {
        entry_at(v, offset, (n - 1) as nat)
    }
}

/// The candidate of an offset, when the entries got the numbers from `first` on.
pub open spec fn number_at(v: Seq<PackEntry>, first: i64, offset: u64) -> Option<i64> {
    match entry_at(v, offset, v.len()) {
        Some(k) => Some((first + k) as i64),
        None => None,
    }
}

/// The declared bases after the first `n` entries.
pub open spec fn with_edges(edges: Seq<(i64, EdgeModel)>, first: i64, v: Seq<PackEntry>, n: nat) -> Seq<
    (i64, EdgeModel),
>
    decreases n,
{
    if n == 0 {
        edges
    } else {
        let w = with_edges(edges, first, v, (n - 1) as nat);
        let e = v[n - 1];
        let from = number_at(v, first, e.offset)->0;
        match e.kind {
            ObjType::OfsDelta => match e.ofs_base_offset {
                Some(off) => put(
                    w,
                    from,
                    EdgeModel {
                        to_candidate_id: number_at(v, first, off),
                        to_oid_hex: None,
                        to_offset: Some(signed(off as nat)),
                        kind: "ofs"@,
                    },
                ),
                None => w,
            },
            ObjType::RefDelta => put(
                w,
                from,
                EdgeModel {
                    to_candidate_id: None,
                    to_oid_hex: match e.ref_base_oid {
                        Some(o) => Some(hex(o@)),
                        None => None,
                    },
                    to_offset: None,
                    kind: "ref"@,
                },
            ),
            _ => w,
        }
    }
}

/// What importing a pack gives: the catalog and the report.
pub open spec fn pack_imported(
    c: CatalogModel,
    filename: Seq<char>,
    digest: Seq<char>,
    size: u64,
    image: Result<PackImage, String>,
) -> (CatalogModel, ReportModel) {
    let report = ReportModel {
        source_id: c.next_source,
        kind: "pack"@,
        filename,
        sha256: digest,
        parse_status: "fatal"@,
        parse_detail: Seq::empty(),
        candidates: 0,
        duplicate: false,
    };
    match image {
        Err(e) => (
            with_source(c, new_source("pack"@, filename, digest, size, "fatal"@, e@)),
            ReportModel { parse_detail: e@, ..report },
        ),
        Ok(p) => {
            let s = with_source(c, pack_row(filename, digest, size, p));
            let t = with_entries(s, c.next_source, p.entries@, p.entries@.len());
            (
                CatalogModel {
                    edges: with_edges(t.edges, c.next_candidate, p.entries@, p.entries@.len()),
                    ..t
                },
                ReportModel {
                    parse_status: if p.parse_error is Some {
                        "partial"@
                    } else {
                        "ok"@
                    },
                    parse_detail: text_or(p.parse_error, Seq::empty()),
                    candidates: p.entries@.len() as u64,
                    ..report
                },
            )
        },
    }
}

/// What importing a loose object gives: the catalog and the report.
pub open spec fn loose_imported(
    c: CatalogModel,
    filename: Seq<char>,
    digest: Seq<char>,
    size: u64,
    image: Result<LooseImage, String>,
) -> (CatalogModel, ReportModel) {
    let named = loose_name_id(filename);
    let report = ReportModel {
        source_id: c.next_source,
        kind: "loose"@,
        filename,
        sha256: digest,
        parse_status: "fatal"@,
        parse_detail: Seq::empty(),
        candidates: 0,
        duplicate: false,
    };
    match image {
        Err(e) => (
            with_source(
                c,
                SourceModel {
                    stored_checksum_hex: named,
                    ..new_source("loose"@, filename, digest, size, "fatal"@, e@)
                },
            ),
            ReportModel { parse_detail: e@, ..report },
        ),
        Ok(x) => {
            let s = with_source(
                c,
                SourceModel {
                    stored_checksum_hex: match named {
                        Some(n) => Some(n),
                        None => Some(hex(x.computed_oid@)),
                    },
                    ..new_source("loose"@, filename, digest, size, x.status@, x.detail@)
                },
            );
            (
                with_candidate(
                    s,
                    CandidateModel {
                        source_id: c.next_source,
                        pack_offset: None,
                        declared_oid_hex: named,
                        computed_oid_hex: match x.kind {
                            Some(_) => Some(hex(x.computed_oid@)),
                            None => None,
                        },
                        obj_type: match x.kind {
                            Some(k) => k.text(),
                            None => "unknown"@,
                        },
                        claimed_size: signed(x.body_len as nat),
                        inflated_size: signed(x.inflated_len as nat),
                        compressed_len: signed(x.compressed_len as nat),
                        header_len: 0,
                        entry_crc32: None,
                        idx_crc32: None,
                        crc_ok: None,
                        ofs_base_offset: None,
                        ref_base_oid_hex: None,
                        parse_status: x.status@,
                        parse_detail: x.detail@,
                    },
                ),
                ReportModel {
                    parse_status: x.status@,
                    parse_detail: x.detail@,
                    candidates: 1,
                    ..report
                },
            )
        },
    }
}

/// What importing an index gives: the catalog and the report.
pub open spec fn idx_imported(
    c: CatalogModel,
    filename: Seq<char>,
    digest: Seq<char>,
    size: u64,
    image: Result<IdxImage, String>,
) -> (CatalogModel, ReportModel) {
    let report = ReportModel {
        source_id: c.next_source,
        kind: "idx"@,
        filename,
        sha256: digest,
        parse_status: "fatal"@,
        parse_detail: Seq::empty(),
        candidates: 0,
        duplicate: false,
    };
    match image {
        Err(e) => (
            with_source(c, new_source("idx"@, filename, digest, size, "fatal"@, e@)),
            ReportModel { parse_detail: e@, ..report },
        ),
        Ok(x) => (
            with_source(
                c,
                SourceModel {
                    version: Some(x.version),
                    object_count: Some(x.count),
                    pack_checksum_hex: Some(hex(x.pack_checksum@)),
                    checksum_ok: true,
                    ..new_source(
                        "idx"@,
                        filename,
                        digest,
                        size,
                        text_or(x.parse_error, "ok"@),
                        text_or(x.parse_error, Seq::empty()),
                    )
                },
            ),
            ReportModel {
                parse_status: text_or(x.parse_error, "ok"@),
                parse_detail: text_or(x.parse_error, Seq::empty()),
                candidates: x.records@.len() as u64,
                ..report
            },
        ),
    }
}

fn text_of(t: &Option<String>, other: &str) -> (r: String)
    ensures
        r@ == text_or(*t, other@),
{
    match t {
        Some(x) => x.clone(),
        None => other.to_owned(),
    }
}

fn hex_opt(o: &Option<[u8; 20]>) -> (r: Option<String>)
    ensures
        text_opt(r) == match *o {
            Some(x) => Some(hex(x@)),
            None => None,
        },
{
    match o {
        Some(x) => Some(to_hex(x)),
        None => None,
    }
}

fn signed_opt(o: Option<u64>) -> (r: Option<i64>)
    ensures
        r == match o {
            Some(x) => Some(signed(x as nat)),
            None => None,
        },
{
    match o {
        Some(x) => Some(to_signed(x)),
        None => None,
    }
}

fn fresh_source(kind: &str, filename: &str, digest: &str, size: u64, status: &str, detail: &str) -> (r: SourceRow)
    ensures
        r.deep_view() == new_source(kind@, filename@, digest@, size, status@, detail@),
{
    SourceRow {
        kind: kind.to_owned(),
        filename: filename.to_owned(),
        sha256: digest.to_owned(),
        size,
        version: None,
        object_count: None,
        stored_checksum_hex: None,
        pack_checksum_hex: None,
        checksum_ok: same_text(status, "ok"),
        parse_status: status.to_owned(),
        parse_detail: detail.to_owned(),
        pair_source_id: None,
        pairing_note: None,
    }
}

fn fresh_report(id: i64, kind: &str, filename: &str, digest: &str, status: &str, detail: &str, count: u64) -> (r:
    ImportReport)
    ensures
        r@ == (ReportModel {
            source_id: id,
            kind: kind@,
            filename: filename@,
            sha256: digest@,
            parse_status: status@,
            parse_detail: detail@,
            candidates: count,
            duplicate: false,
        }),
{
    ImportReport {
        source_id: id,
        kind: kind.to_owned(),
        filename: filename.to_owned(),
        sha256: digest.to_owned(),
        parse_status: status.to_owned(),
        parse_detail: detail.to_owned(),
        candidates: count,
        duplicate: false,
    }
}

fn find_entry(v: &Vec<PackEntry>, offset: u64) -> (r: Option<usize>)
    ensures
        match r {
            Some(k) => entry_at(v@, offset, v@.len()) == Some(k as nat) && k < v@.len(),
            None => entry_at(v@, offset, v@.len()) is None,
        },
{
    let mut n: usize = v.len();
    while n > 0
        invariant
            n <= v@.len(),
            entry_at(v@, offset, v@.len()) == entry_at(v@, offset, n as nat),
        decreases n,
    {
        n -= 1;
        if v[n].offset == offset {
            return Some(n);
        }
    }
    None
}

fn find_number(v: &Vec<PackEntry>, first: i64, offset: u64) -> (r: Option<i64>)
    requires
        first >= 0,
        first + v@.len() <= i64::MAX,
    ensures
        r == number_at(v@, first, offset),
{
    match find_entry(v, offset) {
        Some(k) => Some(first + k as i64),
        None => None,
    }
}

proof fn lemma_entry_found(v: Seq<PackEntry>, i: int, n: nat)
    requires
        0 <= i < n <= v.len(),
    ensures
        entry_at(v, v[i].offset, n) is Some,
    decreases n,
{
    if v[n - 1].offset != v[i].offset {
        lemma_entry_found(v, i, (n - 1) as nat);
    }
}

impl Catalog {
    fn insert_source(&mut self, row: SourceRow) -> (id: i64)
        requires
            old(self).next_source < i64::MAX,
        ensures
            final(self)@ == with_source(old(self)@, row.deep_view()),
            id == old(self).next_source,
    {
        let id: i64 = self.next_source;
        self.sources.insert(id, row);
        self.next_source = id + 1;
        id
    }

    fn insert_candidate(&mut self, row: CandidateRow) -> (id: i64)
        requires
            old(self).next_candidate < i64::MAX,
        ensures
            final(self)@ == with_candidate(old(self)@, row.deep_view()),
            id == old(self).next_candidate,
    {
        let id: i64 = self.next_candidate;
        self.candidates.insert(id, row);
        self.next_candidate = id + 1;
        id
    }

    fn insert_candidate_pack(&mut self, sid: i64, e: &PackEntry) -> (id: i64)
        requires
            old(self).next_candidate < i64::MAX,
        ensures
            final(self)@ == with_candidate(old(self)@, entry_row(sid, *e)),
            id == old(self).next_candidate,
    {
        let row = CandidateRow {
            source_id: sid,
            pack_offset: Some(to_signed(e.offset)),
            declared_oid_hex: hex_opt(&e.claim_oid),
            computed_oid_hex: None,
            obj_type: e.kind.name().to_owned(),
            claimed_size: to_signed(e.claimed_size),
            inflated_size: to_signed(e.inflated_len),
            compressed_len: to_signed(e.compressed_len),
            header_len: to_signed(e.header_len),
            entry_crc32: Some(e.entry_crc32),
            idx_crc32: e.idx_crc32,
            crc_ok: match e.idx_crc32 {
                Some(x) => Some(x == e.entry_crc32),
                None => None,
            },
            ofs_base_offset: signed_opt(e.ofs_base_offset),
            ref_base_oid_hex: hex_opt(&e.ref_base_oid),
            parse_status: e.inflate_status.clone(),
            parse_detail: e.inflate_detail.clone(),
        };
        assert(row.deep_view() == entry_row(sid, *e));
        self.insert_candidate(row)
    }

    fn insert_pack_edges(&mut self, first: i64, entries: &Vec<PackEntry>)
        requires
            first >= 0,
            first + entries@.len() <= i64::MAX,
        ensures
            final(self)@ == (CatalogModel {
                edges: with_edges(old(self)@.edges, first, entries@, entries@.len()),
                ..old(self)@
            }),
    {
        let ghost start = self@;
        let mut n: usize = 0;
        while n < entries.len()
            invariant
                n <= entries@.len(),
                first >= 0,
                first + entries@.len() <= i64::MAX,
                self@ == (CatalogModel { edges: with_edges(start.edges, first, entries@, n as nat), ..start }),
            decreases entries@.len() - n,
        {
            let e = &entries[n];
            proof {
                lemma_entry_found(entries@, n as int, entries@.len());
            }
            let from: i64 = match find_number(entries, first, e.offset) {
                Some(i) => i,
                None => vstd::pervasive::unreached(),
            };
            match e.kind {
                ObjType::OfsDelta => {
                    if let Some(off) = e.ofs_base_offset {
                        let row = EdgeRow {
                            to_candidate_id: find_number(entries, first, off),
                            to_oid_hex: None,
                            to_offset: Some(to_signed(off)),
                            kind: "ofs".to_owned(),
                        };
                        self.edges.insert(from, row);
                    }
                },
                ObjType::RefDelta => {
                    let row = EdgeRow {
                        to_candidate_id: None,
                        to_oid_hex: hex_opt(&e.ref_base_oid),
                        to_offset: None,
                        kind: "ref".to_owned(),
                    };
                    self.edges.insert(from, row);
                },
                _ => {},
            }
            n += 1;
        }
    }

    pub fn import_pack(&mut self, filename: &str, digest: &str, size: u64, image: Result<PackImage, String>) -> (r:
        ImportReport)
        requires
            old(self).next_source < i64::MAX,
            old(self).next_candidate >= 0,
            image matches Ok(p) ==> old(self).next_candidate + p.entries@.len() <= i64::MAX,
        ensures
            (final(self)@, r@) == pack_imported(old(self)@, filename@, digest@, size, image),
    {
        let p = match image {
            Ok(p) => p,
            Err(e) => {
                let row = fresh_source("pack", filename, digest, size, "fatal", e.as_str());
                let id: i64 = self.insert_source(row);
                return fresh_report(id, "pack", filename, digest, "fatal", e.as_str(), 0);
            },
        };
        let detail = text_of(&p.parse_error, "");
        proof {
            reveal_strlit("");
            assert(""@ =~= Seq::<char>::empty());
        }
        let status: &str = if p.parse_error.is_some() {
            "partial"
        } else {
            "ok"
        };
        let mut row = if p.checksum_ok {
            fresh_source("pack", filename, digest, size, status, detail.as_str())
        } else {
            let mut d = "pack SHA1 mismatch: stored ".to_owned();
            let stored = to_hex(&p.stored_checksum);
            d.append(stored.as_str());
            d.append(" != computed ");
            let computed = to_hex(&p.computed_checksum);
            d.append(computed.as_str());
            if !detail.as_str().is_empty() {
                d.append("; ");
                d.append(detail.as_str());
            }
            assert(d@ == checksum_detail(p));
            fresh_source("pack", filename, digest, size, "checksum_bad", d.as_str())
        };
        row.version = Some(p.version);
        row.object_count = Some(p.count);
        row.stored_checksum_hex = Some(to_hex(&p.stored_checksum));
        if !p.checksum_ok {
            row.pack_checksum_hex = Some(to_hex(&p.computed_checksum));
        }
        assert(row.deep_view() == pack_row(filename@, digest@, size, p));
        let sid: i64 = self.insert_source(row);
        let first: i64 = self.next_candidate;
        let ghost s = self@;
        let mut n: usize = 0;
        while n < p.entries.len()
            invariant
                n <= p.entries@.len(),
                first >= 0,
                first + p.entries@.len() <= i64::MAX,
                self.next_candidate == first + n,
                self@ == with_entries(s, sid, p.entries@, n as nat),
            decreases p.entries@.len() - n,
        {
            let id: i64 = self.insert_candidate_pack(sid, &p.entries[n]);
            n += 1;
        }
        self.insert_pack_edges(first, &p.entries);
        assert(p.entries@.len() == p.entries.len());
        fresh_report(sid, "pack", filename, digest, status, detail.as_str(), p.entries.len() as u64)
    }

    pub fn import_loose(&mut self, filename: &str, digest: &str, size: u64, image: Result<LooseImage, String>) -> (r:
        ImportReport)
        requires
            old(self).next_source < i64::MAX,
            old(self).next_candidate < i64::MAX,
        ensures
            (final(self)@, r@) == loose_imported(old(self)@, filename@, digest@, size, image),
    {
        let named = loose_filename_oid(filename);
        let x = match image {
            Ok(x) => x,
            Err(e) => {
                let mut row = fresh_source("loose", filename, digest, size, "fatal", e.as_str());
                row.stored_checksum_hex = named;
                let id: i64 = self.insert_source(row);
                return fresh_report(id, "loose", filename, digest, "fatal", e.as_str(), 0);
            },
        };
        let mut row = fresh_source("loose", filename, digest, size, x.status.as_str(), x.detail.as_str());
        row.stored_checksum_hex = match &named {
            Some(n) => Some(n.clone()),
            None => Some(to_hex(&x.computed_oid)),
        };
        let sid: i64 = self.insert_source(row);
        let cand = CandidateRow {
            source_id: sid,
            pack_offset: None,
            declared_oid_hex: named,
            computed_oid_hex: match x.kind {
                Some(_) => Some(to_hex(&x.computed_oid)),
                None => None,
            },
            obj_type: match x.kind {
                Some(k) => k.name().to_owned(),
                None => "unknown".to_owned(),
            },
            claimed_size: to_signed(x.body_len),
            inflated_size: to_signed(x.inflated_len),
            compressed_len: to_signed(x.compressed_len),
            header_len: 0,
            entry_crc32: None,
            idx_crc32: None,
            crc_ok: None,
            ofs_base_offset: None,
            ref_base_oid_hex: None,
            parse_status: x.status.clone(),
            parse_detail: x.detail.clone(),
        };
        let id: i64 = self.insert_candidate(cand);
        fresh_report(sid, "loose", filename, digest, x.status.as_str(), x.detail.as_str(), 1)
    }

    pub fn import_idx(&mut self, filename: &str, digest: &str, size: u64, image: Result<IdxImage, String>) -> (r:
        ImportReport)
        requires
            old(self).next_source < i64::MAX,
        ensures
            (final(self)@, r@) == idx_imported(old(self)@, filename@, digest@, size, image),
    {
        let x = match image {
            Ok(x) => x,
            Err(e) => {
                let row = fresh_source("idx", filename, digest, size, "fatal", e.as_str());
                let id: i64 = self.insert_source(row);
                return fresh_report(id, "idx", filename, digest, "fatal", e.as_str(), 0);
            },
        };
        let status = text_of(&x.parse_error, "ok");
        let detail = text_of(&x.parse_error, "");
        proof {
            reveal_strlit("");
            assert(""@ =~= Seq::<char>::empty());
        }
        let mut row = fresh_source("idx", filename, digest, size, status.as_str(), detail.as_str());
        row.version = Some(x.version);
        row.object_count = Some(x.count);
        row.pack_checksum_hex = Some(to_hex(&x.pack_checksum));
        row.checksum_ok = true;
        let sid: i64 = self.insert_source(row);
        assert(x.records@.len() == x.records.len());
        fresh_report(
            sid,
            "idx",
            filename,
            digest,
            status.as_str(),
            detail.as_str(),
            x.records.len() as u64,
        )
    }
}

/// A file is what its name says; without such a name it is told by its first bytes, and an old index by
/// counts that do not decrease and give its length. Whatever is none of these is a loose object.
pub proof fn files_are_told_by_name_then_bytes(data: Seq<u8>, filename: Seq<char>)
    ensures
        lower_ends_with(filename, ".pack"@) ==> kind_of_file(data, filename) == "pack"@,
        !lower_ends_with(filename, ".pack"@) && lower_ends_with(filename, ".idx"@) ==> kind_of_file(data, filename)
            == "idx"@,
        !lower_ends_with(filename, ".pack"@) && !lower_ends_with(filename, ".idx"@) ==> {
            &&& data.len() >= 4 && data[0] == 0x50 && data[1] == 0x41 && data[2] == 0x43 && data[3] == 0x4b
                ==> kind_of_file(data, filename) == "pack"@
            &&& data.len() >= 4 && data[0] == 0xff && data[1] == 0x74 && data[2] == 0x4f && data[3] == 0x63
                ==> kind_of_file(data, filename) == "idx"@
            &&& data.len() == 0 ==> kind_of_file(data, filename) == "loose"@
            &&& data.len() >= 4 && data[0] == 0x78 && data.len() < 1044 ==> kind_of_file(data, filename) == "loose"@
        },
{
    let pack = seq![80u8, 65, 67, 75];
    let idx = seq![255u8, 116, 79, 99];
    assert(pack.len() == 4 && idx.len() == 4);
    if data.len() >= 4 {
        let head = data.subrange(0, 4);
        if data[0] == 0x50 && data[1] == 0x41 && data[2] == 0x43 && data[3] == 0x4b {
            assert(head =~= pack);
        }
        if data[0] == 0xff && data[1] == 0x74 && data[2] == 0x4f && data[3] == 0x63 {
            assert(head =~= idx);
        }
        assert(head[0] == data[0] && pack[0] == 80 && idx[0] == 255);
    }
}

} // verus!
