//! Importing into a branch: what packs, indexes and loose objects add to its nodes and claims.
use vstd::prelude::*;
use vstd::string::{StrSliceExecFns, StringExecFns};
use vstd::utf8::encode_utf8;
use crate::analyze::graph::{copy_opt, text_opt};
use crate::engine::resolve::{
    branch_settled, bytes_opt, cand_models, find_node_at, node_at, settling_keeps_the_files, CandModel, NodeInfo,
    NodeModel, OidCandidate, World, WorldModel,
};
use crate::engine::sources::{
    detailed, find_source, indexed, known_source, lemma_known_kept, lemma_known_put, linked, note_detail, note_index, note_link, DetailModel,
    FanoutRow, SourceDetail, SourceModel, SourceRow,
};
use crate::engine::{candidate_rank_key, kind_str, kind_text, rank_text, sha256_hex, Budget};
use crate::git::object_id::hex20;
use crate::git::types::ObjType;
use crate::model::assoc::{get, get_of_put, has_key, put, IdMap};
use crate::model::bytes::begins_with;
use crate::model::crc::crc32_of;
use crate::model::num::{signed, to_signed};
use crate::model::outside::{crc32fast_hash, hex_encode, sha256_of};
use crate::model::text::{
    contains_text, dec, dec_int, find_last, has_part, hex, is_hex, last_at, part_of, push_dec, push_int, push_part,
    same_text, texts, unhex,
};

verus! {

/// What kind of file bytes and a name suggest.
pub open spec fn kind_of_file(data: Seq<u8>, filename: Seq<char>) -> Seq<char> {
    if data.len() >= 8 && seq![80u8, 65, 67, 75].is_prefix_of(data) {
        "pack"@
    } else if data.len() >= 8 && seq![255u8, 116, 79, 99].is_prefix_of(data) {
        "idx"@
    } else if has_part(filename, "/"@) || has_part(filename, "\\"@) {
        "loose"@
    } else {
        "unknown"@
    }
}

pub fn detect_kind(data: &[u8], filename: &str) -> (k: &'static str)
    ensures
        k@ == kind_of_file(data@, filename@),
{
    let pack: [u8; 4] = [80, 65, 67, 75];
    let idx: [u8; 4] = [255, 116, 79, 99];
    assert(pack@ =~= seq![80u8, 65, 67, 75]);
    assert(idx@ =~= seq![255u8, 116, 79, 99]);
    if data.len() >= 8 && begins_with(data, pack.as_slice()) {
        "pack"
    } else if data.len() >= 8 && begins_with(data, idx.as_slice()) {
        "idx"
    } else if contains_text(filename, "/") || contains_text(filename, "\\") {
        "loose"
    } else {
        "unknown"
    }
}

/// Where compressed data begin and end, and how much they inflate to.
#[derive(Clone, Copy, Debug)]
pub struct ZlibSpan {
    pub compressed_start: u64,
    pub compressed_end: u64,
    pub output_len: u64,
}

/// An entry of a parsed pack.
#[derive(Debug)]
pub struct EntryImage {
    pub header_start: u64,
    pub header_end: u64,
    pub obj_type: ObjType,
    pub declared_size: u64,
    pub zlib: Option<ZlibSpan>,
    pub ofs_base_offset: Option<u64>,
    pub ref_base_oid: Option<[u8; 20]>,
    pub inflated: Option<Vec<u8>>,
    pub inflate_error: Option<String>,
}

/// A parsed pack.
#[derive(Debug)]
pub struct PackImage {
    pub pack_sha: [u8; 20],
    pub trailer_sha: [u8; 20],
    /// The number of objects that the header gives.
    pub object_count: u32,
    pub entries: Vec<EntryImage>,
    pub checksum_ok: bool,
    /// What could not be parsed: the entry, if it is one, and why.
    pub parse_errors: Vec<(Option<u64>, String)>,
}

/// A row of a parsed index.
#[derive(Clone, Copy, Debug)]
pub struct IdxRow {
    pub oid: [u8; 20],
    pub offset: u64,
    pub crc32: u32,
}

/// A parsed index.
#[derive(Debug)]
pub struct IdxImage {
    pub pack_sha: [u8; 20],
    pub idx_sha: [u8; 20],
    pub trailer_sha: [u8; 20],
    pub fanout: Vec<u32>,
    pub entries: Vec<IdxRow>,
    pub checksum_ok: bool,
}

#[derive(Debug)]
pub struct ImportReport {
    pub source_id: i64,
    pub kind: String,
    pub filename: String,
    pub nodes_added: u64,
    pub linked_source_id: Option<i64>,
    pub warnings: Vec<String>,
    pub deduped: bool,
}

/// The model of an import report.
pub ghost struct ReportModel {
    pub source_id: i64,
    pub kind: Seq<char>,
    pub filename: Seq<char>,
    pub nodes_added: u64,
    pub linked_source_id: Option<i64>,
    pub warnings: Seq<Seq<char>>,
    pub deduped: bool,
}

impl View for ImportReport {
    type V = ReportModel;

    open spec fn view(&self) -> ReportModel {
        ReportModel {
            source_id: self.source_id,
            kind: self.kind@,
            filename: self.filename@,
            nodes_added: self.nodes_added,
            linked_source_id: self.linked_source_id,
            warnings: texts(self.warnings@),
            deduped: self.deduped,
        }
    }
}

/// How an import begins: the report of content that is there already, the report to be filled,
/// or the complaint about a file that is not recognized.
pub open spec fn begun(v: Seq<(i64, SourceModel)>, source_id: i64, filename: Seq<char>, data: Seq<u8>) -> Result<
    ReportModel,
    Seq<char>,
> {
    let kind = kind_of_file(data, filename);
    if kind == "unknown"@ {
        Err("unrecognized file (not a pack, v2 idx or loose object path)"@)
    } else {
        match known_source(v, hex(sha256_of(data)), 0) {
            Some(id) => Ok(
                ReportModel {
                    source_id: id,
                    kind,
                    filename,
                    nodes_added: 0,
                    linked_source_id: None,
                    warnings: seq!["identical file already imported"@],
                    deduped: true,
                },
            ),
            None => Ok(
                ReportModel {
                    source_id,
                    kind,
                    filename,
                    nodes_added: 0,
                    linked_source_id: None,
                    warnings: Seq::empty(),
                    deduped: false,
                },
            ),
        }
    }
}

/// Begins an import; `source_id` is the number that a new source would have.
pub fn begin_import(known: &IdMap<SourceRow>, source_id: i64, filename: &str, data: &[u8]) -> (r: Result<
    ImportReport,
    String,
>)
    ensures
        match r {
            Ok(x) => begun(known@, source_id, filename@, data@) == Ok::<ReportModel, Seq<char>>(x@),
            Err(m) => begun(known@, source_id, filename@, data@) == Err::<ReportModel, Seq<char>>(m@),
        },
{
    let kind = detect_kind(data, filename);
    if same_text(kind, "unknown") {
        return Err("unrecognized file (not a pack, v2 idx or loose object path)".to_owned());
    }
    let digest = sha256_hex(data);
    if let Some(id) = find_source(known, digest.as_str()) {
        let mut warnings: Vec<String> = Vec::new();
        push_part(&mut warnings, "identical file already imported".to_owned());
        assert(texts(warnings@) =~= seq!["identical file already imported"@]);
        return Ok(
            ImportReport {
                source_id: id,
                kind: kind.to_owned(),
                filename: filename.to_owned(),
                nodes_added: 0,
                linked_source_id: None,
                warnings,
                deduped: true,
            },
        );
    }
    let warnings: Vec<String> = Vec::new();
    assert(texts(warnings@) =~= Seq::empty());
    Ok(
        ImportReport {
            source_id,
            kind: kind.to_owned(),
            filename: filename.to_owned(),
            nodes_added: 0,
            linked_source_id: None,
            warnings,
            deduped: false,
        },
    )
}

/// The place of the first index row at an offset, or the number of rows.
pub open spec fn row_at(v: Seq<IdxRow>, offset: u64, n: nat) -> nat
    decreases v.len() - n,
{
    if n >= v.len() || v[n as int].offset == offset {
        n
    } else {
        row_at(v, offset, n + 1)
    }
}

/// The index row of an offset.
pub open spec fn row_for(idx: Option<Seq<IdxRow>>, offset: u64) -> Option<IdxRow> {
    match idx {
        Some(v) => if row_at(v, offset, 0) < v.len() {
            Some(v[row_at(v, offset, 0) as int])
        } else {
            None
        },
        None => None,
    }
}

fn find_row(v: &Vec<IdxRow>, offset: u64) -> (r: Option<IdxRow>)
    ensures
        r == row_for(Some(v@), offset),
{
    let mut n: usize = 0;
    while n < v.len()
        invariant
            n <= v@.len(),
            row_at(v@, offset, 0) == row_at(v@, offset, n as nat),
        decreases v@.len() - n,
    {
        if v[n].offset == offset {
            return Some(v[n]);
        }
        n += 1;
    }
    None
}

/// The checksum of the bytes of an entry, header and data, when its end is known.
pub open spec fn crc_of_entry(e: EntryImage, data: Seq<u8>) -> Option<u32> {
    match e.zlib {
        Some(z) => if e.header_start <= z.compressed_end <= data.len() {
            Some(crc32_of(data.subrange(e.header_start as int, z.compressed_end as int)))
        } else {
            None
        },
        None => None,
    }
}

/// Whether an index row confirms the bytes of an entry.
pub open spec fn crc_verdict(e: EntryImage, data: Seq<u8>, row: Option<IdxRow>) -> Option<bool> {
    match (row, crc_of_entry(e, data)) {
        (Some(r), Some(c)) => Some(r.crc32 == c),
        _ => None,
    }
}

/// A verdict as a number.
pub open spec fn as_number(v: Option<bool>) -> Option<i64> {
    match v {
        Some(true) => Some(1),
        Some(false) => Some(0),
        None => None,
    }
}

fn number_of(v: Option<bool>) -> (r: Option<i64>)
    ensures
        r == as_number(v),
{
    match v {
        Some(true) => Some(1),
        Some(false) => Some(0),
        None => None,
    }
}

fn entry_crc(e: &EntryImage, data: &[u8]) -> (r: Option<u32>)
    ensures
        r == crc_of_entry(*e, data@),
{
    match e.zlib {
        Some(z) => if e.header_start <= z.compressed_end && z.compressed_end <= data.len() as u64 {
            let end: u64 = z.compressed_end;
            let bytes = vstd::slice::slice_subrange(data, e.header_start as usize, end as usize);
            assert(bytes@ =~= data@.subrange(e.header_start as int, end as int));
            Some(crc32fast_hash(bytes))
        } else {
            None
        },
        None => None,
    }
}

fn verdict(e: &EntryImage, data: &[u8], row: Option<IdxRow>) -> (r: Option<bool>)
    ensures
        r == crc_verdict(*e, data@, row),
{
    match (row, entry_crc(e, data)) {
        (Some(r), Some(c)) => Some(r.crc32 == c),
        _ => None,
    }
}

/// Where an object was found: the kind of file, its number and the offset in it.
pub open spec fn place_of(kind: Seq<char>, source_id: i64, offset: u64) -> Seq<char> {
    kind + ":"@ + dec_int(source_id as int) + ":"@ + dec(offset as nat)
}

fn place_text(kind: &str, source_id: i64, offset: u64) -> (m: String)
    ensures
        m@ == place_of(kind@, source_id, offset),
{
    let mut m = kind.to_owned();
    m.append(":");
    push_int(&mut m, source_id);
    m.append(":");
    push_dec(&mut m, offset);
    m
}

/// A checksum as a number.
pub open spec fn crc_number(c: Option<u32>) -> Option<i64> {
    match c {
        Some(x) => Some(x as i64),
        None => None,
    }
}

fn number_of_crc(c: Option<u32>) -> (r: Option<i64>)
    ensures
        r == crc_number(c),
{
    match c {
        Some(x) => Some(x as i64),
        None => None,
    }
}

/// The node of a pack entry.
pub open spec fn entry_node(id: i64, source_id: i64, e: EntryImage, data: Seq<u8>, row: Option<IdxRow>) -> NodeModel {
    NodeModel {
        id,
        source_id,
        locator: place_of("pack"@, source_id, e.header_start),
        kind: kind_text(e.obj_type),
        declared_size: signed(e.declared_size as nat),
        ofs_base_offset: match e.ofs_base_offset {
            Some(o) => Some(signed(o as nat)),
            None => None,
        },
        ref_base_oid: match e.ref_base_oid {
            Some(o) => Some(o@),
            None => None,
        },
        pack_offset: Some(signed(e.header_start as nat)),
        header_start: Some(signed(e.header_start as nat)),
        header_end: Some(signed(e.header_end as nat)),
        zlib_start: match e.zlib {
            Some(z) => Some(signed(z.compressed_start as nat)),
            None => None,
        },
        zlib_end: match e.zlib {
            Some(z) => Some(signed(z.compressed_end as nat)),
            None => None,
        },
        zlib_out_len: match e.zlib {
            Some(z) => Some(signed(z.output_len as nat)),
            None => None,
        },
        raw: bytes_opt(e.inflated),
        content_size: match e.inflated {
            Some(c) => Some(signed(c@.len())),
            None => None,
        },
        parse_status: if e.inflate_error is Some {
            "inflate_error"@
        } else {
            "ok"@
        },
        parse_error: text_opt(e.inflate_error),
        crc_ok: as_number(crc_verdict(e, data, row)),
        crc_expected: match row {
            Some(r) => Some(r.crc32 as i64),
            None => None,
        },
        crc_actual: crc_number(crc_of_entry(e, data)),
    }
}

/// The claim of an index on a node of a pack; `sound`: the checksum of the file that is being
/// imported holds.
pub open spec fn entry_claim(
    id: i64,
    source_id: i64,
    r: IdxRow,
    paired: bool,
    crc_ok: Option<bool>,
    sound: bool,
) -> CandModel {
    CandModel {
        oid: r.oid@,
        node_id: id,
        origin: "index"@,
        idx_present: if paired {
            1
        } else {
            0
        },
        crc_ok: as_number(crc_ok),
        checksum_ok: if sound {
            1
        } else {
            0
        },
        rank_key: rank_text("index"@, paired, crc_ok, source_id, Some(signed(r.offset as nat))),
    }
}

/// The branch with the first `n` entries of a pack as nodes, from number `first` on, and with
/// the claims of its index. A claim is kept even when the checksum is bad: it is then suspect.
pub open spec fn with_entries(
    w: WorldModel,
    source_id: i64,
    first: i64,
    v: Seq<EntryImage>,
    data: Seq<u8>,
    idx: Option<Seq<IdxRow>>,
    sound: bool,
    n: nat,
) -> WorldModel
    decreases n,
{
    if n == 0 {
        w
    } else {
        let u = with_entries(w, source_id, first, v, data, idx, sound, (n - 1) as nat);
        let e = v[n - 1];
        let id = (first + n - 1) as i64;
        let row = row_for(idx, e.header_start);
        let x = WorldModel {
            nodes: put(u.nodes, id, entry_node(id, source_id, e, data, row)),
            ..u
        };
        match row {
            Some(r) => WorldModel {
                candidates: x.candidates.push(
                    entry_claim(id, source_id, r, true, crc_verdict(e, data, row), sound),
                ),
                ..x
            },
            None => x,
        }
    }
}

/// The warnings of the first `n` parse errors that name an entry.
pub open spec fn entry_warnings(v: Seq<(Option<u64>, String)>, n: nat) -> Seq<Seq<char>>
    decreases n,
{
    if n == 0 {
        Seq::empty()
    } else {
        let w = entry_warnings(v, (n - 1) as nat);
        match v[n - 1].0 {
            Some(o) => w.push("entry "@ + dec(o as nat) + ": "@ + v[n - 1].1@),
            None => w,
        }
    }
}

/// The warnings that importing a pack gives.
pub open spec fn pack_warnings(p: PackImage, idx: Option<IdxImage>) -> Seq<Seq<char>> {
    let a = match idx {
        Some(x) => if !x.checksum_ok {
            seq!["index SHA1 checksum mismatch"@]
        } else {
            Seq::empty()
        },
        None => Seq::empty(),
    };
    let b = if !p.checksum_ok {
        a.push("pack SHA1 trailer mismatch"@)
    } else {
        a
    };
    b + entry_warnings(p.parse_errors@, p.parse_errors@.len())
}

/// The rows of an optional index.
pub open spec fn rows_of(idx: Option<IdxImage>) -> Option<Seq<IdxRow>> {
    match idx {
        Some(x) => Some(x.entries@),
        None => None,
    }
}

/// The number of the pack node at an offset, if the pack has an entry there.
pub open spec fn listed_node(
    nodes: Seq<(i64, NodeModel)>,
    pack: Option<(i64, Seq<EntryImage>)>,
    offset: u64,
) -> Option<i64> {
    match pack {
        Some((id, v)) => if entry_for(v, offset, 0) < v.len() {
            node_at(nodes, id, signed(offset as nat))
        } else {
            None
        },
        None => None,
    }
}

/// The place of the first entry at an offset, or the number of entries.
pub open spec fn entry_for(v: Seq<EntryImage>, offset: u64, n: nat) -> nat
    decreases v.len() - n,
{
    if n >= v.len() || v[n as int].header_start == offset {
        n
    } else {
        entry_for(v, offset, n + 1)
    }
}

fn find_entry(v: &Vec<EntryImage>, offset: u64) -> (n: usize)
    ensures
        n == entry_for(v@, offset, 0),
        n <= v@.len(),
{
    let mut n: usize = 0;
    while n < v.len() && v[n].header_start != offset
        invariant
            n <= v@.len(),
            entry_for(v@, offset, 0) == entry_for(v@, offset, n as nat),
        decreases v@.len() - n,
    {
        n += 1;
    }
    n
}

/// The nodes of a pack with what an index says of the checksums of its first `n` entries.
pub open spec fn backfilled(
    nodes: Seq<(i64, NodeModel)>,
    pack_id: i64,
    v: Seq<EntryImage>,
    data: Seq<u8>,
    rows: Seq<IdxRow>,
    n: nat,
) -> Seq<(i64, NodeModel)>
    decreases n,
{
    if n == 0 {
        nodes
    } else {
        let u = backfilled(nodes, pack_id, v, data, rows, (n - 1) as nat);
        let e = v[n - 1];
        let row = row_for(Some(rows), e.header_start);
        match node_at(u, pack_id, signed(e.header_start as nat)) {
            Some(id) => match get(u, id) {
                Some(x) => put(
                    u,
                    id,
                    NodeModel {
                        crc_expected: match row {
                            Some(r) => Some(r.crc32 as i64),
                            None => None,
                        },
                        crc_actual: crc_number(crc_of_entry(e, data)),
                        crc_ok: as_number(crc_verdict(e, data, row)),
                        ..x
                    },
                ),
                None => u,
            },
            None => u,
        }
    }
}

/// The node that stands for an index row without a pack.
pub open spec fn placeholder(id: i64, source_id: i64, offset: u64) -> NodeModel {
    NodeModel {
        id,
        source_id,
        locator: place_of("idx"@, source_id, offset),
        kind: "idx_placeholder"@,
        declared_size: 0,
        ofs_base_offset: None,
        ref_base_oid: None,
        pack_offset: Some(signed(offset as nat)),
        header_start: None,
        header_end: None,
        zlib_start: None,
        zlib_end: None,
        zlib_out_len: None,
        raw: None,
        content_size: None,
        parse_status: "missing_base"@,
        parse_error: Some("index without matching pack"@),
        crc_ok: None,
        crc_expected: None,
        crc_actual: None,
    }
}

/// The branch with the first `n` rows of an index: a claim for each, on the node of the pack or
/// on one that stands for it; and the number of the next such node.
pub open spec fn with_rows(
    w: WorldModel,
    source_id: i64,
    first: i64,
    rows: Seq<IdxRow>,
    pack: Option<(i64, Seq<EntryImage>)>,
    data: Seq<u8>,
    sound: bool,
    n: nat,
) -> (WorldModel, int)
    decreases n,
{
    if n == 0 {
        (w, first as int)
    } else {
        let u = with_rows(w, source_id, first, rows, pack, data, sound, (n - 1) as nat);
        let r = rows[n - 1];
        let known = listed_node(w.nodes, pack, r.offset);
        let id = match known {
            Some(i) => i,
            None => u.1 as i64,
        };
        let x = match known {
            Some(_) => u.0,
            None => WorldModel {
                nodes: put(u.0.nodes, id, placeholder(id, source_id, r.offset)),
                ..u.0
            },
        };
        let crc_ok = match pack {
            Some((_, v)) => {
                let k = entry_for(v, r.offset, 0);
                if k < v.len() {
                    crc_verdict(v[k as int], data, row_for(Some(rows), r.offset))
                } else {
                    None
                }
            },
            None => None,
        };
        (
            WorldModel {
                candidates: x.candidates.push(entry_claim(id, source_id, r, pack is Some, crc_ok, sound)),
                ..x
            },
            match known {
                Some(_) => u.1,
                None => u.1 + 1,
            },
        )
    }
}

/// The parse errors of a pack as they are noted; one of no entry is under the greatest place.
pub open spec fn error_notes(v: Seq<(Option<u64>, String)>) -> Seq<Seq<char>> {
    v.map_values(
        |e: (Option<u64>, String)|
            "["@ + dec(
                match e.0 {
                    Some(o) => o as nat,
                    None => usize::MAX as nat,
                },
            ) + "] "@ + e.1@,
    )
}

/// What is noted of a pack.
pub open spec fn pack_detail(p: PackImage, paired: bool) -> DetailModel {
    DetailModel::Pack {
        pack_sha: hex(p.pack_sha@),
        trailer_sha: hex(p.trailer_sha@),
        checksum_ok: p.checksum_ok,
        object_count: p.object_count as u64,
        idx_present: paired,
        parse_errors: error_notes(p.parse_errors@),
    }
}

fn note_errors(v: &Vec<(Option<u64>, String)>) -> (r: Vec<String>)
    ensures
        texts(r@) == error_notes(v@),
{
    let mut r: Vec<String> = Vec::new();
    let mut k: usize = 0;
    assert(texts(r@) =~= error_notes(v@).take(0));
    while k < v.len()
        invariant
            k <= v@.len(),
            texts(r@) == error_notes(v@).take(k as int),
        decreases v@.len() - k,
    {
        let mut m = "[".to_owned();
        push_dec(
            &mut m,
            match v[k].0 {
                Some(o) => o,
                None => usize::MAX as u64,
            },
        );
        m.append("] ");
        m.append(v[k].1.as_str());
        assert(m@ =~= error_notes(v@)[k as int]);
        push_part(&mut r, m);
        k += 1;
        assert(texts(r@) =~= error_notes(v@).take(k as int));
    }
    assert(error_notes(v@).take(k as int) =~= error_notes(v@));
    r
}

/// What is noted of an index.
pub open spec fn idx_detail(x: IdxImage) -> DetailModel {
    DetailModel::Idx {
        pack_sha: hex(x.pack_sha@),
        idx_sha: hex(x.idx_sha@),
        trailer_sha: hex(x.trailer_sha@),
        checksum_ok: x.checksum_ok,
        object_count: x.entries@.len() as u64,
    }
}

/// What is noted of a loose object.
pub open spec fn loose_detail(name: Seq<char>, x: LooseImage) -> DetailModel {
    DetailModel::Loose {
        oid: name,
        zlib_start: x.zlib_start,
        zlib_end: x.zlib_end,
        header_len: x.header_len,
    }
}

/// The rows of a fanout table.
pub open spec fn fanout_rows(source_id: i64, v: Seq<u32>) -> Seq<FanoutRow> {
    Seq::new(v.len(), |i: int| FanoutRow { source_id, bucket: signed(i as nat), value: v[i] as i64 })
}

/// The sources with a pack noted, and linked with its index both ways.
pub open spec fn with_pack_noted(
    v: Seq<(i64, SourceModel)>,
    source_id: i64,
    pack: PackImage,
    idx: Option<i64>,
) -> Seq<(i64, SourceModel)> {
    let u = match idx {
        Some(id) => linked(linked(v, id, source_id), source_id, id),
        None => v,
    };
    detailed(u, source_id, pack_detail(pack, idx is Some))
}

/// The sources with an index noted, and linked with its pack both ways.
pub open spec fn with_idx_noted(
    v: Seq<(i64, SourceModel)>,
    source_id: i64,
    idx: IdxImage,
    pack: Option<i64>,
) -> Seq<(i64, SourceModel)> {
    let u = detailed(v, source_id, idx_detail(idx));
    match pack {
        Some(id) => linked(indexed(linked(u, id, source_id), id), source_id, id),
        None => u,
    }
}

/// What a pack adds, with the index that belongs to it.
pub open spec fn pack_added(
    w: WorldModel,
    report: ReportModel,
    first: i64,
    pack: PackImage,
    data: Seq<u8>,
    idx: Option<(i64, &IdxImage)>,
) -> (WorldModel, ReportModel) {
    let x = match idx {
        Some((_, i)) => Some(*i),
        None => None,
    };
    let noted = WorldModel {
        sources: with_pack_noted(
            w.sources,
            report.source_id,
            pack,
            match idx {
                Some((id, _)) => Some(id),
                None => None,
            },
        ),
        ..w
    };
    (
        with_entries(
            noted,
            report.source_id,
            first,
            pack.entries@,
            data,
            rows_of(x),
            pack.checksum_ok,
            pack.entries@.len(),
        ),
        ReportModel {
            nodes_added: (report.nodes_added + pack.entries@.len()) as u64,
            linked_source_id: match idx {
                Some((id, _)) => Some(id),
                None => report.linked_source_id,
            },
            warnings: report.warnings + pack_warnings(pack, x),
            ..report
        },
    )
}

/// The branch with an index noted, and with what it says of the checksums of its pack.
pub open spec fn idx_filled(
    w: WorldModel,
    source_id: i64,
    idx: IdxImage,
    pack: Option<(i64, &PackImage, &[u8])>,
) -> WorldModel {
    let noted = WorldModel {
        sources: with_idx_noted(
            w.sources,
            source_id,
            idx,
            match pack {
                Some((id, _, _)) => Some(id),
                None => None,
            },
        ),
        fanout: w.fanout + fanout_rows(source_id, idx.fanout@),
        ..w
    };
    match pack {
        Some((id, p, data)) => WorldModel {
            nodes: backfilled(w.nodes, id, p.entries@, data@, idx.entries@, p.entries@.len()),
            ..noted
        },
        None => noted,
    }
}

/// What an index adds, with the pack that it belongs to.
pub open spec fn idx_added(
    w: WorldModel,
    report: ReportModel,
    first: i64,
    idx: IdxImage,
    pack: Option<(i64, &PackImage, &[u8])>,
) -> (WorldModel, ReportModel) {
    let filled = idx_filled(w, report.source_id, idx, pack);
    let done = with_rows(
        filled,
        report.source_id,
        first,
        idx.entries@,
        pack_rows(pack),
        pack_bytes(pack),
        idx.checksum_ok,
        idx.entries@.len(),
    );
    (
        done.0,
        ReportModel {
            nodes_added: (report.nodes_added + (done.1 - first)) as u64,
            linked_source_id: match pack {
                Some((id, _, _)) => Some(id),
                None => report.linked_source_id,
            },
            warnings: if !idx.checksum_ok {
                report.warnings.push("index SHA1 checksum mismatch"@)
            } else {
                report.warnings
            },
            ..report
        },
    )
}

/// What a loose object adds; its path has to spell an id.
pub open spec fn loose_added(w: WorldModel, report: ReportModel, id: i64, filename: Seq<char>, x: LooseImage) -> Result<
    (WorldModel, ReportModel),
    Seq<char>,
> {
    let name = loose_id(filename);
    if !is_hex(name) || name.len() != 40 {
        Err("bad loose oid"@)
    } else {
        Ok(
            (
                WorldModel {
                    sources: detailed(w.sources, report.source_id, loose_detail(name, x)),
                    computed: put(w.computed, id, unhex(name)),
                    nodes: put(w.nodes, id, loose_node(id, report.source_id, x)),
                    candidates: w.candidates.push(loose_claim(id, report.source_id, unhex(name))),
                    ..w
                },
                ReportModel { nodes_added: (report.nodes_added + 1) as u64, ..report },
            ),
        )
    }
}

impl World {
    fn add_claim(&mut self, c: OidCandidate)
        ensures
            final(self)@ == (WorldModel { candidates: old(self)@.candidates.push(c@), ..old(self)@ }),
    {
        let ghost before = cand_models(self.candidates@);
        self.candidates.push(c);
        assert(cand_models(self.candidates@) =~= before.push(c@));
    }

    /// Adds the entries of a pack, and the claims of the index that belongs to it. The nodes get
    /// the numbers from `first` on.
    pub fn import_pack(
        &mut self,
        first: i64,
        pack: &PackImage,
        data: &[u8],
        idx: Option<(i64, &IdxImage)>,
        report: &mut ImportReport,
    )
        requires
            first >= 0,
            first + pack.entries@.len() <= i64::MAX,
            old(report).nodes_added + pack.entries@.len() <= u64::MAX,
        ensures
            (final(self)@, final(report)@) == pack_added(old(self)@, old(report)@, first, *pack, data@, idx),
    {
        let ghost start = report@.warnings;
        let source_id: i64 = report.source_id;
        if let Some((id, _)) = idx {
            note_link(&mut self.sources, id, source_id);
            note_link(&mut self.sources, source_id, id);
        }
        note_detail(
            &mut self.sources,
            source_id,
            SourceDetail::Pack {
                pack_sha: hex_encode(pack.pack_sha.as_slice()),
                trailer_sha: hex_encode(pack.trailer_sha.as_slice()),
                checksum_ok: pack.checksum_ok,
                object_count: pack.object_count as u64,
                idx_present: idx.is_some(),
                parse_errors: note_errors(&pack.parse_errors),
            },
        );
        let ghost image = match idx {
            Some((_, i)) => Some(*i),
            None => None,
        };
        if let Some((id, i)) = idx {
            report.linked_source_id = Some(id);
            if !i.checksum_ok {
                push_part(&mut report.warnings, "index SHA1 checksum mismatch".to_owned());
            }
        }
        if !pack.checksum_ok {
            push_part(&mut report.warnings, "pack SHA1 trailer mismatch".to_owned());
        }
        let ghost head = report@.warnings;
        let ghost linked = report.linked_source_id;
        let mut k: usize = 0;
        assert(head + entry_warnings(pack.parse_errors@, 0) =~= head);
        while k < pack.parse_errors.len()
            invariant
                k <= pack.parse_errors@.len(),
                report@ == (ReportModel {
                    linked_source_id: linked,
                    warnings: head + entry_warnings(pack.parse_errors@, k as nat),
                    ..old(report)@
                }),
            decreases pack.parse_errors@.len() - k,
        {
            if let Some(o) = pack.parse_errors[k].0 {
                let mut m = "entry ".to_owned();
                push_dec(&mut m, o);
                m.append(": ");
                m.append(pack.parse_errors[k].1.as_str());
                push_part(&mut report.warnings, m);
            }
            k += 1;
            assert(report@.warnings =~= head + entry_warnings(pack.parse_errors@, k as nat));
        }
        proof {
            assert(report@.warnings =~= start + pack_warnings(*pack, image));
        }
        let ghost w = self@;
        let ghost rows = rows_of(image);
        let ghost warnings = report@.warnings;
        let mut n: usize = 0;
        while n < pack.entries.len()
            invariant
                n <= pack.entries@.len(),
                first >= 0,
                first + pack.entries@.len() <= i64::MAX,
                old(report).nodes_added + pack.entries@.len() <= u64::MAX,
                source_id == old(report).source_id,
                rows == rows_of(image),
                image == match idx {
                    Some((_, i)) => Some(*i),
                    None => None,
                },
                self@ == with_entries(
                    w,
                    source_id,
                    first,
                    pack.entries@,
                    data@,
                    rows,
                    pack.checksum_ok,
                    n as nat,
                ),
                report@ == (ReportModel {
                    nodes_added: (old(report)@.nodes_added + n) as u64,
                    linked_source_id: linked,
                    warnings,
                    ..old(report)@
                }),
            decreases pack.entries@.len() - n,
        {
            let e = &pack.entries[n];
            let id: i64 = first + n as i64;
            let row: Option<IdxRow> = match idx {
                Some((_, i)) => find_row(&i.entries, e.header_start),
                None => None,
            };
            let crc_ok: Option<bool> = verdict(e, data, row);
            let node = NodeInfo {
                id,
                source_id,
                locator: place_text("pack", source_id, e.header_start),
                kind: kind_str(e.obj_type).to_owned(),
                declared_size: to_signed(e.declared_size),
                ofs_base_offset: match e.ofs_base_offset {
                    Some(o) => Some(to_signed(o)),
                    None => None,
                },
                ref_base_oid: match &e.ref_base_oid {
                    Some(o) => Some(vstd::slice::slice_to_vec(o.as_slice())),
                    None => None,
                },
                pack_offset: Some(to_signed(e.header_start)),
                header_start: Some(to_signed(e.header_start)),
                header_end: Some(to_signed(e.header_end)),
                zlib_start: match e.zlib {
                    Some(z) => Some(to_signed(z.compressed_start)),
                    None => None,
                },
                zlib_end: match e.zlib {
                    Some(z) => Some(to_signed(z.compressed_end)),
                    None => None,
                },
                zlib_out_len: match e.zlib {
                    Some(z) => Some(to_signed(z.output_len)),
                    None => None,
                },
                raw: e.inflated.clone(),
                content_size: match &e.inflated {
                    Some(c) => Some(to_signed(c.len() as u64)),
                    None => None,
                },
                parse_status: if e.inflate_error.is_some() {
                    "inflate_error".to_owned()
                } else {
                    "ok".to_owned()
                },
                parse_error: copy_opt(&e.inflate_error),
                crc_ok: number_of(crc_ok),
                crc_expected: match row {
                    Some(r) => Some(r.crc32 as i64),
                    None => None,
                },
                crc_actual: number_of_crc(entry_crc(e, data)),
            };
            assert(node.deep_view() == entry_node(id, source_id, *e, data@, row));
            self.nodes.insert(id, node);
            if let Some(r) = row {
                self.claim(id, source_id, &r, true, crc_ok, pack.checksum_ok);
            }
            report.nodes_added = report.nodes_added + 1;
            n += 1;
        }
    }

    fn claim(&mut self, id: i64, source_id: i64, r: &IdxRow, paired: bool, crc_ok: Option<bool>, sound: bool)
        ensures
            final(self)@ == (WorldModel {
                candidates: old(self)@.candidates.push(
                    entry_claim(id, source_id, *r, paired, crc_ok, sound),
                ),
                ..old(self)@
            }),
    {
        let c = OidCandidate {
            oid: vstd::slice::slice_to_vec(r.oid.as_slice()),
            node_id: id,
            origin: "index".to_owned(),
            idx_present: if paired {
                1
            } else {
                0
            },
            crc_ok: number_of(crc_ok),
            checksum_ok: if sound {
                1
            } else {
                0
            },
            rank_key: candidate_rank_key("index", paired, crc_ok, source_id, Some(to_signed(r.offset))),
        };
        self.add_claim(c);
    }

    fn add_fanout(&mut self, source_id: i64, v: &Vec<u32>)
        ensures
            final(self)@ == (WorldModel {
                fanout: old(self)@.fanout + fanout_rows(source_id, v@),
                ..old(self)@
            }),
    {
        let ghost start = self@.fanout;
        let ghost rows = fanout_rows(source_id, v@);
        let mut k: usize = 0;
        assert(start + rows.take(0) =~= start);
        while k < v.len()
            invariant
                k <= v@.len(),
                rows == fanout_rows(source_id, v@),
                self@ == (WorldModel { fanout: start + rows.take(k as int), ..old(self)@ }),
            decreases v@.len() - k,
        {
            self.fanout.push(FanoutRow { source_id, bucket: to_signed(k as u64), value: v[k] as i64 });
            k += 1;
            assert(self.fanout@ =~= start + rows.take(k as int));
        }
        assert(rows.take(k as int) =~= rows);
    }

    /// Notes on the nodes of a pack what an index says of their checksums.
    fn backfill(&mut self, pack_id: i64, entries: &Vec<EntryImage>, data: &[u8], rows: &Vec<IdxRow>)
        ensures
            final(self)@ == (WorldModel {
                nodes: backfilled(old(self)@.nodes, pack_id, entries@, data@, rows@, entries@.len()),
                ..old(self)@
            }),
    {
        let ghost w = self@;
        let mut n: usize = 0;
        while n < entries.len()
            invariant
                n <= entries@.len(),
                self@ == (WorldModel {
                    nodes: backfilled(w.nodes, pack_id, entries@, data@, rows@, n as nat),
                    ..w
                }),
            decreases entries@.len() - n,
        {
            let e = &entries[n];
            let row: Option<IdxRow> = find_row(rows, e.header_start);
            let crc_ok: Option<bool> = verdict(e, data, row);
            match find_node_at(&self.nodes, pack_id, to_signed(e.header_start)) {
                Some(id) => {
                    let changed = match self.nodes.get(id) {
                        Some(x) => Some(
                            NodeInfo {
                                id: x.id,
                                source_id: x.source_id,
                                locator: x.locator.clone(),
                                kind: x.kind.clone(),
                                declared_size: x.declared_size,
                                ofs_base_offset: x.ofs_base_offset,
                                ref_base_oid: x.ref_base_oid.clone(),
                                pack_offset: x.pack_offset,
                                header_start: x.header_start,
                                header_end: x.header_end,
                                zlib_start: x.zlib_start,
                                zlib_end: x.zlib_end,
                                zlib_out_len: x.zlib_out_len,
                                raw: x.raw.clone(),
                                content_size: x.content_size,
                                parse_status: x.parse_status.clone(),
                                parse_error: copy_opt(&x.parse_error),
                                crc_ok: number_of(crc_ok),
                                crc_expected: match row {
                                    Some(r) => Some(r.crc32 as i64),
                                    None => None,
                                },
                                crc_actual: number_of_crc(entry_crc(e, data)),
                            },
                        ),
                        None => None,
                    };
                    if let Some(x) = changed {
                        self.nodes.insert(id, x);
                    }
                },
                None => {},
            }
            n += 1;
        }
    }

    /// Adds the rows of an index. When its pack is there, its nodes take the claims; a row
    /// without a node gets one that stands for it, with the numbers from `first` on.
    pub fn import_idx(
        &mut self,
        first: i64,
        idx: &IdxImage,
        pack: Option<(i64, &PackImage, &[u8])>,
        report: &mut ImportReport,
    )
        requires
            first >= 0,
            first + idx.entries@.len() <= i64::MAX,
            old(report).nodes_added + idx.entries@.len() <= u64::MAX,
        ensures
            (final(self)@, final(report)@) == idx_added(old(self)@, old(report)@, first, *idx, pack),
    {
        let source_id: i64 = report.source_id;
        note_detail(
            &mut self.sources,
            source_id,
            SourceDetail::Idx {
                pack_sha: hex_encode(idx.pack_sha.as_slice()),
                idx_sha: hex_encode(idx.idx_sha.as_slice()),
                trailer_sha: hex_encode(idx.trailer_sha.as_slice()),
                checksum_ok: idx.checksum_ok,
                object_count: idx.entries.len() as u64,
            },
        );
        if !idx.checksum_ok {
            push_part(&mut report.warnings, "index SHA1 checksum mismatch".to_owned());
        }
        self.add_fanout(source_id, &idx.fanout);
        if let Some((id, p, data)) = pack {
            report.linked_source_id = Some(id);
            note_link(&mut self.sources, id, source_id);
            note_index(&mut self.sources, id);
            note_link(&mut self.sources, source_id, id);
            self.backfill(id, &p.entries, data, &idx.entries);
        }
        let ghost w = self@;
        let ghost start = report@;
        let ghost rows = pack_rows(pack);
        let ghost bytes = pack_bytes(pack);
        let mut known: Vec<Option<i64>> = Vec::new();
        let mut k: usize = 0;
        while k < idx.entries.len()
            invariant
                k <= idx.entries@.len(),
                known@.len() == k,
                self@ == w,
                rows == pack_rows(pack),
                forall|j: int|
                    0 <= j < k ==> #[trigger] known@[j] == listed_node(w.nodes, rows, idx.entries@[j].offset),
            decreases idx.entries@.len() - k,
        {
            let offset: u64 = idx.entries[k].offset;
            let id: Option<i64> = match pack {
                Some((id, p, _)) => if find_entry(&p.entries, offset) < p.entries.len() {
                    find_node_at(&self.nodes, id, to_signed(offset))
                } else {
                    None
                },
                None => None,
            };
            known.push(id);
            k += 1;
        }
        let mut next: i64 = first;
        let mut n: usize = 0;
        while n < idx.entries.len()
            invariant
                n <= idx.entries@.len(),
                known@.len() == idx.entries@.len(),
                rows == pack_rows(pack),
                bytes == pack_bytes(pack),
                source_id == old(report).source_id,
                0 <= first <= next <= first + n,
                first + idx.entries@.len() <= i64::MAX,
                start.nodes_added + idx.entries@.len() <= u64::MAX,
                forall|j: int|
                    0 <= j < known@.len() ==> #[trigger] known@[j] == listed_node(
                        w.nodes,
                        rows,
                        idx.entries@[j].offset,
                    ),
                (self@, next as int) == with_rows(
                    w,
                    source_id,
                    first,
                    idx.entries@,
                    rows,
                    bytes,
                    idx.checksum_ok,
                    n as nat,
                ),
                report@ == (ReportModel { nodes_added: (start.nodes_added + (next - first)) as u64, ..start }),
            decreases idx.entries@.len() - n,
        {
            let r: IdxRow = idx.entries[n];
            assert(known@[n as int] == listed_node(w.nodes, rows, r.offset));
            let id: i64 = match known[n] {
                Some(i) => i,
                None => {
                    let node = NodeInfo {
                        id: next,
                        source_id,
                        locator: place_text("idx", source_id, r.offset),
                        kind: "idx_placeholder".to_owned(),
                        declared_size: 0,
                        ofs_base_offset: None,
                        ref_base_oid: None,
                        pack_offset: Some(to_signed(r.offset)),
                        header_start: None,
                        header_end: None,
                        zlib_start: None,
                        zlib_end: None,
                        zlib_out_len: None,
                        raw: None,
                        content_size: None,
                        parse_status: "missing_base".to_owned(),
                        parse_error: Some("index without matching pack".to_owned()),
                        crc_ok: None,
                        crc_expected: None,
                        crc_actual: None,
                    };
                    assert(node.deep_view() == placeholder(next, source_id, r.offset));
                    self.nodes.insert(next, node);
                    report.nodes_added = report.nodes_added + 1;
                    let i: i64 = next;
                    next = next + 1;
                    i
                },
            };
            let crc_ok: Option<bool> = match pack {
                Some((_, p, data)) => {
                    let j: usize = find_entry(&p.entries, r.offset);
                    if j < p.entries.len() {
                        verdict(&p.entries[j], data, find_row(&idx.entries, r.offset))
                    } else {
                        None
                    }
                },
                None => None,
            };
            self.claim(id, source_id, &r, pack.is_some(), crc_ok, idx.checksum_ok);
            n += 1;
        }
    }

    /// Adds a loose object under the id that its path gives, as node `id`.
    pub fn import_loose(
        &mut self,
        id: i64,
        filename: &str,
        loose: &LooseImage,
        report: &mut ImportReport,
    ) -> (r: Result<(), String>)
        requires
            old(report).nodes_added < u64::MAX,
        ensures
            match loose_added(old(self)@, old(report)@, id, filename@, *loose) {
                Ok(v) => r is Ok && (final(self)@, final(report)@) == v,
                Err(m) => {
                    &&& r matches Err(e) && e@ == m
                    &&& final(self)@ == old(self)@
                    &&& final(report)@ == old(report)@
                },
            },
    {
        let name = loose_path_id(filename);
        let oid = match hex20(name.as_str()) {
            Some(o) => o,
            None => return Err("bad loose oid".to_owned()),
        };
        let source_id: i64 = report.source_id;
        let mut locator = "loose:".to_owned();
        push_int(&mut locator, source_id);
        let node = NodeInfo {
            id,
            source_id,
            locator,
            kind: kind_str(loose.obj_type).to_owned(),
            declared_size: to_signed(loose.content.len() as u64),
            ofs_base_offset: None,
            ref_base_oid: None,
            pack_offset: None,
            header_start: None,
            header_end: None,
            zlib_start: Some(to_signed(loose.zlib_start)),
            zlib_end: Some(to_signed(loose.zlib_end)),
            zlib_out_len: Some(to_signed(loose.content.len() as u64)),
            raw: Some(loose.content.clone()),
            content_size: Some(to_signed(loose.content.len() as u64)),
            parse_status: "ok".to_owned(),
            parse_error: None,
            crc_ok: None,
            crc_expected: None,
            crc_actual: None,
        };
        assert(loose.content@.len() == loose.content.len());
        assert(node.deep_view() == loose_node(id, source_id, *loose));
        self.nodes.insert(id, node);
        let named = vstd::slice::slice_to_vec(oid.as_slice());
        assert(named.deep_view() =~= oid@);
        self.computed.insert(id, named);
        note_detail(
            &mut self.sources,
            source_id,
            SourceDetail::Loose {
                oid: name,
                zlib_start: loose.zlib_start,
                zlib_end: loose.zlib_end,
                header_len: loose.header_len,
            },
        );
        report.nodes_added = report.nodes_added + 1;
        let c = OidCandidate {
            oid: vstd::slice::slice_to_vec(oid.as_slice()),
            node_id: id,
            origin: "loose".to_owned(),
            idx_present: 1,
            crc_ok: Some(1),
            checksum_ok: 1,
            rank_key: candidate_rank_key("index", true, Some(true), source_id, None),
        };
        assert(c@ == loose_claim(id, source_id, unhex(loose_id(filename@))));
        self.add_claim(c);
        Ok(())
    }
}

/// A parsed loose object.
#[derive(Debug)]
pub struct LooseImage {
    pub obj_type: ObjType,
    pub content: Vec<u8>,
    /// Where the compressed data begin and end.
    pub zlib_start: u64,
    pub zlib_end: u64,
    pub header_len: u64,
}

/// A path with every backslash turned.
pub open spec fn slashed(s: Seq<char>) -> Seq<char> {
    s.map_values(
        |c: char|
            if c == '\\' {
                '/'
            } else {
                c
            },
    )
}

/// The id that the path of a loose object spells: a directory of two letters and a name.
pub open spec fn loose_id(filename: Seq<char>) -> Seq<char> {
    let s = slashed(filename);
    match last_at(s, '/', s.len()) {
        Some(k) => if encode_utf8(s.subrange(0, k as int)).len() == 2 {
            s.subrange(0, k as int) + s.subrange(k as int + 1, s.len() as int)
        } else {
            s
        },
        None => s,
    }
}

/// The node of a loose object.
pub open spec fn loose_node(id: i64, source_id: i64, x: LooseImage) -> NodeModel {
    NodeModel {
        id,
        source_id,
        locator: "loose:"@ + dec_int(source_id as int),
        kind: kind_text(x.obj_type),
        declared_size: signed(x.content@.len()),
        ofs_base_offset: None,
        ref_base_oid: None,
        pack_offset: None,
        header_start: None,
        header_end: None,
        zlib_start: Some(signed(x.zlib_start as nat)),
        zlib_end: Some(signed(x.zlib_end as nat)),
        zlib_out_len: Some(signed(x.content@.len())),
        raw: Some(x.content@),
        content_size: Some(signed(x.content@.len())),
        parse_status: "ok"@,
        parse_error: None,
        crc_ok: None,
        crc_expected: None,
        crc_actual: None,
    }
}

/// The claim of a loose object on its own id.
pub open spec fn loose_claim(id: i64, source_id: i64, oid: Seq<u8>) -> CandModel {
    CandModel {
        oid,
        node_id: id,
        origin: "loose"@,
        idx_present: 1,
        crc_ok: Some(1),
        checksum_ok: 1,
        rank_key: rank_text("index"@, true, Some(true), source_id, None),
    }
}

/// Reads the id that the path of a loose object spells.
pub fn loose_path_id(filename: &str) -> (r: String)
    ensures
        r@ == loose_id(filename@),
{
    let n: usize = filename.unicode_len();
    let mut s = String::new();
    let mut i: usize = 0;
    while i < n
        invariant
            n == filename@.len(),
            i <= n,
            s@ == slashed(filename@).take(i as int),
        decreases n - i,
    {
        let c: char = filename.get_char(i);
        s.push(
            if c == '\\' {
                '/'
            } else {
                c
            },
        );
        i += 1;
        assert(s@ =~= slashed(filename@).take(i as int));
    }
    assert(s@ =~= slashed(filename@));
    match find_last(s.as_str(), '/') {
        Some(k) => {
            let dir = part_of(s.as_str(), 0, k);
            if dir.as_str().as_bytes().len() != 2 {
                return s;
            }
            let name = part_of(s.as_str(), k + 1, n);
            let mut out = dir;
            out.append(name.as_str());
            out
        },
        None => s,
    }
}

/// The entries of an optional pack.
pub open spec fn pack_rows(p: Option<(i64, &PackImage, &[u8])>) -> Option<(i64, Seq<EntryImage>)> {
    match p {
        Some((id, p, _)) => Some((id, p.entries@)),
        None => None,
    }
}

/// The bytes of an optional pack.
pub open spec fn pack_bytes(p: Option<(i64, &PackImage, &[u8])>) -> Seq<u8> {
    match p {
        Some((_, _, data)) => data@,
        None => Seq::empty(),
    }
}

/// A parsed file, with its counterpart where that is there already.
#[derive(Debug)]
pub enum ParsedFile<'a> {
    Pack(&'a PackImage, Option<(i64, &'a IdxImage)>),
    Idx(&'a IdxImage, Option<(i64, &'a PackImage, &'a [u8])>),
    Loose(&'a LooseImage),
}

impl ParsedFile<'_> {
    /// The kind of file that the parser was for.
    pub open spec fn kind(self) -> Seq<char> {
        match self {
            ParsedFile::Pack(_, _) => "pack"@,
            ParsedFile::Idx(_, _) => "idx"@,
            ParsedFile::Loose(_) => "loose"@,
        }
    }
}

/// What a parsed file adds.
pub open spec fn file_added(
    w: WorldModel,
    report: ReportModel,
    first: i64,
    filename: Seq<char>,
    data: Seq<u8>,
    file: ParsedFile,
) -> Result<(WorldModel, ReportModel), Seq<char>> {
    match file {
        ParsedFile::Pack(pack, idx) => Ok(pack_added(w, report, first, *pack, data, idx)),
        ParsedFile::Idx(idx, pack) => Ok(idx_added(w, report, first, *idx, pack)),
        ParsedFile::Loose(x) => loose_added(w, report, first, filename, *x),
    }
}

/// The number of nodes that a parsed file can add.
pub open spec fn most_nodes(file: ParsedFile) -> nat {
    match file {
        ParsedFile::Pack(pack, _) => pack.entries@.len(),
        ParsedFile::Idx(idx, _) => idx.entries@.len(),
        ParsedFile::Loose(_) => 1,
    }
}

/// The row of a file that has just come in.
pub open spec fn new_source(kind: Seq<char>, filename: Seq<char>, stored_path: Seq<char>, data: Seq<u8>) -> SourceModel {
    SourceModel {
        kind,
        filename,
        stored_path,
        sha256: hex(sha256_of(data)),
        byte_len: signed(data.len()),
        linked_pack_source_id: None,
        detail: None,
    }
}

/// The branch with a file that has just come in.
pub open spec fn with_source(w: WorldModel, report: ReportModel, stored_path: Seq<char>, data: Seq<u8>) -> WorldModel {
    WorldModel {
        sources: put(w.sources, report.source_id, new_source(report.kind, report.filename, stored_path, data)),
        ..w
    }
}

/// What importing a file gives: a file that is refused or there already changes nothing, and
/// after any other all that can now make progress is settled.
pub open spec fn file_imported(
    w: WorldModel,
    begun: Result<ReportModel, Seq<char>>,
    first: i64,
    filename: Seq<char>,
    stored_path: Seq<char>,
    data: Seq<u8>,
    file: Result<ParsedFile, String>,
    budget: Budget,
) -> (WorldModel, Result<ReportModel, Seq<char>>) {
    match begun {
        Err(m) => (w, Err(m)),
        Ok(report) => if report.deduped {
            (w, Ok(report))
        } else {
            match file {
                Err(m) => (w, Err(m@)),
                Ok(f) => match file_added(
                    with_source(w, report, stored_path, data),
                    report,
                    first,
                    filename,
                    data,
                    f,
                ) {
                    Err(m) => (w, Err(m)),
                    Ok((v, done)) => (branch_settled(v, budget), Ok(done)),
                },
            }
        },
    }
}

impl World {
    fn add_source(&mut self, report: &ImportReport, stored_path: &str, data: &[u8])
        ensures
            final(self)@ == with_source(old(self)@, report@, stored_path@, data@),
    {
        let row = SourceRow {
            kind: report.kind.clone(),
            filename: report.filename.clone(),
            stored_path: stored_path.to_owned(),
            sha256: sha256_hex(data),
            byte_len: to_signed(data.len() as u64),
            linked_pack_source_id: None,
            detail: None,
        };
        assert(row.deep_view() == new_source(report.kind@, report.filename@, stored_path@, data@));
        self.sources.insert(report.source_id, row);
    }

    /// Imports one file into the branch, and settles what can now make progress. `file` is what
    /// the parser for its kind, which `detect_kind` tells, made of it, `source_id` the number that
    /// a new source would have, `first` that of the first new node, and `stored_path` where the
    /// bytes are kept.
    pub fn import_bytes(
        &mut self,
        source_id: i64,
        first: i64,
        filename: &str,
        stored_path: &str,
        data: &[u8],
        file: Result<ParsedFile, String>,
        budget: &Budget,
    ) -> (r: Result<ImportReport, String>)
        requires
            first >= 0,
            file matches Ok(f) ==> first + most_nodes(f) <= i64::MAX,
            file matches Ok(f) ==> (kind_of_file(data@, filename@) != "unknown"@ ==> f.kind() == kind_of_file(
                data@,
                filename@,
            )),
        ensures
            ({
                let end = file_imported(
                    old(self)@,
                    begun(old(self)@.sources, source_id, filename@, data@),
                    first,
                    filename@,
                    stored_path@,
                    data@,
                    file,
                    *budget,
                );
                &&& final(self)@ == end.0
                &&& match r {
                    Ok(x) => end.1 == Ok::<ReportModel, Seq<char>>(x@),
                    Err(m) => end.1 == Err::<ReportModel, Seq<char>>(m@),
                }
            }),
    {
        let mut report = match begin_import(&self.sources, source_id, filename, data) {
            Ok(x) => x,
            Err(m) => return Err(m),
        };
        if report.deduped {
            return Ok(report);
        }
        match file {
            Err(m) => return Err(m),
            Ok(ParsedFile::Pack(pack, idx)) => {
                self.add_source(&report, stored_path, data);
                self.import_pack(first, pack, data, idx, &mut report);
            },
            Ok(ParsedFile::Idx(idx, pack)) => {
                self.add_source(&report, stored_path, data);
                self.import_idx(first, idx, pack, &mut report);
            },
            Ok(ParsedFile::Loose(x)) => {
                if hex20(loose_path_id(filename).as_str()).is_none() {
                    return Err("bad loose oid".to_owned());
                }
                self.add_source(&report, stored_path, data);
                match self.import_loose(first, filename, x, &mut report) {
                    Ok(_) => {},
                    Err(m) => return Err(m),
                }
            },
        }
        self.settle_branch(budget);
        Ok(report)
    }
}

proof fn lemma_entries_keep(
    w: WorldModel,
    source_id: i64,
    first: i64,
    v: Seq<EntryImage>,
    data: Seq<u8>,
    idx: Option<Seq<IdxRow>>,
    sound: bool,
    n: nat,
)
    ensures
        with_entries(w, source_id, first, v, data, idx, sound, n).sources == w.sources,
    decreases n,
{
    if n > 0 {
        lemma_entries_keep(w, source_id, first, v, data, idx, sound, (n - 1) as nat);
    }
}

proof fn lemma_rows_keep(
    w: WorldModel,
    source_id: i64,
    first: i64,
    rows: Seq<IdxRow>,
    pack: Option<(i64, Seq<EntryImage>)>,
    data: Seq<u8>,
    sound: bool,
    n: nat,
)
    ensures
        with_rows(w, source_id, first, rows, pack, data, sound, n).0.sources == w.sources,
    decreases n,
{
    if n > 0 {
        lemma_rows_keep(w, source_id, first, rows, pack, data, sound, (n - 1) as nat);
    }
}

/// A pack and its index are linked with each other, and the pack is noted to have its index,
/// whichever of the two comes first.
pub proof fn pack_and_index_are_linked_both_ways(
    v: Seq<(i64, SourceModel)>,
    pack_id: i64,
    idx_id: i64,
    pack: PackImage,
    idx: IdxImage,
)
    requires
        pack_id != idx_id,
        has_key(v, pack_id),
        has_key(v, idx_id),
    ensures
        ({
            let a = with_pack_noted(v, pack_id, pack, Some(idx_id));
            let b = with_idx_noted(with_pack_noted(v, pack_id, pack, None), idx_id, idx, Some(pack_id));
            &&& get(a, pack_id) matches Some(p) && p.linked_pack_source_id == Some(idx_id) && p.detail == Some(
                pack_detail(pack, true),
            )
            &&& get(a, idx_id) matches Some(x) && x.linked_pack_source_id == Some(pack_id)
            &&& get(b, pack_id) matches Some(p) && p.linked_pack_source_id == Some(idx_id) && p.detail == Some(
                pack_detail(pack, true),
            )
            &&& get(b, idx_id) matches Some(x) && x.linked_pack_source_id == Some(pack_id) && x.detail == Some(
                idx_detail(idx),
            )
        }),
{
    let s = get(v, pack_id)->0;
    let t = get(v, idx_id)->0;
    lemma_noted(v, idx_id, pack_id);
    let v1 = linked(v, idx_id, pack_id);
    lemma_noted(v1, pack_id, idx_id);
    let v2 = linked(v1, pack_id, idx_id);
    lemma_detailed(v2, pack_id, pack_detail(pack, true), idx_id);
    lemma_detailed(v, pack_id, pack_detail(pack, false), idx_id);
    let u1 = detailed(v, pack_id, pack_detail(pack, false));
    lemma_detailed(u1, idx_id, idx_detail(idx), pack_id);
    let u2 = detailed(u1, idx_id, idx_detail(idx));
    lemma_noted(u2, pack_id, idx_id);
    let u3 = linked(u2, pack_id, idx_id);
    let p3 = get(u3, pack_id)->0;
    get_of_put(
        u3,
        pack_id,
        SourceModel { detail: Some(crate::engine::sources::with_index(p3.detail->0)), ..p3 },
        idx_id,
    );
    let u4 = indexed(u3, pack_id);
    lemma_noted(u4, idx_id, pack_id);
}

proof fn lemma_noted(v: Seq<(i64, SourceModel)>, id: i64, other: i64)
    requires
        id != other,
        has_key(v, id),
    ensures
        get(linked(v, id, other), id) == Some(
            SourceModel { linked_pack_source_id: Some(other), ..get(v, id)->0 },
        ),
        get(linked(v, id, other), other) == get(v, other),
{
    get_of_put(v, id, SourceModel { linked_pack_source_id: Some(other), ..get(v, id)->0 }, other);
}

proof fn lemma_detailed(v: Seq<(i64, SourceModel)>, id: i64, d: DetailModel, other: i64)
    requires
        id != other,
        has_key(v, id),
    ensures
        get(detailed(v, id, d), id) == Some(SourceModel { detail: Some(d), ..get(v, id)->0 }),
        get(detailed(v, id, d), other) == get(v, other),
{
    get_of_put(v, id, SourceModel { detail: Some(d), ..get(v, id)->0 }, other);
}

/// What notes on sources keep: every content that is known.
proof fn lemma_notes_keep(v: Seq<(i64, SourceModel)>, id: i64, other: i64, d: DetailModel, sha: Seq<char>)
    requires
        known_source(v, sha, 0) is Some,
    ensures
        known_source(detailed(v, id, d), sha, 0) is Some,
        known_source(linked(v, id, other), sha, 0) is Some,
        known_source(indexed(v, id), sha, 0) is Some,
{
    if let Some(s) = get(v, id) {
        lemma_known_kept(v, id, SourceModel { detail: Some(d), ..s }, sha);
        lemma_known_kept(v, id, SourceModel { linked_pack_source_id: Some(other), ..s }, sha);
        if let Some(x) = s.detail {
            lemma_known_kept(
                v,
                id,
                SourceModel { detail: Some(crate::engine::sources::with_index(x)), ..s },
                sha,
            );
        }
    }
}

proof fn lemma_added_is_known(
    w: WorldModel,
    report: ReportModel,
    first: i64,
    filename: Seq<char>,
    data: Seq<u8>,
    file: ParsedFile,
    sha: Seq<char>,
)
    requires
        known_source(w.sources, sha, 0) is Some,
    ensures
        file_added(w, report, first, filename, data, file) matches Ok(r) ==> known_source(r.0.sources, sha, 0) is Some,
{
    let id = report.source_id;
    let v = w.sources;
    match file {
        ParsedFile::Pack(pack, idx) => {
            let x = match idx {
                Some((_, i)) => Some(*i),
                None => None,
            };
            let d = pack_detail(*pack, idx is Some);
            let noted = WorldModel {
                sources: with_pack_noted(
                    v,
                    id,
                    *pack,
                    match idx {
                        Some((i, _)) => Some(i),
                        None => None,
                    },
                ),
                ..w
            };
            if let Some((i, _)) = idx {
                lemma_notes_keep(v, i, id, d, sha);
                lemma_notes_keep(linked(v, i, id), id, i, d, sha);
                lemma_notes_keep(linked(linked(v, i, id), id, i), id, i, d, sha);
            } else {
                lemma_notes_keep(v, id, id, d, sha);
            }
            lemma_entries_keep(
                noted,
                id,
                first,
                pack.entries@,
                data,
                rows_of(x),
                pack.checksum_ok,
                pack.entries@.len(),
            );
        },
        ParsedFile::Idx(idx, pack) => {
            let d = idx_detail(*idx);
            lemma_notes_keep(v, id, id, d, sha);
            let u = detailed(v, id, d);
            if let Some((p, _, _)) = pack {
                lemma_notes_keep(u, p, id, d, sha);
                lemma_notes_keep(linked(u, p, id), p, id, d, sha);
                lemma_notes_keep(indexed(linked(u, p, id), p), id, p, d, sha);
            }
            let filled = idx_filled(w, id, *idx, pack);
            lemma_rows_keep(
                filled,
                id,
                first,
                idx.entries@,
                pack_rows(pack),
                pack_bytes(pack),
                idx.checksum_ok,
                idx.entries@.len(),
            );
        },
        ParsedFile::Loose(x) => {
            lemma_notes_keep(v, id, id, loose_detail(loose_id(filename), *x), sha);
        },
    }
}

/// A file that has been imported is known from then on: another import of the same bytes gives
/// the report of a file that is there already, and changes nothing.
pub proof fn an_imported_file_is_known(
    w: WorldModel,
    source_id: i64,
    first: i64,
    filename: Seq<char>,
    stored_path: Seq<char>,
    data: Seq<u8>,
    file: Result<ParsedFile, String>,
    budget: Budget,
    next_source: i64,
    next_first: i64,
    next_file: Result<ParsedFile, String>,
)
    ensures
        ({
            let once = file_imported(
                w,
                begun(w.sources, source_id, filename, data),
                first,
                filename,
                stored_path,
                data,
                file,
                budget,
            );
            once.1 is Ok ==> {
                let again = file_imported(
                    once.0,
                    begun(once.0.sources, next_source, filename, data),
                    next_first,
                    filename,
                    stored_path,
                    data,
                    next_file,
                    budget,
                );
                &&& again.0 == once.0
                &&& again.1 matches Ok(r) && r.deduped && r.nodes_added == 0
            }
        }),
{
    let sha = hex(sha256_of(data));
    let start = begun(w.sources, source_id, filename, data);
    if let Ok(report) = start {
        if !report.deduped {
            if let Ok(f) = file {
                let s = with_source(w, report, stored_path, data);
                lemma_known_put(
                    w.sources,
                    report.source_id,
                    new_source(report.kind, report.filename, stored_path, data),
                );
                lemma_added_is_known(s, report, first, filename, data, f, sha);
                if let Ok((v, _)) = file_added(s, report, first, filename, data, f) {
                    settling_keeps_the_files(v, budget);
                }
            }
        }
    }
}

proof fn lemma_warnings(v: Seq<(Option<u64>, String)>, n: nat)
    requires
        n <= v.len(),
    ensures
        forall|i: int|
            0 <= i < n && (#[trigger] v[i]).0 is Some ==> entry_warnings(v, n).contains(
                "entry "@ + dec(v[i].0->0 as nat) + ": "@ + v[i].1@,
            ),
        (forall|i: int| 0 <= i < n ==> (#[trigger] v[i]).0 is None) ==> entry_warnings(v, n).len() == 0,
    decreases n,
{
    if n > 0 {
        let p = (n - 1) as nat;
        lemma_warnings(v, p);
        let a = entry_warnings(v, p);
        let b = entry_warnings(v, n);
        assert forall|i: int| 0 <= i < n && (#[trigger] v[i]).0 is Some implies b.contains(
            "entry "@ + dec(v[i].0->0 as nat) + ": "@ + v[i].1@,
        ) by {
            let m = "entry "@ + dec(v[i].0->0 as nat) + ": "@ + v[i].1@;
            if i < p {
                assert(a.contains(m));
                let k = choose|k: int| 0 <= k < a.len() && a[k] == m;
                assert(b[k] == m);
            } else {
                assert(b[b.len() - 1] == m);
            }
        }
    }
}

/// Importing a pack warns of a checksum that is not what was computed, of one of its index, and of each
/// entry that cannot be read; a pack with none of these gives no warning.
pub proof fn what_is_wrong_is_warned_of(p: PackImage, idx: Option<IdxImage>)
    ensures
        ({
            let w = pack_warnings(p, idx);
            &&& !p.checksum_ok ==> w.contains("pack SHA1 trailer mismatch"@)
            &&& idx is Some && !idx->0.checksum_ok ==> w.contains("index SHA1 checksum mismatch"@)
            &&& forall|i: int|
                0 <= i < p.parse_errors@.len() && (#[trigger] p.parse_errors@[i]).0 is Some ==> w.contains(
                    "entry "@ + dec(p.parse_errors@[i].0->0 as nat) + ": "@ + p.parse_errors@[i].1@,
                )
            &&& p.checksum_ok && (idx is None || idx->0.checksum_ok) && p.parse_errors@.len() == 0 ==> w.len() == 0
        }),
{
    let v = p.parse_errors@;
    lemma_warnings(v, v.len());
    let e = entry_warnings(v, v.len());
    let w = pack_warnings(p, idx);
    let k = w.len() - e.len();
    assert forall|i: int| 0 <= i < v.len() && (#[trigger] v[i]).0 is Some implies w.contains(
        "entry "@ + dec(v[i].0->0 as nat) + ": "@ + v[i].1@,
    ) by {
        let m = "entry "@ + dec(v[i].0->0 as nat) + ": "@ + v[i].1@;
        let j = choose|j: int| 0 <= j < e.len() && e[j] == m;
        assert(w[k + j] == m);
    }
    if idx is Some && !idx->0.checksum_ok {
        assert(w[0] == "index SHA1 checksum mismatch"@);
    }
    if !p.checksum_ok {
        assert(w[k - 1] == "pack SHA1 trailer mismatch"@);
    }
}

/// A fanout table is kept bucket by bucket.
pub proof fn a_fanout_table_is_kept(source_id: i64, v: Seq<u32>, i: int)
    requires
        0 <= i < v.len() <= i64::MAX,
    ensures
        fanout_rows(source_id, v).len() == v.len(),
        fanout_rows(source_id, v)[i].source_id == source_id,
        fanout_rows(source_id, v)[i].bucket == i,
        fanout_rows(source_id, v)[i].value == v[i],
{
}

} // verus!
