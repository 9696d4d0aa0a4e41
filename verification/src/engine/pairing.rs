//! Pairing of the indexes and the packs of a catalog, and the import of one file.
use vstd::prelude::*;
use vstd::string::StrSliceExecFns;
use crate::analyze::graph::copy_opt;
use crate::engine::importer::{
    idx_imported, kind_of_file, loose_imported, pack_imported, CandidateModel, CandidateRow, Catalog, CatalogModel,
    EdgeModel, EdgeRow, IdxImage, IdxRecord, ImportReport, LooseImage, PackEntry, PackImage, ReportModel,
    SourceModel, SourceRow,
};
use crate::engine::sha256_hex;
use crate::git::object_id::to_hex;
use crate::git::pack::{is_summary, parse_pack, PackSummary};
use crate::model::assoc::{get, get_of_put, put, IdMap};
use crate::model::num::{to_unsigned, unsigned};
use crate::model::outside::sha256_of;
use crate::model::text::{hex, lower, same_text, to_lower};

verus! {

/// Two texts are the same up to the case of ASCII letters.
pub open spec fn same_lower(a: Seq<char>, b: Seq<char>) -> bool {
    a.len() == b.len() && forall|i: int| 0 <= i < a.len() ==> lower(#[trigger] a[i]) == lower(b[i])
}

fn eq_ignore_case(a: &str, b: &str) -> (r: bool)
    ensures
        r == same_lower(a@, b@),
{
    let n: usize = a.unicode_len();
    if n != b.unicode_len() {
        return false;
    }
    let mut i: usize = 0;
    while i < n
        invariant
            n == a@.len(),
            n == b@.len(),
            i <= n,
            forall|j: int| 0 <= j < i ==> lower(#[trigger] a@[j]) == lower(b@[j]),
        decreases n - i,
    {
        if to_lower(a.get_char(i)) != to_lower(b.get_char(i)) {
            assert(lower(a@[i as int]) != lower(b@[i as int]));
            return false;
        }
        i += 1;
    }
    true
}

/// The place of the first record at an offset, from place `n` on.
pub open spec fn record_place(v: Seq<IdxRecord>, offset: u64, n: nat) -> nat
    decreases v.len() - n,
{
    if n >= v.len() || v[n as int].offset == offset {
        n
    } else {
        record_place(v, offset, n + 1)
    }
}

/// The first record at an offset.
pub open spec fn record_for(v: Seq<IdxRecord>, offset: u64) -> Option<IdxRecord> {
    let k = record_place(v, offset, 0);
    if k < v.len() {
        Some(v[k as int])
    } else {
        None
    }
}

impl IdxImage {
    pub fn record_at(&self, offset: u64) -> (r: Option<IdxRecord>)
        ensures
            r == record_for(self.records@, offset),
    {
        let mut n: usize = 0;
        while n < self.records.len()
            invariant
                n <= self.records@.len(),
                record_place(self.records@, offset, 0) == record_place(self.records@, offset, n as nat),
            decreases self.records@.len() - n,
        {
            if self.records[n].offset == offset {
                return Some(self.records[n]);
            }
            n += 1;
        }
        None
    }
}

/// The record of an index for a candidate of a pack.
pub open spec fn record_of(c: CandidateModel, sid: i64, idx: IdxImage) -> Option<IdxRecord> {
    if c.source_id == sid && c.pack_offset is Some {
        record_for(idx.records@, unsigned(c.pack_offset->0) as u64)
    } else {
        None
    }
}

/// A candidate with what an index claims of it.
pub open spec fn claimed(c: CandidateModel, r: IdxRecord, has_crc: bool) -> CandidateModel {
    CandidateModel {
        declared_oid_hex: Some(hex(r.oid@)),
        idx_crc32: if has_crc {
            Some(r.crc32)
        } else {
            None
        },
        crc_ok: if has_crc && c.entry_crc32 is Some {
            Some(r.crc32 == c.entry_crc32->0)
        } else {
            None
        },
        ..c
    }
}

/// The candidates with what an index claims of the first `n` rows; and whether it names any.
pub open spec fn claims_upto(v: Seq<(i64, CandidateModel)>, sid: i64, idx: IdxImage, n: nat) -> (
    Seq<(i64, CandidateModel)>,
    bool,
)
    decreases n,
{
    if n == 0 {
        (v, false)
    } else {
        let w = claims_upto(v, sid, idx, (n - 1) as nat);
        match record_of(v[n - 1].1, sid, idx) {
            Some(r) => (w.0.update(n - 1, (v[n - 1].0, claimed(v[n - 1].1, r, idx.has_crc))), true),
            None => w,
        }
    }
}

/// The number of the first candidate at an offset of a source, from row `n` on.
pub open spec fn candidate_at(v: Seq<(i64, CandidateModel)>, sid: i64, offset: Option<i64>, n: nat) -> Option<i64>
    decreases v.len() - n,
{
    if n >= v.len() {
        None
    } else if v[n as int].1.source_id == sid && offset is Some && v[n as int].1.pack_offset == offset {
        Some(v[n as int].0)
    } else {
        candidate_at(v, sid, offset, n + 1)
    }
}

/// The declared base of candidate `from`, found again among the candidates of a source.
pub open spec fn relinked(e: EdgeModel, from: i64, v: Seq<(i64, CandidateModel)>, sid: i64) -> EdgeModel {
    if e.kind == "ofs"@ && (get(v, from) matches Some(c) && c.source_id == sid) {
        EdgeModel { to_candidate_id: candidate_at(v, sid, e.to_offset, 0), ..e }
    } else {
        e
    }
}

/// All declared bases, found again among the candidates of a source.
pub open spec fn all_relinked(e: Seq<(i64, EdgeModel)>, v: Seq<(i64, CandidateModel)>, sid: i64) -> Seq<
    (i64, EdgeModel),
> {
    Seq::new(e.len(), |i: int| (e[i].0, relinked(e[i].1, e[i].0, v, sid)))
}

/// A catalog with what an index claims of the candidates of a pack.
pub open spec fn with_claims(c: CatalogModel, sid: i64, idx: IdxImage) -> CatalogModel {
    let w = claims_upto(c.candidates, sid, idx, c.candidates.len());
    CatalogModel {
        candidates: w.0,
        edges: if w.1 {
            all_relinked(c.edges, w.0, sid)
        } else {
            c.edges
        },
        ..c
    }
}

/// A catalog with a note on the pairing of a source.
pub open spec fn with_pair(c: CatalogModel, sid: i64, pair: Option<i64>, note: Seq<char>) -> CatalogModel {
    match get(c.sources, sid) {
        Some(s) => CatalogModel {
            sources: put(
                c.sources,
                sid,
                SourceModel { pair_source_id: pair, pairing_note: Some(note), ..s },
            ),
            ..c
        },
        None => c,
    }
}

/// The number of the first pack whose trailer holds a checksum, from row `n` on.
pub open spec fn pack_with(v: Seq<(i64, SourceModel)>, checksum: Seq<char>, n: nat) -> Option<i64>
    decreases v.len() - n,
{
    if n >= v.len() {
        None
    } else if v[n as int].1.kind == "pack"@ && (v[n as int].1.stored_checksum_hex matches Some(s)
        && same_lower(s, checksum)) {
        Some(v[n as int].0)
    } else {
        pack_with(v, checksum, n + 1)
    }
}

/// The place of the index with a digest, from place `n` on.
pub open spec fn image_of(v: Seq<(String, IdxImage)>, digest: Seq<char>, n: nat) -> nat
    decreases v.len() - n,
{
    if n >= v.len() || v[n as int].0@ == digest {
        n
    } else {
        image_of(v, digest, n + 1)
    }
}

/// A catalog in which index `id`, stored under `digest`, has been paired.
pub open spec fn paired(c: CatalogModel, id: i64, digest: Seq<char>, images: Seq<(String, IdxImage)>) -> CatalogModel {
    let k = image_of(images, digest, 0);
    if k >= images.len() {
        c
    } else {
        let idx = images[k as int].1;
        match pack_with(c.sources, hex(idx.pack_checksum@), 0) {
            Some(pack) => with_claims(
                with_pair(
                    with_pair(c, id, Some(pack), "matched by pack checksum"@),
                    pack,
                    Some(id),
                    "matched by pack checksum"@,
                ),
                pack,
                idx,
            ),
            None => with_pair(
                c,
                id,
                None,
                "orphan index: pack checksum matches no imported pack"@,
            ),
        }
    }
}

/// A catalog in which the indexes among the first `n` rows of `start` have been paired.
pub open spec fn paired_upto(
    c: CatalogModel,
    start: Seq<(i64, SourceModel)>,
    images: Seq<(String, IdxImage)>,
    n: nat,
) -> CatalogModel
    decreases n,
{
    if n == 0 {
        c
    } else {
        let w = paired_upto(c, start, images, (n - 1) as nat);
        if start[n - 1].1.kind == "idx"@ {
            paired(w, start[n - 1].0, start[n - 1].1.sha256, images)
        } else {
            w
        }
    }
}

/// Some index is paired with source `id`.
pub open spec fn has_index(v: Seq<(i64, SourceModel)>, id: i64) -> bool {
    exists|i: int| 0 <= i < v.len() && (#[trigger] v[i]).1.kind == "idx"@ && v[i].1.pair_source_id == Some(id)
}

/// A catalog in which the packs among the first `n` rows of `start` that have no index say so.
pub open spec fn lonely_upto(c: CatalogModel, start: Seq<(i64, SourceModel)>, n: nat) -> CatalogModel
    decreases n,
{
    if n == 0 {
        c
    } else {
        let w = lonely_upto(c, start, (n - 1) as nat);
        let id = start[n - 1].0;
        if start[n - 1].1.kind == "pack"@ && (get(w.sources, id) matches Some(s) && s.pair_source_id is None)
            && !has_index(w.sources, id) {
            with_pair(w, id, None, "no matching index imported"@)
        } else {
            w
        }
    }
}

/// A catalog in which all pairings have been made.
pub open spec fn repaired(c: CatalogModel, images: Seq<(String, IdxImage)>) -> CatalogModel {
    let w = paired_upto(c, c.sources, images, c.sources.len());
    lonely_upto(w, c.sources, c.sources.len())
}

fn copy_source(x: &SourceRow) -> (r: SourceRow)
    ensures
        r.deep_view() == x.deep_view(),
{
    SourceRow {
        kind: x.kind.clone(),
        filename: x.filename.clone(),
        sha256: x.sha256.clone(),
        size: x.size,
        version: x.version,
        object_count: x.object_count,
        stored_checksum_hex: copy_opt(&x.stored_checksum_hex),
        pack_checksum_hex: copy_opt(&x.pack_checksum_hex),
        checksum_ok: x.checksum_ok,
        parse_status: x.parse_status.clone(),
        parse_detail: x.parse_detail.clone(),
        pair_source_id: x.pair_source_id,
        pairing_note: copy_opt(&x.pairing_note),
    }
}

fn copy_candidate(x: &CandidateRow) -> (r: CandidateRow)
    ensures
        r.deep_view() == x.deep_view(),
{
    CandidateRow {
        source_id: x.source_id,
        pack_offset: x.pack_offset,
        declared_oid_hex: copy_opt(&x.declared_oid_hex),
        computed_oid_hex: copy_opt(&x.computed_oid_hex),
        obj_type: x.obj_type.clone(),
        claimed_size: x.claimed_size,
        inflated_size: x.inflated_size,
        compressed_len: x.compressed_len,
        header_len: x.header_len,
        entry_crc32: x.entry_crc32,
        idx_crc32: x.idx_crc32,
        crc_ok: x.crc_ok,
        ofs_base_offset: x.ofs_base_offset,
        ref_base_oid_hex: copy_opt(&x.ref_base_oid_hex),
        parse_status: x.parse_status.clone(),
        parse_detail: x.parse_detail.clone(),
    }
}

fn same_place(a: Option<i64>, b: Option<i64>) -> (r: bool)
    ensures
        r == (b is Some && a == b),
{
    match (a, b) {
        (Some(x), Some(y)) => x == y,
        _ => false,
    }
}

fn find_candidate(v: &IdMap<CandidateRow>, sid: i64, offset: Option<i64>) -> (r: Option<i64>)
    ensures
        r == candidate_at(v@, sid, offset, 0),
{
    let mut n: usize = 0;
    while n < v.len()
        invariant
            n <= v@.len(),
            candidate_at(v@, sid, offset, 0) == candidate_at(v@, sid, offset, n as nat),
        decreases v@.len() - n,
    {
        let x = v.value_at(n);
        if x.source_id == sid && same_place(x.pack_offset, offset) {
            return Some(v.key_at(n));
        }
        n += 1;
    }
    None
}

fn find_pack(v: &IdMap<SourceRow>, checksum: &str) -> (r: Option<i64>)
    ensures
        r == pack_with(v@, checksum@, 0),
{
    let mut n: usize = 0;
    while n < v.len()
        invariant
            n <= v@.len(),
            pack_with(v@, checksum@, 0) == pack_with(v@, checksum@, n as nat),
        decreases v@.len() - n,
    {
        let x = v.value_at(n);
        let same: bool = match &x.stored_checksum_hex {
            Some(s) => eq_ignore_case(s.as_str(), checksum),
            None => false,
        };
        if same_text(x.kind.as_str(), "pack") && same {
            return Some(v.key_at(n));
        }
        n += 1;
    }
    None
}

fn find_image(v: &Vec<(String, IdxImage)>, digest: &str) -> (n: usize)
    ensures
        n == image_of(v@, digest@, 0),
        n <= v@.len(),
{
    let mut n: usize = 0;
    while n < v.len() && !same_text(v[n].0.as_str(), digest)
        invariant
            n <= v@.len(),
            image_of(v@, digest@, 0) == image_of(v@, digest@, n as nat),
        decreases v@.len() - n,
    {
        n += 1;
    }
    n
}

fn is_paired(v: &IdMap<SourceRow>, id: i64) -> (r: bool)
    ensures
        r == has_index(v@, id),
{
    let mut i: usize = 0;
    while i < v.len()
        invariant
            i <= v@.len(),
            forall|j: int|
                0 <= j < i ==> !((#[trigger] v@[j]).1.kind == "idx"@ && v@[j].1.pair_source_id == Some(id)),
        decreases v@.len() - i,
    {
        let x = v.value_at(i);
        if same_text(x.kind.as_str(), "idx") && same_place(x.pair_source_id, Some(id)) {
            assert(v@[i as int].1.pair_source_id == Some(id));
            return true;
        }
        i += 1;
    }
    false
}

impl Catalog {
    fn set_pair(&mut self, sid: i64, pair: Option<i64>, note: &str)
        ensures
            final(self)@ == with_pair(old(self)@, sid, pair, note@),
    {
        let row = match self.sources.get(sid) {
            Some(s) => {
                let mut x = copy_source(s);
                x.pair_source_id = pair;
                x.pairing_note = Some(note.to_owned());
                Some(x)
            },
            None => None,
        };
        if let Some(x) = row {
            self.sources.insert(sid, x);
        }
    }

    /// Fills in what an index claims of the candidates of a pack.
    pub fn attach_idx_claims(&mut self, sid: i64, idx: &IdxImage)
        ensures
            final(self)@ == with_claims(old(self)@, sid, *idx),
    {
        let ghost start = self@;
        let total: usize = self.candidates.len();
        let mut any: bool = false;
        let mut n: usize = 0;
        while n < total
            invariant
                n <= total,
                total == start.candidates.len(),
                (self@.candidates, any) == claims_upto(start.candidates, sid, *idx, n as nat),
                self@.candidates.len() == total,
                forall|j: int| n <= j < total ==> self@.candidates[j] == start.candidates[j],
                self@ == (CatalogModel { candidates: self@.candidates, ..start }),
            decreases total - n,
        {
            let x = self.candidates.value_at(n);
            assert(self@.candidates[n as int] == start.candidates[n as int]);
            let rec: Option<IdxRecord> = match x.pack_offset {
                Some(off) => if x.source_id == sid {
                    idx.record_at(to_unsigned(off))
                } else {
                    None
                },
                None => None,
            };
            if let Some(r) = rec {
                let mut row = copy_candidate(x);
                row.declared_oid_hex = Some(to_hex(&r.oid));
                row.idx_crc32 = if idx.has_crc {
                    Some(r.crc32)
                } else {
                    None
                };
                row.crc_ok = match row.entry_crc32 {
                    Some(c) => if idx.has_crc {
                        Some(r.crc32 == c)
                    } else {
                        None
                    },
                    None => None,
                };
                assert(row.deep_view() == claimed(start.candidates[n as int].1, r, idx.has_crc));
                self.candidates.set_at(n, row);
                any = true;
            }
            n += 1;
        }
        if any {
            self.relink(sid);
        }
    }

    fn relink(&mut self, sid: i64)
        ensures
            final(self)@ == (CatalogModel {
                edges: all_relinked(old(self)@.edges, old(self)@.candidates, sid),
                ..old(self)@
            }),
    {
        let ghost start = self@;
        let ghost goal = all_relinked(start.edges, start.candidates, sid);
        let total: usize = self.edges.len();
        let mut n: usize = 0;
        while n < total
            invariant
                n <= total,
                total == start.edges.len(),
                goal == all_relinked(start.edges, start.candidates, sid),
                self@ == (CatalogModel { edges: self@.edges, ..start }),
                self@.edges.len() == total,
                forall|j: int| 0 <= j < n ==> self@.edges[j] == #[trigger] goal[j],
                forall|j: int| n <= j < total ==> self@.edges[j] == start.edges[j],
            decreases total - n,
        {
            let e = self.edges.value_at(n);
            let from: i64 = self.edges.key_at(n);
            assert(self@.edges[n as int] == start.edges[n as int]);
            let inside: bool = match self.candidates.get(from) {
                Some(c) => c.source_id == sid,
                None => false,
            };
            if same_text(e.kind.as_str(), "ofs") && inside {
                let row = EdgeRow {
                    to_candidate_id: find_candidate(&self.candidates, sid, e.to_offset),
                    to_oid_hex: copy_opt(&e.to_oid_hex),
                    to_offset: e.to_offset,
                    kind: e.kind.clone(),
                };
                assert(row.deep_view() == relinked(start.edges[n as int].1, from, start.candidates, sid));
                self.edges.set_at(n, row);
            }
            assert(self@.edges[n as int] == goal[n as int]);
            n += 1;
        }
        assert(self@.edges =~= goal);
    }

    /// Pairs every index with a pack whose stored trailer checksum equals the index's
    /// pack checksum. Fills in declared ids and checksums, and notes on both sides how the
    /// pairing went. `images` holds the parsed indexes by digest; an index that is not among
    /// them could not be parsed and is passed over.
    pub fn repair_pairings(&mut self, images: &Vec<(String, IdxImage)>)
        ensures
            final(self)@ == repaired(old(self)@, images@),
    {
        let ghost start = self@;
        let mut rows: Vec<(i64, String, String)> = Vec::new();
        let mut k: usize = 0;
        while k < self.sources.len()
            invariant
                k <= start.sources.len(),
                self@ == start,
                rows@.len() == k,
                forall|j: int|
                    0 <= j < k ==> (#[trigger] rows@[j]).0 == start.sources[j].0 && rows@[j].1@
                        == start.sources[j].1.kind && rows@[j].2@ == start.sources[j].1.sha256,
            decreases start.sources.len() - k,
        {
            let x = self.sources.value_at(k);
            rows.push((self.sources.key_at(k), x.kind.clone(), x.sha256.clone()));
            k += 1;
        }
        let mut n: usize = 0;
        while n < rows.len()
            invariant
                n <= rows@.len(),
                rows@.len() == start.sources.len(),
                forall|j: int|
                    0 <= j < rows@.len() ==> (#[trigger] rows@[j]).0 == start.sources[j].0 && rows@[j].1@
                        == start.sources[j].1.kind && rows@[j].2@ == start.sources[j].1.sha256,
                self@ == paired_upto(start, start.sources, images@, n as nat),
            decreases rows@.len() - n,
        {
            let row = &rows[n];
            assert(rows@[n as int].1@ == start.sources[n as int].1.kind);
            if same_text(row.1.as_str(), "idx") {
                self.pair_index(row.0, row.2.as_str(), images);
            }
            n += 1;
        }
        let ghost middle = self@;
        let mut m: usize = 0;
        while m < rows.len()
            invariant
                m <= rows@.len(),
                rows@.len() == start.sources.len(),
                forall|j: int|
                    0 <= j < rows@.len() ==> (#[trigger] rows@[j]).0 == start.sources[j].0 && rows@[j].1@
                        == start.sources[j].1.kind && rows@[j].2@ == start.sources[j].1.sha256,
                self@ == lonely_upto(middle, start.sources, m as nat),
            decreases rows@.len() - m,
        {
            let row = &rows[m];
            assert(rows@[m as int].1@ == start.sources[m as int].1.kind);
            let alone: bool = match self.sources.get(row.0) {
                Some(s) => s.pair_source_id.is_none(),
                None => false,
            };
            if same_text(row.1.as_str(), "pack") && alone && !is_paired(&self.sources, row.0) {
                self.set_pair(row.0, None, "no matching index imported");
            }
            m += 1;
        }
    }

    fn pair_index(&mut self, id: i64, digest: &str, images: &Vec<(String, IdxImage)>)
        ensures
            final(self)@ == paired(old(self)@, id, digest@, images@),
    {
        let k: usize = find_image(images, digest);
        if k >= images.len() {
            return;
        }
        let idx = &images[k].1;
        let checksum = to_hex(&idx.pack_checksum);
        match find_pack(&self.sources, checksum.as_str()) {
            Some(pack) => {
                self.set_pair(id, Some(pack), "matched by pack checksum");
                self.set_pair(pack, Some(id), "matched by pack checksum");
                self.attach_idx_claims(pack, idx);
            },
            None => {
                self.set_pair(id, None, "orphan index: pack checksum matches no imported pack");
            },
        }
    }
}

/// What a parser made of a file.
#[derive(Debug)]
pub enum Parsed {
    Pack(Result<PackImage, String>),
    Idx(Result<IdxImage, String>),
    Loose(Result<LooseImage, String>),
}

impl Parsed {
    /// The kind of file that the parser was for.
    pub open spec fn kind(self) -> Seq<char> {
        match self {
            Parsed::Pack(_) => "pack"@,
            Parsed::Idx(_) => "idx"@,
            Parsed::Loose(_) => "loose"@,
        }
    }
}

/// The place of the source with a digest, from row `n` on.
pub open spec fn source_place(v: Seq<(i64, SourceModel)>, digest: Seq<char>, n: nat) -> nat
    decreases v.len() - n,
{
    if n >= v.len() || v[n as int].1.sha256 == digest {
        n
    } else {
        source_place(v, digest, n + 1)
    }
}

/// How many of the first `n` candidates come from a source.
pub open spec fn count_of(v: Seq<(i64, CandidateModel)>, sid: i64, n: nat) -> nat
    decreases n,
{
    if n == 0 {
        0
    } else {
        count_of(v, sid, (n - 1) as nat) + if v[n - 1].1.source_id == sid {
            1nat
        } else {
            0
        }
    }
}

/// What importing a file gives: content that is there already changes nothing, and other
/// content is recorded and paired.
pub open spec fn file_imported(
    c: CatalogModel,
    filename: Seq<char>,
    data: Seq<u8>,
    parsed: Parsed,
    images: Seq<(String, IdxImage)>,
) -> (CatalogModel, ReportModel) {
    let digest = hex(sha256_of(data));
    let k = source_place(c.sources, digest, 0);
    if k < c.sources.len() {
        let (id, s) = c.sources[k as int];
        (
            c,
            ReportModel {
                source_id: id,
                kind: s.kind,
                filename: s.filename,
                sha256: digest,
                parse_status: s.parse_status,
                parse_detail: s.parse_detail,
                candidates: count_of(c.candidates, id, c.candidates.len()) as u64,
                duplicate: true,
            },
        )
    } else {
        let size = data.len() as u64;
        let w = match parsed {
            Parsed::Pack(p) => pack_imported(c, filename, digest, size, p),
            Parsed::Idx(x) => idx_imported(c, filename, digest, size, x),
            Parsed::Loose(x) => loose_imported(c, filename, digest, size, x),
        };
        (repaired(w.0, images), w.1)
    }
}

impl Catalog {
    fn source_by_digest(&self, digest: &str) -> (n: usize)
        ensures
            n == source_place(self@.sources, digest@, 0),
            n <= self@.sources.len(),
    {
        let mut n: usize = 0;
        while n < self.sources.len() && !same_text(self.sources.value_at(n).sha256.as_str(), digest)
            invariant
                n <= self@.sources.len(),
                source_place(self@.sources, digest@, 0) == source_place(self@.sources, digest@, n as nat),
            decreases self@.sources.len() - n,
        {
            n += 1;
        }
        n
    }

    fn candidates_of_source(&self, sid: i64) -> (count: u64)
        ensures
            count == count_of(self@.candidates, sid, self@.candidates.len()),
    {
        let mut count: u64 = 0;
        let mut n: usize = 0;
        while n < self.candidates.len()
            invariant
                n <= self@.candidates.len(),
                count <= n,
                count == count_of(self@.candidates, sid, n as nat),
            decreases self@.candidates.len() - n,
        {
            if self.candidates.value_at(n).source_id == sid {
                count += 1;
            }
            n += 1;
        }
        count
    }

    /// Imports one file. `parsed` is what the parser for its kind, which `detect_kind` tells, made
    /// of it, and `images` holds all parsed indexes by digest, with this one if it is an index.
    pub fn import_bytes(
        &mut self,
        filename: &str,
        data: &[u8],
        parsed: Parsed,
        images: &Vec<(String, IdxImage)>,
    ) -> (r: ImportReport)
        requires
            parsed.kind() == kind_of_file(data@, filename@),
            old(self).next_source < i64::MAX,
            0 <= old(self).next_candidate < i64::MAX,
            parsed matches Parsed::Pack(Ok(p)) ==> old(self).next_candidate + p.entries@.len() <= i64::MAX,
        ensures
            (final(self)@, r@) == file_imported(old(self)@, filename@, data@, parsed, images@),
    {
        let digest = sha256_hex(data);
        let k: usize = self.source_by_digest(digest.as_str());
        if k < self.sources.len() {
            let id: i64 = self.sources.key_at(k);
            let s = self.sources.value_at(k);
            return ImportReport {
                source_id: id,
                kind: s.kind.clone(),
                filename: s.filename.clone(),
                sha256: digest,
                parse_status: s.parse_status.clone(),
                parse_detail: s.parse_detail.clone(),
                candidates: self.candidates_of_source(id),
                duplicate: true,
            };
        }
        let size: u64 = data.len() as u64;
        assert(data@.len() == data.len());
        let report = match parsed {
            Parsed::Pack(p) => self.import_pack(filename, digest.as_str(), size, p),
            Parsed::Idx(x) => self.import_idx(filename, digest.as_str(), size, x),
            Parsed::Loose(x) => self.import_loose(filename, digest.as_str(), size, x),
        };
        self.repair_pairings(images);
        report
    }
}

/// Pairing changes no source but in its pair and the note on it, and makes none.
pub proof fn pairings_keep_sources(c: CatalogModel, sid: i64, pair: Option<i64>, note: Seq<char>, id: i64)
    ensures
        match (get(c.sources, id), get(with_pair(c, sid, pair, note).sources, id)) {
            (Some(a), Some(b)) => b == (SourceModel {
                pair_source_id: b.pair_source_id,
                pairing_note: b.pairing_note,
                ..a
            }),
            (None, None) => true,
            _ => false,
        },
{
    if get(c.sources, sid) is Some {
        let s = get(c.sources, sid)->0;
        get_of_put(c.sources, sid, SourceModel { pair_source_id: pair, pairing_note: Some(note), ..s }, id);
    }
}

/// Content that has been imported is not imported again: the catalog stays as it is.
pub proof fn imports_are_idempotent(
    c: CatalogModel,
    filename: Seq<char>,
    data: Seq<u8>,
    parsed: Parsed,
    images: Seq<(String, IdxImage)>,
    i: int,
)
    requires
        0 <= i < c.sources.len(),
        c.sources[i].1.sha256 == hex(sha256_of(data)),
    ensures
        file_imported(c, filename, data, parsed, images).0 == c,
        file_imported(c, filename, data, parsed, images).1.duplicate,
{
    lemma_source_found(c.sources, hex(sha256_of(data)), i, 0);
}

proof fn lemma_source_found(v: Seq<(i64, SourceModel)>, digest: Seq<char>, i: int, n: nat)
    requires
        n <= i < v.len(),
        v[i].1.sha256 == digest,
    ensures
        source_place(v, digest, n) < v.len(),
    decreases v.len() - n,
{
    if v[n as int].1.sha256 != digest {
        lemma_source_found(v, digest, i, n + 1);
    }
}

/// Parses a pack from its bytes.
pub fn parse_pack_bytes(data: &[u8]) -> (s: PackSummary)
    ensures
        is_summary(s, data@, None),
{
    parse_pack(data, None)
}

/// An entry with what an index says of its offset.
pub open spec fn is_attached(e: PackEntry, f: PackEntry, idx: IdxImage) -> bool {
    match record_for(idx.records@, e.offset) {
        Some(r) => f == (PackEntry {
            claim_oid: Some(r.oid),
            idx_crc32: if idx.has_crc {
                Some(r.crc32)
            } else {
                None
            },
            ..e
        }),
        None => f == e,
    }
}

/// Fills the records of an index into the entries of a pack.
pub fn build_attached(pack: &mut PackImage, idx: &IdxImage)
    ensures
        final(pack).entries@.len() == old(pack).entries@.len(),
        forall|i: int|
            0 <= i < old(pack).entries@.len() ==> is_attached(
                old(pack).entries@[i],
                #[trigger] final(pack).entries@[i],
                *idx,
            ),
        *final(pack) == (PackImage { entries: final(pack).entries, ..*old(pack) }),
{
    let ghost start = *pack;
    let mut n: usize = 0;
    while n < pack.entries.len()
        invariant
            n <= pack.entries@.len(),
            pack.entries@.len() == start.entries@.len(),
            forall|i: int| 0 <= i < n ==> is_attached(start.entries@[i], #[trigger] pack.entries@[i], *idx),
            forall|i: int| n <= i < start.entries@.len() ==> #[trigger] pack.entries@[i] == start.entries@[i],
            *pack == (PackImage { entries: pack.entries, ..start }),
        decreases pack.entries@.len() - n,
    {
        let offset: u64 = pack.entries[n].offset;
        if let Some(r) = idx.record_at(offset) {
            let e = &pack.entries[n];
            let f = PackEntry {
                offset: e.offset,
                claim_oid: Some(r.oid),
                kind: e.kind,
                claimed_size: e.claimed_size,
                inflated_len: e.inflated_len,
                compressed_len: e.compressed_len,
                header_len: e.header_len,
                entry_crc32: e.entry_crc32,
                idx_crc32: if idx.has_crc {
                    Some(r.crc32)
                } else {
                    None
                },
                ofs_base_offset: e.ofs_base_offset,
                ref_base_oid: e.ref_base_oid,
                inflate_status: e.inflate_status.clone(),
                inflate_detail: e.inflate_detail.clone(),
            };
            pack.entries.set(n, f);
        }
        n += 1;
    }
}

proof fn lemma_candidate_at(v: Seq<(i64, CandidateModel)>, sid: i64, offset: Option<i64>, n: nat)
    requires
        n <= v.len(),
    ensures
        candidate_at(v, sid, offset, n) is Some <==> offset is Some && exists|i: int|
            n <= i < v.len() && (#[trigger] v[i]).1.source_id == sid && v[i].1.pack_offset == offset,
        candidate_at(v, sid, offset, n) is Some ==> exists|i: int|
            n <= i < v.len() && (#[trigger] v[i]).1.source_id == sid && v[i].1.pack_offset == offset && v[i].0
                == candidate_at(v, sid, offset, n)->0,
    decreases v.len() - n,
{
    if n < v.len() && !(v[n as int].1.source_id == sid && offset is Some && v[n as int].1.pack_offset == offset) {
        lemma_candidate_at(v, sid, offset, n + 1);
    }
}

/// A base that was declared by its place is found again: it is a candidate of the same pack at that
/// place, and it is missing only when there is none. What else is declared stays.
pub proof fn declared_bases_are_found_again(e: EdgeModel, from: i64, v: Seq<(i64, CandidateModel)>, sid: i64)
    ensures
        ({
            let r = relinked(e, from, v, sid);
            let own = e.kind == "ofs"@ && get(v, from) is Some && (get(v, from)->0).source_id == sid;
            &&& r.kind == e.kind && r.to_offset == e.to_offset
            &&& !own ==> r == e
            &&& own ==> (r.to_candidate_id is Some <==> e.to_offset is Some && exists|i: int|
                0 <= i < v.len() && (#[trigger] v[i]).1.source_id == sid && v[i].1.pack_offset == e.to_offset)
            &&& own && r.to_candidate_id is Some ==> exists|i: int|
                0 <= i < v.len() && (#[trigger] v[i]).1.source_id == sid && v[i].1.pack_offset == e.to_offset && v[i].0
                    == r.to_candidate_id->0
        }),
{
    lemma_candidate_at(v, sid, e.to_offset, 0);
}

} // verus!
