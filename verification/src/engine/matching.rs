//! What importing promises: the nodes and candidates of pack entries, and what the rows of an index
//! say of them.
use vstd::prelude::*;
use crate::engine::import::{
    backfilled, crc_verdict, entry_claim, entry_node, loose_added, loose_id, row_at, row_for, with_entries, EntryImage, IdxRow, LooseImage,
    ReportModel,
};
use crate::engine::importer::{
    entry_at, entry_row, number_at, pack_row, with_edges, CandidateModel, CatalogModel, EdgeModel,
    IdxImage, IdxRecord, PackEntry, PackImage, SourceModel,
};
use crate::engine::pairing::{
    claimed, claims_upto, image_of, pack_with, paired, record_of, record_place, same_lower, with_claims,
};
use crate::engine::resolve::{key_less, node_at, CandModel, NodeModel, WorldModel};
use crate::engine::{keys_are_ordered_as_numbers, rank_text};
use crate::git::types::ObjType;
use crate::model::assoc::{get, get_of_put, put};
use crate::model::crc::crc32_of;
use crate::model::num::{signed, unsigned};
use crate::model::text::{hex, is_hex, lower, unhex};

verus! {

proof fn lemma_row_at(v: Seq<IdxRow>, offset: u64, n: nat)
    requires
        n <= v.len(),
    ensures
        n <= row_at(v, offset, n) <= v.len(),
        forall|i: int| n <= i < row_at(v, offset, n) ==> (#[trigger] v[i]).offset != offset,
        row_at(v, offset, n) < v.len() ==> v[row_at(v, offset, n) as int].offset == offset,
    decreases v.len() - n,
{
    if n < v.len() && v[n as int].offset != offset {
        lemma_row_at(v, offset, n + 1);
    }
}

/// Row `k` is the first of the index that names the offset.
pub open spec fn is_row_of(idx: Option<Seq<IdxRow>>, offset: u64, k: int) -> bool {
    &&& idx is Some
    &&& 0 <= k < idx->0.len()
    &&& idx->0[k].offset == offset
    &&& forall|j: int| 0 <= j < k ==> (#[trigger] idx->0[j]).offset != offset
}

/// The bytes of the entry, from its header to the end of its stream, are known.
pub open spec fn has_bytes(e: EntryImage, data: Seq<u8>) -> bool {
    e.zlib is Some && e.header_start <= e.zlib->0.compressed_end <= data.len()
}

/// The checksum of the bytes of the entry.
pub open spec fn bytes_sum(e: EntryImage, data: Seq<u8>) -> u32 {
    crc32_of(data.subrange(e.header_start as int, e.zlib->0.compressed_end as int))
}

/// What the node of an entry says of its checksums: the one of its bytes, the one of the first index
/// row at its offset, and whether they are the same, where both are known.
pub open spec fn checks(x: NodeModel, e: EntryImage, data: Seq<u8>, idx: Option<Seq<IdxRow>>) -> bool {
    &&& has_bytes(e, data) ==> x.crc_actual == Some(bytes_sum(e, data) as i64)
    &&& !has_bytes(e, data) ==> x.crc_actual is None
    &&& forall|k: int| #[trigger]
        is_row_of(idx, e.header_start, k) ==> x.crc_expected == Some(idx->0[k].crc32 as i64) && (has_bytes(e, data) ==> (
        x.crc_ok == Some(1i64) <==> idx->0[k].crc32 == bytes_sum(e, data)) && (x.crc_ok == Some(0i64) <==> idx->0[k].crc32
            != bytes_sum(e, data)))
    &&& (forall|k: int| !#[trigger] is_row_of(idx, e.header_start, k)) ==> x.crc_expected is None && x.crc_ok is None
    &&& !has_bytes(e, data) ==> x.crc_ok is None
}

proof fn lemma_row_for(idx: Option<Seq<IdxRow>>, offset: u64)
    ensures
        forall|k: int| #[trigger] is_row_of(idx, offset, k) ==> row_for(idx, offset) == Some(idx->0[k]),
        (forall|k: int| !#[trigger] is_row_of(idx, offset, k)) ==> row_for(idx, offset) is None,
        row_for(idx, offset) matches Some(r) ==> r.offset == offset && idx is Some && idx->0.contains(r),
{
    if let Some(v) = idx {
        lemma_row_at(v, offset, 0);
        let p = row_at(v, offset, 0) as int;
        if p < v.len() {
            assert(is_row_of(idx, offset, p));
        }
        assert forall|k: int| #[trigger] is_row_of(idx, offset, k) implies row_for(idx, offset) == Some(idx->0[k]) by {
            if p < k {
                assert(idx->0[p].offset != offset);
            }
            if k < p {
                assert(v[k].offset != offset);
            }
        }
    }
}

proof fn lemma_entry_nodes(
    w: WorldModel,
    source_id: i64,
    first: i64,
    v: Seq<EntryImage>,
    data: Seq<u8>,
    idx: Option<Seq<IdxRow>>,
    sound: bool,
    n: nat,
    k: int,
)
    requires
        n <= v.len(),
        first + v.len() <= i64::MAX,
        0 <= k < n,
    ensures
        get(with_entries(w, source_id, first, v, data, idx, sound, n).nodes, (first + k) as i64) == Some(
            entry_node((first + k) as i64, source_id, v[k], data, row_for(idx, v[k].header_start)),
        ),
    decreases n,
{
    let u = with_entries(w, source_id, first, v, data, idx, sound, (n - 1) as nat);
    let id = (first + n - 1) as i64;
    let node = entry_node(id, source_id, v[n - 1], data, row_for(idx, v[n - 1].header_start));
    get_of_put(u.nodes, id, node, (first + k) as i64);
    if k < n - 1 {
        lemma_entry_nodes(w, source_id, first, v, data, idx, sound, (n - 1) as nat, k);
    }
}

/// Every entry of an imported pack becomes a node that says where its bytes are, what they inflate
/// to, what base they name, whether they could be read, and whether an index confirms them.
pub proof fn an_entry_becomes_a_node(
    w: WorldModel,
    source_id: i64,
    first: i64,
    v: Seq<EntryImage>,
    data: Seq<u8>,
    idx: Option<Seq<IdxRow>>,
    sound: bool,
    k: int,
)
    requires
        0 <= k < v.len(),
        first + v.len() <= i64::MAX,
        v[k].header_start <= i64::MAX,
    ensures
        ({
            let e = v[k];
            let id = (first + k) as i64;
            let u = with_entries(w, source_id, first, v, data, idx, sound, v.len());
            let x = get(u.nodes, id)->0;
            &&& get(u.nodes, id) is Some
            &&& x.id == id && x.source_id == source_id
            &&& x.pack_offset == Some(e.header_start as i64)
            &&& x.header_start == Some(e.header_start as i64)
            &&& e.inflated is Some ==> x.raw == Some(e.inflated->0@)
            &&& e.inflated is None ==> x.raw is None
            &&& x.parse_status == "ok"@ <==> e.inflate_error is None
            &&& e.ref_base_oid is Some ==> x.ref_base_oid == Some(e.ref_base_oid->0@)
            &&& e.ref_base_oid is None ==> x.ref_base_oid is None
            &&& e.ofs_base_offset is None ==> x.ofs_base_offset is None
            &&& e.ofs_base_offset is Some && e.ofs_base_offset->0 <= i64::MAX ==> x.ofs_base_offset == Some(
                e.ofs_base_offset->0 as i64,
            )
            &&& e.declared_size <= i64::MAX ==> x.declared_size == e.declared_size
            &&& checks(x, e, data, idx)
        }),
{
    lemma_entry_nodes(w, source_id, first, v, data, idx, sound, v.len(), k);
    lemma_row_for(idx, v[k].header_start);
    reveal_strlit("ok");
    reveal_strlit("inflate_error");
    assert("ok"@.len() == 2 && "inflate_error"@.len() == 13);
}

/// The claim is what the first index row at the offset of entry `k` says of it: it has the id of the
/// row, is on the node of the entry, and tells whether the checksums agree.
pub open spec fn is_claim_on(
    c: CandModel,
    source_id: i64,
    first: i64,
    v: Seq<EntryImage>,
    data: Seq<u8>,
    idx: Option<Seq<IdxRow>>,
    sound: bool,
    k: int,
) -> bool {
    &&& 0 <= k < v.len()
    &&& c.node_id == (first + k) as i64
    &&& c.origin == "index"@
    &&& c.idx_present == 1
    &&& c.checksum_ok == if sound {
        1i64
    } else {
        0i64
    }
    &&& exists|r: int| #[trigger] is_row_of(idx, v[k].header_start, r) && c.oid == idx->0[r].oid@ && (has_bytes(v[k], data)
        ==> (c.crc_ok == Some(1i64) <==> idx->0[r].crc32 == bytes_sum(v[k], data)))
    &&& has_bytes(v[k], data) <==> c.crc_ok is Some
}

proof fn lemma_claims_only(
    w: WorldModel,
    source_id: i64,
    first: i64,
    v: Seq<EntryImage>,
    data: Seq<u8>,
    idx: Option<Seq<IdxRow>>,
    sound: bool,
    n: nat,
    j: int,
)
    requires
        n <= v.len(),
    ensures
        ({
            let u = with_entries(w, source_id, first, v, data, idx, sound, n);
            &&& u.candidates.len() >= w.candidates.len()
            &&& 0 <= j < w.candidates.len() ==> u.candidates[j] == w.candidates[j]
            &&& w.candidates.len() <= j < u.candidates.len() ==> exists|k: int| #[trigger]
                is_claim_on(u.candidates[j], source_id, first, v, data, idx, sound, k)
        }),
    decreases n,
{
    if n > 0 {
        let m = (n - 1) as nat;
        lemma_claims_only(w, source_id, first, v, data, idx, sound, m, j);
        let t = with_entries(w, source_id, first, v, data, idx, sound, m);
        let u = with_entries(w, source_id, first, v, data, idx, sound, n);
        if w.candidates.len() <= j < u.candidates.len() {
            if j < t.candidates.len() {
                assert(u.candidates[j] == t.candidates[j]);
            } else {
                let row = row_for(idx, v[n - 1].header_start);
                lemma_row_for(idx, v[n - 1].header_start);
                let r = choose|r: int| #[trigger] is_row_of(idx, v[n - 1].header_start, r);
                assert(row is Some);
                assert(is_row_of(idx, v[n - 1].header_start, r));
                assert(u.candidates[j] == entry_claim(
                    (first + n - 1) as i64,
                    source_id,
                    row->0,
                    true,
                    crc_verdict(v[n - 1], data, row),
                    sound,
                ));
                assert(is_claim_on(u.candidates[j], source_id, first, v, data, idx, sound, n - 1));
            }
        }
    }
}

/// What an index that comes with its pack claims are the ids of its rows, each on the node of the
/// entry at the offset of the row.
pub proof fn claims_are_on_the_entries_they_name(
    w: WorldModel,
    source_id: i64,
    first: i64,
    v: Seq<EntryImage>,
    data: Seq<u8>,
    idx: Option<Seq<IdxRow>>,
    sound: bool,
    j: int,
)
    requires
        w.candidates.len() <= j < with_entries(w, source_id, first, v, data, idx, sound, v.len()).candidates.len(),
    ensures
        exists|k: int|
            #[trigger] is_claim_on(
                with_entries(w, source_id, first, v, data, idx, sound, v.len()).candidates[j],
                source_id,
                first,
                v,
                data,
                idx,
                sound,
                k,
            ),
{
    lemma_claims_only(w, source_id, first, v, data, idx, sound, v.len(), j);
}

/// An index that comes after its pack fills in the checksums of the pack's nodes: that of an entry
/// which is alone at its offset, and whose node is found there, is as if it had come with the pack.
pub proof fn a_later_index_confirms_the_same(
    nodes: Seq<(i64, NodeModel)>,
    pack_id: i64,
    v: Seq<EntryImage>,
    data: Seq<u8>,
    rows: Seq<IdxRow>,
    n: nat,
    id: i64,
)
    requires
        0 < n <= v.len(),
        ({
            let u = backfilled(nodes, pack_id, v, data, rows, (n - 1) as nat);
            &&& v[n - 1].header_start <= i64::MAX
            &&& node_at(u, pack_id, v[n - 1].header_start as i64) == Some(id)
            &&& get(u, id) is Some
        }),
    ensures
        ({
            let u = backfilled(nodes, pack_id, v, data, rows, (n - 1) as nat);
            let t = backfilled(nodes, pack_id, v, data, rows, n);
            let x = get(t, id)->0;
            &&& get(t, id) is Some
            &&& checks(x, v[n - 1], data, Some(rows))
            &&& x == NodeModel {
                crc_expected: x.crc_expected,
                crc_actual: x.crc_actual,
                crc_ok: x.crc_ok,
                ..get(u, id)->0
            }
            &&& forall|other: i64| other != id ==> #[trigger] get(t, other) == get(u, other)
        }),
{
    let u = backfilled(nodes, pack_id, v, data, rows, (n - 1) as nat);
    let t = backfilled(nodes, pack_id, v, data, rows, n);
    lemma_row_for(Some(rows), v[n - 1].header_start);
    assert forall|x: NodeModel| #![trigger put(u, id, x)] get(put(u, id, x), id) == Some(x) by {
        get_of_put(u, id, x, id);
    }
    assert forall|other: i64| other != id implies #[trigger] get(t, other) == get(u, other) by {
        assert forall|x: NodeModel| #![trigger put(u, id, x)] get(put(u, id, x), other) == get(u, other) by {
            get_of_put(u, id, x, other);
        }
    }
}

/// The best evidence comes first, whatever the sources and offsets: what an index names with a
/// checksum that was checked, then what it names with one that differs, then what was computed where
/// an index is present, what was computed without one, what an index names unchecked, and last what
/// only an index without its pack names.
pub proof fn better_evidence_comes_first(sources: (i64, i64), offsets: (Option<i64>, Option<i64>), crcs: (Option<bool>, Option<bool>))
    requires
        0 <= sources.0 < 10_000_000_000,
        0 <= sources.1 < 10_000_000_000,
        offsets.0 matches Some(o) ==> o >= 0,
        offsets.1 matches Some(o) ==> o >= 0,
    ensures
        ({
            let (s, t) = sources;
            let (o, p) = offsets;
            &&& key_less(
                rank_text("index"@, true, Some(true), s, o),
                rank_text("index"@, true, Some(false), t, p),
            )
            &&& key_less(rank_text("index"@, true, Some(false), s, o), rank_text("computed"@, true, crcs.1, t, p))
            &&& key_less(rank_text("computed"@, true, crcs.0, s, o), rank_text("computed"@, false, crcs.1, t, p))
            &&& key_less(rank_text("computed"@, false, crcs.0, s, o), rank_text("index"@, true, None, t, p))
            &&& key_less(rank_text("index"@, true, None, s, o), rank_text("index"@, false, crcs.1, t, p))
            &&& s < t ==> key_less(
                rank_text("index"@, true, Some(true), s, o),
                rank_text("index"@, true, Some(true), t, p),
            )
        }),
{
    reveal_strlit("index");
    reveal_strlit("computed");
    assert("index"@.len() == 5 && "computed"@.len() == 8);
    let i = "index"@;
    let c = "computed"@;
    keys_are_ordered_as_numbers((i, i), (true, true), (Some(true), Some(false)), sources, offsets);
    keys_are_ordered_as_numbers((i, c), (true, true), (Some(false), crcs.1), sources, offsets);
    keys_are_ordered_as_numbers((c, c), (true, false), crcs, sources, offsets);
    keys_are_ordered_as_numbers((c, i), (false, true), (crcs.0, None), sources, offsets);
    keys_are_ordered_as_numbers((i, i), (true, false), (None, crcs.1), sources, offsets);
    keys_are_ordered_as_numbers((i, i), (true, true), (Some(true), Some(true)), sources, offsets);
}

proof fn lemma_record_place(v: Seq<IdxRecord>, offset: u64, n: nat)
    requires
        n <= v.len(),
    ensures
        n <= record_place(v, offset, n) <= v.len(),
        forall|i: int| n <= i < record_place(v, offset, n) ==> (#[trigger] v[i]).offset != offset,
        record_place(v, offset, n) < v.len() ==> v[record_place(v, offset, n) as int].offset == offset,
    decreases v.len() - n,
{
    if n < v.len() && v[n as int].offset != offset {
        lemma_record_place(v, offset, n + 1);
    }
}

proof fn lemma_claims_upto(v: Seq<(i64, CandidateModel)>, sid: i64, idx: IdxImage, n: nat, i: int)
    requires
        n <= v.len(),
        0 <= i < v.len(),
    ensures
        claims_upto(v, sid, idx, n).0.len() == v.len(),
        claims_upto(v, sid, idx, n).0[i] == if i < n && record_of(v[i].1, sid, idx) is Some {
            (v[i].0, claimed(v[i].1, record_of(v[i].1, sid, idx)->0, idx.has_crc))
        } else {
            v[i]
        },
    decreases n,
{
    if n > 0 {
        lemma_claims_upto(v, sid, idx, (n - 1) as nat, i);
        lemma_claims_upto(v, sid, idx, (n - 1) as nat, n - 1);
    }
}

/// Record `k` is the first of the index at the offset of the candidate, which is of source `sid`.
pub open spec fn is_record_of(c: CandidateModel, sid: i64, idx: IdxImage, k: int) -> bool {
    &&& c.source_id == sid
    &&& c.pack_offset is Some && c.pack_offset->0 >= 0
    &&& 0 <= k < idx.records@.len()
    &&& idx.records@[k].offset == c.pack_offset->0
    &&& forall|j: int| 0 <= j < k ==> (#[trigger] idx.records@[j]).offset != c.pack_offset->0
}

/// An index claims, of the candidates of its pack, those at the offsets of its records: each gets
/// the id of the record, and where both checksums are known the verdict whether they are the same.
/// All other candidates stay as they are.
pub proof fn an_index_claims_by_offset(c: CatalogModel, sid: i64, idx: IdxImage, i: int)
    requires
        0 <= i < c.candidates.len(),
        c.candidates[i].1.pack_offset matches Some(o) ==> o >= 0,
    ensures
        ({
            let x = c.candidates[i].1;
            let y = with_claims(c, sid, idx).candidates[i].1;
            &&& with_claims(c, sid, idx).candidates.len() == c.candidates.len()
            &&& with_claims(c, sid, idx).candidates[i].0 == c.candidates[i].0
            &&& y == CandidateModel {
                declared_oid_hex: y.declared_oid_hex,
                idx_crc32: y.idx_crc32,
                crc_ok: y.crc_ok,
                ..x
            }
            &&& (forall|k: int| !#[trigger] is_record_of(x, sid, idx, k)) ==> y == x
            &&& forall|k: int| #[trigger]
                is_record_of(x, sid, idx, k) ==> {
                    &&& y.declared_oid_hex == Some(hex(idx.records@[k].oid@))
                    &&& idx.has_crc ==> y.idx_crc32 == Some(idx.records@[k].crc32)
                    &&& !idx.has_crc ==> y.idx_crc32 is None
                    &&& y.crc_ok is Some <==> idx.has_crc && x.entry_crc32 is Some
                    &&& y.crc_ok == Some(true) ==> x.entry_crc32 == Some(idx.records@[k].crc32)
                    &&& y.crc_ok == Some(false) ==> x.entry_crc32 != Some(idx.records@[k].crc32)
                }
        }),
{
    let x = c.candidates[i].1;
    lemma_claims_upto(c.candidates, sid, idx, c.candidates.len(), i);
    if x.source_id == sid && x.pack_offset is Some {
        let o = x.pack_offset->0 as u64;
        assert(unsigned(x.pack_offset->0) as u64 == o);
        lemma_record_place(idx.records@, o, 0);
        let p = record_place(idx.records@, o, 0) as int;
        if p < idx.records@.len() {
            assert(is_record_of(x, sid, idx, p));
        }
        assert forall|k: int| #[trigger] is_record_of(x, sid, idx, k) implies k == p by {
            if p < k {
                assert(idx.records@[p].offset != o);
            }
            if k < p {
                assert(idx.records@[k].offset != o);
            }
        }
    }
}

/// The source is a pack whose trailer spells the checksum.
pub open spec fn has_checksum(s: SourceModel, checksum: Seq<char>) -> bool {
    &&& s.kind == "pack"@
    &&& s.stored_checksum_hex is Some
    &&& s.stored_checksum_hex->0.len() == checksum.len()
    &&& forall|i: int|
        0 <= i < checksum.len() ==> lower(#[trigger] s.stored_checksum_hex->0[i]) == lower(checksum[i])
}

proof fn lemma_pack_with(v: Seq<(i64, SourceModel)>, checksum: Seq<char>, n: nat)
    requires
        n <= v.len(),
    ensures
        pack_with(v, checksum, n) is None ==> forall|i: int|
            n <= i < v.len() ==> !has_checksum((#[trigger] v[i]).1, checksum),
        pack_with(v, checksum, n) matches Some(p) ==> exists|i: int|
            n <= i < v.len() && (#[trigger] v[i]).0 == p && has_checksum(v[i].1, checksum) && forall|j: int|
                n <= j < i ==> !has_checksum((#[trigger] v[j]).1, checksum),
    decreases v.len() - n,
{
    if n < v.len() {
        let x = v[n as int].1;
        if x.kind == "pack"@ && (x.stored_checksum_hex matches Some(s) && same_lower(s, checksum)) {
            assert(has_checksum(x, checksum));
            assert(v[n as int].0 == pack_with(v, checksum, n)->0);
        } else {
            assert(!has_checksum(x, checksum)) by {
                if has_checksum(x, checksum) {
                    assert(same_lower(x.stored_checksum_hex->0, checksum));
                }
            }
            lemma_pack_with(v, checksum, n + 1);
            if let Some(p) = pack_with(v, checksum, n + 1) {
                let i = choose|i: int|
                    n + 1 <= i < v.len() && (#[trigger] v[i]).0 == p && has_checksum(v[i].1, checksum) && forall|j: int|
                        n + 1 <= j < i ==> !has_checksum((#[trigger] v[j]).1, checksum);
                assert(v[i].0 == p);
            }
        }
    }
}

/// An index is paired with the first pack whose trailer spells the checksum that it names; where
/// there is none it claims nothing, and no candidate changes.
pub proof fn an_index_is_paired_by_checksum(
    c: CatalogModel,
    id: i64,
    digest: Seq<char>,
    images: Seq<(String, IdxImage)>,
    k: int,
)
    requires
        0 <= k < images.len(),
        images[k].0@ == digest,
        forall|j: int| 0 <= j < k ==> (#[trigger] images[j]).0@ != digest,
        get(c.sources, id) is Some,
    ensures
        ({
            let sum = hex(images[k].1.pack_checksum@);
            let d = paired(c, id, digest, images);
            &&& pack_with(c.sources, sum, 0) is None <==> forall|i: int|
                0 <= i < c.sources.len() ==> !has_checksum((#[trigger] c.sources[i]).1, sum)
            &&& pack_with(c.sources, sum, 0) is None ==> d.candidates == c.candidates && d.edges == c.edges && (get(
                d.sources,
                id,
            ) matches Some(s) && s.pair_source_id is None)
            &&& pack_with(c.sources, sum, 0) matches Some(p) ==> {
                &&& exists|i: int|
                    0 <= i < c.sources.len() && (#[trigger] c.sources[i]).0 == p && has_checksum(c.sources[i].1, sum)
                        && forall|j: int| 0 <= j < i ==> !has_checksum((#[trigger] c.sources[j]).1, sum)
                &&& p != id ==> (get(d.sources, id) matches Some(s) && s.pair_source_id == Some(p))
                &&& d.candidates == with_claims(c, p, images[k].1).candidates
            }
        }),
{
    lemma_image(images, digest, 0);
    let n = image_of(images, digest, 0) as int;
    if n < k {
        assert(images[n].0@ != digest);
    }
    if k < n {
        assert(images[k].0@ != digest);
    }
    let sum = hex(images[k].1.pack_checksum@);
    lemma_pack_with(c.sources, sum, 0);
    if let Some(p) = pack_with(c.sources, sum, 0) {
        let i = choose|i: int|
            0 <= i < c.sources.len() && (#[trigger] c.sources[i]).0 == p && has_checksum(c.sources[i].1, sum) && forall|j: int|
                0 <= j < i ==> !has_checksum((#[trigger] c.sources[j]).1, sum);
        assert(has_checksum(c.sources[i].1, sum));
    }
    assert forall|v: Seq<(i64, SourceModel)>, key: i64, x: SourceModel, other: i64| #![trigger get(put(v, key, x), other)]
        get(put(v, key, x), other) == if other == key {
            Some(x)
        } else {
            get(v, other)
        } by {
        get_of_put(v, key, x, other);
    }
}

proof fn lemma_image(v: Seq<(String, IdxImage)>, digest: Seq<char>, n: nat)
    requires
        n <= v.len(),
    ensures
        n <= image_of(v, digest, n) <= v.len(),
        forall|i: int| n <= i < image_of(v, digest, n) ==> (#[trigger] v[i]).0@ != digest,
        image_of(v, digest, n) < v.len() ==> v[image_of(v, digest, n) as int].0@ == digest,
    decreases v.len() - n,
{
    if n < v.len() && v[n as int].0@ != digest {
        lemma_image(v, digest, n + 1);
    }
}

proof fn lemma_rows(c: CatalogModel, sid: i64, v: Seq<PackEntry>, n: nat, k: int)
    requires
        n <= v.len(),
        c.next_candidate + v.len() <= i64::MAX,
        0 <= k,
    ensures
        ({
            let d = crate::engine::importer::with_entries(c, sid, v, n);
            &&& d.next_candidate == c.next_candidate + n
            &&& k < n ==> get(d.candidates, (c.next_candidate + k) as i64) == Some(entry_row(sid, v[k]))
        }),
    decreases n,
{
    if n > 0 {
        lemma_rows(c, sid, v, (n - 1) as nat, k);
        let d = crate::engine::importer::with_entries(c, sid, v, (n - 1) as nat);
        get_of_put(d.candidates, d.next_candidate, entry_row(sid, v[n - 1]), (c.next_candidate + k) as i64);
    }
}

/// Every entry of a pack becomes a candidate with its place, type, sizes and checksum, the id and the
/// checksum that an index gave, and the verdict whether the checksums are the same.
pub proof fn an_entry_becomes_a_candidate(c: CatalogModel, sid: i64, v: Seq<PackEntry>, k: int)
    requires
        0 <= k < v.len(),
        c.next_candidate + v.len() <= i64::MAX,
        v[k].offset <= i64::MAX,
        v[k].claimed_size <= i64::MAX,
    ensures
        ({
            let e = v[k];
            let d = crate::engine::importer::with_entries(c, sid, v, v.len());
            let x = get(d.candidates, (c.next_candidate + k) as i64)->0;
            &&& get(d.candidates, (c.next_candidate + k) as i64) is Some
            &&& x.source_id == sid
            &&& x.pack_offset == Some(e.offset as i64)
            &&& x.claimed_size == e.claimed_size
            &&& x.obj_type == e.kind.text()
            &&& x.entry_crc32 == Some(e.entry_crc32)
            &&& x.idx_crc32 == e.idx_crc32
            &&& x.crc_ok is Some <==> e.idx_crc32 is Some
            &&& x.crc_ok == Some(true) <==> x.idx_crc32 == x.entry_crc32
            &&& x.computed_oid_hex is None
            &&& e.claim_oid is Some ==> x.declared_oid_hex == Some(hex(e.claim_oid->0@))
            &&& e.claim_oid is None ==> x.declared_oid_hex is None
            &&& e.ref_base_oid is Some ==> x.ref_base_oid_hex == Some(hex(e.ref_base_oid->0@))
            &&& e.ref_base_oid is None ==> x.ref_base_oid_hex is None
            &&& e.ofs_base_offset is None ==> x.ofs_base_offset is None
            &&& e.ofs_base_offset is Some && e.ofs_base_offset->0 <= i64::MAX ==> x.ofs_base_offset == Some(
                e.ofs_base_offset->0 as i64,
            )
            &&& x.parse_status == e.inflate_status@
        }),
{
    lemma_rows(c, sid, v, v.len(), k);
}

proof fn lemma_entry_at(v: Seq<PackEntry>, offset: u64, n: nat, k: int)
    requires
        n <= v.len(),
        0 <= k < n,
        v[k].offset == offset,
        forall|j: int| 0 <= j < v.len() && j != k ==> (#[trigger] v[j]).offset != offset,
    ensures
        entry_at(v, offset, n) == Some(k as nat),
    decreases n,
{
    if k < n - 1 {
        assert(v[n - 1].offset != offset);
        lemma_entry_at(v, offset, (n - 1) as nat, k);
    }
}

proof fn lemma_edges(edges: Seq<(i64, EdgeModel)>, first: i64, v: Seq<PackEntry>, n: nat, k: int)
    requires
        n <= v.len(),
        0 <= k < v.len(),
        first + v.len() <= i64::MAX,
        forall|i: int, j: int| 0 <= i < j < v.len() ==> (#[trigger] v[i]).offset != (#[trigger] v[j]).offset,
        v[k].kind == ObjType::OfsDelta && v[k].ofs_base_offset is Some || v[k].kind == ObjType::RefDelta,
    ensures
        k < n ==> get(with_edges(edges, first, v, n), (first + k) as i64) == Some(
            if v[k].kind == ObjType::OfsDelta {
                EdgeModel {
                    to_candidate_id: number_at(v, first, v[k].ofs_base_offset->0),
                    to_oid_hex: None,
                    to_offset: Some(signed(v[k].ofs_base_offset->0 as nat)),
                    kind: "ofs"@,
                }
            } else {
                EdgeModel {
                    to_candidate_id: None,
                    to_oid_hex: match v[k].ref_base_oid {
                        Some(o) => Some(hex(o@)),
                        None => None,
                    },
                    to_offset: None,
                    kind: "ref"@,
                }
            },
        ),
    decreases n,
{
    if n > 0 {
        lemma_edges(edges, first, v, (n - 1) as nat, k);
        let w = with_edges(edges, first, v, (n - 1) as nat);
        lemma_entry_at(v, v[n - 1].offset, v.len(), n - 1);
        let from = (first + n - 1) as i64;
        assert forall|x: EdgeModel| #![trigger put(w, from, x)] get(put(w, from, x), (first + k) as i64) == if k == n - 1 {
            Some(x)
        } else {
            get(w, (first + k) as i64)
        } by {
            get_of_put(w, from, x, (first + k) as i64);
        }
    }
}

/// A delta of a pack declares as its base the entry that starts at the offset that it names, or the
/// id that it names.
pub proof fn a_delta_declares_its_base(edges: Seq<(i64, EdgeModel)>, first: i64, v: Seq<PackEntry>, k: int, j: int)
    requires
        0 <= k < v.len(),
        0 <= j < v.len(),
        first + v.len() <= i64::MAX,
        forall|a: int, b: int| 0 <= a < b < v.len() ==> (#[trigger] v[a]).offset != (#[trigger] v[b]).offset,
        v[k].kind == ObjType::OfsDelta && v[k].ofs_base_offset == Some(v[j].offset) || v[k].kind == ObjType::RefDelta
            && v[k].ref_base_oid is Some,
    ensures
        ({
            let e = get(with_edges(edges, first, v, v.len()), (first + k) as i64);
            &&& e is Some
            &&& v[k].kind == ObjType::OfsDelta ==> e->0.to_candidate_id == Some((first + j) as i64) && e->0.kind == "ofs"@
                && e->0.to_oid_hex is None
            &&& v[k].kind == ObjType::RefDelta ==> e->0.to_oid_hex == Some(hex(v[k].ref_base_oid->0@)) && e->0.kind
                == "ref"@ && e->0.to_candidate_id is None
        }),
{
    lemma_edges(edges, first, v, v.len(), k);
    lemma_entry_at(v, v[j].offset, v.len(), j);
}

/// A pack is told to be sound exactly when its trailer holds and all of it was parsed.
pub proof fn a_pack_is_told_as_it_is(filename: Seq<char>, digest: Seq<char>, size: u64, p: PackImage)
    ensures
        ({
            let s = pack_row(filename, digest, size, p);
            &&& s.kind == "pack"@ && s.filename == filename && s.sha256 == digest && s.size == size
            &&& s.parse_status == "ok"@ <==> p.checksum_ok && p.parse_error is None
            &&& s.parse_status == "checksum_bad"@ <==> !p.checksum_ok
            &&& s.checksum_ok <==> s.parse_status == "ok"@
            &&& s.stored_checksum_hex == Some(hex(p.stored_checksum@))
        }),
{
    reveal_strlit("ok");
    reveal_strlit("checksum_bad");
    reveal_strlit("partial");
    assert("ok"@.len() == 2 && "checksum_bad"@.len() == 12 && "partial"@.len() == 7);
}

/// A loose object whose path spells an id is claimed under that id, with what its file holds.
pub proof fn a_loose_object_is_claimed_by_its_path(
    w: WorldModel,
    report: ReportModel,
    id: i64,
    filename: Seq<char>,
    x: LooseImage,
)
    requires
        loose_added(w, report, id, filename, x) is Ok,
    ensures
        ({
            let (u, r) = loose_added(w, report, id, filename, x)->Ok_0;
            let name = loose_id(filename);
            &&& is_hex(name) && name.len() == 40
            &&& u.candidates.len() == w.candidates.len() + 1
            &&& u.candidates.last().oid == unhex(name)
            &&& u.candidates.last().node_id == id
            &&& get(u.nodes, id) is Some
            &&& (get(u.nodes, id)->0).source_id == report.source_id
            &&& get(u.computed, id) == Some(unhex(name))
        }),
{
    let (u, r) = loose_added(w, report, id, filename, x)->Ok_0;
    get_of_put(w.nodes, id, get(u.nodes, id)->0, id);
    assert forall|n: NodeModel| #![trigger put(w.nodes, id, n)] get(put(w.nodes, id, n), id) == Some(n) by {
        get_of_put(w.nodes, id, n, id);
    }
    get_of_put(w.computed, id, unhex(loose_id(filename)), id);
}

} // verus!
