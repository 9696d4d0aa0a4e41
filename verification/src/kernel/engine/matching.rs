//! What importing promises: the nodes of a pack, the rows of an index on them, and the nodes that
//! are tried again.
use vstd::prelude::*;
use crate::kernel::engine::candidates::{closed_under, dependents};
use crate::kernel::engine::chain::{id_of_hex, pack_node_id};
use crate::kernel::engine::import::{
    affected_by, choice_changed, concerned, idx_matched, ids_from, newly_claimed, pack_by_sha, pack_by_stem,
    pack_node, paired, row_claimed, source_name, was_missing, with_pack_nodes,
};
use crate::kernel::engine::rows::{
    ClaimModel, ClaimRow, EngineModel, FailKind, IdxModel, NodeModel, PackModel, SourceModel, StateModel,
};
use crate::kernel::pack::EntryModel;
use crate::model::assoc::{get, get_of_put, has_key, lemma_row, put};
use crate::model::text::{hex, hexa, is_hex, stem, unhex};

verus! {

/// A row of an index marks the entry of the pack at its offset, and no other node: the entry gets
/// the id of the row, and where both checksums are known the verdict whether they are the same; a
/// difference is evidence. The first claim on an entry stays. A row without an entry is evidence.
pub proof fn an_index_row_marks_its_entry(
    e: EngineModel,
    idx_id: Seq<char>,
    pack_id: Seq<char>,
    r: ClaimRow,
    other: Seq<char>,
)
    ensures
        ({
            let id = pack_id + ":0x"@ + hexa(r.offset as nat);
            let f = row_claimed(e, idx_id, pack_id, r);
            let n = get(e.nodes, id)->0;
            let m = get(f.nodes, id)->0;
            &&& other != id ==> get(f.nodes, other) == get(e.nodes, other) && get(f.claimed, other) == get(
                e.claimed,
                other,
            )
            &&& f.contents == e.contents
            &&& f.packs == e.packs
            &&& get(e.nodes, id) is None ==> f.nodes == e.nodes && f.claimed == e.claimed && f.evidence.len()
                == e.evidence.len() + 1 && f.evidence.last().code == "idx-offset"@ && f.evidence.last().offset
                == Some(r.offset)
            &&& get(e.nodes, id) is Some ==> {
                &&& get(f.nodes, id) is Some
                &&& m == NodeModel { idx_oid: m.idx_oid, crc_ok: m.crc_ok, ..n }
                &&& m.idx_oid == Some(hex(r.oid))
                &&& n.crc32 is Some && r.crc32 is Some ==> (m.crc_ok == Some(true) <==> n.crc32 == r.crc32)
                &&& n.crc32 is Some && r.crc32 is Some ==> m.crc_ok is Some
                &&& n.crc32 is None || r.crc32 is None ==> m.crc_ok == n.crc_ok
                &&& n.crc32 is Some && r.crc32 is Some && n.crc32 != r.crc32 <==> f.evidence.len()
                    == e.evidence.len() + 1
                &&& f.evidence.len() == e.evidence.len() + 1 ==> f.evidence.last().code == "bad-crc"@
                    && f.evidence.last().node_id == Some(id)
                &&& f.evidence.len() != e.evidence.len() + 1 ==> f.evidence == e.evidence
                &&& get(e.claimed, id) is Some ==> get(f.claimed, id) == get(e.claimed, id)
                &&& get(e.claimed, id) is None ==> get(f.claimed, id) is Some && (get(f.claimed, id)->0).oid == r.oid
                    && (get(f.claimed, id)->0).origin == "index"@
            }
        }),
{
    let id = pack_id + ":0x"@ + hexa(r.offset as nat);
    assert(id == pack_node_id(pack_id, r.offset as nat));
    let f = row_claimed(e, idx_id, pack_id, r);
    if has_key(e.nodes, id) {
        let n = get(e.nodes, id)->0;
        assert forall|m: NodeModel| #![trigger put(e.nodes, id, m)]
            get(put(e.nodes, id, m), id) == Some(m) && (other != id ==> get(put(e.nodes, id, m), other) == get(
                e.nodes,
                other,
            )) by {
            get_of_put(e.nodes, id, m, other);
        }
        assert forall|m: ClaimModel| #![trigger put(e.claimed, id, m)]
            get(put(e.claimed, id, m), id) == Some(m) && (other != id ==> get(put(e.claimed, id, m), other) == get(
                e.claimed,
                other,
            )) by {
            get_of_put(e.claimed, id, m, other);
        }
    }
}

proof fn lemma_by_sha(v: Seq<(Seq<char>, PackModel)>, sha: Seq<u8>)
    ensures
        pack_by_sha(v, sha) is None ==> forall|i: int| 0 <= i < v.len() ==> (#[trigger] v[i]).1.computed_sha != sha,
        pack_by_sha(v, sha) matches Some(p) ==> exists|i: int|
            0 <= i < v.len() && (#[trigger] v[i]).0 == p && v[i].1.computed_sha == sha && forall|j: int|
                0 <= j < i ==> (#[trigger] v[j]).1.computed_sha != sha,
    decreases v.len(),
{
    if v.len() > 0 {
        if v[0].1.computed_sha == sha {
            assert(v[0].0 == pack_by_sha(v, sha)->0);
        } else {
            let t = v.skip(1);
            lemma_by_sha(t, sha);
            match pack_by_sha(t, sha) {
                None => {
                    assert forall|i: int| 0 <= i < v.len() implies (#[trigger] v[i]).1.computed_sha != sha by {
                        if i > 0 {
                            assert(t[i - 1] == v[i]);
                        }
                    }
                },
                Some(p) => {
                    let i = choose|i: int|
                        0 <= i < t.len() && (#[trigger] t[i]).0 == p && t[i].1.computed_sha == sha && forall|j: int|
                            0 <= j < i ==> (#[trigger] t[j]).1.computed_sha != sha;
                    assert(v[i + 1] == t[i]);
                    assert forall|j: int| 0 <= j < i + 1 implies (#[trigger] v[j]).1.computed_sha != sha by {
                        if j > 0 {
                            assert(t[j - 1] == v[j]);
                        }
                    }
                },
            }
        }
    }
}

proof fn lemma_by_stem(sources: Seq<SourceModel>, v: Seq<(Seq<char>, PackModel)>, want: Seq<char>)
    ensures
        pack_by_stem(sources, v, want) matches Some(p) ==> exists|i: int| 0 <= i < v.len() && (#[trigger] v[i]).0 == p,
    decreases v.len(),
{
    if v.len() > 0 {
        if stem(source_name(sources, v[0].0), ".pack"@) == want {
            assert(v[0].0 == pack_by_stem(sources, v, want)->0);
        } else {
            let t = v.skip(1);
            lemma_by_stem(sources, t, want);
            if let Some(p) = pack_by_stem(sources, t, want) {
                let i = choose|i: int| 0 <= i < t.len() && (#[trigger] t[i]).0 == p;
                assert(v[i + 1] == t[i]);
            }
        }
    }
}

/// An index goes with the first pack whose bytes have the checksum that it advertises, whatever
/// the files are called.
pub proof fn an_index_goes_with_the_pack_of_its_checksum(e: EngineModel, idx_id: Seq<char>, x: IdxModel, i: int)
    requires
        0 <= i < e.packs.len(),
        e.packs[i].1.computed_sha == x.pack_checksum,
        forall|j: int| 0 <= j < i ==> (#[trigger] e.packs[j]).1.computed_sha != x.pack_checksum,
    ensures
        paired(e, idx_id, x) == Some(e.packs[i].0),
{
    lemma_by_sha(e.packs, x.pack_checksum);
    if let Some(p) = pack_by_sha(e.packs, x.pack_checksum) {
        let k = choose|k: int|
            0 <= k < e.packs.len() && (#[trigger] e.packs[k]).0 == p && e.packs[k].1.computed_sha == x.pack_checksum
                && forall|j: int| 0 <= j < k ==> (#[trigger] e.packs[j]).1.computed_sha != x.pack_checksum;
        if k < i {
            assert(e.packs[k].1.computed_sha != x.pack_checksum);
        }
        if i < k {
            assert(e.packs[i].1.computed_sha != x.pack_checksum);
        }
    }
}

/// An index whose checksum no pack has claims nothing, even where a file name fits: it only leaves
/// evidence.
pub proof fn an_index_of_no_pack_claims_nothing(e: EngineModel, idx_id: Seq<char>, x: IdxModel)
    requires
        forall|i: int| 0 <= i < e.packs.len() ==> (#[trigger] e.packs[i]).1.computed_sha != x.pack_checksum,
    ensures
        idx_matched(e, idx_id, x).nodes == e.nodes,
        idx_matched(e, idx_id, x).claimed == e.claimed,
        idx_matched(e, idx_id, x).evidence.len() > e.evidence.len(),
        idx_matched(e, idx_id, x).evidence.last().source_id == Some(idx_id),
{
    lemma_by_sha(e.packs, x.pack_checksum);
    if let Some(p) = pack_by_sha(e.packs, x.pack_checksum) {
        let k = choose|k: int|
            0 <= k < e.packs.len() && (#[trigger] e.packs[k]).0 == p && e.packs[k].1.computed_sha == x.pack_checksum
                && forall|j: int| 0 <= j < k ==> (#[trigger] e.packs[j]).1.computed_sha != x.pack_checksum;
        assert(e.packs[k].1.computed_sha != x.pack_checksum);
    }
    let want = stem(source_name(e.sources, idx_id), ".idx"@);
    lemma_by_stem(e.sources, e.packs, want);
    if let Some(p) = pack_by_stem(e.sources, e.packs, want) {
        let k = choose|k: int| 0 <= k < e.packs.len() && (#[trigger] e.packs[k]).0 == p;
        lemma_row(e.packs, p);
        assert(has_key(e.packs, p));
    }
}

proof fn lemma_pack_nodes(
    e: EngineModel,
    source: Seq<char>,
    filename: Seq<char>,
    v: Seq<EntryModel>,
    n: nat,
    i: int,
)
    requires
        n <= v.len(),
        0 <= i < v.len(),
        forall|j: int| 0 <= j < v.len() && j != i ==> pack_node_id(source, (#[trigger] v[j]).offset) != pack_node_id(
            source,
            v[i].offset,
        ),
    ensures
        i < n ==> get(with_pack_nodes(e, source, filename, v, n).nodes, pack_node_id(source, v[i].offset)) == Some(
            pack_node(source, filename, v[i]),
        ),
    decreases n,
{
    if n > 0 {
        lemma_pack_nodes(e, source, filename, v, (n - 1) as nat, i);
        let w = with_pack_nodes(e, source, filename, v, (n - 1) as nat);
        let node = pack_node(source, filename, v[n - 1]);
        get_of_put(w.nodes, node.id, node, pack_node_id(source, v[i].offset));
    }
}

/// Every entry of a pack becomes a node that stands at its bytes: with its place, type, size and
/// checksum, the base at the distance before it or by the id that it names, and failed exactly
/// where its data cannot be inflated.
pub proof fn an_entry_becomes_a_node(
    e: EngineModel,
    source: Seq<char>,
    filename: Seq<char>,
    v: Seq<EntryModel>,
    i: int,
)
    requires
        0 <= i < v.len(),
        v[i].offset <= u64::MAX,
        forall|j: int| 0 <= j < v.len() && j != i ==> source + ":0x"@ + hexa((#[trigger] v[j]).offset) != source
            + ":0x"@ + hexa(v[i].offset),
    ensures
        ({
            let x = v[i];
            let id = source + ":0x"@ + hexa(x.offset);
            let f = with_pack_nodes(e, source, filename, v, v.len());
            let n = get(f.nodes, id)->0;
            &&& get(f.nodes, id) is Some
            &&& n.id == id && n.source_id == source && n.source_name == filename
            &&& n.node_kind == "pack"@
            &&& n.object_type == x.etype.text()
            &&& n.offset == Some(x.offset as u64)
            &&& n.data_offset == Some(x.data_offset as u64) && n.end_offset == Some(x.end_offset as u64)
            &&& n.declared_size == x.declared_size
            &&& n.crc32 == x.crc32 && n.crc_ok is None && n.idx_oid is None
            &&& n.ofs_distance == x.ofs_distance
            &&& x.ofs_distance is None ==> n.ofs_base_offset is None
            &&& x.ofs_distance matches Some(d) ==> (n.ofs_base_offset matches Some(b) ==> b + d == x.offset) && (
            n.ofs_base_offset is None <==> d > x.offset)
            &&& x.base_oid is None ==> n.ref_base_oid is None
            &&& x.base_oid is Some ==> n.ref_base_oid == Some(hex(x.base_oid->0))
            &&& n.state is Failed <==> x.inflated is Err
            &&& x.inflated is Ok ==> n.state == StateModel::Unprocessed
        }),
{
    assert forall|j: int| 0 <= j < v.len() && j != i implies pack_node_id(source, (#[trigger] v[j]).offset)
        != pack_node_id(source, v[i].offset) by {}
    lemma_pack_nodes(e, source, filename, v, v.len(), i);
}

proof fn lemma_seeds(edges: Seq<(Seq<char>, Seq<Seq<char>>)>, seeds: Set<Seq<char>>, stops: Set<Seq<char>>)
    ensures
        seeds.subset_of(dependents(edges, seeds, stops)),
        closed_under(edges, stops, dependents(edges, seeds, stops)),
{
    let d = dependents(edges, seeds, stops);
    assert forall|i: int, j: int|
        0 <= i < edges.len() && 0 <= j < edges[i].1.len() && d.contains(#[trigger] edges[i].1[j]) && !stops.contains(
            edges[i].1[j],
        ) implies d.contains(edges[i].0) by {
        assert forall|s: Set<Seq<char>>| seeds.subset_of(s) && #[trigger] closed_under(edges, stops, s) implies s.contains(
            edges[i].0,
        ) by {
            assert(s.contains(edges[i].1[j]));
        }
    }
}

proof fn lemma_concerned(e: EngineModel, from: nat, n: nat, i: int)
    requires
        0 <= i < n <= e.nodes.len(),
        was_missing(e, e.nodes[i].1, from) || choice_changed(e, e.nodes[i].1),
    ensures
        concerned(e, from, n).contains(e.nodes[i].1.id),
    decreases n,
{
    let v = concerned(e, from, (n - 1) as nat);
    let w = concerned(e, from, n);
    if i < n - 1 {
        lemma_concerned(e, from, (n - 1) as nat, i);
        let k = choose|k: int| 0 <= k < v.len() && v[k] == e.nodes[i].1.id;
        assert(w[k] == v[k]);
    } else {
        assert(w[v.len() as int] == e.nodes[i].1.id);
    }
}

/// An import tries its own nodes, and again each earlier node that failed for want of a base, or
/// was paused, whose base a new node claims; and with a node all that was built on it.
pub proof fn what_waited_is_tried_again(e: EngineModel, from: nat, i: int)
    requires
        0 <= i < e.nodes.len(),
        from <= e.nodes.len(),
        i >= from || ({
            let n = e.nodes[i].1;
            &&& n.state is Paused || (n.state is Failed && n.state->fail == FailKind::MissingBase)
            &&& get(e.missing_edges, n.id) is Some
            &&& is_hex(get(e.missing_edges, n.id)->0)
            &&& (get(e.missing_edges, n.id)->0).len() == 40
            &&& exists|j: int|
                from <= j < e.nodes.len() && get(e.claimed, (#[trigger] e.nodes[j]).1.id) is Some && (get(
                    e.claimed,
                    e.nodes[j].1.id,
                )->0).oid == unhex(get(e.missing_edges, n.id)->0)
        }),
    ensures
        affected_by(e, from).contains(e.nodes[i].1.id),
        i < from ==> forall|k: int, j: int|
            0 <= k < e.edges.len() && 0 <= j < e.edges[k].1.len() && #[trigger] e.edges[k].1[j] == e.nodes[i].1.id
                && (forall|m: int| from <= m < e.nodes.len() ==> (#[trigger] e.nodes[m]).1.id != e.nodes[i].1.id)
                ==> affected_by(e, from).contains(e.edges[k].0),
{
    let fresh = ids_from(e, from);
    let late = concerned(e, from, from);
    let seeds = (fresh + late).to_set();
    lemma_seeds(e.edges, seeds, fresh.to_set());
    let id = e.nodes[i].1.id;
    if i >= from {
        assert(fresh[i - from] == id);
        assert((fresh + late)[i - from] == id);
    } else {
        assert(newly_claimed(e, from, id_of_hex(get(e.missing_edges, id)->0)));
        lemma_concerned(e, from, from, i);
        let k = choose|k: int| 0 <= k < late.len() && late[k] == id;
        assert((fresh + late)[fresh.len() + k] == id);
    }
    assert((fresh + late).contains(id));
    assert(seeds.contains(id));
    if i < from && (forall|m: int| from <= m < e.nodes.len() ==> (#[trigger] e.nodes[m]).1.id != id) {
        assert(!fresh.contains(id)) by {
            if fresh.contains(id) {
                let m = choose|m: int| 0 <= m < fresh.len() && fresh[m] == id;
                assert(e.nodes[from + m].1.id == id);
            }
        }
    }
}

} // verus!
