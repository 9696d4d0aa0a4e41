//! Laws of the views: lists leave nothing out and stand in order, chains lead from a delta to its
//! base, and what is shown is what is stored.
use vstd::prelude::*;
use vstd::utf8::encode_utf8;
use crate::analyze::graph::text_opt;
use crate::engine::inspect::{
    are_counts, bucket_list, candidate_list, chain_from, content_at, edge_list, evidence_list, first_edge, head,
    hundredth, is_node_view, is_pack_view, oid_of_node, preview_of, source_list, status_count, step_list, twin_list,
    two_digits, BucketModel, CandidateModel, CandidateView, EdgeModel, EdgeRec, EdgeView, EvidenceModel, EvidenceRec,
    LinkModel, NodeRec, NodeView, ObjectRec, PackRec, PackView, PreviewModel, SourceModel, SourceRec, SourceView,
    StatusCounts, StepModel, StepRec, StepView, Tables, Twin, TwinModel,
};
use crate::model::assoc::{get, has_key, lemma_row};
use crate::model::order::{
    in_order, inserted, is_weak_order, lemma_inserted_holds, lemma_inserted_in_order, views, Ordered,
};
use crate::model::outside::lossy_text;
use crate::model::sort::{bytes_less, order_is_total, order_is_transitive};
use crate::model::text::hex;

verus! {

/// Names in order: no later one is less, and of the same names the lower number comes first.
pub open spec fn names_rise(a: Seq<char>, i: i64, b: Seq<char>, j: i64) -> bool {
    &&& !bytes_less(encode_utf8(b), encode_utf8(a))
    &&& encode_utf8(a) == encode_utf8(b) ==> i <= j
}

proof fn lemma_less(a: Seq<u8>, b: Seq<u8>, c: Seq<u8>)
    ensures
        !(bytes_less(a, b) && bytes_less(b, a)),
        !bytes_less(a, a),
        bytes_less(a, b) || bytes_less(b, a) || a == b,
        !bytes_less(b, a) && !bytes_less(c, b) ==> !bytes_less(c, a),
        !bytes_less(b, a) && !bytes_less(c, b) && a == c ==> a == b,
{
    order_is_total(a, b);
    order_is_total(a, a);
    order_is_total(b, c);
    order_is_total(a, c);
    if bytes_less(a, b) && bytes_less(b, c) {
        order_is_transitive(a, b, c);
    }
}

proof fn lemma_source_order()
    ensures
        is_weak_order::<SourceView>(),
{
    assert forall|a: SourceModel, b: SourceModel| #[trigger] SourceView::before(a, b) implies !SourceView::before(
        b,
        a,
    ) by {
        lemma_less(encode_utf8(a.filename), encode_utf8(b.filename), encode_utf8(a.filename));
    }
    assert forall|a: SourceModel, b: SourceModel, c: SourceModel|
        !(#[trigger] SourceView::before(b, a)) && !(#[trigger] SourceView::before(c, b)) implies !SourceView::before(
        c,
        a,
    ) by {
        lemma_less(encode_utf8(a.filename), encode_utf8(b.filename), encode_utf8(c.filename));
    }
}

proof fn lemma_twin_order()
    ensures
        is_weak_order::<Twin>(),
{
    assert forall|a: TwinModel, b: TwinModel| #[trigger] Twin::before(a, b) implies !Twin::before(b, a) by {
        lemma_less(encode_utf8(a.filename), encode_utf8(b.filename), encode_utf8(a.filename));
    }
    assert forall|a: TwinModel, b: TwinModel, c: TwinModel|
        !(#[trigger] Twin::before(b, a)) && !(#[trigger] Twin::before(c, b)) implies !Twin::before(c, a) by {
        lemma_less(encode_utf8(a.filename), encode_utf8(b.filename), encode_utf8(c.filename));
    }
}

proof fn lemma_candidate_order()
    ensures
        is_weak_order::<CandidateView>(),
{
    assert forall|a: CandidateModel, b: CandidateModel| #[trigger] CandidateView::before(
        a,
        b,
    ) implies !CandidateView::before(b, a) by {
        lemma_less(encode_utf8(a.source_filename), encode_utf8(b.source_filename), encode_utf8(a.source_filename));
    }
    assert forall|a: CandidateModel, b: CandidateModel, c: CandidateModel|
        !(#[trigger] CandidateView::before(b, a)) && !(#[trigger] CandidateView::before(
            c,
            b,
        )) implies !CandidateView::before(c, a) by {
        lemma_less(encode_utf8(a.source_filename), encode_utf8(b.source_filename), encode_utf8(c.source_filename));
    }
}

/// A source as it is shown says what is stored of it.
pub open spec fn shows_source(v: SourceModel, id: i64, s: SourceRec) -> bool {
    v.id == id && v.filename == s.filename@ && v.kind == s.kind@ && v.size == s.size && v.linked_oid == text_opt(
        s.linked_oid,
    ) && v.pack_id == s.pack_id
}

proof fn lemma_sources(s: Seq<(i64, SourceRec)>, n: nat)
    requires
        n <= s.len(),
    ensures
        source_list(s, n).len() == n,
        in_order::<SourceView>(source_list(s, n)),
        forall|i: int|
            0 <= i < n ==> exists|m: SourceModel| #[trigger]
                source_list(s, n).contains(m) && shows_source(m, (#[trigger] s[i]).0, s[i].1),
        forall|m: SourceModel| #[trigger]
            source_list(s, n).contains(m) ==> exists|i: int|
                0 <= i < n && shows_source(m, (#[trigger] s[i]).0, s[i].1),
    decreases n,
{
    lemma_source_order();
    if n > 0 {
        let p = (n - 1) as nat;
        lemma_sources(s, p);
        let v = source_list(s, p);
        let w = source_list(s, n);
        let x = SourceModel {
            id: s[n - 1].0,
            filename: s[n - 1].1.filename@,
            kind: s[n - 1].1.kind@,
            size: s[n - 1].1.size,
            linked_oid: text_opt(s[n - 1].1.linked_oid),
            pack_id: s[n - 1].1.pack_id,
        };
        assert(w == inserted::<SourceView>(v, x));
        lemma_inserted_in_order::<SourceView>(v, x);
        lemma_inserted_holds::<SourceView>(v, x, x);
        assert forall|i: int| 0 <= i < n implies exists|m: SourceModel| #[trigger]
            w.contains(m) && shows_source(m, (#[trigger] s[i]).0, s[i].1) by {
            if i == n - 1 {
                assert(w.contains(x) && shows_source(x, s[i].0, s[i].1));
            } else {
                let m = choose|m: SourceModel| #[trigger] v.contains(m) && shows_source(m, s[i].0, s[i].1);
                lemma_inserted_holds::<SourceView>(v, x, m);
                assert(w.contains(m));
            }
        }
        assert forall|m: SourceModel| #[trigger] w.contains(m) implies exists|i: int|
            0 <= i < n && shows_source(m, (#[trigger] s[i]).0, s[i].1) by {
            lemma_inserted_holds::<SourceView>(v, x, m);
            if m == x {
                assert(shows_source(m, s[n - 1].0, s[n - 1].1));
            } else {
                let i = choose|i: int| 0 <= i < p && shows_source(m, (#[trigger] s[i]).0, s[i].1);
                assert(shows_source(m, s[i].0, s[i].1));
            }
        }
    }
}

/// The list of sources holds each source once, as it is stored, and their names rise.
pub proof fn sources_are_listed_by_name(s: Seq<(i64, SourceRec)>)
    ensures
        ({
            let v = source_list(s, s.len());
            &&& v.len() == s.len()
            &&& forall|i: int|
                0 <= i < s.len() ==> exists|m: SourceModel| #[trigger]
                    v.contains(m) && shows_source(m, (#[trigger] s[i]).0, s[i].1)
            &&& forall|m: SourceModel| #[trigger]
                v.contains(m) ==> exists|i: int| 0 <= i < s.len() && shows_source(m, (#[trigger] s[i]).0, s[i].1)
            &&& forall|i: int, j: int|
                0 <= i < j < v.len() ==> names_rise(
                    (#[trigger] v[i]).filename,
                    v[i].id,
                    (#[trigger] v[j]).filename,
                    v[j].id,
                )
        }),
{
    lemma_sources(s, s.len());
    let v = source_list(s, s.len());
    assert forall|i: int, j: int| 0 <= i < j < v.len() implies names_rise(
        (#[trigger] v[i]).filename,
        v[i].id,
        (#[trigger] v[j]).filename,
        v[j].id,
    ) by {
        assert(!SourceView::before(v[j], v[i]));
        let a = encode_utf8(v[i].filename);
        let b = encode_utf8(v[j].filename);
        lemma_less(a, b, a);
    }
}

/// A candidate as it is shown stands for a node that has the object id.
pub open spec fn shows_candidate(
    m: CandidateModel,
    row: (i64, NodeRec),
    sources: Seq<(i64, SourceRec)>,
    oid: Seq<char>,
) -> bool {
    &&& row.1.oid@ == oid
    &&& m.node_id == row.0
    &&& get(sources, row.1.source_id) matches Some(s) && s.filename@ == m.source_filename
    &&& m.pack_offset == row.1.pack_offset
    &&& m.status == row.1.status@
    &&& m.pinned == !(row.1.pinned == 0)
}

proof fn lemma_candidates(nodes: Seq<(i64, NodeRec)>, sources: Seq<(i64, SourceRec)>, oid: Seq<char>, n: nat)
    requires
        n <= nodes.len(),
        forall|i: int| 0 <= i < nodes.len() ==> has_key(sources, (#[trigger] nodes[i]).1.source_id),
    ensures
        in_order::<CandidateView>(candidate_list(nodes, sources, oid, n)),
        forall|i: int|
            0 <= i < n && (#[trigger] nodes[i]).1.oid@ == oid ==> exists|m: CandidateModel| #[trigger]
                candidate_list(nodes, sources, oid, n).contains(m) && shows_candidate(m, nodes[i], sources, oid),
        forall|m: CandidateModel| #[trigger]
            candidate_list(nodes, sources, oid, n).contains(m) ==> exists|i: int|
                0 <= i < n && shows_candidate(m, #[trigger] nodes[i], sources, oid),
    decreases n,
{
    lemma_candidate_order();
    if n > 0 {
        let p = (n - 1) as nat;
        lemma_candidates(nodes, sources, oid, p);
        let v = candidate_list(nodes, sources, oid, p);
        let w = candidate_list(nodes, sources, oid, n);
        let r = nodes[n - 1];
        if r.1.oid@ == oid {
            assert(has_key(sources, r.1.source_id));
            let x = CandidateModel {
                node_id: r.0,
                source_filename: (get(sources, r.1.source_id)->0).filename@,
                pack_offset: r.1.pack_offset,
                status: r.1.status@,
                pinned: r.1.pinned != 0,
            };
            assert(w == inserted::<CandidateView>(v, x));
            assert(shows_candidate(x, r, sources, oid));
            lemma_inserted_in_order::<CandidateView>(v, x);
            lemma_inserted_holds::<CandidateView>(v, x, x);
            assert forall|i: int| 0 <= i < n && (#[trigger] nodes[i]).1.oid@ == oid implies exists|
                m: CandidateModel,
            | #[trigger] w.contains(m) && shows_candidate(m, nodes[i], sources, oid) by {
                if i == n - 1 {
                    assert(w.contains(x));
                } else {
                    let m = choose|m: CandidateModel| #[trigger]
                        v.contains(m) && shows_candidate(m, nodes[i], sources, oid);
                    lemma_inserted_holds::<CandidateView>(v, x, m);
                    assert(w.contains(m));
                }
            }
            assert forall|m: CandidateModel| #[trigger] w.contains(m) implies exists|i: int|
                0 <= i < n && shows_candidate(m, #[trigger] nodes[i], sources, oid) by {
                lemma_inserted_holds::<CandidateView>(v, x, m);
                if m == x {
                    assert(shows_candidate(m, nodes[n - 1], sources, oid));
                } else {
                    let i = choose|i: int| 0 <= i < p && shows_candidate(m, #[trigger] nodes[i], sources, oid);
                    assert(shows_candidate(m, nodes[i], sources, oid));
                }
            }
        }
    }
}

/// The candidates for an object are the nodes that have its id, each as it is stored. Pinned ones come
/// first; among the others, and among the pinned, names rise, then places, then numbers.
pub proof fn candidates_are_listed(nodes: Seq<(i64, NodeRec)>, sources: Seq<(i64, SourceRec)>, oid: Seq<char>)
    requires
        forall|i: int| 0 <= i < nodes.len() ==> has_key(sources, (#[trigger] nodes[i]).1.source_id),
    ensures
        ({
            let v = candidate_list(nodes, sources, oid, nodes.len());
            &&& forall|i: int|
                0 <= i < nodes.len() && (#[trigger] nodes[i]).1.oid@ == oid ==> exists|m: CandidateModel| #[trigger]
                    v.contains(m) && shows_candidate(m, nodes[i], sources, oid)
            &&& forall|m: CandidateModel| #[trigger]
                v.contains(m) ==> exists|i: int|
                    0 <= i < nodes.len() && shows_candidate(m, #[trigger] nodes[i], sources, oid)
            &&& forall|i: int, j: int|
                0 <= i < j < v.len() && (#[trigger] v[j]).pinned ==> (#[trigger] v[i]).pinned
            &&& forall|i: int, j: int|
                0 <= i < j < v.len() && (#[trigger] v[i]).pinned == (#[trigger] v[j]).pinned ==> {
                    let a = encode_utf8(v[i].source_filename);
                    let b = encode_utf8(v[j].source_filename);
                    &&& !bytes_less(b, a)
                    &&& a == b && v[i].pack_offset is Some ==> v[j].pack_offset is Some && v[i].pack_offset->0
                        <= v[j].pack_offset->0
                    &&& a == b && v[i].pack_offset == v[j].pack_offset ==> v[i].node_id <= v[j].node_id
                }
        }),
{
    lemma_candidates(nodes, sources, oid, nodes.len());
    let v = candidate_list(nodes, sources, oid, nodes.len());
    assert forall|i: int, j: int| 0 <= i < j < v.len() && (#[trigger] v[j]).pinned implies (
    #[trigger] v[i]).pinned by {
        assert(!CandidateView::before(v[j], v[i]));
    }
    assert forall|i: int, j: int|
        0 <= i < j < v.len() && (#[trigger] v[i]).pinned == (#[trigger] v[j]).pinned implies {
        let a = encode_utf8(v[i].source_filename);
        let b = encode_utf8(v[j].source_filename);
        &&& !bytes_less(b, a)
        &&& a == b && v[i].pack_offset is Some ==> v[j].pack_offset is Some && v[i].pack_offset->0
            <= v[j].pack_offset->0
        &&& a == b && v[i].pack_offset == v[j].pack_offset ==> v[i].node_id <= v[j].node_id
    } by {
        assert(!CandidateView::before(v[j], v[i]));
        lemma_less(encode_utf8(v[i].source_filename), encode_utf8(v[j].source_filename), Seq::empty());
    }
}

/// A twin is another node with the same object id, under the name of its source.
pub open spec fn shows_twin(
    m: TwinModel,
    row: (i64, NodeRec),
    sources: Seq<(i64, SourceRec)>,
    oid: Seq<char>,
    id: i64,
) -> bool {
    &&& row.1.oid@ == oid
    &&& row.0 != id
    &&& m.node_id == row.0
    &&& get(sources, row.1.source_id) matches Some(s) && s.filename@ == m.filename
}

proof fn lemma_twins(nodes: Seq<(i64, NodeRec)>, sources: Seq<(i64, SourceRec)>, oid: Seq<char>, id: i64, n: nat)
    requires
        n <= nodes.len(),
        forall|i: int| 0 <= i < nodes.len() ==> has_key(sources, (#[trigger] nodes[i]).1.source_id),
    ensures
        in_order::<Twin>(twin_list(nodes, sources, oid, id, n)),
        forall|i: int|
            0 <= i < n && (#[trigger] nodes[i]).1.oid@ == oid && nodes[i].0 != id ==> exists|m: TwinModel| #[trigger]
                twin_list(nodes, sources, oid, id, n).contains(m) && shows_twin(m, nodes[i], sources, oid, id),
        forall|m: TwinModel| #[trigger]
            twin_list(nodes, sources, oid, id, n).contains(m) ==> exists|i: int|
                0 <= i < n && shows_twin(m, #[trigger] nodes[i], sources, oid, id),
    decreases n,
{
    lemma_twin_order();
    if n > 0 {
        let p = (n - 1) as nat;
        lemma_twins(nodes, sources, oid, id, p);
        let v = twin_list(nodes, sources, oid, id, p);
        let w = twin_list(nodes, sources, oid, id, n);
        let r = nodes[n - 1];
        if r.1.oid@ == oid && r.0 != id {
            assert(has_key(sources, r.1.source_id));
            let x = TwinModel { filename: (get(sources, r.1.source_id)->0).filename@, node_id: r.0 };
            assert(w == inserted::<Twin>(v, x));
            assert(shows_twin(x, r, sources, oid, id));
            lemma_inserted_in_order::<Twin>(v, x);
            lemma_inserted_holds::<Twin>(v, x, x);
            assert forall|i: int| 0 <= i < n && (#[trigger] nodes[i]).1.oid@ == oid && nodes[i].0 != id implies exists|
                m: TwinModel,
            | #[trigger] w.contains(m) && shows_twin(m, nodes[i], sources, oid, id) by {
                if i == n - 1 {
                    assert(w.contains(x));
                } else {
                    let m = choose|m: TwinModel| #[trigger]
                        v.contains(m) && shows_twin(m, nodes[i], sources, oid, id);
                    lemma_inserted_holds::<Twin>(v, x, m);
                    assert(w.contains(m));
                }
            }
            assert forall|m: TwinModel| #[trigger] w.contains(m) implies exists|i: int|
                0 <= i < n && shows_twin(m, #[trigger] nodes[i], sources, oid, id) by {
                lemma_inserted_holds::<Twin>(v, x, m);
                if m == x {
                    assert(shows_twin(m, nodes[n - 1], sources, oid, id));
                } else {
                    let i = choose|i: int| 0 <= i < p && shows_twin(m, #[trigger] nodes[i], sources, oid, id);
                    assert(shows_twin(m, nodes[i], sources, oid, id));
                }
            }
        }
    }
}

/// The duplicates of a node are the other nodes with its object id, and their names rise.
pub proof fn duplicates_are_the_other_nodes(
    nodes: Seq<(i64, NodeRec)>,
    sources: Seq<(i64, SourceRec)>,
    oid: Seq<char>,
    id: i64,
)
    requires
        forall|i: int| 0 <= i < nodes.len() ==> has_key(sources, (#[trigger] nodes[i]).1.source_id),
    ensures
        ({
            let v = twin_list(nodes, sources, oid, id, nodes.len());
            &&& forall|i: int|
                0 <= i < nodes.len() && (#[trigger] nodes[i]).1.oid@ == oid && nodes[i].0 != id ==> exists|
                    m: TwinModel,
                | #[trigger] v.contains(m) && shows_twin(m, nodes[i], sources, oid, id)
            &&& forall|m: TwinModel| #[trigger]
                v.contains(m) ==> exists|i: int|
                    0 <= i < nodes.len() && shows_twin(m, #[trigger] nodes[i], sources, oid, id)
            &&& forall|i: int, j: int|
                0 <= i < j < v.len() ==> names_rise(
                    (#[trigger] v[i]).filename,
                    v[i].node_id,
                    (#[trigger] v[j]).filename,
                    v[j].node_id,
                )
        }),
{
    lemma_twins(nodes, sources, oid, id, nodes.len());
    let v = twin_list(nodes, sources, oid, id, nodes.len());
    assert forall|i: int, j: int| 0 <= i < j < v.len() implies names_rise(
        (#[trigger] v[i]).filename,
        v[i].node_id,
        (#[trigger] v[j]).filename,
        v[j].node_id,
    ) by {
        assert(!Twin::before(v[j], v[i]));
        lemma_less(encode_utf8(v[i].filename), encode_utf8(v[j].filename), Seq::empty());
    }
}

/// A step as it is shown says what is stored, and names its base by the object id of that node.
pub open spec fn shows_step(m: StepModel, s: StepRec, nodes: Seq<(i64, NodeRec)>, id: i64) -> bool {
    &&& s.node_id == id
    &&& m.seq == s.seq && m.instr_start == s.instr_start && m.instr_end == s.instr_end && m.in_len == s.in_len
        && m.out_len == s.out_len && m.note == s.note@
    &&& m.check_ok == !(s.check_ok == 0)
    &&& s.base_node is None || !has_key(nodes, s.base_node->0) ==> m.base_oid is None
    &&& s.base_node is Some && has_key(nodes, s.base_node->0) ==> m.base_oid == Some(
        (get(nodes, s.base_node->0)->0).oid@,
    )
}

proof fn lemma_steps(steps: Seq<StepRec>, nodes: Seq<(i64, NodeRec)>, id: i64, n: nat)
    requires
        n <= steps.len(),
    ensures
        in_order::<StepView>(step_list(steps, nodes, id, n)),
        forall|i: int|
            0 <= i < n && (#[trigger] steps[i]).node_id == id ==> exists|m: StepModel| #[trigger]
                step_list(steps, nodes, id, n).contains(m) && shows_step(m, steps[i], nodes, id),
        forall|m: StepModel| #[trigger]
            step_list(steps, nodes, id, n).contains(m) ==> exists|i: int|
                0 <= i < n && shows_step(m, #[trigger] steps[i], nodes, id),
    decreases n,
{
    assert(is_weak_order::<StepView>());
    if n > 0 {
        let p = (n - 1) as nat;
        lemma_steps(steps, nodes, id, p);
        let v = step_list(steps, nodes, id, p);
        let w = step_list(steps, nodes, id, n);
        let s = steps[n - 1];
        if s.node_id == id {
            let x = StepModel {
                seq: s.seq,
                base_oid: oid_of_node(nodes, s.base_node),
                instr_start: s.instr_start,
                instr_end: s.instr_end,
                in_len: s.in_len,
                out_len: s.out_len,
                check_ok: s.check_ok != 0,
                note: s.note@,
            };
            assert(w == inserted::<StepView>(v, x));
            assert(shows_step(x, s, nodes, id));
            lemma_inserted_in_order::<StepView>(v, x);
            lemma_inserted_holds::<StepView>(v, x, x);
            assert forall|i: int| 0 <= i < n && (#[trigger] steps[i]).node_id == id implies exists|
                m: StepModel,
            | #[trigger] w.contains(m) && shows_step(m, steps[i], nodes, id) by {
                if i == n - 1 {
                    assert(w.contains(x));
                } else {
                    let m = choose|m: StepModel| #[trigger] v.contains(m) && shows_step(m, steps[i], nodes, id);
                    lemma_inserted_holds::<StepView>(v, x, m);
                    assert(w.contains(m));
                }
            }
            assert forall|m: StepModel| #[trigger] w.contains(m) implies exists|i: int|
                0 <= i < n && shows_step(m, #[trigger] steps[i], nodes, id) by {
                lemma_inserted_holds::<StepView>(v, x, m);
                if m == x {
                    assert(shows_step(m, steps[n - 1], nodes, id));
                } else {
                    let i = choose|i: int| 0 <= i < p && shows_step(m, #[trigger] steps[i], nodes, id);
                    assert(shows_step(m, steps[i], nodes, id));
                }
            }
        }
    }
}

/// The steps of a node are those stored for it, each with the object id of its base, in their order.
pub proof fn steps_are_listed_in_order(steps: Seq<StepRec>, nodes: Seq<(i64, NodeRec)>, id: i64)
    ensures
        ({
            let v = step_list(steps, nodes, id, steps.len());
            &&& forall|i: int|
                0 <= i < steps.len() && (#[trigger] steps[i]).node_id == id ==> exists|m: StepModel| #[trigger]
                    v.contains(m) && shows_step(m, steps[i], nodes, id)
            &&& forall|m: StepModel| #[trigger]
                v.contains(m) ==> exists|i: int| 0 <= i < steps.len() && shows_step(m, #[trigger] steps[i], nodes, id)
            &&& forall|i: int, j: int| 0 <= i < j < v.len() ==> (#[trigger] v[i]).seq <= (#[trigger] v[j]).seq
        }),
{
    lemma_steps(steps, nodes, id, steps.len());
    let v = step_list(steps, nodes, id, steps.len());
    assert forall|i: int, j: int| 0 <= i < j < v.len() implies (#[trigger] v[i]).seq <= (#[trigger] v[j]).seq by {
        assert(!StepView::before(v[j], v[i]));
    }
}

/// A piece of evidence as it is shown says what is stored of it.
pub open spec fn shows_evidence(m: EvidenceModel, e: EvidenceRec, id: i64) -> bool {
    e.node_id == Some(id) && m.level == e.level@ && m.code == e.code@ && m.message == e.message@ && m.at_offset
        == e.at_offset
}

proof fn lemma_evidence(v: Seq<EvidenceRec>, id: i64, n: nat)
    requires
        n <= v.len(),
    ensures
        forall|i: int|
            0 <= i < n && (#[trigger] v[i]).node_id == Some(id) ==> exists|k: int|
                0 <= k < evidence_list(v, id, n).len() && shows_evidence(
                    #[trigger] evidence_list(v, id, n)[k],
                    v[i],
                    id,
                ),
        forall|k: int|
            0 <= k < evidence_list(v, id, n).len() ==> exists|i: int|
                0 <= i < n && shows_evidence(#[trigger] evidence_list(v, id, n)[k], #[trigger] v[i], id),
    decreases n,
{
    if n > 0 {
        let p = (n - 1) as nat;
        lemma_evidence(v, id, p);
        let a = evidence_list(v, id, p);
        let b = evidence_list(v, id, n);
        assert forall|i: int| 0 <= i < n && (#[trigger] v[i]).node_id == Some(id) implies exists|k: int|
            0 <= k < b.len() && shows_evidence(#[trigger] b[k], v[i], id) by {
            if i == n - 1 {
                assert(shows_evidence(b[b.len() - 1], v[i], id));
            } else {
                let k = choose|k: int| 0 <= k < a.len() && shows_evidence(#[trigger] a[k], v[i], id);
                assert(b[k] == a[k]);
            }
        }
        assert forall|k: int| 0 <= k < b.len() implies exists|i: int|
            0 <= i < n && shows_evidence(#[trigger] b[k], #[trigger] v[i], id) by {
            if k < a.len() {
                assert(b[k] == a[k]);
                let i = choose|i: int| 0 <= i < p && shows_evidence(a[k], #[trigger] v[i], id);
                assert(shows_evidence(b[k], v[i], id));
            } else {
                assert(shows_evidence(b[k], v[n - 1], id));
            }
        }
    }
}

/// The evidence on a node is what is stored for it.
pub proof fn evidence_is_listed(v: Seq<EvidenceRec>, id: i64)
    ensures
        ({
            let w = evidence_list(v, id, v.len());
            &&& forall|i: int|
                0 <= i < v.len() && (#[trigger] v[i]).node_id == Some(id) ==> exists|k: int|
                    0 <= k < w.len() && shows_evidence(#[trigger] w[k], v[i], id)
            &&& forall|k: int|
                0 <= k < w.len() ==> exists|i: int|
                    0 <= i < v.len() && shows_evidence(#[trigger] w[k], #[trigger] v[i], id)
        }),
{
    lemma_evidence(v, id, v.len());
}

proof fn lemma_first_edge(edges: Seq<EdgeRec>, from: i64, n: nat)
    requires
        n <= edges.len(),
    ensures
        n <= first_edge(edges, from, n) <= edges.len(),
        first_edge(edges, from, n) < edges.len() ==> edges[first_edge(edges, from, n) as int].from_node == from,
        forall|i: int| n <= i < first_edge(edges, from, n) ==> (#[trigger] edges[i]).from_node != from,
    decreases edges.len() - n,
{
    if n < edges.len() && edges[n as int].from_node != from {
        lemma_first_edge(edges, from, n + 1);
    }
}

/// One link of a chain leads to the next: an edge of its node names the node of the other.
pub open spec fn leads_to(a: LinkModel, b: LinkModel, edges: Seq<EdgeRec>) -> bool {
    exists|k: int|
        0 <= k < edges.len() && (#[trigger] edges[k]).from_node == a.node_id && edges[k].to_node == Some(b.node_id)
}

/// A link of a chain says what is stored of its node, and names a missing base only where an edge of the
/// node names that object and no node.
pub open spec fn shows_link(m: LinkModel, nodes: Seq<(i64, NodeRec)>, edges: Seq<EdgeRec>) -> bool {
    &&& get(nodes, m.node_id) matches Some(n) && n.kind@ == m.kind && n.status@ == m.status && (n.oid@.len() > 0 ==> m.oid
        == n.oid@)
    &&& m.missing_oid is Some ==> exists|k: int|
        0 <= k < edges.len() && (#[trigger] edges[k]).from_node == m.node_id && edges[k].to_node is None
            && edges[k].to_oid@ == m.missing_oid->0
}

/// A chain starts at its node and goes from delta to base by the edges that are stored; no node comes
/// twice, and only the last one lacks its base.
pub proof fn a_chain_goes_from_delta_to_base(
    nodes: Seq<(i64, NodeRec)>,
    edges: Seq<EdgeRec>,
    cur: i64,
    seen: Seq<i64>,
)
    ensures
        ({
            let c = chain_from(nodes, edges, cur, seen);
            &&& has_key(nodes, cur) && !seen.contains(cur) && seen.len() <= nodes.len() ==> c.len() > 0
            &&& c.len() > 0 ==> c[0].node_id == cur
            &&& forall|i: int| 0 <= i < c.len() ==> shows_link(#[trigger] c[i], nodes, edges)
            &&& forall|i: int| 0 <= i < c.len() ==> !seen.contains((#[trigger] c[i]).node_id)
            &&& forall|i: int, j: int|
                0 <= i < j < c.len() ==> (#[trigger] c[i]).node_id != (#[trigger] c[j]).node_id
            &&& forall|i: int, j: int|
                0 <= i && j == i + 1 && j < c.len() ==> leads_to(#[trigger] c[i], #[trigger] c[j], edges)
            &&& forall|i: int| 0 <= i < c.len() - 1 ==> (#[trigger] c[i]).missing_oid is None
        }),
    decreases nodes.len() + 1 - seen.len(),
{
    let c = chain_from(nodes, edges, cur, seen);
    if !(seen.contains(cur) || !has_key(nodes, cur) || seen.len() > nodes.len()) {
        let k = first_edge(edges, cur, 0);
        lemma_first_edge(edges, cur, 0);
        let next = if k < edges.len() {
            edges[k as int].to_node
        } else {
            None
        };
        if let Some(b) = next {
            let more = seen.push(cur);
            a_chain_goes_from_delta_to_base(nodes, edges, b, more);
            let d = chain_from(nodes, edges, b, more);
            assert(c =~= seq![c[0]] + d);
            assert(c[0].missing_oid is None);
            assert(more[seen.len() as int] == cur);
            assert forall|i: int| 0 <= i < c.len() implies shows_link(#[trigger] c[i], nodes, edges) by {
                if i > 0 {
                    assert(c[i] == d[i - 1]);
                }
            }
            assert forall|i: int| 0 <= i < c.len() implies !seen.contains((#[trigger] c[i]).node_id) by {
                if i > 0 {
                    assert(c[i] == d[i - 1]);
                    if seen.contains(c[i].node_id) {
                        let q = choose|q: int| 0 <= q < seen.len() && seen[q] == c[i].node_id;
                        assert(more[q] == c[i].node_id);
                    }
                }
            }
            assert forall|i: int, j: int| 0 <= i < j < c.len() implies (#[trigger] c[i]).node_id != (
            #[trigger] c[j]).node_id by {
                assert(c[j] == d[j - 1]);
                if i > 0 {
                    assert(c[i] == d[i - 1]);
                } else {
                    assert(!more.contains(d[j - 1].node_id));
                }
            }
            assert forall|i: int, j: int| 0 <= i && j == i + 1 && j < c.len() implies leads_to(
                #[trigger] c[i],
                #[trigger] c[j],
                edges,
            ) by {
                assert(c[j] == d[j - 1]);
                if i > 0 {
                    assert(c[i] == d[i - 1]);
                } else {
                    assert(edges[k as int].from_node == c[0].node_id && edges[k as int].to_node == Some(c[1].node_id));
                }
            }
            assert forall|i: int| 0 <= i < c.len() - 1 implies (#[trigger] c[i]).missing_oid is None by {
                if i > 0 {
                    assert(c[i] == d[i - 1]);
                }
            }
        } else {
            assert(c.len() == 1);
            assert(shows_link(c[0], nodes, edges));
        }
    }
}

/// A node whose only edge names an object that no node has shows that object as what is missing.
pub proof fn a_missing_base_is_shown(nodes: Seq<(i64, NodeRec)>, edges: Seq<EdgeRec>, id: i64, k: int)
    requires
        has_key(nodes, id),
        0 <= k < edges.len(),
        edges[k].from_node == id,
        edges[k].to_node is None,
        edges[k].to_oid@.len() > 0,
        forall|i: int| 0 <= i < edges.len() && i != k ==> (#[trigger] edges[i]).from_node != id,
    ensures
        ({
            let c = chain_from(nodes, edges, id, Seq::empty());
            c.len() == 1 && c[0].node_id == id && c[0].missing_oid == Some(edges[k].to_oid@)
        }),
{
    lemma_first_edge(edges, id, 0);
    assert(!Seq::<i64>::empty().contains(id));
}

/// Commits and tags are shown as text, and so is whatever looks plain; the rest is shown as digits, two
/// for each byte. No more is shown than the first bytes.
pub proof fn previews_show_the_first_bytes(kind: Seq<char>, data: Seq<u8>)
    ensures
        kind == "commit"@ || kind == "tag"@ ==> preview_of(kind, data) is Text,
        (forall|i: int|
            0 <= i < data.len() && i < 2048 ==> (#[trigger] data[i] == 9 || data[i] == 10 || 32 <= data[i] < 127))
            ==> preview_of(kind, data) is Text,
        kind != "commit"@ && kind != "tag"@ && (exists|i: int|
            0 <= i < data.len() && i < 2048 && (#[trigger] data[i] < 9 || 10 < data[i] < 32 || data[i] > 126))
            ==> preview_of(kind, data) is Binary,
        data.len() <= 4096 && preview_of(kind, data) is Text ==> preview_of(kind, data) == PreviewModel::Text(
            lossy_text(data),
        ),
        data.len() > 4096 && preview_of(kind, data) is Text ==> preview_of(kind, data) == PreviewModel::Text(
            lossy_text(data.subrange(0, 4096)),
        ),
        data.len() <= 128 && preview_of(kind, data) is Binary ==> preview_of(kind, data) == PreviewModel::Binary(
            hex(data),
        ),
        data.len() > 128 && preview_of(kind, data) is Binary ==> preview_of(kind, data) == PreviewModel::Binary(
            hex(data.subrange(0, 128)),
        ),
{
    let h = head(data, 2048);
    assert forall|i: int| 0 <= i < h.len() implies #[trigger] h[i] == data[i] by {}
    if exists|i: int| 0 <= i < data.len() && i < 2048 && (#[trigger] data[i] < 9 || 10 < data[i] < 32 || data[i] > 126) {
        let i = choose|i: int|
            0 <= i < data.len() && i < 2048 && (#[trigger] data[i] < 9 || 10 < data[i] < 32 || data[i] > 126);
        assert(h[i] == data[i]);
    }
    if data.len() >= 4096 {
        assert(head(data, 4096) =~= data.subrange(0, 4096));
        if data.len() == 4096 {
            assert(head(data, 4096) =~= data);
        }
    }
    if data.len() >= 128 {
        assert(head(data, 128) =~= data.subrange(0, 128));
        if data.len() == 128 {
            assert(head(data, 128) =~= data);
        }
    }
}

proof fn lemma_buckets(fanout: Seq<u32>, n: nat)
    requires
        n <= 256,
        fanout.len() == 256,
    ensures
        forall|i: int|
            0 < i < n && #[trigger] fanout[i] != fanout[i - 1] ==> bucket_list(fanout, n).contains(
                BucketModel { prefix: two_digits(i as nat), cumulative: fanout[i] as i64 },
            ),
        n > 0 ==> bucket_list(fanout, n).len() > 0 && bucket_list(fanout, n)[0] == (BucketModel {
            prefix: two_digits(0),
            cumulative: fanout[0] as i64,
        }),
        n > 0 ==> bucket_list(fanout, n).last().cumulative == fanout[n - 1],
    decreases n,
{
    if n > 0 {
        let p = (n - 1) as nat;
        lemma_buckets(fanout, p);
        let a = bucket_list(fanout, p);
        let b = bucket_list(fanout, n);
        assert forall|i: int| 0 < i < n && #[trigger] fanout[i] != fanout[i - 1] implies b.contains(
            BucketModel { prefix: two_digits(i as nat), cumulative: fanout[i] as i64 },
        ) by {
            let m = BucketModel { prefix: two_digits(i as nat), cumulative: fanout[i] as i64 };
            if i < p {
                assert(a.contains(m));
                let k = choose|k: int| 0 <= k < a.len() && a[k] == m;
                assert(b[k] == m);
            } else {
                assert(b[b.len() - 1] == m);
            }
        }
    }
}

/// A fanout table is told by the buckets at which it rises: the first, and each that differs from the
/// one before it. The last of them holds all objects.
pub proof fn buckets_are_where_the_table_rises(fanout: Seq<u32>)
    requires
        fanout.len() == 256,
    ensures
        ({
            let v = bucket_list(fanout, 256);
            &&& v.len() > 0 && v[0].cumulative == fanout[0] && v[0].prefix == seq!['0', '0']
            &&& v.last().cumulative == fanout[255]
            &&& forall|i: int|
                0 < i < 256 && #[trigger] fanout[i] != fanout[i - 1] ==> v.contains(
                    BucketModel { prefix: two_digits(i as nat), cumulative: fanout[i] as i64 },
                )
        }),
{
    lemma_buckets(fanout, 256);
    assert(two_digits(0) =~= seq!['0', '0']);
}

/// A row of a node that has a status.
pub open spec fn of_status(status: Seq<char>) -> spec_fn((i64, NodeRec)) -> bool {
    |r: (i64, NodeRec)| r.1.status@ == status
}

/// How many of the nodes have a status is how many are left when the others are taken out.
pub proof fn statuses_are_counted(nodes: Seq<(i64, NodeRec)>, status: Seq<char>, n: nat)
    requires
        n <= nodes.len(),
    ensures
        status_count(nodes, status, n) == nodes.take(n as int).filter(of_status(status)).len(),
    decreases n,
{
    reveal(Seq::filter);
    if n > 0 {
        statuses_are_counted(nodes, status, (n - 1) as nat);
        let t = nodes.take(n as int);
        assert(t.drop_last() =~= nodes.take(n - 1));
        assert(t.last() == nodes[n - 1]);
    }
}

/// The counts of a snapshot: each status counts its nodes, and whatever is none of the four is pending.
pub proof fn every_node_is_counted_once(c: StatusCounts, nodes: Seq<(i64, NodeRec)>)
    requires
        are_counts(c, nodes),
    ensures
        c.total == nodes.len(),
        c.resolved == nodes.filter(of_status("resolved"@)).len(),
        c.blocked == nodes.filter(of_status("blocked"@)).len(),
        c.error == nodes.filter(of_status("error"@)).len(),
        c.paused == nodes.filter(of_status("paused"@)).len(),
        c.total == c.resolved + c.blocked + c.error + c.paused + c.pending,
{
    statuses_are_counted(nodes, "resolved"@, nodes.len());
    statuses_are_counted(nodes, "blocked"@, nodes.len());
    statuses_are_counted(nodes, "error"@, nodes.len());
    statuses_are_counted(nodes, "paused"@, nodes.len());
    assert(nodes.take(nodes.len() as int) =~= nodes);
}

/// The share of a single object is its percentage of the whole, rounded towards zero.
pub proof fn a_share_is_a_percentage(total: int, percent: int)
    requires
        total >= 0,
        percent >= 0,
    ensures
        ({
            let h = hundredth(total * percent);
            &&& h * 100 <= total * percent < (h + 1) * 100
            &&& hundredth(-(total * percent)) == -h
        }),
{
    assert(total * percent >= 0) by (nonlinear_arith)
        requires
            total >= 0,
            percent >= 0,
    ;
}

/// A pack as it is shown: its checksum is good exactly when the trailer is what was computed, it is
/// matched when it is stored as such, and its index goes by the name of its source.
pub proof fn a_pack_is_shown_as_stored(v: PackView, t: Tables, id: i64, p: PackRec)
    requires
        is_pack_view(v, t, id, p),
        has_key(t.sources@, p.source_id),
    ensures
        v.pack_id == id,
        v.version == p.version,
        v.object_count == p.object_count,
        v.checksum_ok <==> v.trailer_oid@ == v.computed_checksum@,
        v.trailer_oid@ == p.trailer_oid@ && v.computed_checksum@ == p.computed_checksum@,
        v.matched <==> !(p.matched == 0),
        v.idx_checksum_ok <==> !(p.idx_checksum_ok == 0),
        p.idx_source_id is None ==> v.idx_filename is None && v.fanout is None,
        p.idx_source_id is Some && has_key(t.sources@, p.idx_source_id->0) ==> text_opt(v.idx_filename) == Some(
            (get(t.sources@, p.idx_source_id->0)->0).filename@,
        ),
        exists|i: int|
            0 <= i < t.sources@.len() && (#[trigger] t.sources@[i]).0 == p.source_id && t.sources@[i].1.filename@
                == v.filename@,
{
    lemma_row(t.sources@, p.source_id);
}

proof fn lemma_content(v: Seq<ObjectRec>, id: i64, stage: Seq<char>, n: nat)
    requires
        n <= v.len(),
    ensures
        n <= content_at(v, id, stage, n) <= v.len(),
        forall|i: int|
            n <= i < content_at(v, id, stage, n) ==> !((#[trigger] v[i]).node_id == id && v[i].stage@ == stage),
        content_at(v, id, stage, n) < v.len() ==> v[content_at(v, id, stage, n) as int].node_id == id && v[content_at(
            v,
            id,
            stage,
            n,
        ) as int].stage@ == stage,
    decreases v.len() - n,
{
    if n < v.len() && !(v[n as int].node_id == id && v[n as int].stage@ == stage) {
        lemma_content(v, id, stage, n + 1);
    }
}

/// Content of a node at a stage.
pub open spec fn holds_stage(o: ObjectRec, id: i64, stage: Seq<char>) -> bool {
    o.node_id == id && o.stage@ == stage
}

/// A node as it is shown: it copies what is stored, says that a checksum is good exactly when the stored
/// mark is not zero, shows a summary and a preview exactly when there is content of that stage, and a
/// chain only when it did not come to its end.
pub proof fn a_node_is_shown_as_stored(v: NodeView, t: Tables, id: i64)
    requires
        is_node_view(v, t, id),
        has_key(t.nodes@, id),
        t.linked(),
    ensures
        ({
            let n = get(t.nodes@, id)->0;
            &&& v.id == id && v.oid@ == n.oid@ && v.kind@ == n.kind@ && v.status@ == n.status@
            &&& text_opt(v.final_kind) == text_opt(n.final_kind)
            &&& text_opt(v.error_code) == text_opt(n.error_code) && text_opt(v.error_note) == text_opt(n.error_note)
            &&& v.pack_id == n.pack_id && v.pack_offset == n.pack_offset
            &&& v.zlib_start == n.zlib_start && v.entry_end == n.entry_end && v.declared_size == n.declared_size
            &&& v.base_offset == n.base_offset && text_opt(v.base_oid) == text_opt(n.base_oid)
            &&& v.depth == n.resolve_depth && v.idx_crc == n.idx_crc && v.computed_crc == n.computed_crc
            &&& v.crc_ok is Some <==> n.crc_ok is Some
            &&& v.crc_ok == Some(false) <==> n.crc_ok == Some(0i64)
            &&& get(t.sources@, n.source_id) matches Some(s) && s.filename@ == v.source_filename@ && s.kind@
                == v.source_kind@
            &&& v.raw_summary is Some <==> exists|i: int|
                0 <= i < t.objects@.len() && holds_stage(#[trigger] t.objects@[i], id, "raw"@)
            &&& v.resolved_summary is Some <==> exists|i: int|
                0 <= i < t.objects@.len() && holds_stage(#[trigger] t.objects@[i], id, "resolved"@)
            &&& v.resolved_preview is Some <==> v.resolved_summary is Some
            &&& n.oid@.len() == 0 ==> v.candidates@.len() == 0 && v.duplicate_sources@.len() == 0
            &&& v.blocking_chain@.len() > 0 <==> n.status@ == "blocked"@ || n.status@ == "paused"@ || n.status@
                == "error"@
            &&& v.blocking_chain@.len() > 0 ==> v.blocking_chain@[0].node_id == id
        }),
{
    lemma_row(t.nodes@, id);
    lemma_content(t.objects@, id, "raw"@, 0);
    lemma_content(t.objects@, id, "resolved"@, 0);
    assert(!Seq::<i64>::empty().contains(id));
    a_chain_goes_from_delta_to_base(t.nodes@, t.edges@, id, Seq::empty());
    let n = get(t.nodes@, id)->0;
    assert(views(v.blocking_chain@).len() == v.blocking_chain@.len());
    assert(views(v.candidates@).len() == v.candidates@.len());
    assert(crate::model::text::texts(v.duplicate_sources@).len() == v.duplicate_sources@.len());
    if v.blocking_chain@.len() > 0 {
        assert(views(v.blocking_chain@)[0] == v.blocking_chain@[0]@);
    }
    let k = content_at(t.objects@, id, "raw"@, 0);
    if k < t.objects@.len() {
        assert(holds_stage(t.objects@[k as int], id, "raw"@));
    }
    let r = content_at(t.objects@, id, "resolved"@, 0);
    if r < t.objects@.len() {
        assert(holds_stage(t.objects@[r as int], id, "resolved"@));
    }
}

/// An edge as it is shown says what is stored.
pub open spec fn shows_edge(m: EdgeModel, e: EdgeRec) -> bool {
    m.from_node == e.from_node && m.to_node == e.to_node && m.to_oid == e.to_oid@ && m.kind == e.kind@
}

/// The list of edges holds each edge, as it is stored, by the node it starts from.
pub proof fn edges_are_listed_by_their_start(v: Seq<EdgeRec>, n: nat)
    requires
        n <= v.len(),
    ensures
        edge_list(v, n).len() == n,
        forall|i: int|
            0 <= i < n ==> exists|m: EdgeModel| #[trigger]
                edge_list(v, n).contains(m) && shows_edge(m, #[trigger] v[i]),
        forall|i: int, j: int|
            0 <= i < j < n ==> (#[trigger] edge_list(v, n)[i]).from_node <= (#[trigger] edge_list(v, n)[j]).from_node,
    decreases n,
{
    assert(is_weak_order::<EdgeView>());
    if n > 0 {
        let p = (n - 1) as nat;
        edges_are_listed_by_their_start(v, p);
        let a = edge_list(v, p);
        let b = edge_list(v, n);
        let e = v[n - 1];
        let x = EdgeModel { from_node: e.from_node, to_node: e.to_node, to_oid: e.to_oid@, kind: e.kind@ };
        assert(b == inserted::<EdgeView>(a, x));
        assert(in_order::<EdgeView>(a)) by {
            assert forall|i: int, j: int| 0 <= i < j < a.len() implies !EdgeView::before(
                #[trigger] a[j],
                #[trigger] a[i],
            ) by {
                assert(a[i].from_node <= a[j].from_node);
            }
        }
        lemma_inserted_in_order::<EdgeView>(a, x);
        lemma_inserted_holds::<EdgeView>(a, x, x);
        assert forall|i: int| 0 <= i < n implies exists|m: EdgeModel| #[trigger]
            b.contains(m) && shows_edge(m, #[trigger] v[i]) by {
            if i == n - 1 {
                assert(b.contains(x) && shows_edge(x, v[i]));
            } else {
                let m = choose|m: EdgeModel| #[trigger] a.contains(m) && shows_edge(m, v[i]);
                lemma_inserted_holds::<EdgeView>(a, x, m);
                assert(b.contains(m));
            }
        }
        assert forall|i: int, j: int| 0 <= i < j < n implies (#[trigger] b[i]).from_node <= (
        #[trigger] b[j]).from_node by {
            assert(!EdgeView::before(b[j], b[i]));
        }
    }
}

} // verus!
