//! Laws of resuming, resetting and deleting: what starts over, what is gone, and what stays.
use vstd::prelude::*;
use crate::kernel::engine::candidates::{dependents, lemma_contains_push};
use crate::kernel::engine::chain::{capped, visits_only_record, CtxModel, PauseModel, RunModel};
use crate::kernel::engine::import::reconciled;
use crate::kernel::engine::laws::{lemma_get_del, lemma_ready, lemma_runs_keep_sources};
use crate::kernel::engine::manage::{
    outside_dependents, own_ids, paused_ids, resumed, sources_without, without_node, without_nodes, without_source,
};
use crate::kernel::engine::publish::{
    all_published, all_visited, claims_only_claim, claims_rebuilt, fresh_run, node_ids, pauses_published, reset,
    reset_nodes, reset_one, resolved_all,
};
use crate::kernel::engine::rows::{EngineModel, FailKind, NodeModel, SourceModel, StateModel};
use crate::model::assoc::{del, get, get_of_put, has_key, keyed, lemma_row, row_of};
use crate::model::sort::sorted_texts;

verus! {

proof fn lemma_paused(e: EngineModel, n: nat, x: Seq<char>)
    requires
        n <= e.nodes.len(),
    ensures
        paused_ids(e, n).contains(x) <==> exists|i: int|
            0 <= i < n && (#[trigger] e.nodes[i]).1.id == x && e.nodes[i].1.state is Paused,
    decreases n,
{
    if n > 0 {
        lemma_paused(e, (n - 1) as nat, x);
        let v = paused_ids(e, (n - 1) as nat);
        lemma_contains_push(v, e.nodes[n - 1].1.id);
        assert(e.nodes[n - 1].1.id == e.nodes[n - 1].1.id);
    }
}

proof fn lemma_visits_keep_runs(
    e: EngineModel,
    c: CtxModel,
    ids: Seq<Seq<char>>,
    only: Option<Set<Seq<char>>>,
    n: nat,
)
    ensures
        all_visited(e, c, ids, only, n).0.recompute_runs == e.recompute_runs,
        all_visited(e, c, ids, only, n).0.budget == e.budget,
        all_visited(e, c, ids, only, n).0.pins == e.pins,
    decreases n,
{
    if n > 0 {
        lemma_visits_keep_runs(e, c, ids, only, (n - 1) as nat);
        let v = all_visited(e, c, ids, only, (n - 1) as nat);
        visits_only_record(v.0, v.1, ids[n - 1], 0);
    }
}

proof fn lemma_published_keep_runs(e: EngineModel, rows: Seq<(Seq<char>, RunModel)>, n: nat)
    ensures
        all_published(e, rows, n).recompute_runs == e.recompute_runs,
        all_published(e, rows, n).budget == e.budget,
        all_published(e, rows, n).pins == e.pins,
    decreases n,
{
    if n > 0 {
        lemma_published_keep_runs(e, rows, (n - 1) as nat);
    }
}

proof fn lemma_pauses_keep_runs(e: EngineModel, rows: Seq<(Seq<char>, PauseModel)>, n: nat)
    ensures
        pauses_published(e, rows, n).recompute_runs == e.recompute_runs,
        pauses_published(e, rows, n).budget == e.budget,
        pauses_published(e, rows, n).pins == e.pins,
    decreases n,
{
    if n > 0 {
        lemma_pauses_keep_runs(e, rows, (n - 1) as nat);
    }
}

/// Every run is counted once, and leaves the budget and the pins as they are.
pub proof fn runs_are_counted(e: EngineModel, only: Option<Set<Seq<char>>>)
    ensures
        e.recompute_runs < u64::MAX ==> resolved_all(e, only).recompute_runs == e.recompute_runs + 1,
        resolved_all(e, only).budget == e.budget,
        resolved_all(e, only).pins == e.pins,
{
    let e0 = EngineModel { recompute_runs: capped(e.recompute_runs + 1), ..e };
    let ids = sorted_texts(node_ids(e));
    let v = all_visited(e0, fresh_run(e), ids, only, ids.len());
    lemma_visits_keep_runs(e0, fresh_run(e), ids, only, ids.len());
    lemma_published_keep_runs(v.0, v.1.results, v.1.results.len());
    let p = all_published(v.0, v.1.results, v.1.results.len());
    lemma_pauses_keep_runs(p, v.1.paused, v.1.paused.len());
}

proof fn lemma_reset_keeps(e: EngineModel, ids: Set<Seq<char>>, n: nat)
    ensures
        reset(e, ids, n).recompute_runs == e.recompute_runs,
        reset(e, ids, n).budget == e.budget,
        reset(e, ids, n).pins == e.pins,
        reset(e, ids, n).sources == e.sources,
    decreases n,
{
    if n > 0 {
        lemma_reset_keeps(e, ids, (n - 1) as nat);
    }
}

/// Resuming does nothing when no node is paused, and otherwise makes one more run.
pub proof fn what_is_paused_is_resumed(e: EngineModel)
    requires
        e.recompute_runs < u64::MAX,
    ensures
        (forall|i: int| 0 <= i < e.nodes.len() ==> !((#[trigger] e.nodes[i]).1.state is Paused)) ==> resumed(e) == e,
        (exists|i: int| 0 <= i < e.nodes.len() && (#[trigger] e.nodes[i]).1.state is Paused)
            ==> resumed(e).recompute_runs == e.recompute_runs + 1,
        resumed(e).budget == e.budget,
        resumed(e).pins == e.pins,
{
    let v = paused_ids(e, e.nodes.len());
    if v.len() > 0 {
        lemma_paused(e, e.nodes.len(), v[0]);
        assert(v.contains(v[0]));
        let affected = dependents(e.edges, v.to_set(), Set::empty());
        let r = reset_nodes(e, affected);
        lemma_reset_keeps(e, affected, e.nodes.len());
        claims_only_claim(r);
        runs_are_counted(claims_rebuilt(r), Some(affected));
    } else if exists|i: int| 0 <= i < e.nodes.len() && (#[trigger] e.nodes[i]).1.state is Paused {
        let i = choose|i: int| 0 <= i < e.nodes.len() && (#[trigger] e.nodes[i]).1.state is Paused;
        lemma_paused(e, e.nodes.len(), e.nodes[i].1.id);
        assert(e.nodes[i].1.id == e.nodes[i].1.id);
    }
}

/// Removing the row of a key leaves none when no two rows have the same key.
proof fn lemma_gone<V>(s: Seq<(Seq<char>, V)>, k: Seq<char>)
    requires
        keyed(s),
    ensures
        !has_key(del(s, k), k),
{
    lemma_row(s, k);
    let d = del(s, k);
    lemma_row(d, k);
    if has_key(s, k) && has_key(d, k) {
        let at = row_of(s, k) as int;
        let j = row_of(d, k) as int;
        if j < at {
            assert(d[j] == s[j]);
        } else {
            assert(d[j] == s[j + 1]);
            assert(s[at].0 != s[j + 1].0);
        }
    }
}

/// No table has two rows of one key.
pub open spec fn tables_keyed(e: EngineModel) -> bool {
    keyed(e.nodes) && keyed(e.contents) && keyed(e.found) && keyed(e.claimed) && keyed(e.edges) && keyed(
        e.missing_edges,
    ) && keyed(e.charged)
}

/// A node that is reset starts over: its content, its id, its edges and its charge are gone, and it is
/// unprocessed again, unless it failed for its own bytes. The other nodes keep what they have.
pub proof fn a_reset_node_starts_over(e: EngineModel, id: Seq<char>, other: Seq<char>)
    requires
        has_key(e.nodes, id),
        tables_keyed(e),
        other != id,
    ensures
        ({
            let r = reset_one(e, id);
            let n = get(e.nodes, id)->0;
            let m = get(r.nodes, id)->0;
            &&& !has_key(r.contents, id) && !has_key(r.found, id) && !has_key(r.edges, id) && !has_key(
                r.missing_edges,
                id,
            ) && !has_key(r.charged, id)
            &&& has_key(r.nodes, id) && m.id == n.id && m.source_id == n.source_id
            &&& n.state is Resolved || n.state is Paused || n.state is Unprocessed ==> m.state is Unprocessed
            &&& n.state is Failed && (n.state->fail == FailKind::MissingBase || n.state->fail == FailKind::Cycle
                || n.state->fail == FailKind::BadDelta || n.state->fail == FailKind::OfsOutOfRange) ==> m.state is Unprocessed
            &&& n.state is Failed && (n.state->fail == FailKind::BadCrc || n.state->fail == FailKind::BadInflate
                || n.state->fail == FailKind::SizeSpoof || n.state->fail == FailKind::SizeMismatch || n.state->fail
                == FailKind::BadLoose) ==> m.state == n.state
            &&& get(e.charged, id) is Some && get(e.charged, id)->0 <= e.charged_total ==> r.charged_total + get(
                e.charged,
                id,
            )->0 == e.charged_total
            &&& get(e.charged, id) is None ==> r.charged_total == e.charged_total
            &&& get(r.nodes, other) == get(e.nodes, other) && get(r.contents, other) == get(e.contents, other)
            &&& get(r.found, other) == get(e.found, other) && get(r.edges, other) == get(e.edges, other)
            &&& get(r.charged, other) == get(e.charged, other)
            &&& r.sources == e.sources && r.packs == e.packs && r.budget == e.budget
        }),
{
    let n = get(e.nodes, id)->0;
    lemma_gone(e.contents, id);
    lemma_gone(e.found, id);
    lemma_gone(e.edges, id);
    lemma_gone(e.missing_edges, id);
    lemma_gone(e.charged, id);
    lemma_get_del(e.contents, id, other);
    lemma_get_del(e.found, id, other);
    lemma_get_del(e.edges, id, other);
    lemma_get_del(e.charged, id, other);
    get_of_put(e.nodes, id, NodeModel { state: StateModel::Unprocessed, ..n }, other);
}

/// A deleted node is gone with all that was made of it, and its charge is given back. The other nodes
/// keep what they have.
pub proof fn a_deleted_node_is_gone(e: EngineModel, id: Seq<char>, other: Seq<char>)
    requires
        tables_keyed(e),
        other != id,
    ensures
        ({
            let r = without_node(e, id);
            &&& !has_key(r.nodes, id) && !has_key(r.contents, id) && !has_key(r.found, id) && !has_key(r.claimed, id)
            &&& !has_key(r.edges, id) && !has_key(r.missing_edges, id) && !has_key(r.charged, id)
            &&& get(e.charged, id) is Some && get(e.charged, id)->0 <= e.charged_total ==> r.charged_total + get(
                e.charged,
                id,
            )->0 == e.charged_total
            &&& get(e.charged, id) is None ==> r.charged_total == e.charged_total
            &&& get(r.nodes, other) == get(e.nodes, other) && get(r.contents, other) == get(e.contents, other)
            &&& get(r.found, other) == get(e.found, other) && get(r.claimed, other) == get(e.claimed, other)
            &&& get(r.edges, other) == get(e.edges, other) && get(r.missing_edges, other) == get(
                e.missing_edges,
                other,
            )
            &&& get(r.charged, other) == get(e.charged, other)
        }),
{
    lemma_gone(e.nodes, id);
    lemma_gone(e.contents, id);
    lemma_gone(e.found, id);
    lemma_gone(e.claimed, id);
    lemma_gone(e.edges, id);
    lemma_gone(e.missing_edges, id);
    lemma_gone(e.charged, id);
    lemma_get_del(e.nodes, id, other);
    lemma_get_del(e.contents, id, other);
    lemma_get_del(e.found, id, other);
    lemma_get_del(e.claimed, id, other);
    lemma_get_del(e.edges, id, other);
    lemma_get_del(e.missing_edges, id, other);
    lemma_get_del(e.charged, id, other);
}

proof fn lemma_without(v: Seq<SourceModel>, id: Seq<char>, s: SourceModel)
    ensures
        sources_without(v, id).contains(s) <==> v.contains(s) && s.id != id,
    decreases v.len(),
{
    if v.len() > 0 {
        let t = v.drop_last();
        lemma_without(t, id, s);
        let w = sources_without(t, id);
        assert(t.push(v.last()) =~= v);
        assert(v.contains(s) <==> t.contains(s) || s == v.last()) by {
            if t.contains(s) {
                let i = choose|i: int| 0 <= i < t.len() && t[i] == s;
                assert(v[i] == s);
            }
            if v.contains(s) && s != v.last() {
                let i = choose|i: int| 0 <= i < v.len() && v[i] == s;
                assert(t[i] == s);
            }
            assert(v[v.len() - 1] == v.last());
        }
        let p = w.push(v.last());
        assert(p.contains(s) <==> w.contains(s) || s == v.last()) by {
            if w.contains(s) {
                let i = choose|i: int| 0 <= i < w.len() && w[i] == s;
                assert(p[i] == s);
            }
            if p.contains(s) && s != v.last() {
                let i = choose|i: int| 0 <= i < p.len() && p[i] == s;
                assert(w[i] == s);
            }
            assert(p[w.len() as int] == v.last());
        }
    }
}

proof fn lemma_without_keeps_sources(e: EngineModel, ids: Seq<Seq<char>>, n: nat)
    ensures
        without_nodes(e, ids, n).sources == e.sources,
    decreases n,
{
    if n > 0 {
        lemma_without_keeps_sources(e, ids, (n - 1) as nat);
    }
}

/// A deleted source is not listed any more; every other one is, as it was.
pub proof fn a_deleted_source_is_not_listed(e: EngineModel, source: Seq<char>, s: SourceModel)
    ensures
        without_source(e, source).sources.contains(s) <==> e.sources.contains(s) && s.id != source,
{
    let own = own_ids(e, source, e.nodes.len());
    let affected = dependents(e.edges, outside_dependents(e, source), own.to_set());
    let r = reset_nodes(e, affected);
    lemma_reset_keeps(e, affected, e.nodes.len());
    let start = EngineModel {
        packs: del(r.packs, source),
        idxs: del(r.idxs, source),
        looses: del(r.looses, source),
        ..r
    };
    lemma_without_keeps_sources(start, own, own.len());
    let cleared = without_nodes(start, own, own.len());
    let left = EngineModel { sources: sources_without(cleared.sources, source), ..cleared };
    lemma_ready(left);
    lemma_runs_keep_sources(claims_rebuilt(reconciled(left)), Some(affected));
    lemma_without(e.sources, source, s);
}

} // verus!
