//! What every operation of the engine keeps.
use vstd::prelude::*;
use crate::kernel::engine::candidates::dependents;
use crate::kernel::engine::chain::{
    capped, noted, pack_node_id, visits_only_record, CtxModel, PauseModel, RunModel,
};
use crate::kernel::engine::import::{
    affected_by, idxs_matched, imported, kind_of, loose_node, pack_node, paired, reconciled, row_claimed,
    rows_claimed, same_source, taken_in, with_pack_nodes,
};
use crate::kernel::engine::manage::{
    outside_dependents, own_ids, paused_ids, resumed, sources_without, tried_again, without_node,
    without_nodes, without_source,
};
use crate::kernel::engine::parsed::{loose_file, pack_file};
use crate::kernel::engine::publish::{
    all_published, all_visited, claims_only_claim, claims_rebuilt, fresh_run, node_ids, object_sound,
    objects_sound, pauses_published, reset, reset_nodes, reset_one, resolved_all, runs_keep_objects_sound,
};
use crate::kernel::engine::rows::{
    empty_engine, ClaimRow, EngineModel, NodeModel, SourceKind, SourceModel, StateModel,
};
use crate::kernel::loose::path_id;
use crate::kernel::pack::EntryModel;
use crate::model::assoc::{
    del, get, get_of_put, has_key, keyed, lemma_put_existing, lemma_row, lemma_row_is, lemma_row_key, put,
    row_of,
};
use crate::model::outside::sha256_of;
use crate::model::sort::sorted_texts;
use crate::model::text::{dec, dec_padded, hex};

verus! {

proof fn lemma_put_node(e: EngineModel, id: Seq<char>, n: NodeModel)
    requires
        !(n.state is Resolved) || (has_key(e.nodes, id) && n.state == (get(e.nodes, id)->0).state),
    ensures
        objects_sound(e) ==> objects_sound(EngineModel { nodes: put(e.nodes, id, n), ..e }),
{
    let v = EngineModel { nodes: put(e.nodes, id, n), ..e };
    if objects_sound(e) {
        assert forall|x: Seq<char>| #[trigger] object_sound(v, x) by {
            assert(object_sound(e, x));
            get_of_put(e.nodes, id, n, x);
        }
    }
}

proof fn lemma_same_objects(e: EngineModel, v: EngineModel)
    requires
        v.nodes == e.nodes,
        v.contents == e.contents,
    ensures
        objects_sound(e) ==> objects_sound(v),
{
    if objects_sound(e) {
        assert forall|x: Seq<char>| #[trigger] object_sound(v, x) by {
            assert(object_sound(e, x));
        }
    }
}

/// Removing the first row of a key leaves the rows of the others.
pub proof fn lemma_get_del<V>(s: Seq<(Seq<char>, V)>, k: Seq<char>, other: Seq<char>)
    ensures
        other != k ==> get(del(s, k), other) == get(s, other),
{
    lemma_row(s, k);
    lemma_row(s, other);
    if other != k && has_key(s, k) {
        let d = del(s, k);
        let at = row_of(s, k);
        let n = row_of(s, other);
        if n < at {
            lemma_row_is(d, other, n);
        } else {
            assert(n != at);
            assert forall|i: int| 0 <= i < n - 1 implies (#[trigger] d[i]).0 != other by {
                if i >= at {
                    assert(d[i] == s[i + 1]);
                } else {
                    assert(d[i] == s[i]);
                }
            }
            lemma_row_is(d, other, (n - 1) as nat);
        }
    }
}

proof fn lemma_reset_one(e: EngineModel, id: Seq<char>)
    requires
        objects_sound(e),
        has_key(e.nodes, id),
    ensures
        objects_sound(reset_one(e, id)),
        reset_one(e, id).sources == e.sources,
{
    let v = reset_one(e, id);
    let n = get(e.nodes, id)->0;
    assert forall|x: Seq<char>| #[trigger] object_sound(v, x) by {
        assert(object_sound(e, x));
        get_of_put(e.nodes, id, NodeModel { state: StateModel::Unprocessed, ..n }, x);
        lemma_get_del(e.contents, id, x);
    }
}

proof fn lemma_reset(e: EngineModel, ids: Set<Seq<char>>, n: nat)
    requires
        objects_sound(e),
        n <= e.nodes.len(),
    ensures
        objects_sound(reset(e, ids, n)),
        reset(e, ids, n).sources == e.sources,
        forall|k: Seq<char>| has_key(e.nodes, k) ==> #[trigger] has_key(reset(e, ids, n).nodes, k),
    decreases n,
{
    if n > 0 {
        lemma_reset(e, ids, (n - 1) as nat);
        let v = reset(e, ids, (n - 1) as nat);
        let id = e.nodes[n - 1].0;
        if ids.contains(id) {
            lemma_row_key(e.nodes, n - 1);
            assert(has_key(v.nodes, id));
            lemma_reset_one(v, id);
            assert forall|k: Seq<char>| has_key(e.nodes, k) implies #[trigger] has_key(
                reset(e, ids, n).nodes,
                k,
            ) by {
                assert(has_key(v.nodes, k));
                get_of_put(
                    v.nodes,
                    id,
                    NodeModel { state: StateModel::Unprocessed, ..get(v.nodes, id)->0 },
                    k,
                );
            }
        }
    }
}

proof fn lemma_pack_nodes(e: EngineModel, source: Seq<char>, filename: Seq<char>, v: Seq<EntryModel>, n: nat)
    ensures
        objects_sound(e) ==> objects_sound(with_pack_nodes(e, source, filename, v, n)),
        with_pack_nodes(e, source, filename, v, n).sources == e.sources,
    decreases n,
{
    if n > 0 {
        lemma_pack_nodes(e, source, filename, v, (n - 1) as nat);
        let w = with_pack_nodes(e, source, filename, v, (n - 1) as nat);
        let node = pack_node(source, filename, v[n - 1]);
        lemma_put_node(w, node.id, node);
        lemma_same_objects(
            EngineModel { nodes: put(w.nodes, node.id, node), ..w },
            with_pack_nodes(e, source, filename, v, n),
        );
    }
}

proof fn lemma_row_claimed(e: EngineModel, idx_id: Seq<char>, pack_id: Seq<char>, r: ClaimRow)
    ensures
        objects_sound(e) ==> objects_sound(row_claimed(e, idx_id, pack_id, r)),
        row_claimed(e, idx_id, pack_id, r).sources == e.sources,
{
    let node_id = pack_node_id(pack_id, r.offset as nat);
    let v = row_claimed(e, idx_id, pack_id, r);
    if has_key(e.nodes, node_id) {
        let n = get(e.nodes, node_id)->0;
        let n1 = NodeModel {
            idx_oid: Some(hex(r.oid)),
            crc_ok: match (n.crc32, r.crc32) {
                (Some(have), Some(want)) => Some(have == want),
                _ => n.crc_ok,
            },
            ..n
        };
        lemma_put_node(e, node_id, n1);
        lemma_same_objects(EngineModel { nodes: put(e.nodes, node_id, n1), ..e }, v);
    } else {
        lemma_same_objects(e, v);
    }
}

proof fn lemma_rows_claimed(e: EngineModel, idx_id: Seq<char>, pack_id: Seq<char>, v: Seq<ClaimRow>, n: nat)
    ensures
        objects_sound(e) ==> objects_sound(rows_claimed(e, idx_id, pack_id, v, n)),
        rows_claimed(e, idx_id, pack_id, v, n).sources == e.sources,
    decreases n,
{
    if n > 0 {
        lemma_rows_claimed(e, idx_id, pack_id, v, (n - 1) as nat);
        lemma_row_claimed(rows_claimed(e, idx_id, pack_id, v, (n - 1) as nat), idx_id, pack_id, v[n - 1]);
    }
}

proof fn lemma_idxs_matched(e: EngineModel, n: nat)
    ensures
        objects_sound(e) ==> objects_sound(idxs_matched(e, n)),
        idxs_matched(e, n).sources == e.sources,
    decreases n,
{
    if n > 0 {
        lemma_idxs_matched(e, (n - 1) as nat);
        let w = idxs_matched(e, (n - 1) as nat);
        let x = e.idxs[n - 1].1;
        let idx_id = e.idxs[n - 1].0;
        match paired(w, idx_id, x) {
            None => {
                lemma_same_objects(w, idxs_matched(e, n));
            },
            Some(pack_id) => {
                let p = get(w.packs, pack_id)->0;
                let w1 = if p.num_entries != x.num_entries {
                    noted(
                        w,
                        None,
                        Some(idx_id),
                        "idx-count"@,
                        "index lists "@ + dec(x.num_entries as nat) + " objects but pack header declares "@
                            + dec(p.num_entries as nat),
                        None,
                    )
                } else {
                    w
                };
                lemma_same_objects(w, w1);
                if p.computed_sha != x.pack_checksum {
                    lemma_same_objects(w1, idxs_matched(e, n));
                } else {
                    lemma_rows_claimed(w1, idx_id, pack_id, x.entries, x.entries.len());
                }
            },
        }
    }
}

pub proof fn lemma_ready(e: EngineModel)
    ensures
        objects_sound(e) ==> objects_sound(claims_rebuilt(e)),
        claims_rebuilt(e).sources == e.sources,
        objects_sound(e) ==> objects_sound(claims_rebuilt(reconciled(e))),
        claims_rebuilt(reconciled(e)).sources == e.sources,
{
    claims_only_claim(e);
    lemma_same_objects(e, claims_rebuilt(e));
    lemma_idxs_matched(e, e.idxs.len());
    claims_only_claim(reconciled(e));
    lemma_same_objects(reconciled(e), claims_rebuilt(reconciled(e)));
}

proof fn lemma_visits_keep_sources(
    e: EngineModel,
    c: CtxModel,
    ids: Seq<Seq<char>>,
    only: Option<Set<Seq<char>>>,
    n: nat,
)
    ensures
        all_visited(e, c, ids, only, n).0.sources == e.sources,
    decreases n,
{
    if n > 0 {
        lemma_visits_keep_sources(e, c, ids, only, (n - 1) as nat);
        let v = all_visited(e, c, ids, only, (n - 1) as nat);
        visits_only_record(v.0, v.1, ids[n - 1], 0);
    }
}

proof fn lemma_published_keep_sources(e: EngineModel, rows: Seq<(Seq<char>, RunModel)>, n: nat)
    ensures
        all_published(e, rows, n).sources == e.sources,
    decreases n,
{
    if n > 0 {
        lemma_published_keep_sources(e, rows, (n - 1) as nat);
    }
}

proof fn lemma_pauses_keep_sources(e: EngineModel, rows: Seq<(Seq<char>, PauseModel)>, n: nat)
    ensures
        pauses_published(e, rows, n).sources == e.sources,
    decreases n,
{
    if n > 0 {
        lemma_pauses_keep_sources(e, rows, (n - 1) as nat);
    }
}

pub proof fn lemma_runs_keep_sources(e: EngineModel, only: Option<Set<Seq<char>>>)
    ensures
        resolved_all(e, only).sources == e.sources,
{
    let e0 = EngineModel { recompute_runs: capped(e.recompute_runs + 1), ..e };
    let ids = sorted_texts(node_ids(e));
    let v = all_visited(e0, fresh_run(e), ids, only, ids.len());
    lemma_visits_keep_sources(e0, fresh_run(e), ids, only, ids.len());
    lemma_published_keep_sources(v.0, v.1.results, v.1.results.len());
    let p = all_published(v.0, v.1.results, v.1.results.len());
    lemma_pauses_keep_sources(p, v.1.paused, v.1.paused.len());
}

proof fn lemma_taken_in(e: EngineModel, id: Seq<char>, filename: Seq<char>, relpath: Seq<char>, data: Seq<u8>)
    ensures
        objects_sound(e) ==> objects_sound(taken_in(e, id, filename, relpath, data).0),
        taken_in(e, id, filename, relpath, data).0.sources == e.sources,
{
    let t = taken_in(e, id, filename, relpath, data).0;
    match kind_of(filename, data) {
        SourceKind::Pack => {
            match pack_file(data) {
                Ok(f) => {
                    let e1 = match f.scan_error {
                        Some(m) => noted(e, None, Some(id), "pack-scan"@, m, None),
                        None => e,
                    };
                    let e2 = if !f.checksum_ok {
                        noted(
                            e1,
                            None,
                            Some(id),
                            "pack-checksum"@,
                            "pack trailer "@ + hex(f.trailer_sha) + " != computed "@ + hex(
                                f.computed_sha,
                            ),
                            Some((data.len() - 20) as u64),
                        )
                    } else {
                        e1
                    };
                    lemma_same_objects(e, e2);
                    lemma_pack_nodes(e2, id, filename, f.entries, f.entries.len());
                    lemma_same_objects(
                        with_pack_nodes(e2, id, filename, f.entries, f.entries.len()),
                        t,
                    );
                },
                Err(m) => {
                    lemma_same_objects(e, t);
                },
            }
        },
        SourceKind::Idx => {
            lemma_same_objects(e, t);
        },
        _ => {
            let l = loose_file(data, path_id(relpath));
            let node = loose_node(id, filename, l);
            lemma_put_node(e, node.id, node);
            lemma_same_objects(EngineModel { nodes: put(e.nodes, node.id, node), ..e }, t);
        },
    }
}

proof fn lemma_without_nodes(e: EngineModel, ids: Seq<Seq<char>>, n: nat)
    requires
        objects_sound(e),
        keyed(e.nodes),
    ensures
        objects_sound(without_nodes(e, ids, n)),
        keyed(without_nodes(e, ids, n).nodes),
    decreases n,
{
    if n > 0 {
        lemma_without_nodes(e, ids, (n - 1) as nat);
        let v = without_nodes(e, ids, (n - 1) as nat);
        let id = ids[n - 1];
        let w = without_node(v, id);
        lemma_row(v.nodes, id);
        assert(keyed(w.nodes)) by {
            if has_key(v.nodes, id) {
                let at = row_of(v.nodes, id);
                assert forall|i: int, j: int| 0 <= i < j < w.nodes.len() implies w.nodes[i].0
                    != w.nodes[j].0 by {
                    let a = if i < at {
                        i
                    } else {
                        i + 1
                    };
                    let b = if j < at {
                        j
                    } else {
                        j + 1
                    };
                    assert(w.nodes[i] == v.nodes[a] && w.nodes[j] == v.nodes[b]);
                }
            }
        }
        assert forall|x: Seq<char>| #[trigger] object_sound(w, x) by {
            assert(object_sound(v, x));
            lemma_get_del(v.nodes, id, x);
            lemma_get_del(v.contents, id, x);
            if x == id {
                lemma_row(w.nodes, x);
                if has_key(w.nodes, x) {
                    let at = row_of(v.nodes, id);
                    let k = row_of(w.nodes, x) as int;
                    let b = if k < at {
                        k
                    } else {
                        k + 1
                    };
                    assert(w.nodes[k] == v.nodes[b]);
                    assert(v.nodes[b].0 == v.nodes[at as int].0);
                }
            }
        }
    }
}

/// An engine that holds nothing is sound.
pub proof fn an_empty_engine_is_sound()
    ensures
        objects_sound(empty_engine()),
{
    let e = empty_engine();
    assert forall|x: Seq<char>| #[trigger] object_sound(e, x) by {
        lemma_row(e.nodes, x);
    }
}

/// Importing keeps every reconstructed object sound.
pub proof fn imports_keep_objects_sound(e: EngineModel, filename: Seq<char>, relpath: Seq<char>, data: Seq<u8>)
    requires
        objects_sound(e),
    ensures
        objects_sound(imported(e, filename, relpath, data).0),
{
    let sha = hex(sha256_of(data));
    if same_source(e.sources, sha, filename, false) is None && same_source(e.sources, sha, filename, true) is None {
        let seq = capped(e.seq + 1);
        let id = "src"@ + dec_padded(seq as nat, 3);
        let e0 = EngineModel { seq, ..e };
        lemma_same_objects(e, e0);
        lemma_taken_in(e0, id, filename, relpath, data);
        let t = taken_in(e0, id, filename, relpath, data);
        lemma_ready(t.0);
        let ready = claims_rebuilt(reconciled(t.0));
        let only = if e.nodes.len() > 0 {
            Some(affected_by(ready, e.nodes.len()))
        } else {
            None
        };
        runs_keep_objects_sound(ready, only);
        lemma_same_objects(resolved_all(ready, only), imported(e, filename, relpath, data).0);
    }
}

/// Resuming, choosing a branch and pinning keep every reconstructed object sound.
pub proof fn retries_keep_objects_sound(e: EngineModel)
    requires
        objects_sound(e),
    ensures
        objects_sound(resumed(e)),
        objects_sound(tried_again(e)),
{
    let seeds = paused_ids(e, e.nodes.len());
    let affected = dependents(e.edges, seeds.to_set(), Set::empty());
    lemma_reset(e, affected, e.nodes.len());
    lemma_ready(reset_nodes(e, affected));
    runs_keep_objects_sound(claims_rebuilt(reset_nodes(e, affected)), Some(affected));
    let all = node_ids(e).to_set();
    lemma_reset(e, all, e.nodes.len());
    lemma_ready(reset_nodes(e, all));
    runs_keep_objects_sound(claims_rebuilt(reset_nodes(e, all)), None);
}

proof fn lemma_reset_keys(e: EngineModel, ids: Set<Seq<char>>, n: nat)
    requires
        n <= e.nodes.len(),
    ensures
        reset(e, ids, n).nodes.len() == e.nodes.len(),
        forall|i: int| 0 <= i < e.nodes.len() ==> (#[trigger] reset(e, ids, n).nodes[i]).0 == e.nodes[i].0,
    decreases n,
{
    if n > 0 {
        lemma_reset_keys(e, ids, (n - 1) as nat);
        let v = reset(e, ids, (n - 1) as nat);
        let id = e.nodes[n - 1].0;
        if ids.contains(id) {
            lemma_row_key(v.nodes, n - 1);
            lemma_put_existing(
                v.nodes,
                id,
                NodeModel { state: StateModel::Unprocessed, ..get(v.nodes, id)->0 },
            );
        }
    }
}

/// Deleting a source keeps every reconstructed object sound.
pub proof fn deletions_keep_objects_sound(e: EngineModel, source: Seq<char>)
    requires
        objects_sound(e),
        keyed(e.nodes),
    ensures
        objects_sound(without_source(e, source)),
{
    let own = own_ids(e, source, e.nodes.len());
    let affected = dependents(e.edges, outside_dependents(e, source), own.to_set());
    let r = reset_nodes(e, affected);
    lemma_reset(e, affected, e.nodes.len());
    lemma_reset_keys(e, affected, e.nodes.len());
    assert(keyed(r.nodes));
    let start = EngineModel {
        packs: del(r.packs, source),
        idxs: del(r.idxs, source),
        looses: del(r.looses, source),
        ..r
    };
    lemma_same_objects(r, start);
    lemma_without_nodes(start, own, own.len());
    let cleared = without_nodes(start, own, own.len());
    let left = EngineModel { sources: sources_without(cleared.sources, source), ..cleared };
    lemma_same_objects(cleared, left);
    lemma_ready(left);
    runs_keep_objects_sound(claims_rebuilt(reconciled(left)), Some(affected));
}

proof fn lemma_same_source_push(v: Seq<SourceModel>, s: SourceModel, filename: Seq<char>, any: bool)
    requires
        same_source(v, s.sha256, filename, any) is None,
        any || s.filename == filename,
    ensures
        same_source(v.push(s), s.sha256, filename, any) == Some(s.id),
    decreases v.len(),
{
    let w = v.push(s);
    if v.len() > 0 {
        assert(w[0] == v[0]);
        assert(w.skip(1) =~= v.skip(1).push(s));
        lemma_same_source_push(v.skip(1), s, filename, any);
    } else {
        assert(w[0] == s);
    }
}

/// Importing the same file again gives the same source and changes nothing.
pub proof fn imports_are_idempotent(
    e: EngineModel,
    filename: Seq<char>,
    relpath: Seq<char>,
    again: Seq<char>,
    data: Seq<u8>,
)
    ensures
        imported(imported(e, filename, relpath, data).0, filename, again, data) == imported(
            e,
            filename,
            relpath,
            data,
        ),
{
    let sha = hex(sha256_of(data));
    if same_source(e.sources, sha, filename, false) is None && same_source(e.sources, sha, filename, true) is None {
        let seq = capped(e.seq + 1);
        let id = "src"@ + dec_padded(seq as nat, 3);
        let e0 = EngineModel { seq, ..e };
        lemma_same_objects(e, e0);
        lemma_taken_in(e0, id, filename, relpath, data);
        let t = taken_in(e0, id, filename, relpath, data);
        lemma_ready(t.0);
        let ready = claims_rebuilt(reconciled(t.0));
        let only = if e.nodes.len() > 0 {
            Some(affected_by(ready, e.nodes.len()))
        } else {
            None
        };
        lemma_runs_keep_sources(ready, only);
        let s = SourceModel {
            id,
            filename,
            size: data.len(),
            sha256: sha,
            kind: kind_of(filename, data),
            import_seq: seq,
            parse_error: t.1,
        };
        lemma_same_source_push(e.sources, s, filename, false);
    }
}

} // verus!
