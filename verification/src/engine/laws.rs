//! What settling a branch is for: which nodes come out resolved, with what content and under what
//! name, and which are kept apart.
use vstd::prelude::*;
use crate::engine::resolve::{
    all_honest, all_settled, base_of, bench_sound, best_for_oid, branch_settled, chain_built, index_claim,
    is_delta_kind, is_new, is_resolved, key_less, kind_or_blob, lemma_node_built, new_cost, node_at, node_built,
    nodes_fit, planned_size, reaped, settled, spent, unsettled, walked, whole, with_verdict, Bench, CandModel,
    NodeModel, RowModel, Walk, WorldModel,
};
use crate::engine::{kind_text, Budget};
use crate::git::delta::result_of;
use crate::git::types::ObjType;
use crate::model::assoc::{dropped, get, get_of_put, has_key, lemma_row, put};
use crate::model::object::object_frame;
use crate::model::outside::sha1_of;

verus! {

/// The names of whole objects.
pub open spec fn is_whole_name(kind: Seq<char>) -> bool {
    kind == "commit"@ || kind == "tree"@ || kind == "blob"@ || kind == "tag"@
}

/// The bytes of a node were read, and no index says that they are others.
pub open spec fn bytes_hold(n: NodeModel) -> bool {
    n.parse_status == "ok"@ && n.crc_ok != Some(0i64) && n.raw is Some
}

/// No index row of the lowest key says that a node is another object than `oid`.
pub open spec fn no_index_denies(cs: Seq<CandModel>, node: i64, oid: Seq<u8>) -> bool {
    (exists|i: int| 0 <= i < cs.len() && (#[trigger] cs[i]).node_id == node && cs[i].origin == "index"@) ==> exists|
        i: int,
    |
        0 <= i < cs.len() && (#[trigger] cs[i]).node_id == node && cs[i].origin == "index"@ && cs[i].oid == oid && (
        forall|j: int|
            0 <= j < cs.len() && (#[trigger] cs[j]).node_id == node && cs[j].origin == "index"@ ==> !key_less(
                cs[j].rank_key,
                cs[i].rank_key,
            ))
}

proof fn lemma_names()
    ensures
        "commit"@ != "ofs_delta"@ && "commit"@ != "ref_delta"@ && "commit"@ != "idx_placeholder"@,
        "tree"@ != "ofs_delta"@ && "tree"@ != "ref_delta"@ && "tree"@ != "idx_placeholder"@,
        "blob"@ != "ofs_delta"@ && "blob"@ != "ref_delta"@ && "blob"@ != "idx_placeholder"@,
        "tag"@ != "ofs_delta"@ && "tag"@ != "ref_delta"@ && "tag"@ != "idx_placeholder"@,
        "ofs_delta"@ != "idx_placeholder"@ && "ref_delta"@ != "idx_placeholder"@,
        "ofs_delta"@ != "ref_delta"@,
        "tree"@ != "blob"@,
        "commit"@.len() == 6 && "tree"@.len() == 4 && "blob"@.len() == 4 && "tag"@.len() == 3,
        "error"@ != "resolved"@ && "blocked"@ != "resolved"@ && "paused"@ != "resolved"@,
        "index"@ != "computed"@,
{
    reveal_strlit("commit");
    reveal_strlit("tree");
    reveal_strlit("blob");
    reveal_strlit("tag");
    reveal_strlit("ofs_delta");
    reveal_strlit("ref_delta");
    reveal_strlit("idx_placeholder");
    reveal_strlit("error");
    reveal_strlit("blocked");
    reveal_strlit("paused");
    reveal_strlit("resolved");
    reveal_strlit("index");
    reveal_strlit("computed");
    assert("commit"@.len() == 6 && "tree"@.len() == 4 && "blob"@.len() == 4 && "tag"@.len() == 3);
    assert("ofs_delta"@.len() == 9 && "ref_delta"@.len() == 9 && "idx_placeholder"@.len() == 15);
    assert("tree"@[0] == 't' && "blob"@[0] == 'b');
    assert("ofs_delta"@[0] == 'o' && "ref_delta"@[0] == 'r');
    assert("error"@.len() == 5 && "blocked"@.len() == 7 && "paused"@.len() == 6 && "resolved"@.len() == 8);
    assert("index"@.len() == 5 && "computed"@.len() == 8);
}

proof fn lemma_whole_kind(kind: Seq<char>)
    requires
        is_whole_name(kind),
    ensures
        kind_or_blob(kind).text() == kind,
        kind_text(kind_or_blob(kind)) == kind,
        !is_delta_kind(kind),
        kind != "idx_placeholder"@,
{
    lemma_names();
}

proof fn lemma_index_claim(cs: Seq<CandModel>, node: i64)
    ensures
        index_claim(cs, node) is None <==> !exists|i: int|
            0 <= i < cs.len() && (#[trigger] cs[i]).node_id == node && cs[i].origin == "index"@,
        index_claim(cs, node) matches Some(c) ==> (exists|i: int|
            0 <= i < cs.len() && #[trigger] cs[i] == c) && c.node_id == node && c.origin == "index"@ && forall|
            j: int,
        |
            0 <= j < cs.len() && (#[trigger] cs[j]).node_id == node && cs[j].origin == "index"@ ==> !key_less(
                cs[j].rank_key,
                c.rank_key,
            ),
    decreases cs.len(),
{
    if cs.len() > 0 {
        let t = cs.drop_last();
        let x = cs.last();
        lemma_index_claim(t, node);
        assert(cs[cs.len() - 1] == x);
        assert forall|i: int| 0 <= i < t.len() implies #[trigger] t[i] == cs[i] by {}
        if exists|i: int| 0 <= i < t.len() && (#[trigger] t[i]).node_id == node && t[i].origin == "index"@ {
            let i = choose|i: int| 0 <= i < t.len() && (#[trigger] t[i]).node_id == node && t[i].origin == "index"@;
            assert(cs[i].node_id == node);
        }
        if exists|i: int| 0 <= i < cs.len() && (#[trigger] cs[i]).node_id == node && cs[i].origin == "index"@ {
            let i = choose|i: int|
                0 <= i < cs.len() && (#[trigger] cs[i]).node_id == node && cs[i].origin == "index"@;
            if i < t.len() {
                assert(t[i].node_id == node);
            }
        }
        if let Some(c) = index_claim(cs, node) {
            if let Some(d) = index_claim(t, node) {
                let i = choose|i: int| 0 <= i < t.len() && #[trigger] t[i] == d;
                assert(cs[i] == d);
            }
            let prev = index_claim(t, node);
            assert forall|j: int|
                0 <= j < cs.len() && (#[trigger] cs[j]).node_id == node && cs[j].origin == "index"@ implies !key_less(
                cs[j].rank_key,
                c.rank_key,
            ) by {
                if j < t.len() {
                    assert(t[j] == cs[j]);
                    let d = prev->0;
                    assert(!key_less(t[j].rank_key, d.rank_key));
                    if c != d {
                        lemma_keys(t[j].rank_key, d.rank_key, c.rank_key);
                    }
                } else {
                    lemma_keys(c.rank_key, c.rank_key, c.rank_key);
                    if let Some(d) = prev {
                        lemma_keys(x.rank_key, d.rank_key, x.rank_key);
                    }
                }
            }
        }
    }
}

proof fn lemma_keys(a: Seq<char>, b: Seq<char>, c: Seq<char>)
    ensures
        !key_less(a, a),
        !key_less(a, b) && key_less(c, b) ==> !key_less(a, c),
{
    let (x, y, z) = (
        vstd::utf8::encode_utf8(a),
        vstd::utf8::encode_utf8(b),
        vstd::utf8::encode_utf8(c),
    );
    crate::model::sort::order_is_total(x, x);
    if crate::model::sort::bytes_less(x, z) && crate::model::sort::bytes_less(z, y) {
        crate::model::sort::order_is_transitive(x, z, y);
    }
}

proof fn lemma_not_denied(cs: Seq<CandModel>, node: i64, oid: Seq<u8>)
    requires
        index_claim(cs, node) matches Some(c) ==> c.oid == oid,
    ensures
        no_index_denies(cs, node, oid),
{
    lemma_index_claim(cs, node);
    if let Some(c) = index_claim(cs, node) {
        let i = choose|i: int| 0 <= i < cs.len() && #[trigger] cs[i] == c;
        assert(cs[i].node_id == node && cs[i].oid == oid);
    }
}

proof fn lemma_computed_claims(cs: Seq<CandModel>, c: CandModel, node: i64)
    requires
        c.origin != "index"@,
    ensures
        index_claim(cs.push(c), node) == index_claim(cs, node),
{
    assert(cs.push(c).drop_last() =~= cs);
}

/// Nothing comes out of a node whose bytes do not hold.
proof fn lemma_built_holds(b: Bench, order: Seq<i64>, k: int, x: i64)
    requires
        0 <= k < order.len(),
        is_resolved(node_built(b, order, k).w, x),
    ensures
        node_built(b, order, k).w.nodes == b.w.nodes,
        is_resolved(b.w, x) || (get(b.w.nodes, x) is Some && bytes_hold(get(b.w.nodes, x)->0)),
{
    lemma_names();
    let id = order[k];
    let c = node_built(b, order, k);
    if x != id {
        assert forall|w: WorldModel, r: RowModel| get(#[trigger] put(w.rows, id, r), x) == get(w.rows, x) by {
            get_of_put(w.rows, id, r, x);
        }
    } else {
        assert forall|w: WorldModel, r: RowModel| get(#[trigger] put(w.rows, id, r), x) == Some(r) by {
            get_of_put(w.rows, id, r, x);
        }
    }
}

proof fn lemma_node_kept(b: Bench, order: Seq<i64>, k: int)
    ensures
        node_built(b, order, k).w.nodes == b.w.nodes,
{
}

proof fn lemma_chain_holds(b: Bench, order: Seq<i64>, k: int, x: i64)
    requires
        0 <= k,
        is_resolved(chain_built(b, order, k), x),
    ensures
        is_resolved(b.w, x) || (get(b.w.nodes, x) is Some && bytes_hold(get(b.w.nodes, x)->0)),
    decreases order.len() - k,
{
    if k < order.len() {
        let c = node_built(b, order, k);
        lemma_node_kept(b, order, k);
        lemma_chain_holds(c, order, k + 1, x);
        if is_resolved(c.w, x) {
            lemma_built_holds(b, order, k, x);
        }
    }
}

proof fn lemma_chain_nodes(b: Bench, order: Seq<i64>, k: int)
    ensures
        chain_built(b, order, k).nodes == b.w.nodes,
    decreases order.len() - k,
{
    if k < order.len() {
        lemma_node_kept(b, order, k);
        lemma_chain_nodes(node_built(b, order, k), order, k + 1);
    }
}

proof fn lemma_verdict_unresolved(w: WorldModel, root: i64, r: RowModel, x: i64)
    requires
        r.status != "resolved"@,
    ensures
        is_resolved(with_verdict(w, root, r), x) ==> is_resolved(w, x),
{
    let row = RowModel {
        content: match get(w.rows, root) {
            Some(r) => r.content,
            None => None,
        },
        recompute_count: crate::engine::resolve::recounted(w.rows, root),
        ..r
    };
    get_of_put(w.rows, root, row, x);
}

proof fn lemma_walk_resolves_nothing(w: WorldModel, root: i64, budget: Budget, chain: Seq<i64>, cur: i64, x: i64)
    ensures
        walked(w, root, budget, chain, cur) matches Walk::Done(d) ==> d.nodes == w.nodes && (is_resolved(d, x)
            ==> is_resolved(w, x)),
    decreases budget.max_depth - chain.len(),
{
    lemma_names();
    assert forall|r: RowModel| r.status != "resolved"@ && is_resolved(#[trigger] with_verdict(w, root, r), x) implies
        is_resolved(w, x) by {
        lemma_verdict_unresolved(w, root, r, x);
    }
    if !chain.contains(cur) {
        if let Some(n) = get(w.nodes, cur) {
            if cur != root && has_key(w.rows, cur) {
                let b = get(w.rows, cur)->0;
                if b.status != "resolved"@ {
                    let d = crate::engine::resolve::inherited(w, root, cur, chain);
                    assert forall|r: RowModel| get(#[trigger] put(w.rows, root, r), x) == if x == root {
                        Some(r)
                    } else {
                        get(w.rows, x)
                    } by {
                        get_of_put(w.rows, root, r, x);
                    }
                }
            } else if chain.len() < budget.max_depth {
                if is_delta_kind(n.kind) {
                    if let Some(b) = base_of(w, n) {
                        lemma_walk_resolves_nothing(w, root, budget, chain.push(cur), b, x);
                    }
                }
            }
        }
    }
}

/// Settling a node resolves no node whose bytes could not be read or whose index checksum they do
/// not match, neither as an object nor as the base of one.
pub proof fn corrupt_nodes_are_not_resolved(w: WorldModel, root: i64, budget: Budget, x: i64)
    requires
        get(w.nodes, x) matches Some(n) && (n.parse_status != "ok"@ || n.crc_ok == Some(0i64) || n.raw is None),
        !is_resolved(w, x),
    ensures
        !is_resolved(settled(w, root, budget), x),
        settled(w, root, budget).nodes == w.nodes,
{
    lemma_names();
    lemma_settled_holds(w, root, budget, x);
}

proof fn lemma_settled_holds(w: WorldModel, root: i64, budget: Budget, x: i64)
    ensures
        settled(w, root, budget).nodes == w.nodes,
        is_resolved(settled(w, root, budget), x) ==> is_resolved(w, x) || (get(w.nodes, x) is Some && bytes_hold(
            get(w.nodes, x)->0,
        )),
{
    lemma_names();
    lemma_walk_resolves_nothing(w, root, budget, Seq::empty(), root, x);
    assert forall|r: RowModel| r.status != "resolved"@ && is_resolved(#[trigger] with_verdict(w, root, r), x) implies
        is_resolved(w, x) by {
        lemma_verdict_unresolved(w, root, r, x);
    }
    if let Walk::Build(chain) = walked(w, root, budget, Seq::empty(), root) {
        let b = Bench { w, built: Seq::empty() };
        lemma_chain_nodes(b, chain.reverse(), 0);
        if is_resolved(chain_built(b, chain.reverse(), 0), x) {
            lemma_chain_holds(b, chain.reverse(), 0, x);
        }
    }
}

proof fn lemma_dropped_row<V>(s: Seq<(i64, V)>, gone: Seq<i64>, x: i64)
    ensures
        get(dropped(s, gone), x) == if gone.contains(x) {
            None
        } else {
            get(s, x)
        },
    decreases s.len(),
{
    if s.len() > 0 {
        let t = s.drop_last();
        lemma_dropped_row(t, gone, x);
        let d = dropped(t, gone);
        lemma_get_push(t, s.last(), x);
        assert(t.push(s.last()) =~= s);
        if !gone.contains(s.last().0) {
            lemma_get_push(d, s.last(), x);
        }
    }
}

proof fn lemma_get_push<V>(s: Seq<(i64, V)>, e: (i64, V), x: i64)
    ensures
        get(s.push(e), x) == if has_key(s, x) {
            get(s, x)
        } else if e.0 == x {
            Some(e.1)
        } else {
            None
        },
{
    lemma_row(s, x);
    let p = s.push(e);
    if has_key(s, x) {
        crate::model::assoc::lemma_row_is(p, x, crate::model::assoc::row_of(s, x));
    } else if e.0 == x {
        crate::model::assoc::lemma_row_is(p, x, s.len());
    } else {
        crate::model::assoc::lemma_row_is(p, x, p.len());
    }
}

proof fn lemma_reaped_rows(w: WorldModel, rows: Seq<(i64, RowModel)>, k: nat, x: i64)
    ensures
        reaped(w, rows, k).nodes == w.nodes,
        reaped(w, rows, k).candidates == w.candidates,
        reaped(w, rows, k).pins == w.pins,
        get(reaped(w, rows, k).rows, x) is None || get(reaped(w, rows, k).rows, x) == get(w.rows, x),
    decreases k,
{
    if k > 0 {
        lemma_reaped_rows(w, rows, (k - 1) as nat, x);
        let v = reaped(w, rows, (k - 1) as nat);
        let id = rows[k - 1].0;
        lemma_dropped_row(v.rows, crate::engine::resolve::closure(v, id, v.nodes.len()), x);
    }
}

proof fn lemma_all_settled_holds(w: WorldModel, roots: Seq<i64>, budget: Budget, k: nat, x: i64)
    ensures
        all_settled(w, roots, budget, k).nodes == w.nodes,
        is_resolved(all_settled(w, roots, budget, k), x) ==> is_resolved(w, x) || (get(w.nodes, x) is Some
            && bytes_hold(get(w.nodes, x)->0)),
    decreases k,
{
    if k > 0 {
        lemma_all_settled_holds(w, roots, budget, (k - 1) as nat, x);
        lemma_settled_holds(all_settled(w, roots, budget, (k - 1) as nat), roots[k - 1], budget, x);
    }
}

/// Settling a whole branch keeps every corrupt node apart: one whose bytes could not be read, or
/// whose checksum an index denies, is not resolved unless it was before.
pub proof fn a_settled_branch_keeps_corrupt_nodes_apart(w: WorldModel, budget: Budget, x: i64)
    requires
        get(w.nodes, x) matches Some(n) && (n.parse_status != "ok"@ || n.crc_ok == Some(0i64) || n.raw is None),
        !is_resolved(w, x),
    ensures
        !is_resolved(branch_settled(w, budget), x),
{
    lemma_names();
    lemma_reaped_rows(w, w.rows, w.rows.len(), x);
    let r = reaped(w, w.rows, w.rows.len());
    let roots = unsettled(r, r.nodes.len());
    lemma_all_settled_holds(r, roots, budget, roots.len(), x);
}

/// Node `b` is the base that the delta `n` names: the node at the offset of the same source, or the
/// node that is pinned to the id, or else one that is listed for it.
pub open spec fn is_base(w: WorldModel, cs: Seq<CandModel>, n: NodeModel, b: i64) -> bool {
    &&& n.kind == "ofs_delta"@ ==> exists|i: int|
        0 <= i < w.nodes.len() && (#[trigger] w.nodes[i]).1.id == b && w.nodes[i].1.source_id == n.source_id
            && w.nodes[i].1.pack_offset == Some(
            match n.ofs_base_offset {
                Some(o) => o,
                None => -1i64,
            },
        )
    &&& n.kind == "ref_delta"@ ==> n.ref_base_oid is Some && match get(w.pins, n.ref_base_oid->0) {
        Some(p) => p == b,
        None => exists|i: int|
            0 <= i < cs.len() && (#[trigger] cs[i]).node_id == b && cs[i].oid == n.ref_base_oid->0,
    }
}

/// Content `c` of type `t` is what the delta `n` makes of a node that is resolved.
pub open spec fn made_from(w: WorldModel, s: WorldModel, n: NodeModel, b: i64, c: Seq<u8>, t: Seq<char>) -> bool {
    &&& is_base(w, s.candidates, n, b)
    &&& is_resolved(s, b)
    &&& get(s.rows, b)->0.content is Some
    &&& get(s.rows, b)->0.final_type is Some
    &&& is_whole_name(get(s.rows, b)->0.final_type->0) ==> t == get(s.rows, b)->0.final_type->0
    &&& result_of(get(s.rows, b)->0.content->0, n.raw->0) matches Ok(r) && r.0 == c
}

/// What is kept of a node that was rebuilt: its bytes held, its id is the hash of its framed
/// content and no index denies it, and the content is its own or what its delta makes of its base.
pub open spec fn well_made(w: WorldModel, s: WorldModel, x: i64) -> bool {
    &&& get(w.nodes, x) is Some
    &&& get(s.rows, x) is Some
    &&& ({
        let n = get(w.nodes, x)->0;
        let r = get(s.rows, x)->0;
        &&& n.parse_status == "ok"@
        &&& n.crc_ok != Some(0i64)
        &&& n.raw is Some
        &&& r.content is Some
        &&& r.final_type is Some
        &&& is_whole_name(r.final_type->0)
        &&& r.final_oid == Some(sha1_of(object_frame(r.final_type->0, r.content->0)))
        &&& no_index_denies(w.candidates, x, sha1_of(object_frame(r.final_type->0, r.content->0)))
        &&& if n.kind == "ofs_delta"@ || n.kind == "ref_delta"@ {
            exists|b: i64| #[trigger] made_from(w, s, n, b, r.content->0, r.final_type->0)
        } else {
            &&& r.content == n.raw
            &&& is_whole_name(n.kind) ==> r.final_type == Some(n.kind)
        }
    })
}

/// What is at hand is resolved.
spec fn at_hand(b: Bench) -> bool {
    forall|y: i64|
        (#[trigger] get(b.built, y)) is Some ==> is_resolved(b.w, y) && get(b.w.rows, y)->0.content == Some(
            (get(b.built, y)->0).1,
        ) && get(b.w.rows, y)->0.final_type is Some && kind_or_blob(get(b.w.rows, y)->0.final_type->0) == (get(
            b.built,
            y,
        )->0).0
}

spec fn on_course(w: WorldModel, b: Bench) -> bool {
    &&& b.w.nodes == w.nodes
    &&& b.w.pins == w.pins
    &&& bench_sound(b)
    &&& nodes_fit(w.nodes)
    &&& at_hand(b)
    &&& forall|y: i64| #[trigger] index_claim(b.w.candidates, y) == index_claim(w.candidates, y)
    &&& forall|y: i64| #[trigger] is_resolved(b.w, y) && !is_resolved(w, y) ==> well_made(w, b.w, y)
}

proof fn lemma_node_at(nodes: Seq<(i64, NodeModel)>, source: i64, offset: i64)
    ensures
        node_at(nodes, source, offset) matches Some(b) ==> exists|i: int|
            0 <= i < nodes.len() && (#[trigger] nodes[i]).1.id == b && nodes[i].1.source_id == source
                && nodes[i].1.pack_offset == Some(offset),
    decreases nodes.len(),
{
    if nodes.len() > 0 {
        let t = nodes.skip(1);
        if nodes[0].1.source_id == source && nodes[0].1.pack_offset == Some(offset) {
        } else if let Some(b) = node_at(t, source, offset) {
            lemma_node_at(t, source, offset);
            let i = choose|i: int|
                0 <= i < t.len() && (#[trigger] t[i]).1.id == b && t[i].1.source_id == source
                    && t[i].1.pack_offset == Some(offset);
            assert(nodes[i + 1] == t[i]);
        }
    }
}

proof fn lemma_best(cs: Seq<CandModel>, oid: Seq<u8>)
    ensures
        best_for_oid(cs, oid) is None <==> !exists|i: int| 0 <= i < cs.len() && (#[trigger] cs[i]).oid == oid,
        best_for_oid(cs, oid) matches Some(c) ==> c.oid == oid && (exists|i: int|
            0 <= i < cs.len() && #[trigger] cs[i] == c) && forall|j: int|
            0 <= j < cs.len() && (#[trigger] cs[j]).oid == oid ==> !key_less(cs[j].rank_key, c.rank_key),
    decreases cs.len(),
{
    if cs.len() > 0 {
        let t = cs.drop_last();
        let x = cs.last();
        lemma_best(t, oid);
        assert(cs[cs.len() - 1] == x);
        if exists|i: int| 0 <= i < t.len() && (#[trigger] t[i]).oid == oid {
            let i = choose|i: int| 0 <= i < t.len() && (#[trigger] t[i]).oid == oid;
            assert(cs[i].oid == oid);
        }
        if exists|i: int| 0 <= i < cs.len() && (#[trigger] cs[i]).oid == oid {
            let i = choose|i: int| 0 <= i < cs.len() && (#[trigger] cs[i]).oid == oid;
            if i < t.len() {
                assert(t[i].oid == oid);
            }
        }
        if let Some(c) = best_for_oid(cs, oid) {
            let prev = best_for_oid(t, oid);
            if let Some(d) = prev {
                let i = choose|i: int| 0 <= i < t.len() && #[trigger] t[i] == d;
                assert(cs[i] == d);
            }
            assert forall|j: int| 0 <= j < cs.len() && (#[trigger] cs[j]).oid == oid implies !key_less(
                cs[j].rank_key,
                c.rank_key,
            ) by {
                if j < t.len() {
                    assert(t[j] == cs[j]);
                    let d = prev->0;
                    assert(!key_less(t[j].rank_key, d.rank_key));
                    if c != d {
                        lemma_keys(t[j].rank_key, d.rank_key, c.rank_key);
                    }
                } else {
                    lemma_keys(c.rank_key, c.rank_key, c.rank_key);
                }
            }
        }
    }
}

proof fn lemma_base(w: WorldModel, n: NodeModel)
    requires
        n.kind == "ofs_delta"@ || n.kind == "ref_delta"@,
    ensures
        base_of(w, n) matches Some(b) ==> is_base(w, w.candidates, n, b),
{
    lemma_names();
    if n.kind == "ofs_delta"@ {
        lemma_node_at(
            w.nodes,
            n.source_id,
            match n.ofs_base_offset {
                Some(o) => o,
                None => -1i64,
            },
        );
    } else if let Some(oid) = n.ref_base_oid {
        lemma_best(w.candidates, oid);
        if let Some(c) = best_for_oid(w.candidates, oid) {
            let i = choose|i: int| 0 <= i < w.candidates.len() && #[trigger] w.candidates[i] == c;
            assert(w.candidates[i].node_id == c.node_id);
        }
    }
}

proof fn lemma_candidates_grow(b: Bench, order: Seq<i64>, k: int)
    ensures
        b.w.candidates.is_prefix_of(node_built(b, order, k).w.candidates),
        forall|y: i64| #[trigger]
            index_claim(node_built(b, order, k).w.candidates, y) == index_claim(b.w.candidates, y),
{
    lemma_names();
    let c = node_built(b, order, k);
    assert(b.w.candidates.is_prefix_of(b.w.candidates));
    if c.w.candidates != b.w.candidates {
        let x = c.w.candidates.last();
        assert(c.w.candidates =~= b.w.candidates.push(x));
        assert forall|y: i64| #[trigger] index_claim(c.w.candidates, y) == index_claim(b.w.candidates, y) by {
            lemma_computed_claims(b.w.candidates, x, y);
        }
    }
}

proof fn lemma_still_made(w: WorldModel, b: WorldModel, c: WorldModel, y: i64)
    requires
        well_made(w, b, y),
        is_resolved(b, y),
        forall|x: i64| is_resolved(b, x) ==> #[trigger] get(c.rows, x) == get(b.rows, x),
        b.candidates.is_prefix_of(c.candidates),
    ensures
        well_made(w, c, y),
{
    let n = get(w.nodes, y)->0;
    let r = get(b.rows, y)->0;
    assert(get(c.rows, y) == get(b.rows, y));
    if n.kind == "ofs_delta"@ || n.kind == "ref_delta"@ {
        let base = choose|base: i64| #[trigger] made_from(w, b, n, base, r.content->0, r.final_type->0);
        assert(get(c.rows, base) == get(b.rows, base));
        if n.kind == "ref_delta"@ && get(w.pins, n.ref_base_oid->0) is None {
            let i = choose|i: int|
                0 <= i < b.candidates.len() && (#[trigger] b.candidates[i]).node_id == base && b.candidates[i].oid
                    == n.ref_base_oid->0;
            assert(c.candidates[i] == b.candidates[i]);
        }
        assert(made_from(w, c, n, base, r.content->0, r.final_type->0));
    }
}

proof fn lemma_type_names(t: ObjType)
    requires
        !t.delta(),
    ensures
        is_whole_name(kind_text(t)),
        t.text() == kind_text(t),
        kind_or_blob(kind_text(t)) == t,
{
    lemma_names();
}

proof fn lemma_now_made(w: WorldModel, b: Bench, order: Seq<i64>, k: int)
    requires
        on_course(w, b),
        0 <= k < order.len(),
        !is_resolved(b.w, order[k]),
        is_resolved(node_built(b, order, k).w, order[k]),
    ensures
        well_made(w, node_built(b, order, k).w, order[k]),
        get(node_built(b, order, k).built, order[k]) is Some,
        at_hand(node_built(b, order, k)),
{
    lemma_names();
    let id = order[k];
    let c = node_built(b, order, k);
    let n = get(w.nodes, id)->0;
    lemma_node_built(b, order, k);
    lemma_candidates_grow(b, order, k);
    assert forall|v: WorldModel, r: RowModel| get(#[trigger] put(v.rows, id, r), id) == Some(r) by {
        get_of_put(v.rows, id, r, id);
    }
    let raw = n.raw->0;
    assert(index_claim(b.w.candidates, id) == index_claim(w.candidates, id));
    if is_delta_kind(n.kind) {
        let base_id = base_of(b.w, n)->0;
        let (t, base) = get(b.built, base_id)->0;
        lemma_row(b.built, base_id);
        lemma_type_names(t);
        lemma_base(b.w, n);
        let out = result_of(base, raw)->Ok_0.0;
        let r = get(c.w.rows, id)->0;
        assert(r.content == Some(out));
        assert(c.built == put(b.built, id, (t, out)));
        lemma_not_denied(w.candidates, id, sha1_of(object_frame(kind_text(t), out)));
        assert(get(b.built, base_id) is Some);
        assert(is_resolved(b.w, base_id));
        assert(get(c.w.rows, base_id) == get(b.w.rows, base_id));
        if n.kind == "ref_delta"@ && get(w.pins, n.ref_base_oid->0) is None {
            let i = choose|i: int|
                0 <= i < b.w.candidates.len() && (#[trigger] b.w.candidates[i]).node_id == base_id
                    && b.w.candidates[i].oid == n.ref_base_oid->0;
            assert(c.w.candidates[i] == b.w.candidates[i]);
        }
        let bt = get(b.w.rows, base_id)->0.final_type->0;
        if is_whole_name(bt) {
            lemma_whole_kind(bt);
        }
        assert(made_from(w, c.w, n, base_id, out, kind_text(t)));
        lemma_hand(b, c, id, (t, out));
    } else {
        let t = kind_or_blob(n.kind);
        lemma_type_names(t);
        if is_whole_name(n.kind) {
            lemma_whole_kind(n.kind);
        }
        assert(c.built == put(b.built, id, (t, raw)));
        lemma_not_denied(w.candidates, id, sha1_of(object_frame(kind_text(t), raw)));
        lemma_hand(b, c, id, (t, raw));
    }
}

proof fn lemma_hand(b: Bench, c: Bench, id: i64, p: (ObjType, Seq<u8>))
    requires
        at_hand(b),
        c.built == put(b.built, id, p),
        is_resolved(c.w, id),
        get(c.w.rows, id)->0.content == Some(p.1),
        get(c.w.rows, id)->0.final_type is Some,
        kind_or_blob(get(c.w.rows, id)->0.final_type->0) == p.0,
        forall|x: i64| x != id ==> #[trigger] get(c.w.rows, x) == get(b.w.rows, x),
    ensures
        at_hand(c),
        get(c.built, id) is Some,
{
    get_of_put(b.built, id, p, id);
    assert forall|y: i64| (#[trigger] get(c.built, y)) is Some implies is_resolved(c.w, y) && get(
        c.w.rows,
        y,
    )->0.content == Some((get(c.built, y)->0).1) && get(c.w.rows, y)->0.final_type is Some && kind_or_blob(
        get(c.w.rows, y)->0.final_type->0,
    ) == (get(c.built, y)->0).0 by {
        get_of_put(b.built, id, p, y);
        if y != id {
            assert(get(b.built, y) is Some);
            assert(get(c.w.rows, y) == get(b.w.rows, y));
        }
    }
}

proof fn lemma_course(w: WorldModel, b: Bench, order: Seq<i64>, k: int)
    requires
        on_course(w, b),
        0 <= k < order.len(),
    ensures
        on_course(w, node_built(b, order, k)),
{
    lemma_names();
    let id = order[k];
    let c = node_built(b, order, k);
    lemma_node_built(b, order, k);
    lemma_candidates_grow(b, order, k);
    lemma_node_kept(b, order, k);
    if is_resolved(b.w, id) {
        assert(c.w == b.w);
        if get(b.w.nodes, id) is Some && !has_key(b.built, id) {
            let r = get(b.w.rows, id)->0;
            lemma_row(b.w.rows, id);
            assert(crate::engine::resolve::honest(b.w.rows[crate::model::assoc::row_of(b.w.rows, id) as int].1));
            lemma_hand(b, c, id, (kind_or_blob(r.final_type->0), r.content->0));
        }
    } else if is_resolved(c.w, id) {
        lemma_now_made(w, b, order, k);
    } else {
        assert forall|v: WorldModel, r: RowModel| get(#[trigger] put(v.rows, id, r), id) == Some(r) by {
            get_of_put(v.rows, id, r, id);
        }
        assert(c.built == b.built);
        assert(get(b.built, id) is None);
        assert(at_hand(c)) by {
            assert forall|y: i64| (#[trigger] get(c.built, y)) is Some implies is_resolved(c.w, y) && get(
                c.w.rows,
                y,
            )->0.content == Some((get(c.built, y)->0).1) && get(c.w.rows, y)->0.final_type is Some && kind_or_blob(
                get(c.w.rows, y)->0.final_type->0,
            ) == (get(c.built, y)->0).0 by {
                assert(get(b.built, y) is Some);
                assert(y != id);
                assert(get(c.w.rows, y) == get(b.w.rows, y));
            }
        }
    }
    assert forall|x: i64| is_resolved(b.w, x) implies #[trigger] get(c.w.rows, x) == get(b.w.rows, x) by {
        if x != id {
            assert(get(c.w.rows, x) == get(b.w.rows, x));
        }
    }
    assert forall|y: i64| #[trigger] is_resolved(c.w, y) && !is_resolved(w, y) implies well_made(w, c.w, y) by {
        if is_resolved(b.w, y) {
            lemma_still_made(w, b.w, c.w, y);
        } else if y != id {
            assert(get(c.w.rows, y) == get(b.w.rows, y));
        }
    }
}

proof fn lemma_chain_course(w: WorldModel, b: Bench, order: Seq<i64>, k: int)
    requires
        on_course(w, b),
        0 <= k,
    ensures
        ({
            let c = chain_built(b, order, k);
            &&& c.nodes == w.nodes
            &&& forall|y: i64| #[trigger] is_resolved(c, y) && !is_resolved(w, y) ==> well_made(w, c, y)
        }),
    decreases order.len() - k,
{
    if k < order.len() {
        lemma_course(w, b, order, k);
        lemma_chain_course(w, node_built(b, order, k), order, k + 1);
    }
}

/// Whatever settling a node resolves is well made. Its bytes were read and no index denies their
/// checksum. Its id is the hash of the frame of its type and content, and no index says that the
/// node is another object. A whole object keeps its own bytes and its own type. A delta gives what
/// its instructions make of a base that is resolved itself, and which is the one it names.
pub proof fn what_is_resolved_is_well_made(w: WorldModel, root: i64, budget: Budget, x: i64)
    requires
        all_honest(w.rows),
        nodes_fit(w.nodes),
        !is_resolved(w, x),
        is_resolved(settled(w, root, budget), x),
    ensures
        well_made(w, settled(w, root, budget), x),
{
    lemma_names();
    lemma_walk_resolves_nothing(w, root, budget, Seq::empty(), root, x);
    assert forall|r: RowModel| r.status != "resolved"@ && is_resolved(#[trigger] with_verdict(w, root, r), x) implies
        is_resolved(w, x) by {
        lemma_verdict_unresolved(w, root, r, x);
    }
    if let Walk::Build(chain) = walked(w, root, budget, Seq::empty(), root) {
        let b = Bench { w, built: Seq::empty() };
        assert(on_course(w, b));
        lemma_chain_course(w, b, chain.reverse(), 0);
    }
}

/// A base is the node at the offset that is named, or the pinned node, or the one with the lowest
/// key that is listed for the id.
pub proof fn bases_are_chosen_by_pin_and_rank(w: WorldModel, n: NodeModel)
    requires
        n.kind == "ref_delta"@,
        n.ref_base_oid is Some,
    ensures
        get(w.pins, n.ref_base_oid->0) matches Some(p) ==> base_of(w, n) == Some(p),
        get(w.pins, n.ref_base_oid->0) is None && (exists|i: int|
            0 <= i < w.candidates.len() && (#[trigger] w.candidates[i]).oid == n.ref_base_oid->0) ==> exists|i: int|
            0 <= i < w.candidates.len() && (#[trigger] w.candidates[i]).oid == n.ref_base_oid->0 && base_of(w, n)
                == Some(w.candidates[i].node_id) && forall|j: int|
                0 <= j < w.candidates.len() && (#[trigger] w.candidates[j]).oid == n.ref_base_oid->0 ==> !key_less(
                    w.candidates[j].rank_key,
                    w.candidates[i].rank_key,
                ),
        get(w.pins, n.ref_base_oid->0) is None && !(exists|i: int|
            0 <= i < w.candidates.len() && (#[trigger] w.candidates[i]).oid == n.ref_base_oid->0) ==> base_of(w, n)
            is None,
{
    lemma_names();
    lemma_best(w.candidates, n.ref_base_oid->0);
    if let Some(c) = best_for_oid(w.candidates, n.ref_base_oid->0) {
        let i = choose|i: int| 0 <= i < w.candidates.len() && #[trigger] w.candidates[i] == c;
        assert(w.candidates[i].oid == n.ref_base_oid->0);
    }
}

/// A whole object whose bytes hold, and that no index says is another, is resolved with its bytes,
/// under the hash of its frame, when its cost is within the budget.
pub proof fn a_whole_object_is_resolved(w: WorldModel, id: i64, budget: Budget)
    requires
        get(w.nodes, id) is Some,
        !is_resolved(w, id),
        ({
            let n = get(w.nodes, id)->0;
            &&& is_whole_name(n.kind)
            &&& n.parse_status == "ok"@
            &&& n.crc_ok != Some(0i64)
            &&& n.raw matches Some(c) && c.len() <= i64::MAX && c.len() <= budget.max_total_expand
                * budget.single_object_ratio && spent(w.ledger) + c.len() <= budget.max_total_expand
            &&& forall|i: int|
                0 <= i < w.candidates.len() && (#[trigger] w.candidates[i]).node_id == id
                    && w.candidates[i].origin == "index"@ ==> w.candidates[i].oid == sha1_of(
                    object_frame(n.kind, n.raw->0),
                )
        }),
        !has_key(w.ledger, id),
        budget.max_depth >= 1,
    ensures
        ({
            let n = get(w.nodes, id)->0;
            let r = get(settled(w, id, budget).rows, id);
            &&& r is Some
            &&& r->0.status == "resolved"@
            &&& r->0.content == n.raw
            &&& r->0.final_type == Some(n.kind)
            &&& r->0.final_oid == Some(sha1_of(object_frame(n.kind, n.raw->0)))
        }),
{
    let n = get(w.nodes, id)->0;
    let c = n.raw->0;
    lemma_names();
    lemma_whole_kind(n.kind);
    lemma_single(w, id, budget);
    let order = seq![id];
    let t = kind_or_blob(n.kind);
    lemma_index_claim(w.candidates, id);
    if let Some(x) = index_claim(w.candidates, id) {
        let i = choose|i: int| 0 <= i < w.candidates.len() && #[trigger] w.candidates[i] == x;
        assert(w.candidates[i].node_id == id && w.candidates[i].origin == "index"@);
    }
    let b = Bench { w, built: Seq::empty() };
    let made = node_built(b, order, 0);
    assert(chain_built(b, order, 0) == chain_built(made, order, 1));
    assert(chain_built(made, order, 1) == made.w);
    assert forall|v: WorldModel, r: RowModel| get(#[trigger] put(v.rows, id, r), id) == Some(r) by {
        get_of_put(v.rows, id, r, id);
    }
}

proof fn lemma_single(w: WorldModel, id: i64, budget: Budget)
    requires
        get(w.nodes, id) is Some,
        is_whole_name(get(w.nodes, id)->0.kind),
        budget.max_depth >= 1,
    ensures
        walked(w, id, budget, Seq::empty(), id) == Walk::Build(seq![id]),
        seq![id].reverse() == seq![id],
        new_cost(w, seq![id]) == if is_new(w, id) {
            planned_size(get(w.nodes, id)->0) as int
        } else {
            0
        },
{
    lemma_whole_kind(get(w.nodes, id)->0.kind);
    assert(Seq::<i64>::empty().push(id) =~= seq![id]);
    assert(seq![id].reverse() =~= seq![id]);
    assert(seq![id].drop_last() =~= Seq::<i64>::empty());
    assert(new_cost(w, Seq::<i64>::empty()) == 0);
    assert(seq![id].last() == id);
}

/// A whole object that costs more than the budget has left, or more than one object may cost, is
/// paused: nothing is published.
pub proof fn a_costly_object_is_paused(w: WorldModel, id: i64, budget: Budget)
    requires
        get(w.nodes, id) is Some,
        !is_resolved(w, id),
        is_whole_name(get(w.nodes, id)->0.kind),
        get(w.nodes, id)->0.raw matches Some(c) && c.len() <= i64::MAX && (c.len() > budget.max_total_expand
            * budget.single_object_ratio || spent(w.ledger) + c.len() > budget.max_total_expand),
        !has_key(w.ledger, id),
        budget.max_depth >= 1,
    ensures
        ({
            let s = settled(w, id, budget);
            &&& get(s.rows, id) matches Some(r) && r.status == "paused"@ && r.final_oid is None
            &&& s.ledger == w.ledger
            &&& s.candidates == w.candidates
        }),
{
    lemma_names();
    lemma_whole_kind(get(w.nodes, id)->0.kind);
    lemma_single(w, id, budget);
    assert forall|v: WorldModel, r: RowModel| get(#[trigger] put(v.rows, id, r), id) == Some(r) by {
        get_of_put(v.rows, id, r, id);
    }
}

/// A delta whose base is resolved, and whose bytes hold, is resolved with what its instructions
/// make of the base, under the type of the base, when that is within the budget.
pub proof fn a_delta_on_a_resolved_base_is_resolved(w: WorldModel, id: i64, b: i64, budget: Budget)
    requires
        all_honest(w.rows),
        get(w.nodes, id) is Some,
        get(w.nodes, b) is Some,
        id != b,
        !is_resolved(w, id),
        is_resolved(w, b),
        !has_key(w.ledger, id),
        get(w.rows, b)->0.final_type matches Some(t) && is_whole_name(t),
        budget.max_depth >= 1,
        ({
            let n = get(w.nodes, id)->0;
            let r = get(w.rows, b)->0;
            &&& n.kind == "ofs_delta"@ || n.kind == "ref_delta"@
            &&& base_of(w, n) == Some(b)
            &&& n.parse_status == "ok"@
            &&& n.crc_ok != Some(0i64)
            &&& n.raw is Some
            &&& result_of(r.content->0, n.raw->0) matches Ok(x) && (forall|i: int|
                0 <= i < w.candidates.len() && (#[trigger] w.candidates[i]).node_id == id
                    && w.candidates[i].origin == "index"@ ==> w.candidates[i].oid == sha1_of(
                    object_frame(r.final_type->0, x.0),
                ))
            &&& planned_size(n) <= budget.max_total_expand * budget.single_object_ratio
            &&& spent(w.ledger) + planned_size(n) <= budget.max_total_expand
        }),
    ensures
        ({
            let n = get(w.nodes, id)->0;
            let base = get(w.rows, b)->0;
            let r = get(settled(w, id, budget).rows, id);
            let out = result_of(base.content->0, n.raw->0)->Ok_0.0;
            &&& r is Some
            &&& r->0.status == "resolved"@
            &&& r->0.content == Some(out)
            &&& r->0.final_type == base.final_type
            &&& r->0.final_oid == Some(sha1_of(object_frame(base.final_type->0, out)))
        }),
{
    lemma_names();
    let n = get(w.nodes, id)->0;
    let base = get(w.rows, b)->0;
    lemma_row(w.rows, b);
    assert(crate::engine::resolve::honest(w.rows[crate::model::assoc::row_of(w.rows, b) as int].1));
    let t = base.final_type->0;
    lemma_whole_kind(t);
    let chain = seq![id, b];
    let order = seq![b, id];
    let e = Seq::<i64>::empty();
    assert(e.push(id) =~= seq![id]);
    assert(seq![id].push(b) =~= chain);
    assert(chain.reverse() =~= order);
    assert(!seq![id].contains(b));
    assert(walked(w, id, budget, e.push(id), b) == Walk::Build(chain));
    assert(walked(w, id, budget, e, id) == Walk::Build(chain));
    assert(order.drop_last() =~= seq![b]);
    assert(seq![b].drop_last() =~= e);
    assert(new_cost(w, e) == 0);
    assert(new_cost(w, seq![b]) == 0);
    assert(new_cost(w, order) == planned_size(n));
    let start = Bench { w, built: Seq::empty() };
    let one = node_built(start, order, 0);
    assert(one.w == w);
    assert(!has_key(start.built, b));
    get_of_put(start.built, b, (kind_or_blob(t), base.content->0), b);
    assert(get(one.built, b) == Some((kind_or_blob(t), base.content->0)));
    lemma_index_claim(w.candidates, id);
    if let Some(x) = index_claim(w.candidates, id) {
        let i = choose|i: int| 0 <= i < w.candidates.len() && #[trigger] w.candidates[i] == x;
        assert(w.candidates[i].node_id == id && w.candidates[i].origin == "index"@);
    }
    let two = node_built(one, order, 1);
    assert(chain_built(start, order, 0) == chain_built(one, order, 1));
    assert(chain_built(one, order, 1) == chain_built(two, order, 2));
    assert(chain_built(two, order, 2) == two.w);
    assert forall|v: WorldModel, r: RowModel| get(#[trigger] put(v.rows, id, r), id) == Some(r) by {
        get_of_put(v.rows, id, r, id);
    }
}

/// Each of `c` but the first is the base of the one before it.
pub open spec fn is_descent(w: WorldModel, c: Seq<i64>) -> bool {
    forall|i: int|
        0 <= i < c.len() - 1 ==> get(w.nodes, #[trigger] c[i]) is Some && (get(w.nodes, c[i])->0.kind == "ofs_delta"@
            || get(w.nodes, c[i])->0.kind == "ref_delta"@) && base_of(w, get(w.nodes, c[i])->0) == Some(c[i + 1])
}

proof fn lemma_descent(w: WorldModel, root: i64, budget: Budget, c: Seq<i64>, k: int)
    requires
        is_descent(w, c),
        0 <= k < c.len(),
        c.take(k).no_duplicates(),
        !c.take(k).contains(c[k]),
        c[0] == root,
        c.len() - 1 <= budget.max_depth,
        c.drop_last().no_duplicates(),
        forall|i: int| 0 < i < c.len() - 1 ==> !has_key(w.rows, #[trigger] c[i]),
        k < c.len() - 1,
    ensures
        walked(w, root, budget, c.take(k), c[k]) == walked(w, root, budget, c.drop_last(), c.last()),
    decreases c.len() - k,
{
    lemma_names();
    assert(c.take(k).push(c[k]) =~= c.take(k + 1));
    let n = get(w.nodes, c[k])->0;
    if k + 1 < c.len() - 1 {
        assert(c.drop_last()[k + 1] == c[k + 1]);
        assert(!c.take(k + 1).contains(c[k + 1])) by {
            if c.take(k + 1).contains(c[k + 1]) {
                let t = c.take(k + 1);
                let x = c[k + 1];
                let j = choose|j: int| 0 <= j < t.len() && #[trigger] t[j] == x;
                assert(c.drop_last()[j] == c[j] && c.drop_last()[k + 1] == c[k + 1]);
            }
        }
        assert(c.take(k + 1).no_duplicates()) by {
            let t = c.take(k + 1);
            let d = c.drop_last();
            assert forall|i: int, j: int| 0 <= i < t.len() && 0 <= j < t.len() && i != j implies #[trigger] t[i]
                != #[trigger] t[j] by {
                assert(d[i] == t[i] && d[j] == t[j]);
            }
        }
        lemma_descent(w, root, budget, c, k + 1);
    } else {
        assert(c.take(k + 1) =~= c.drop_last());
    }
}

/// A chain that comes back to a node it has passed is an error, and resolves nothing.
pub proof fn a_cycle_is_an_error(w: WorldModel, root: i64, budget: Budget, c: Seq<i64>)
    requires
        c.len() >= 2,
        c[0] == root,
        is_descent(w, c),
        c.drop_last().no_duplicates(),
        c.drop_last().contains(c.last()),
        c.len() - 1 <= budget.max_depth,
        forall|i: int| 0 < i < c.len() - 1 ==> !has_key(w.rows, #[trigger] c[i]),
    ensures
        ({
            let s = settled(w, root, budget);
            &&& get(s.rows, root) matches Some(r) && r.status == "error"@ && r.error_code == Some("delta_cycle"@)
            &&& s.nodes == w.nodes
            &&& s.ledger == w.ledger
        }),
{
    assert(c.take(0) =~= Seq::<i64>::empty());
    lemma_descent(w, root, budget, c, 0);
    assert forall|v: WorldModel, r: RowModel| get(#[trigger] put(v.rows, root, r), root) == Some(r) by {
        get_of_put(v.rows, root, r, root);
    }
}

/// A delta whose base nothing provides is blocked, and it says that it waits for the base.
pub proof fn a_delta_without_its_base_is_blocked(w: WorldModel, id: i64, budget: Budget)
    requires
        get(w.nodes, id) is Some,
        get(w.nodes, id)->0.kind == "ref_delta"@,
        get(w.nodes, id)->0.ref_base_oid is Some,
        get(w.pins, get(w.nodes, id)->0.ref_base_oid->0) is None,
        forall|i: int|
            0 <= i < w.candidates.len() ==> (#[trigger] w.candidates[i]).oid != get(w.nodes, id)->0.ref_base_oid->0,
        budget.max_depth >= 1,
    ensures
        get(settled(w, id, budget).rows, id) matches Some(r) && r.status == "blocked"@ && r.error_code == Some(
            "missing_ref_base"@,
        ),
{
    lemma_names();
    let n = get(w.nodes, id)->0;
    bases_are_chosen_by_pin_and_rank(w, n);
    assert forall|v: WorldModel, r: RowModel| get(#[trigger] put(v.rows, id, r), id) == Some(r) by {
        get_of_put(v.rows, id, r, id);
    }
}

} // verus!
