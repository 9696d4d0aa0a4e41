//! What a run promises of the objects that it reconstructs, and of those that it does not.
use vstd::prelude::*;
use crate::analyze::engine::{
    a_cycle_fails_its_chain, built_on, chosen_base, file_of, fresh_run, holds_all, opened, sound, tried,
    trying_keeps_a_run_sound, trying_keeps_what_was_reconstructed, AccModel, Env, NodeState, ResolvedModel,
};
use crate::analyze::graph::{best, payload_of, payloads_are_capped, GraphModel, NodeModel};
use crate::analyze::report::{count_state, heads, root_rank, roots_of, run_over, status_text, with_nameless};
use crate::git::delta::{applies_exactly_when_sound, result_of};
use crate::git::GitType;
use crate::model::assoc::{get, get_of_put, has_key, lemma_row, put};
use crate::model::object::object_frame;
use crate::model::outside::sha1_smol_of;
use crate::model::rank::{lemma_ranked_members, lemma_ranked_sorted, ranked};
use crate::model::text::hex;

verus! {

/// Candidate `b` is a base that the delta `n` names: the one at the offset in the same pack, else
/// the best for the oid, or one that was reconstructed under the oid.
pub open spec fn is_base(env: Env, a: AccModel, n: NodeModel, b: i64) -> bool {
    ||| n.base_offset is Some && get(env.graph.by_pack_offset, (n.source_id, n.base_offset->0)) == Some(b)
    ||| n.base_offset is None && n.base_ref is Some && best(env.graph, n.base_ref->0) is Some && (best(
        env.graph,
        n.base_ref->0,
    )->0).id == b
    ||| n.base_ref is Some && get(a.resolved, b) is Some && (get(a.resolved, b)->0).oid == n.base_ref->0
}

/// The object is what the delta `d` makes of base `b`, and has its type.
pub open spec fn stands_on(env: Env, a: AccModel, n: NodeModel, r: ResolvedModel, d: Seq<u8>, b: i64) -> bool {
    &&& is_base(env, a, n, b)
    &&& get(a.resolved, b) is Some
    &&& r.kind == (get(a.resolved, b)->0).kind
    &&& result_of((get(a.resolved, b)->0).content, d) is Ok
    &&& (result_of((get(a.resolved, b)->0).content, d)->Ok_0).0 == r.content
}

/// The object `r` is what candidate `id` holds: named by the hash of its framed content or as the
/// candidate claims, whole as its source has it, or made from a base.
pub open spec fn made(env: Env, a: AccModel, id: i64, r: ResolvedModel) -> bool {
    let n = get(env.graph.nodes, id)->0;
    let name = hex(sha1_smol_of(object_frame(r.kind.text(), r.content)));
    let p = payload_of(n, file_of(env.files, n.stored_path));
    &&& get(env.graph.nodes, id) is Some
    &&& n.parse_error is None
    &&& r.candidate_id == id
    &&& r.oid_ok <==> (n.oid.len() == 0 || n.oid == name)
    &&& n.oid.len() == 0 ==> r.oid == name
    &&& n.oid.len() > 0 ==> r.oid == n.oid
    &&& p is Ok
    &&& if (p->Ok_0).0 == GitType::OfsDelta || (p->Ok_0).0 == GitType::RefDelta {
        exists|b: i64| #[trigger] stands_on(env, a, n, r, (p->Ok_0).1, b)
    } else {
        r.kind == (p->Ok_0).0 && r.content == (p->Ok_0).1
    }
}

/// Every object of a run is what its candidate holds, and is found under its name.
pub open spec fn well_made(env: Env, a: AccModel) -> bool {
    &&& forall|x: i64| #[trigger] has_key(a.resolved, x) ==> made(env, a, x, get(a.resolved, x)->0)
    &&& forall|oid: Seq<char>| #[trigger]
        has_key(a.resolved_by_oid, oid) ==> get(a.resolved, get(a.resolved_by_oid, oid)->0) is Some && (get(
            a.resolved,
            get(a.resolved_by_oid, oid)->0,
        )->0).oid == oid
}

proof fn lemma_still(env: Env, a: AccModel, b: AccModel, x: i64)
    requires
        holds_all(a, b),
        has_key(a.resolved, x),
        made(env, a, x, get(a.resolved, x)->0),
    ensures
        made(env, b, x, get(a.resolved, x)->0),
{
    let n = get(env.graph.nodes, x)->0;
    let p = payload_of(n, file_of(env.files, n.stored_path));
    let r = get(a.resolved, x)->0;
    if (p->Ok_0).0 == GitType::OfsDelta || (p->Ok_0).0 == GitType::RefDelta {
        let y = choose|y: i64| #[trigger] stands_on(env, a, n, r, (p->Ok_0).1, y);
        assert(has_key(a.resolved, y));
        assert(stands_on(env, b, n, r, (p->Ok_0).1, y));
    }
}

proof fn lemma_same(env: Env, a: AccModel, b: AccModel)
    requires
        well_made(env, a),
        b.resolved == a.resolved,
        b.resolved_by_oid == a.resolved_by_oid,
    ensures
        well_made(env, b),
{
    assert forall|x: i64| #[trigger] has_key(b.resolved, x) implies made(env, b, x, get(b.resolved, x)->0) by {
        assert(has_key(a.resolved, x));
        lemma_still(env, a, b, x);
    }
    assert forall|oid: Seq<char>| #[trigger] has_key(b.resolved_by_oid, oid) implies get(
        b.resolved,
        get(b.resolved_by_oid, oid)->0,
    ) is Some && (get(b.resolved, get(b.resolved_by_oid, oid)->0)->0).oid == oid by {
        assert(has_key(a.resolved_by_oid, oid));
    }
}

/// One more object, of a candidate that had none.
proof fn lemma_more(env: Env, a: AccModel, b: AccModel, id: i64, r: ResolvedModel)
    requires
        well_made(env, a),
        !has_key(a.resolved, id),
        b.resolved == put(a.resolved, id, r),
        b.resolved_by_oid == if has_key(a.resolved_by_oid, r.oid) {
            a.resolved_by_oid
        } else {
            put(a.resolved_by_oid, r.oid, id)
        },
        made(env, b, id, r),
    ensures
        well_made(env, b),
{
    assert(holds_all(a, b)) by {
        assert forall|x: i64| #[trigger] has_key(a.resolved, x) implies get(b.resolved, x) == get(a.resolved, x) by {
            get_of_put(a.resolved, id, r, x);
        }
    }
    assert forall|x: i64| #[trigger] has_key(b.resolved, x) implies made(env, b, x, get(b.resolved, x)->0) by {
        get_of_put(a.resolved, id, r, x);
        if x != id {
            assert(has_key(a.resolved, x));
            lemma_still(env, a, b, x);
        }
    }
    assert forall|oid: Seq<char>| #[trigger] has_key(b.resolved_by_oid, oid) implies get(
        b.resolved,
        get(b.resolved_by_oid, oid)->0,
    ) is Some && (get(b.resolved, get(b.resolved_by_oid, oid)->0)->0).oid == oid by {
        get_of_put(a.resolved_by_oid, r.oid, id, oid);
        get_of_put(a.resolved, id, r, id);
        if has_key(a.resolved_by_oid, oid) {
            let y = get(a.resolved_by_oid, oid)->0;
            get_of_put(a.resolved, id, r, y);
            assert(has_key(a.resolved, y));
        }
    }
}

proof fn lemma_opened(env: Env, a: AccModel, id: i64, n: NodeModel, depth: u32)
    requires
        well_made(env, a),
        get(env.graph.nodes, id) == Some(n),
        !has_key(a.resolved, id),
    ensures
        opened(env, a, id, n, depth) matches Err(b) ==> well_made(env, b),
{
    if let Err(b) = opened(env, a, id, n, depth) {
        if b.resolved == a.resolved && b.resolved_by_oid == a.resolved_by_oid {
            lemma_same(env, a, b);
        } else {
            let p = payload_of(n, file_of(env.files, n.stored_path))->Ok_0;
            let computed = hex(sha1_smol_of(object_frame(p.0.text(), p.1)));
            let r = ResolvedModel {
                oid: if n.oid.len() == 0 {
                    computed
                } else {
                    n.oid
                },
                candidate_id: id,
                kind: p.0,
                content: p.1,
                depth,
                oid_ok: n.oid.len() == 0 || n.oid == computed,
            };
            assert(b.resolved == put(a.resolved, id, r));
            lemma_more(env, a, b, id, r);
        }
    }
}

proof fn lemma_built(env: Env, a: AccModel, id: i64, n: NodeModel, depth: u32, payload: Seq<u8>, base_id: i64)
    requires
        well_made(env, a),
        get(env.graph.nodes, id) == Some(n),
        n.parse_error is None,
        !has_key(a.resolved, id),
        is_base(env, a, n, base_id),
        payload_of(n, file_of(env.files, n.stored_path)) matches Ok((k, p)) && (k == GitType::OfsDelta || k
            == GitType::RefDelta) && p == payload,
    ensures
        well_made(env, built_on(env, a, id, n, depth, payload, base_id)),
{
    let b = built_on(env, a, id, n, depth, payload, base_id);
    if b.resolved == a.resolved && b.resolved_by_oid == a.resolved_by_oid {
        lemma_same(env, a, b);
    } else {
        let base = get(a.resolved, base_id)->0;
        let out = (result_of(base.content, payload)->Ok_0).0;
        let computed = hex(sha1_smol_of(object_frame(base.kind.text(), out)));
        let r = ResolvedModel {
            oid: if n.oid.len() == 0 {
                computed
            } else {
                n.oid
            },
            candidate_id: id,
            kind: base.kind,
            content: out,
            depth: (depth + 1) as u32,
            oid_ok: n.oid.len() == 0 || n.oid == computed,
        };
        assert(b.resolved == put(a.resolved, id, r));
        assert(base_id != id);
        get_of_put(a.resolved, id, r, base_id);
        assert(stands_on(env, b, n, r, payload, base_id));
        lemma_more(env, a, b, id, r);
    }
}

/// Whatever trying a candidate reconstructs is what the candidate holds: it hashes to its oid or is
/// kept as a claim that is not met; a whole object is as its file has it under its own type; a
/// delta is applied to a base that it names, whose type it takes.
pub proof fn what_is_reconstructed_is_well_made(env: Env, a: AccModel, id: i64, stack: Seq<i64>, depth: u32)
    requires
        sound(env, a),
        well_made(env, a),
    ensures
        well_made(env, tried(env, a, id, stack, depth)),
    decreases env.budget.max_depth - depth,
{
    let t = tried(env, a, id, stack, depth);
    if get(a.state, id) is Some {
        lemma_same(env, a, t);
    } else if stack.contains(id) {
        a_cycle_fails_its_chain(env, a, id, stack, depth, id);
        lemma_same(env, a, t);
    } else if let Some(n) = get(env.graph.nodes, id) {
        assert(!has_key(a.resolved, id)) by {
            if has_key(a.resolved, id) {
                assert(get(a.state, id) == Some(NodeState::Resolved));
            }
        }
        lemma_opened(env, a, id, n, depth);
        if let Ok(payload) = opened(env, a, id, n, depth) {
            match chosen_base(env.graph, a, n) {
                Err(reason) => {
                    lemma_same(env, a, t);
                },
                Ok(b) => {
                    let inner = stack.push(id);
                    let next = (depth + 1) as u32;
                    let m = tried(env, a, b, inner, next);
                    what_is_reconstructed_is_well_made(env, a, b, inner, next);
                    trying_keeps_a_run_sound(env, a, b, inner, next);
                    trying_keeps_what_was_reconstructed(env, a, b, inner, next);
                    assert(inner[stack.len() as int] == id);
                    assert(inner.contains(id));
                    assert(get(m.resolved, id) == get(a.resolved, id));
                    assert(!has_key(m.resolved, id));
                    assert(is_base(env, m, n, b)) by {
                        if n.base_ref is Some && has_key(a.resolved_by_oid, n.base_ref->0) && get(
                            a.resolved_by_oid,
                            n.base_ref->0,
                        ) == Some(b) {
                            assert(has_key(a.resolved, b));
                        }
                    }
                    lemma_built(env, m, id, n, depth, payload, b);
                },
            }
        }
    }
}

/// Whatever a run from the start reconstructs is what the candidates hold.
pub proof fn what_a_run_reconstructs_is_well_made(env: Env, a: AccModel, roots: Seq<i64>)
    requires
        sound(env, a),
        well_made(env, a),
    ensures
        well_made(env, run_over(env, a, roots)),
    decreases roots.len(),
{
    if roots.len() > 0 {
        let next = tried(env, a, roots[0], Seq::empty(), 0);
        what_is_reconstructed_is_well_made(env, a, roots[0], Seq::empty(), 0);
        trying_keeps_a_run_sound(env, a, roots[0], Seq::empty(), 0);
        if !next.paused {
            what_a_run_reconstructs_is_well_made(env, next, roots.skip(1));
        }
    }
}

/// A run that has found nothing is well made.
pub proof fn a_fresh_run_is_well_made(env: Env)
    ensures
        well_made(env, fresh_run()),
{
    let a = fresh_run();
    assert forall|x: i64| !has_key(a.resolved, x) by {
        lemma_row(a.resolved, x);
    }
    assert forall|x: Seq<char>| !has_key(a.resolved_by_oid, x) by {
        lemma_row(a.resolved_by_oid, x);
    }
}

/// A candidate that is open: not decided, and not waited for.
pub open spec fn is_open(env: Env, a: AccModel, id: i64, stack: Seq<i64>) -> bool {
    get(a.state, id) is None && !stack.contains(id) && get(env.graph.nodes, id) is Some
}

/// A candidate that could not be parsed fails, and nothing else changes.
pub proof fn a_broken_candidate_fails(env: Env, a: AccModel, id: i64, stack: Seq<i64>, depth: u32)
    requires
        is_open(env, a, id, stack),
        (get(env.graph.nodes, id)->0).parse_error is Some,
    ensures
        ({
            let t = tried(env, a, id, stack, depth);
            &&& get(t.state, id) == Some(NodeState::Failed)
            &&& t.resolved == a.resolved && t.bytes_used == a.bytes_used && t.paused == a.paused
        }),
{
    get_of_put(a.state, id, NodeState::Failed, id);
}

/// A chain that is longer than the budget allows is paused.
pub proof fn a_deep_chain_is_paused(env: Env, a: AccModel, id: i64, stack: Seq<i64>, depth: u32)
    requires
        is_open(env, a, id, stack),
        (get(env.graph.nodes, id)->0).parse_error is None,
        depth >= env.budget.max_depth,
    ensures
        ({
            let t = tried(env, a, id, stack, depth);
            &&& get(t.state, id) == Some(NodeState::Paused)
            &&& t.paused
            &&& t.resolved == a.resolved && t.bytes_used == a.bytes_used
        }),
{
    get_of_put(a.state, id, NodeState::Paused, id);
}

/// A whole object within the budget is reconstructed as it is: one that is too large for a single
/// object fails, and one for which the total does not suffice pauses the run.
pub proof fn a_whole_object_is_reconstructed(env: Env, a: AccModel, id: i64, stack: Seq<i64>, depth: u32)
    requires
        is_open(env, a, id, stack),
        (get(env.graph.nodes, id)->0).parse_error is None,
        depth < env.budget.max_depth,
        ({
            let n = get(env.graph.nodes, id)->0;
            payload_of(n, file_of(env.files, n.stored_path)) matches Ok((k, p)) && k != GitType::OfsDelta && k
                != GitType::RefDelta && n.inflate_size == p.len()
        }),
    ensures
        ({
            let n = get(env.graph.nodes, id)->0;
            let (k, p) = payload_of(n, file_of(env.files, n.stored_path))->Ok_0;
            let t = tried(env, a, id, stack, depth);
            let b = env.budget;
            let r = get(t.resolved, id)->0;
            &&& get(t.state, id) == Some(NodeState::Resolved) <==> p.len() <= b.max_single_bytes && a.bytes_used
                + p.len() <= b.max_expand_bytes
            &&& p.len() <= b.max_single_bytes && a.bytes_used + p.len() > b.max_expand_bytes ==> get(t.state, id)
                == Some(NodeState::Paused) && t.paused
            &&& p.len() > b.max_single_bytes ==> (get(t.state, id) == Some(NodeState::Failed) || get(t.state, id)
                == Some(NodeState::Paused)) && t.resolved == a.resolved
            &&& get(t.state, id) == Some(NodeState::Resolved) ==> {
                &&& r.content == p && r.kind == k && r.depth == depth
                &&& t.bytes_used == a.bytes_used + p.len()
                &&& t.paused == a.paused
            }
            &&& get(t.state, id) != Some(NodeState::Resolved) ==> t.bytes_used == a.bytes_used
        }),
{
    let n = get(env.graph.nodes, id)->0;
    let (k, p) = payload_of(n, file_of(env.files, n.stored_path))->Ok_0;
    get_of_put(a.state, id, NodeState::Failed, id);
    get_of_put(a.state, id, NodeState::Paused, id);
    get_of_put(a.state, id, NodeState::Resolved, id);
    assert forall|r: ResolvedModel| get(#[trigger] put(a.resolved, id, r), id) == Some(r) by {
        get_of_put(a.resolved, id, r, id);
    }
}

/// A delta whose base at an offset of its pack has been reconstructed, and that fits it, makes its
/// object within the budget; what is too large for a single object fails, and what is too large for
/// the total pauses the run.
pub proof fn a_delta_on_a_reconstructed_base_is_applied(
    env: Env,
    a: AccModel,
    id: i64,
    stack: Seq<i64>,
    depth: u32,
    b: i64,
)
    requires
        is_open(env, a, id, stack),
        (get(env.graph.nodes, id)->0).parse_error is None,
        depth < env.budget.max_depth,
        !a.paused,
        get(a.state, b) == Some(NodeState::Resolved),
        get(a.resolved, b) is Some,
        ({
            let n = get(env.graph.nodes, id)->0;
            &&& n.kind_name == "ofs-delta"@
            &&& n.base_offset is Some
            &&& get(env.graph.by_pack_offset, (n.source_id, n.base_offset->0)) == Some(b)
            &&& payload_of(n, file_of(env.files, n.stored_path)) is Ok
            &&& (payload_of(n, file_of(env.files, n.stored_path))->Ok_0).0 == GitType::OfsDelta
            &&& result_of(
                (get(a.resolved, b)->0).content,
                (payload_of(n, file_of(env.files, n.stored_path))->Ok_0).1,
            ) is Ok
        }),
    ensures
        ({
            let n = get(env.graph.nodes, id)->0;
            let p = (payload_of(n, file_of(env.files, n.stored_path))->Ok_0).1;
            let base = get(a.resolved, b)->0;
            let out = (result_of(base.content, p)->Ok_0).0;
            let t = tried(env, a, id, stack, depth);
            let r = get(t.resolved, id)->0;
            &&& get(t.state, id) == Some(NodeState::Resolved) <==> out.len() <= env.budget.max_single_bytes
                && a.bytes_used + out.len() <= env.budget.max_expand_bytes
            &&& get(t.state, id) == Some(NodeState::Failed) <==> out.len() > env.budget.max_single_bytes
            &&& get(t.state, id) == Some(NodeState::Paused) <==> t.paused
            &&& get(t.state, id) == Some(NodeState::Resolved) ==> {
                &&& r.content == out && r.kind == base.kind && r.depth == depth + 1
                &&& t.bytes_used == a.bytes_used + out.len()
                &&& t.steps.len() == a.steps.len() + 1
                &&& t.steps.last().base_candidate_id == b && t.steps.last().child_candidate_id == id
                &&& t.steps.last().base_oid == base.oid
                &&& t.steps.last().input_len == base.content.len() && t.steps.last().output_len == out.len()
            }
        }),
{
    let n = get(env.graph.nodes, id)->0;
    let p = (payload_of(n, file_of(env.files, n.stored_path))->Ok_0).1;
    let base = get(a.resolved, b)->0;
    payloads_are_capped(n, file_of(env.files, n.stored_path));
    applies_exactly_when_sound(base.content, p);
    reveal_strlit("ofs-delta");
    reveal_strlit("commit");
    reveal_strlit("tree");
    reveal_strlit("blob");
    reveal_strlit("tag");
    assert("ofs-delta"@.len() == 9 && "commit"@.len() == 6 && "tree"@.len() == 4 && "blob"@.len() == 4 && "tag"@.len()
        == 3);
    assert(tried(env, a, b, stack.push(id), (depth + 1) as u32) == a);
    get_of_put(a.state, id, NodeState::Failed, id);
    get_of_put(a.state, id, NodeState::Paused, id);
    get_of_put(a.state, id, NodeState::Resolved, id);
    assert forall|r: ResolvedModel| get(#[trigger] put(a.resolved, id, r), id) == Some(r) by {
        get_of_put(a.resolved, id, r, id);
    }
}

/// A delta that names an oid which no candidate has, and under which nothing was reconstructed,
/// fails.
pub proof fn a_delta_without_its_base_fails(env: Env, a: AccModel, id: i64, stack: Seq<i64>, depth: u32)
    requires
        is_open(env, a, id, stack),
        (get(env.graph.nodes, id)->0).parse_error is None,
        depth < env.budget.max_depth,
        ({
            let n = get(env.graph.nodes, id)->0;
            &&& n.kind_name == "ref-delta"@
            &&& payload_of(n, file_of(env.files, n.stored_path)) is Ok
            &&& (payload_of(n, file_of(env.files, n.stored_path))->Ok_0).0 == GitType::RefDelta
            &&& n.base_offset is None
            &&& n.base_ref is Some
            &&& get(env.graph.by_oid, n.base_ref->0) is None
            &&& get(a.resolved_by_oid, n.base_ref->0) is None
        }),
    ensures
        ({
            let t = tried(env, a, id, stack, depth);
            &&& get(t.state, id) == Some(NodeState::Failed)
            &&& t.resolved == a.resolved && t.paused == a.paused && t.bytes_used == a.bytes_used
        }),
{
    reveal_strlit("ref-delta");
    reveal_strlit("commit");
    reveal_strlit("tree");
    reveal_strlit("blob");
    reveal_strlit("tag");
    assert("ref-delta"@.len() == 9 && "commit"@.len() == 6 && "tree"@.len() == 4 && "blob"@.len() == 4 && "tag"@.len()
        == 3);
    get_of_put(a.state, id, NodeState::Failed, id);
}

/// A run tries whole objects before deltas, each kind by source, offset and candidate.
pub proof fn whole_objects_are_tried_first(g: GraphModel, i: int, j: int)
    requires
        0 <= i < j < roots_of(g).len(),
        get(g.nodes, roots_of(g)[i]) is Some,
        get(g.nodes, roots_of(g)[j]) is Some,
    ensures
        ({
            let a = get(g.nodes, roots_of(g)[i])->0;
            let b = get(g.nodes, roots_of(g)[j])->0;
            let a_delta = a.kind_name == "ofs-delta"@ || a.kind_name == "ref-delta"@;
            let b_delta = b.kind_name == "ofs-delta"@ || b.kind_name == "ref-delta"@;
            &&& a_delta ==> b_delta
            &&& a_delta == b_delta ==> a.source_id <= b.source_id
            &&& a_delta == b_delta && a.source_id == b.source_id ==> a.offset <= b.offset
            &&& a_delta == b_delta && a.source_id == b.source_id && a.offset == b.offset ==> roots_of(g)[i]
                <= roots_of(g)[j]
        }),
{
    let ids = with_nameless(heads(g.by_oid), g.nodes);
    let ranks = ids.map_values(|id: i64| root_rank(g.nodes, id));
    lemma_ranked_sorted(ranks, i, j);
    assert forall|k: int| 0 <= k < ranked(ranks).len() implies root_rank(g.nodes, ranked(ranks)[k].3)
        == #[trigger] ranked(ranks)[k] by {
        lemma_ranked_members(ranks, ranked(ranks)[k]);
        assert(ranked(ranks).contains(ranked(ranks)[k]));
        let q = choose|q: int| 0 <= q < ranks.len() && ranks[q] == ranked(ranks)[k];
        assert(ranks[q] == root_rank(g.nodes, ids[q]));
    }
    assert(roots_of(g)[i] == ranked(ranks)[i].3);
    assert(roots_of(g)[j] == ranked(ranks)[j].3);
}

proof fn lemma_heads(v: Seq<(Seq<char>, Seq<i64>)>, k: int)
    requires
        0 <= k < v.len(),
        v[k].1.len() > 0,
    ensures
        heads(v).contains(v[k].1[0]),
    decreases v.len(),
{
    let before = heads(v.drop_last());
    if k < v.len() - 1 {
        lemma_heads(v.drop_last(), k);
        let m = choose|m: int| 0 <= m < before.len() && before[m] == v[k].1[0];
        assert(heads(v)[m] == v[k].1[0]);
    } else {
        assert(heads(v)[before.len() as int] == v[k].1[0]);
    }
}

proof fn lemma_nameless(roots: Seq<i64>, nodes: Seq<(i64, NodeModel)>, x: i64)
    requires
        roots.contains(x) || exists|k: int| 0 <= k < nodes.len() && (#[trigger] nodes[k]).0 == x && nodes[k].1.oid.len()
            == 0,
    ensures
        with_nameless(roots, nodes).contains(x),
    decreases nodes.len(),
{
    if nodes.len() > 0 {
        let rest = nodes.drop_last();
        let before = with_nameless(roots, rest);
        let now = with_nameless(roots, nodes);
        if !before.contains(x) {
            if roots.contains(x) {
                lemma_nameless(roots, rest, x);
            } else {
                let k = choose|k: int| 0 <= k < nodes.len() && (#[trigger] nodes[k]).0 == x && nodes[k].1.oid.len() == 0;
                if k < rest.len() {
                    assert(rest[k] == nodes[k]);
                    lemma_nameless(roots, rest, x);
                } else {
                    assert(now[before.len() as int] == x);
                }
            }
        } else {
            let m = choose|m: int| 0 <= m < before.len() && before[m] == x;
            assert(now[m] == x);
        }
    }
}

/// A run tries the best candidate of every oid and every candidate without one.
pub proof fn every_oid_is_tried(g: GraphModel, x: i64)
    requires
        (exists|k: int| 0 <= k < g.by_oid.len() && (#[trigger] g.by_oid[k]).1.len() > 0 && g.by_oid[k].1[0] == x) || (
        exists|k: int| 0 <= k < g.nodes.len() && (#[trigger] g.nodes[k]).0 == x && g.nodes[k].1.oid.len() == 0),
    ensures
        roots_of(g).contains(x),
{
    let ids = with_nameless(heads(g.by_oid), g.nodes);
    if exists|k: int| 0 <= k < g.by_oid.len() && (#[trigger] g.by_oid[k]).1.len() > 0 && g.by_oid[k].1[0] == x {
        let k = choose|k: int| 0 <= k < g.by_oid.len() && (#[trigger] g.by_oid[k]).1.len() > 0 && g.by_oid[k].1[0] == x;
        lemma_heads(g.by_oid, k);
    }
    lemma_nameless(heads(g.by_oid), g.nodes, x);
    let q = choose|q: int| 0 <= q < ids.len() && ids[q] == x;
    let ranks = ids.map_values(|id: i64| root_rank(g.nodes, id));
    assert(ranks[q].3 == x);
    lemma_ranked_members(ranks, ranks[q]);
    assert(ranks.contains(ranks[q]));
    let m = choose|m: int| 0 <= m < ranked(ranks).len() && ranked(ranks)[m] == ranks[q];
    assert(roots_of(g)[m] == x);
}

proof fn lemma_counted(states: Seq<(i64, NodeState)>, s: NodeState)
    ensures
        count_state(states, s) > 0 <==> exists|k: int| 0 <= k < states.len() && (#[trigger] states[k]).1 == s,
    decreases states.len(),
{
    if states.len() > 0 {
        let rest = states.drop_last();
        lemma_counted(rest, s);
        if count_state(rest, s) > 0 {
            let k = choose|k: int| 0 <= k < rest.len() && (#[trigger] rest[k]).1 == s;
            assert(states[k].1 == s);
        }
        if states.last().1 == s {
            assert(states[states.len() - 1].1 == s);
        }
        if exists|k: int| 0 <= k < states.len() && (#[trigger] states[k]).1 == s {
            let k = choose|k: int| 0 <= k < states.len() && (#[trigger] states[k]).1 == s;
            if k < rest.len() {
                assert(rest[k].1 == s);
            }
        }
    }
}

/// A run is told to be complete exactly when nothing of it is paused and no candidate failed.
pub proof fn a_status_tells_the_truth(a: AccModel)
    ensures
        status_text(a) == "complete"@ <==> !a.paused && forall|k: int|
            0 <= k < a.state.len() ==> (#[trigger] a.state[k]).1 != NodeState::Failed,
        status_text(a) == "paused"@ <==> a.paused,
{
    lemma_counted(a.state, NodeState::Failed);
    reveal_strlit("complete");
    reveal_strlit("paused");
    reveal_strlit("failed");
    assert("complete"@[0] == 'c' && "paused"@[0] == 'p' && "failed"@[0] == 'f');
}

} // verus!
