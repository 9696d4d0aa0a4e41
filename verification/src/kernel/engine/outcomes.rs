//! What a run is for: the objects that come out of it, what they are made of, how they are named,
//! and the budgets that bound them.
use vstd::prelude::*;
use crate::kernel::delta::{applied, header_of};
use crate::kernel::engine::candidates::{
    a_pinned_node_is_offered_first, claims, finds, offered, offers, offers_come_in_order,
};
use crate::kernel::engine::chain::{
    after_base, at_once, base_outcome, base_read, capped, charged_slot, delta_of, entry_with, existing, id_of_hex,
    kind_named, loose_read, offset_of, ofs_task, pack_node_id, reach, ref_of, ref_task, remaining, remembered,
    visited, with_found, CtxModel, OutModel, PauseModel, ResModel, RunModel, Task,
};
use crate::kernel::engine::publish::{
    all_published, all_visited, blocker_chain_of, fresh_run, in_run, more_found, node_ids, pauses_keep_objects,
    pauses_published, resolved_all,
};
use crate::kernel::engine::rows::{EngineModel, NodeModel, StateModel};
use crate::kernel::pack::EntryModel;
use crate::model::assoc::{get, get_of_put, has_key, keyed, lemma_row, put, put_keeps_keyed, row_of};
use crate::model::object::object_frame;
use crate::model::outside::sha1_of;
use crate::model::sort::sorted_texts;
use crate::model::text::{hex, hex_roundtrip};

verus! {

/// The pack holds `d` at the offset of a node: it is what the data of the first entry there
/// inflate to.
pub open spec fn node_bytes(e: EngineModel, n: NodeModel, d: Seq<u8>) -> bool {
    get(e.packs, n.source_id) matches Some(p) && exists|i: int|
        0 <= i < p.entries.len() && (#[trigger] p.entries[i]).offset == offset_of(n) && (forall|j: int|
            0 <= j < i ==> (#[trigger] p.entries[j]).offset != offset_of(n)) && p.entries[i].inflated is Ok
            && p.entries[i].inflated->Ok_0 == d
}

/// Node `b` is a base that the delta `n` names: the node of the same pack at the offset before it,
/// or a node that claims the id or was found to have it.
pub open spec fn is_node_base(e: EngineModel, n: NodeModel, b: Seq<char>) -> bool {
    &&& has_key(e.nodes, b)
    &&& n.object_type == "ofs-delta"@ ==> n.ofs_base_offset is Some && b == pack_node_id(
        n.source_id,
        n.ofs_base_offset->0 as nat,
    ) && n.ofs_base_offset->0 < offset_of(n)
    &&& n.object_type == "ref-delta"@ ==> (exists|i: int|
        0 <= i < e.claimed.len() && (#[trigger] e.claimed[i]).0 == b && e.claimed[i].1.oid == id_of_hex(ref_of(n)))
        || (exists|i: int|
        0 <= i < e.found.len() && (#[trigger] e.found[i]).0 == b && e.found[i].1.contains(id_of_hex(ref_of(n))))
}

/// The delta `n` makes `o` of what the run made of node `b`.
pub open spec fn made_from(
    e: EngineModel,
    results: Seq<(Seq<char>, RunModel)>,
    n: NodeModel,
    b: Seq<char>,
    o: OutModel,
) -> bool {
    &&& is_node_base(e, n, b)
    &&& get(results, b) is Some
    &&& get(results, b)->0 is Done
    &&& ({
        let base = get(results, b)->0->Done_0;
        &&& o.kind == base.kind
        &&& exists|d: Seq<u8>, left: nat|
            node_bytes(e, n, d) && (#[trigger] applied(base.data, d, reach(e.budget.single_cap), left)) is Ok && (
            applied(base.data, d, reach(e.budget.single_cap), left)->Ok_0).0 == o.data
    })
}

/// What a run made of a node: named by the hash of its framed content; for a whole object the bytes
/// of the pack under the type of the node, for a loose object what its file holds, for a delta what
/// it makes of its base. An object of an earlier run is taken as it is.
pub open spec fn made(e: EngineModel, results: Seq<(Seq<char>, RunModel)>, id: Seq<char>, o: OutModel) -> bool {
    &&& o.oid == sha1_of(object_frame(o.kind.text(), o.data))
    &&& ({
        let n = get(e.nodes, id)->0;
        if existing(e, id) is Some {
            existing(e, id)->0 == o
        } else {
            &&& o.depth < e.budget.max_depth
            &&& if n.node_kind == "loose"@ {
                get(e.looses, n.source_id) matches Some(l) && l.content is Ok && l.content->Ok_0 == o.data && l.kind
                    == o.kind && (l.content->Ok_0).len() as u64 <= e.budget.single_cap
            } else if n.object_type == "ofs-delta"@ || n.object_type == "ref-delta"@ {
                &&& o.data.len() == n.declared_size
                &&& o.data.len() <= e.budget.single_cap
                &&& exists|b: Seq<char>| #[trigger] made_from(e, results, n, b, o)
            } else {
                &&& o.kind.text() == n.object_type
                &&& node_bytes(e, n, o.data)
                &&& n.declared_size <= e.budget.single_cap
            }
        }
    })
}

spec fn is_done(c: CtxModel, x: Seq<char>) -> bool {
    get(c.results, x) matches Some(r) && r is Done
}

/// The bytes that a run has charged.
pub open spec fn spent(c: CtxModel) -> int {
    c.charged_total + c.local_charge
}

spec fn on_course(e: EngineModel, c: CtxModel) -> bool {
    &&& keyed(c.results)
    &&& forall|y: Seq<char>| #[trigger] c.stack.contains(y) ==> existing(e, y) is None && !is_done(c, y)
    &&& forall|y: Seq<char>| #[trigger] is_done(c, y) ==> made(e, c.results, y, get(c.results, y)->0->Done_0)
}

/// Nothing is lost on the way from `e` to `f`: the tables stay, and what was found stays found.
spec fn goes_on(e: EngineModel, f: EngineModel) -> bool {
    &&& f == EngineModel {
        evidence: f.evidence,
        found: f.found,
        edges: f.edges,
        missing_edges: f.missing_edges,
        ..e
    }
    &&& forall|x: Seq<char>, oid: Seq<u8>| #[trigger]
        finds(e, x, oid, e.found.len() as int) ==> finds(f, x, oid, f.found.len() as int)
}

spec fn keeps(c: CtxModel, d: CtxModel) -> bool {
    forall|x: Seq<char>| #[trigger] is_done(c, x) ==> get(d.results, x) == get(c.results, x)
}

proof fn lemma_found(e: EngineModel, id: Seq<char>, oid: Seq<u8>)
    ensures
        goes_on(e, with_found(e, id, oid)),
{
    let f = with_found(e, id, oid);
    let v = match get(e.found, id) {
        Some(v) => v,
        None => Seq::empty(),
    };
    let w = if v.contains(oid) {
        v
    } else {
        v.push(oid)
    };
    assert(forall|o: Seq<u8>| v.contains(o) ==> w.contains(o)) by {
        assert forall|o: Seq<u8>| v.contains(o) implies w.contains(o) by {
            let k = choose|k: int| 0 <= k < v.len() && v[k] == o;
            assert(w[k] == o);
        }
    }
    lemma_row(e.found, id);
    assert forall|x: Seq<char>, o: Seq<u8>| #[trigger] finds(e, x, o, e.found.len() as int) implies finds(
        f,
        x,
        o,
        f.found.len() as int,
    ) by {
        let i = choose|i: int| 0 <= i < e.found.len() && (#[trigger] e.found[i]).0 == x && e.found[i].1.contains(o);
        let r = row_of(e.found, id) as int;
        if has_key(e.found, id) && i == r {
            assert(f.found[i] == (id, w));
            assert(e.found[i].0 == id);
        } else {
            assert(f.found[i] == e.found[i]);
        }
    }
}

proof fn lemma_still_made(e: EngineModel, c: CtxModel, f: EngineModel, d: CtxModel, y: Seq<char>)
    requires
        goes_on(e, f),
        keeps(c, d),
        is_done(c, y),
        made(e, c.results, y, get(c.results, y)->0->Done_0),
    ensures
        made(f, d.results, y, get(c.results, y)->0->Done_0),
{
    let o = get(c.results, y)->0->Done_0;
    let n = get(e.nodes, y)->0;
    if existing(e, y) is None && n.node_kind != "loose"@ && (n.object_type == "ofs-delta"@ || n.object_type
        == "ref-delta"@) {
        let b = choose|b: Seq<char>| #[trigger] made_from(e, c.results, n, b, o);
        assert(is_done(c, b));
        let base = get(c.results, b)->0->Done_0;
        let (delta, left) = choose|delta: Seq<u8>, left: nat|
            node_bytes(e, n, delta) && (#[trigger] applied(base.data, delta, reach(e.budget.single_cap), left)) is Ok
                && (applied(base.data, delta, reach(e.budget.single_cap), left)->Ok_0).0 == o.data;
        assert(node_bytes(f, n, delta));
        if n.object_type == "ref-delta"@ {
            let oid = id_of_hex(ref_of(n));
            if !claims(e, b, oid, e.claimed.len() as int) {
                assert(finds(e, b, oid, e.found.len() as int));
                assert(finds(f, b, oid, f.found.len() as int));
            } else {
                assert(claims(f, b, oid, f.claimed.len() as int));
            }
        }
        assert(made_from(f, d.results, n, b, o));
    }
}

/// A course goes on with one more result, or with none.
proof fn lemma_course(e: EngineModel, c: CtxModel, f: EngineModel, d: CtxModel, id: Seq<char>, r: RunModel)
    requires
        on_course(e, c),
        goes_on(e, f),
        !is_done(c, id),
        d.results == put(c.results, id, r),
        forall|y: Seq<char>| #[trigger] d.stack.contains(y) ==> c.stack.contains(y),
        r matches RunModel::Done(o) ==> made(f, d.results, id, o) && !d.stack.contains(id),
    ensures
        on_course(f, d),
        keeps(c, d),
{
    put_keeps_keyed(c.results, id, r);
    assert forall|x: Seq<char>| #[trigger] is_done(c, x) implies get(d.results, x) == get(c.results, x) by {
        get_of_put(c.results, id, r, x);
    }
    assert forall|y: Seq<char>| #[trigger] d.stack.contains(y) implies existing(f, y) is None && !is_done(d, y) by {
        get_of_put(c.results, id, r, y);
        assert(c.stack.contains(y));
    }
    assert forall|y: Seq<char>| #[trigger] is_done(d, y) implies made(
        f,
        d.results,
        y,
        get(d.results, y)->0->Done_0,
    ) by {
        get_of_put(c.results, id, r, y);
        if y != id {
            assert(is_done(c, y));
            lemma_still_made(e, c, f, d, y);
        }
    }
}

proof fn lemma_same_results(e: EngineModel, c: CtxModel, f: EngineModel, d: CtxModel)
    requires
        on_course(e, c),
        goes_on(e, f),
        d.results == c.results,
        forall|y: Seq<char>| #[trigger] d.stack.contains(y) ==> c.stack.contains(y),
    ensures
        on_course(f, d),
        keeps(c, d),
{
    assert forall|y: Seq<char>| #[trigger] d.stack.contains(y) implies existing(f, y) is None && !is_done(d, y) by {
        assert(c.stack.contains(y));
    }
    assert forall|y: Seq<char>| #[trigger] is_done(d, y) implies made(
        f,
        d.results,
        y,
        get(d.results, y)->0->Done_0,
    ) by {
        assert(is_done(c, y));
        lemma_still_made(e, c, f, d, y);
    }
}

proof fn lemma_charge(e: EngineModel, c: CtxModel, id: Seq<char>, bytes: u64)
    ensures
        ({
            let (d, p) = charged_slot(e, c, id, bytes);
            &&& d == CtxModel { local_charge: d.local_charge, counted: d.counted, ..c }
            &&& p is None ==> bytes <= e.budget.single_cap
            &&& e.budget.total_bytes < u64::MAX && spent(c) <= e.budget.total_bytes ==> spent(d)
                <= e.budget.total_bytes
        }),
{
}

proof fn lemma_entry_with(v: Seq<EntryModel>, offset: u64)
    ensures
        entry_with(v, offset) matches Some(x) ==> exists|i: int|
            0 <= i < v.len() && #[trigger] v[i] == x && v[i].offset == offset && forall|j: int|
                0 <= j < i ==> (#[trigger] v[j]).offset != offset,
    decreases v.len(),
{
    if v.len() > 0 {
        if v[0].offset == offset {
            assert(v[0] == entry_with(v, offset)->0);
        } else if let Some(x) = entry_with(v.skip(1), offset) {
            let t = v.skip(1);
            lemma_entry_with(t, offset);
            let i = choose|i: int|
                0 <= i < t.len() && #[trigger] t[i] == x && t[i].offset == offset && forall|j: int|
                    0 <= j < i ==> (#[trigger] t[j]).offset != offset;
            assert(v[i + 1] == t[i]);
            assert forall|j: int| 0 <= j < i + 1 implies (#[trigger] v[j]).offset != offset by {
                if j > 0 {
                    assert(t[j - 1] == v[j]);
                }
            }
        }
    }
}

proof fn lemma_node_bytes(e: EngineModel, n: NodeModel)
    ensures
        get(e.packs, n.source_id) matches Some(p) ==> (entry_with(p.entries, offset_of(n)) matches Some(x) ==> (
        x.inflated matches Ok(d) ==> node_bytes(e, n, d))),
{
    if let Some(p) = get(e.packs, n.source_id) {
        lemma_entry_with(p.entries, offset_of(n));
        if let Some(x) = entry_with(p.entries, offset_of(n)) {
            let i = choose|i: int|
                0 <= i < p.entries.len() && #[trigger] p.entries[i] == x && p.entries[i].offset == offset_of(n)
                    && forall|j: int| 0 <= j < i ==> (#[trigger] p.entries[j]).offset != offset_of(n);
            assert(p.entries[i].offset == offset_of(n));
        }
    }
}

/// What a visit keeps, and what it leaves.
spec fn visit_holds(e: EngineModel, c: CtxModel, id: Seq<char>, v: (EngineModel, CtxModel, ResModel)) -> bool {
    &&& goes_on(e, v.0)
    &&& keeps(c, v.1)
    &&& v.1.stack == c.stack
    &&& v.1.charged_total == c.charged_total
    &&& on_course(v.0, v.1)
    &&& v.2 is Done ==> has_key(v.1.results, id)
    &&& e.budget.total_bytes < u64::MAX && spent(c) <= e.budget.total_bytes ==> spent(v.1) <= e.budget.total_bytes
}

proof fn lemma_goes_on(e: EngineModel, f: EngineModel, g: EngineModel)
    requires
        goes_on(e, f),
        goes_on(f, g),
    ensures
        goes_on(e, g),
{
    assert forall|x: Seq<char>, oid: Seq<u8>| #[trigger] finds(e, x, oid, e.found.len() as int) implies finds(
        g,
        x,
        oid,
        g.found.len() as int,
    ) by {
        assert(finds(f, x, oid, f.found.len() as int));
    }
}

/// The work on a node ends: `x` is what it leads to, from a course `d` on which the node is open.
proof fn lemma_finish(
    e: EngineModel,
    c: CtxModel,
    id: Seq<char>,
    f: EngineModel,
    d: CtxModel,
    x: (EngineModel, CtxModel, ResModel),
)
    requires
        goes_on(e, f),
        keeps(c, d),
        on_course(f, d),
        d.stack == c.stack.push(id),
        d.charged_total == c.charged_total,
        !c.stack.contains(id),
        goes_on(f, x.0),
        x.1.stack == d.stack,
        x.1.charged_total == d.charged_total,
        x.2 is Done ==> get(x.1.results, id) is Some && get(x.1.results, id)->0 is Done && x.1.results == put(
            d.results,
            id,
            get(x.1.results, id)->0,
        ) && made(x.0, x.1.results, id, get(x.1.results, id)->0->Done_0),
        !(x.2 is Done) ==> x.1.results == d.results,
        e.budget.total_bytes < u64::MAX && spent(c) <= e.budget.total_bytes ==> spent(x.1) <= e.budget.total_bytes,
    ensures
        visit_holds(e, c, id, remembered(x, id)),
{
    let v = remembered(x, id);
    assert(d.stack.contains(id)) by {
        assert(d.stack[c.stack.len() as int] == id);
    }
    assert(x.1.stack.drop_last() =~= c.stack);
    assert forall|y: Seq<char>| #[trigger] c.stack.contains(y) implies d.stack.contains(y) by {
        let k = choose|k: int| 0 <= k < c.stack.len() && c.stack[k] == y;
        assert(d.stack[k] == y);
    }
    lemma_goes_on(e, f, x.0);
    match x.2 {
        ResModel::Done => {
            lemma_course(f, d, v.0, v.1, id, get(x.1.results, id)->0);
        },
        ResModel::Fail(k, m) => {
            lemma_course(f, d, v.0, v.1, id, RunModel::Failed(k, m));
            get_of_put(d.results, id, RunModel::Failed(k, m), id);
        },
        ResModel::Pause(k, m, t) => {
            lemma_same_results(f, d, v.0, v.1);
        },
    }
    assert forall|y: Seq<char>| #[trigger] is_done(c, y) implies get(v.1.results, y) == get(c.results, y) by {
        assert(get(d.results, y) == get(c.results, y));
        assert(is_done(d, y));
    }
}

proof fn lemma_kind(t: Seq<char>)
    ensures
        kind_named(t) matches Some(k) ==> k.text() == t,
{
}

proof fn lemma_opened(e: EngineModel, c: CtxModel, id: Seq<char>, depth: nat)
    requires
        on_course(e, c),
        at_once(e, c, id, depth) is None,
    ensures
        on_course(e, (CtxModel { stack: c.stack.push(id), ..c })),
        !c.stack.contains(id),
        existing(e, id) is None,
        !is_done(c, id),
        depth < e.budget.max_depth,
        goes_on(e, e),
{
    let d = CtxModel { stack: c.stack.push(id), ..c };
    assert forall|y: Seq<char>| #[trigger] d.stack.contains(y) implies existing(e, y) is None && !is_done(d, y) by {
        let k = choose|k: int| 0 <= k < d.stack.len() && d.stack[k] == y;
        if k < c.stack.len() {
            assert(c.stack[k] == y);
            assert(c.stack.contains(y));
            assert(!is_done(c, y));
        }
    }
    assert forall|y: Seq<char>| #[trigger] is_done(d, y) implies made(
        e,
        d.results,
        y,
        get(d.results, y)->0->Done_0,
    ) by {
        assert(is_done(c, y));
    }
}

proof fn lemma_loose(e: EngineModel, c: CtxModel, id: Seq<char>, depth: nat)
    requires
        on_course(e, c),
        at_once(e, c, id, depth) is None,
        (get(e.nodes, id)->0).node_kind == "loose"@,
    ensures
        visit_holds(
            e,
            c,
            id,
            remembered(loose_read(e, (CtxModel { stack: c.stack.push(id), ..c }), id, depth), id),
        ),
{
    lemma_opened(e, c, id, depth);
    let d = CtxModel { stack: c.stack.push(id), ..c };
    let x = loose_read(e, d, id, depth);
    let source = (get(e.nodes, id)->0).source_id;
    if let Some(l) = get(e.looses, source) {
        if let Ok(data) = l.content {
            lemma_charge(e, d, id, data.len() as u64);
            if x.2 is Done {
                let c1 = charged_slot(e, d, id, data.len() as u64).0;
                let o = OutModel {
                    kind: l.kind,
                    oid: sha1_of(object_frame(l.kind.text(), data)),
                    data,
                    depth,
                    chain_bytes: data.len() as u64,
                    steps: Seq::empty(),
                };
                get_of_put(c1.results, id, RunModel::Done(o), id);
                let e1 = EngineModel { evidence: x.0.evidence, ..e };
                lemma_found(e1, id, o.oid);
                assert(goes_on(e, e1)) by {
                    assert forall|y: Seq<char>, oid: Seq<u8>| #[trigger]
                        finds(e, y, oid, e.found.len() as int) implies finds(e1, y, oid, e1.found.len() as int) by {
                        let i = choose|i: int|
                            0 <= i < e.found.len() && (#[trigger] e.found[i]).0 == y && e.found[i].1.contains(oid);
                        assert(e1.found[i].0 == y);
                    }
                }
                lemma_goes_on(e, e1, x.0);
                assert(made(x.0, x.1.results, id, o));
            }
        }
    }
    lemma_finish(e, c, id, e, d, x);
}

proof fn lemma_whole(e: EngineModel, c: CtxModel, id: Seq<char>, depth: nat)
    requires
        on_course(e, c),
        at_once(e, c, id, depth) is None,
        (get(e.nodes, id)->0).node_kind != "loose"@,
        (get(e.nodes, id)->0).object_type != "ofs-delta"@,
        (get(e.nodes, id)->0).object_type != "ref-delta"@,
    ensures
        visit_holds(
            e,
            c,
            id,
            remembered(base_read(e, (CtxModel { stack: c.stack.push(id), ..c }), id, depth), id),
        ),
{
    lemma_opened(e, c, id, depth);
    let d = CtxModel { stack: c.stack.push(id), ..c };
    let x = base_read(e, d, id, depth);
    let n = get(e.nodes, id)->0;
    lemma_charge(e, d, id, n.declared_size);
    lemma_node_bytes(e, n);
    if x.2 is Done {
        lemma_kind(n.object_type);
        let kind = kind_named(n.object_type)->0;
        let data = entry_with((get(e.packs, n.source_id)->0).entries, offset_of(n))->0.inflated->Ok_0;
        let c1 = charged_slot(e, d, id, n.declared_size).0;
        let o = OutModel {
            kind,
            oid: sha1_of(object_frame(kind.text(), data)),
            data,
            depth,
            chain_bytes: n.declared_size,
            steps: Seq::empty(),
        };
        get_of_put(c1.results, id, RunModel::Done(o), id);
        lemma_found(e, id, o.oid);
        assert(node_bytes(e, n, data));
        assert(node_bytes(x.0, n, data));
        assert(made(x.0, x.1.results, id, o));
    }
    lemma_finish(e, c, id, e, d, x);
}

proof fn lemma_noted(e: EngineModel, f: EngineModel)
    requires
        f == (EngineModel { evidence: f.evidence, edges: f.edges, missing_edges: f.missing_edges, ..e }),
    ensures
        goes_on(e, f),
{
    assert forall|y: Seq<char>, oid: Seq<u8>| #[trigger] finds(e, y, oid, e.found.len() as int) implies finds(
        f,
        y,
        oid,
        f.found.len() as int,
    ) by {
        let i = choose|i: int|
            0 <= i < e.found.len() && (#[trigger] e.found[i]).0 == y && e.found[i].1.contains(oid);
        assert(f.found[i].0 == y);
    }
}

/// The base that is worked on is one that the delta names.
proof fn lemma_task(e: EngineModel, id: Seq<char>)
    requires
        (get(e.nodes, id)->0).object_type == "ofs-delta"@ || (get(e.nodes, id)->0).object_type == "ref-delta"@,
    ensures
        ({
            let n = get(e.nodes, id)->0;
            let task = if n.object_type == "ofs-delta"@ {
                ofs_task(e, id)
            } else {
                ref_task(e, id)
            };
            match task {
                Task::Base(f, b) => goes_on(e, f) && is_node_base(e, n, b),
                Task::Answer(f, r) => goes_on(e, f) && !(r is Done),
            }
        }),
{
    reveal_strlit("ofs-delta");
    reveal_strlit("ref-delta");
    assert("ofs-delta"@[0] == 'o' && "ref-delta"@[0] == 'r');
    let n = get(e.nodes, id)->0;
    if n.object_type == "ofs-delta"@ {
        match ofs_task(e, id) {
            Task::Base(f, b) => {
                lemma_noted(e, f);
            },
            Task::Answer(f, r) => {
                lemma_noted(e, f);
            },
        }
    } else {
        let oid = id_of_hex(ref_of(n));
        let v = offers(e, oid);
        offers_come_in_order(e, oid);
        match ref_task(e, id) {
            Task::Base(f, b) => {
                lemma_noted(e, f);
                assert(v[0].node == b);
                assert(offered(v, b));
                if claims(e, b, oid, e.claimed.len() as int) {
                    let i = choose|i: int|
                        0 <= i < e.claimed.len() && (#[trigger] e.claimed[i]).0 == b && e.claimed[i].1.oid == oid;
                    assert(e.claimed[i].0 == b);
                } else {
                    let i = choose|i: int|
                        0 <= i < e.found.len() && (#[trigger] e.found[i]).0 == b && e.found[i].1.contains(oid);
                    assert(e.found[i].0 == b);
                }
            },
            Task::Answer(f, r) => {
                lemma_noted(e, f);
            },
        }
    }
}

proof fn lemma_base_stays(e: EngineModel, f: EngineModel, n: NodeModel, b: Seq<char>)
    requires
        goes_on(e, f),
        is_node_base(e, n, b),
    ensures
        is_node_base(f, n, b),
{
    if n.object_type == "ref-delta"@ {
        let oid = id_of_hex(ref_of(n));
        if claims(e, b, oid, e.claimed.len() as int) {
            assert(claims(f, b, oid, f.claimed.len() as int));
        } else {
            assert(finds(e, b, oid, e.found.len() as int));
            assert(finds(f, b, oid, f.found.len() as int));
        }
    }
}

/// A delta is worked on after its base.
proof fn lemma_delta(e: EngineModel, c: CtxModel, id: Seq<char>, depth: nat, f: EngineModel, d: CtxModel, r: ResModel, b: Seq<char>)
    requires
        on_course(e, c),
        at_once(e, c, id, depth) is None,
        (get(e.nodes, id)->0).node_kind != "loose"@,
        (get(e.nodes, id)->0).object_type == "ofs-delta"@ || (get(e.nodes, id)->0).object_type == "ref-delta"@,
        is_node_base(e, get(e.nodes, id)->0, b),
        visit_holds(e, (CtxModel { stack: c.stack.push(id), ..c }), b, (f, d, r)),
    ensures
        visit_holds(e, c, id, remembered(after_base(f, d, r, id, b, depth), id)),
{
    lemma_opened(e, c, id, depth);
    let n = get(e.nodes, id)->0;
    let c1 = CtxModel { stack: c.stack.push(id), ..c };
    let x = after_base(f, d, r, id, b, depth);
    assert(keeps(c, d)) by {
        assert forall|y: Seq<char>| #[trigger] is_done(c, y) implies get(d.results, y) == get(c.results, y) by {
            assert(is_done(c1, y));
        }
    }
    assert(d.stack.contains(id)) by {
        assert(d.stack[c.stack.len() as int] == id);
    }
    lemma_noted(f, f);
    if r is Done && base_outcome(f, d, b) is Ok {
        let (d1, o) = base_outcome(f, d, b)->Ok_0;
        assert(existing(f, id) is None && !is_done(d, id));
        if get(d.results, b) is None {
            assert(b != id);
            assert(!d.stack.contains(b));
            get_of_put(d.results, b, RunModel::Done(o), b);
            get_of_put(d.results, b, RunModel::Done(o), id);
            assert(made(f, d1.results, b, o));
            lemma_course(f, d, f, d1, b, RunModel::Done(o));
        } else {
            assert(d1 == d);
            assert(is_done(d, b));
        }
        assert(b != id);
        assert(is_done(d1, b) && get(d1.results, b)->0->Done_0 == o);
        assert(on_course(f, d1));
        assert(keeps(c, d1)) by {
            assert forall|y: Seq<char>| #[trigger] is_done(c, y) implies get(d1.results, y) == get(c.results, y) by {
                assert(is_done(d, y));
            }
        }
        if let Ok(delta) = delta_of(f, n) {
            lemma_node_bytes(f, n);
            assert(node_bytes(f, n, delta));
            let left = reach(remaining(f, d1));
            if let Ok(h) = header_of(delta) {
                match applied(o.data, delta, reach(f.budget.single_cap), left) {
                    Ok((out, cmds, z)) => {
                        lemma_charge(f, d1, id, out.len() as u64);
                        if x.2 is Done {
                            let c2 = charged_slot(f, d1, id, out.len() as u64).0;
                            let made_o = get(x.1.results, id)->0->Done_0;
                            let e1 = EngineModel { evidence: x.0.evidence, ..f };
                            lemma_noted(f, e1);
                            lemma_found(e1, id, sha1_of(object_frame(o.kind.text(), out)));
                            lemma_goes_on(f, e1, x.0);
                            assert forall|q: RunModel| get(#[trigger] put(c2.results, id, q), id) == Some(q) by {
                                get_of_put(c2.results, id, q, id);
                            }
                            assert forall|q: RunModel| get(#[trigger] put(c2.results, id, q), b) == get(c2.results, b) by {
                                get_of_put(c2.results, id, q, b);
                            }
                            assert(made_o.data == out);
                            assert(node_bytes(x.0, n, delta));
                            assert(applied(o.data, delta, reach(x.0.budget.single_cap), left) is Ok);
                            lemma_goes_on(e, f, x.0);
                            lemma_base_stays(e, x.0, n, b);
                            assert(made_from(x.0, x.1.results, n, b, made_o));
                            assert(made(x.0, x.1.results, id, made_o));
                        } else {
                            lemma_noted(f, x.0);
                        }
                    },
                    Err(t) => {
                        lemma_noted(f, x.0);
                    },
                }
            } else {
                lemma_noted(f, x.0);
            }
        } else {
            lemma_noted(f, x.0);
        }
        lemma_finish(e, c, id, f, d1, x);
    } else {
        lemma_noted(f, x.0);
        lemma_finish(e, c, id, f, d, x);
    }
}

proof fn lemma_visit(e: EngineModel, c: CtxModel, id: Seq<char>, depth: nat)
    requires
        on_course(e, c),
    ensures
        visit_holds(e, c, id, visited(e, c, id, depth)),
    decreases e.budget.max_depth - depth,
{
    let v = visited(e, c, id, depth);
    lemma_noted(e, e);
    match at_once(e, c, id, depth) {
        Some(x) => {
            lemma_noted(e, x.0);
            if existing(e, id) is Some {
                if !has_key(c.results, id) {
                    let o = existing(e, id)->0;
                    get_of_put(c.results, id, RunModel::Done(o), id);
                    assert(made(e, x.1.results, id, o));
                    lemma_course(e, c, x.0, x.1, id, RunModel::Done(o));
                } else {
                    lemma_same_results(e, c, x.0, x.1);
                }
            } else if has_key(c.results, id) || has_key(c.paused, id) {
                lemma_same_results(e, c, x.0, x.1);
            } else if x.2 is Pause {
                lemma_same_results(e, c, x.0, x.1);
            } else {
                let r = get(x.1.results, id)->0;
                assert forall|q: RunModel| get(#[trigger] put(c.results, id, q), id) == Some(q) by {
                    get_of_put(c.results, id, q, id);
                }
                lemma_course(e, c, x.0, x.1, id, r);
            }
        },
        None => {
            let n = get(e.nodes, id)->0;
            let c1 = CtxModel { stack: c.stack.push(id), ..c };
            lemma_opened(e, c, id, depth);
            if n.node_kind == "loose"@ {
                lemma_loose(e, c, id, depth);
            } else if n.object_type == "ofs-delta"@ || n.object_type == "ref-delta"@ {
                lemma_task(e, id);
                let task = if n.object_type == "ofs-delta"@ {
                    ofs_task(e, id)
                } else {
                    ref_task(e, id)
                };
                match task {
                    Task::Answer(f, r) => {
                        lemma_finish(e, c, id, e, c1, (f, c1, r));
                    },
                    Task::Base(f, b) => {
                        assert(on_course(f, c1)) by {
                            lemma_same_results(e, c1, f, c1);
                        }
                        lemma_visit(f, c1, b, depth + 1);
                        let w = visited(f, c1, b, depth + 1);
                        lemma_goes_on(e, f, w.0);
                        lemma_delta(e, c, id, depth, w.0, w.1, w.2, b);
                    },
                }
            } else {
                lemma_whole(e, c, id, depth);
            }
        },
    }
}

proof fn lemma_all_visited(e: EngineModel, c: CtxModel, ids: Seq<Seq<char>>, only: Option<Set<Seq<char>>>, n: nat)
    requires
        on_course(e, c),
    ensures
        ({
            let v = all_visited(e, c, ids, only, n);
            &&& goes_on(e, v.0)
            &&& on_course(v.0, v.1)
            &&& e.budget.total_bytes < u64::MAX && spent(c) <= e.budget.total_bytes ==> spent(v.1)
                <= e.budget.total_bytes
        }),
    decreases n,
{
    if n == 0 {
        lemma_noted(e, e);
    } else {
        lemma_all_visited(e, c, ids, only, (n - 1) as nat);
        let v = all_visited(e, c, ids, only, (n - 1) as nat);
        if in_run(only, ids[n - 1]) {
            lemma_visit(v.0, v.1, ids[n - 1], 0);
            lemma_goes_on(e, v.0, visited(v.0, v.1, ids[n - 1], 0).0);
        }
    }
}

/// The node shows what a run made of it.
spec fn shows(p: EngineModel, id: Seq<char>, o: OutModel) -> bool {
    &&& get(p.contents, id) == Some(o.data)
    &&& get(p.nodes, id) matches Some(n) && n.state is Resolved && n.state->object_type == o.kind.text()
        && n.state->Resolved_size == o.data.len() as u64 && n.state->oid == hex(
        sha1_of(object_frame(o.kind.text(), o.data)),
    ) && n.state->depth == o.depth && n.state->oid_expected == n.idx_oid && (n.state->oid_match <==> (n.idx_oid
        is None || n.idx_oid == Some(n.state->oid)))
}

proof fn lemma_more_found(e: EngineModel, id: Seq<char>, oid: Seq<u8>, x: Seq<char>, o: Seq<u8>)
    requires
        finds(e, x, o, e.found.len() as int),
    ensures
        finds(more_found(e, id, oid), x, o, more_found(e, id, oid).found.len() as int),
{
    let f = more_found(e, id, oid);
    let v = match get(e.found, id) {
        Some(v) => v,
        None => Seq::empty(),
    };
    lemma_row(e.found, id);
    let i = choose|i: int| 0 <= i < e.found.len() && (#[trigger] e.found[i]).0 == x && e.found[i].1.contains(o);
    if has_key(e.found, id) && i == row_of(e.found, id) as int {
        assert(f.found[i] == (id, v.push(oid)));
        let k = choose|k: int| 0 <= k < v.len() && v[k] == o;
        assert(v.push(oid)[k] == o);
        assert(f.found[i].0 == x);
    } else {
        assert(f.found[i] == e.found[i]);
    }
}

proof fn lemma_published(f: EngineModel, rows: Seq<(Seq<char>, RunModel)>, n: nat, x: Seq<char>)
    requires
        keyed(rows),
        n <= rows.len(),
    ensures
        ({
            let p = all_published(f, rows, n);
            &&& p == EngineModel {
                nodes: p.nodes,
                contents: p.contents,
                evidence: p.evidence,
                found: p.found,
                charged: p.charged,
                charged_total: p.charged_total,
                recomputed_nodes: p.recomputed_nodes,
                ..f
            }
            &&& get(p.nodes, x) is Some <==> get(f.nodes, x) is Some
            &&& get(f.nodes, x) is Some ==> get(p.nodes, x)->0 == (NodeModel {
                state: (get(p.nodes, x)->0).state,
                ..get(f.nodes, x)->0
            })
            &&& row_of(rows, x) >= n ==> get(p.nodes, x) == get(f.nodes, x) && get(p.contents, x) == get(f.contents, x)
            &&& row_of(rows, x) < n && get(f.nodes, x) is Some ==> match rows[row_of(rows, x) as int].1 {
                RunModel::Done(o) => shows(p, x, o),
                RunModel::Failed(..) => !((get(p.nodes, x)->0).state is Resolved),
            }
            &&& forall|oid: Seq<u8>| #[trigger]
                finds(f, x, oid, f.found.len() as int) ==> finds(p, x, oid, p.found.len() as int)
        }),
    decreases n,
{
    if n > 0 {
        lemma_published(f, rows, (n - 1) as nat, x);
        let q = all_published(f, rows, (n - 1) as nat);
        let p = all_published(f, rows, n);
        let id = rows[n - 1].0;
        let r = rows[n - 1].1;
        lemma_row(rows, x);
        lemma_row(rows, id);
        assert(row_of(rows, id) == n - 1);
        if has_key(q.nodes, id) {
            let node = get(q.nodes, id)->0;
            match r {
                RunModel::Done(o) => {
                    let oid = sha1_of(object_frame(o.kind.text(), o.data));
                    let state = StateModel::Resolved {
                        object_type: o.kind.text(),
                        size: o.data.len() as u64,
                        oid: hex(oid),
                        oid_expected: node.idx_oid,
                        oid_match: node.idx_oid is None || node.idx_oid == Some(hex(oid)),
                        depth: o.depth,
                        chain_bytes: o.chain_bytes,
                        steps: o.steps,
                    };
                    assert(p.contents == put(q.contents, id, o.data));
                    assert(p.nodes == put(q.nodes, id, NodeModel { state, ..node }));
                    get_of_put(q.contents, id, o.data, x);
                    get_of_put(q.nodes, id, NodeModel { state, ..node }, x);
                    assert forall|w: Seq<u8>| #[trigger] finds(f, x, w, f.found.len() as int) implies finds(
                        p,
                        x,
                        w,
                        p.found.len() as int,
                    ) by {
                        lemma_more_found(q, id, oid, x, w);
                        let m = more_found(q, id, oid);
                        assert(m.found == p.found);
                        let i = choose|i: int|
                            0 <= i < m.found.len() && (#[trigger] m.found[i]).0 == x && m.found[i].1.contains(w);
                        assert(p.found[i].0 == x);
                    }
                },
                RunModel::Failed(k, m) => {
                    let state = StateModel::Failed { fail: k, message: m, blocker_chain: blocker_chain_of(q, id) };
                    assert(p.nodes == put(q.nodes, id, NodeModel { state, ..node }));
                    get_of_put(q.nodes, id, NodeModel { state, ..node }, x);
                    assert(p.found == q.found);
                    assert forall|w: Seq<u8>| #[trigger] finds(f, x, w, f.found.len() as int) implies finds(
                        p,
                        x,
                        w,
                        p.found.len() as int,
                    ) by {
                        assert(finds(q, x, w, q.found.len() as int));
                    }
                },
            }
        }
    }
}

proof fn lemma_pauses(p: EngineModel, rows: Seq<(Seq<char>, PauseModel)>, n: nat)
    ensures
        pauses_published(p, rows, n) == (EngineModel { nodes: pauses_published(p, rows, n).nodes, ..p }),
    decreases n,
{
    if n > 0 {
        lemma_pauses(p, rows, (n - 1) as nat);
    }
}

/// The content of node `id` is what its delta makes of the content of node `b`, and has the type of
/// the object there.
pub open spec fn stands_on(w: EngineModel, id: Seq<char>, b: Seq<char>) -> bool {
    let n = get(w.nodes, id)->0;
    let base = get(w.nodes, b)->0;
    &&& is_node_base(w, n, b)
    &&& base.state is Resolved
    &&& get(w.contents, b) is Some
    &&& n.state->object_type == base.state->object_type
    &&& exists|d: Seq<u8>, left: nat|
        node_bytes(w, n, d) && (#[trigger] applied(get(w.contents, b)->0, d, reach(w.budget.single_cap), left)) is Ok
            && (applied(get(w.contents, b)->0, d, reach(w.budget.single_cap), left)->Ok_0).0 == get(
            w.contents,
            id,
        )->0
}

proof fn lemma_seen_delta(
    f: EngineModel,
    c: CtxModel,
    p: EngineModel,
    w: EngineModel,
    id: Seq<char>,
    o: OutModel,
)
    requires
        keyed(c.results),
        p == all_published(f, c.results, c.results.len()),
        w == pauses_published(p, c.paused, c.paused.len()),
        get(f.nodes, id) is Some,
        get(w.nodes, id) is Some,
        get(w.nodes, id)->0 == (NodeModel { state: (get(w.nodes, id)->0).state, ..get(f.nodes, id)->0 }),
        (get(w.nodes, id)->0).state->object_type == o.kind.text(),
        get(w.contents, id) == Some(o.data),
        exists|b: Seq<char>| #[trigger] made_from(f, c.results, get(f.nodes, id)->0, b, o),
    ensures
        exists|b: Seq<char>| #[trigger] stands_on(w, id, b),
{
    let rows = c.results;
    let n0 = get(f.nodes, id)->0;
    let n = get(w.nodes, id)->0;
    let b = choose|b: Seq<char>| #[trigger] made_from(f, rows, n0, b, o);
    lemma_published(f, rows, rows.len(), b);
    pauses_keep_objects(p, c.paused, c.paused.len(), b);
    lemma_pauses(p, c.paused, c.paused.len());
    lemma_row(rows, b);
    let base = get(rows, b)->0->Done_0;
    assert(shows(p, b, base));
    let (d, left) = choose|d: Seq<u8>, left: nat|
        node_bytes(f, n0, d) && (#[trigger] applied(base.data, d, reach(f.budget.single_cap), left)) is Ok && (
        applied(base.data, d, reach(f.budget.single_cap), left)->Ok_0).0 == o.data;
    assert(node_bytes(w, n, d));
    assert(applied(get(w.contents, b)->0, d, reach(w.budget.single_cap), left) is Ok);
    if n.object_type == "ref-delta"@ {
        let want = id_of_hex(ref_of(n));
        if claims(f, b, want, f.claimed.len() as int) {
            assert(claims(w, b, want, w.claimed.len() as int));
        } else {
            assert(finds(f, b, want, f.found.len() as int));
            assert(finds(p, b, want, p.found.len() as int));
            assert(finds(w, b, want, w.found.len() as int));
        }
    }
    assert(is_node_base(w, n, b));
    assert(stands_on(w, id, b));
}

#[verifier::rlimit(40)]
proof fn lemma_seen(
    f: EngineModel,
    c: CtxModel,
    p: EngineModel,
    w: EngineModel,
    id: Seq<char>,
)
    requires
        on_course(f, c),
        p == all_published(f, c.results, c.results.len()),
        w == pauses_published(p, c.paused, c.paused.len()),
        get(f.nodes, id) is Some,
        !((get(f.nodes, id)->0).state is Resolved),
        get(w.nodes, id) is Some,
        (get(w.nodes, id)->0).state is Resolved,
    ensures
        ({
            let n = get(w.nodes, id)->0;
            let d = get(w.contents, id)->0;
            &&& n == NodeModel { state: n.state, ..get(f.nodes, id)->0 }
            &&& get(w.contents, id) is Some
            &&& n.state->oid == hex(sha1_of(object_frame(n.state->object_type, d)))
            &&& n.state->Resolved_size == d.len() as u64
            &&& n.state->oid_match <==> (n.idx_oid is None || n.idx_oid == Some(n.state->oid))
            &&& n.state->depth < w.budget.max_depth
            &&& if n.node_kind == "loose"@ {
                get(w.looses, n.source_id) matches Some(l) && l.content == Ok::<Seq<u8>, Seq<char>>(d)
                    && n.state->object_type == l.kind.text() && d.len() as u64 <= w.budget.single_cap
            } else if n.object_type == "ofs-delta"@ || n.object_type == "ref-delta"@ {
                &&& d.len() == n.declared_size
                &&& d.len() <= w.budget.single_cap
                &&& exists|b: Seq<char>| #[trigger] stands_on(w, id, b)
            } else {
                &&& n.state->object_type == n.object_type
                &&& node_bytes(w, n, d)
                &&& n.declared_size <= w.budget.single_cap
            }
        }),
{
    let rows = c.results;
    lemma_published(f, rows, rows.len(), id);
    pauses_keep_objects(p, c.paused, c.paused.len(), id);
    lemma_pauses(p, c.paused, c.paused.len());
    lemma_row(rows, id);
    let o = rows[row_of(rows, id) as int].1->Done_0;
    assert(is_done(c, id));
    assert(made(f, rows, id, o));
    assert(shows(p, id, o));
    assert(existing(f, id) is None);
    let n0 = get(f.nodes, id)->0;
    let n = get(w.nodes, id)->0;
    if n.node_kind != "loose"@ {
        if n.object_type == "ofs-delta"@ || n.object_type == "ref-delta"@ {
            lemma_seen_delta(f, c, p, w, id, o);
        } else {
            assert(node_bytes(f, n0, o.data));
            assert(node_bytes(w, n, o.data));
        }
    }
}

/// What a run makes of a node that held no object: its id is the hash of the content under the
/// header of its type; the content is that of the file for a loose object, what the pack holds for
/// a whole one, and for a delta what it makes of the content of a base that it names, whose type it
/// takes. None is larger than the allowance for a single object or deeper than the budget has it.
pub proof fn what_a_run_makes(e: EngineModel, only: Option<Set<Seq<char>>>, id: Seq<char>)
    requires
        get(e.nodes, id) is Some,
        !((get(e.nodes, id)->0).state is Resolved),
        get(resolved_all(e, only).nodes, id) is Some,
        (get(resolved_all(e, only).nodes, id)->0).state is Resolved,
    ensures
        ({
            let w = resolved_all(e, only);
            let n = get(w.nodes, id)->0;
            let d = get(w.contents, id)->0;
            &&& n == NodeModel { state: n.state, ..get(e.nodes, id)->0 }
            &&& w.packs == e.packs && w.looses == e.looses && w.claimed == e.claimed && w.budget == e.budget
            &&& get(w.contents, id) is Some
            &&& n.state->oid == hex(sha1_of(object_frame(n.state->object_type, d)))
            &&& n.state->Resolved_size == d.len() as u64
            &&& n.state->oid_match <==> (n.idx_oid is None || n.idx_oid == Some(n.state->oid))
            &&& n.state->depth < w.budget.max_depth
            &&& if n.node_kind == "loose"@ {
                get(w.looses, n.source_id) matches Some(l) && l.content == Ok::<Seq<u8>, Seq<char>>(d)
                    && n.state->object_type == l.kind.text() && d.len() as u64 <= w.budget.single_cap
            } else if n.object_type == "ofs-delta"@ || n.object_type == "ref-delta"@ {
                &&& d.len() == n.declared_size
                &&& d.len() <= w.budget.single_cap
                &&& exists|b: Seq<char>| #[trigger] stands_on(w, id, b)
            } else {
                &&& n.state->object_type == n.object_type
                &&& node_bytes(w, n, d)
                &&& n.declared_size <= w.budget.single_cap
            }
        }),
{
    let e0 = EngineModel { recompute_runs: capped(e.recompute_runs + 1), ..e };
    let ids = sorted_texts(node_ids(e));
    let c = fresh_run(e);
    assert(on_course(e0, c)) by {
        assert forall|y: Seq<char>| !is_done(c, y) by {
            lemma_row(c.results, y);
        }
    }
    lemma_all_visited(e0, c, ids, only, ids.len());
    let v = all_visited(e0, c, ids, only, ids.len());
    let p = all_published(v.0, v.1.results, v.1.results.len());
    lemma_seen(v.0, v.1, p, resolved_all(e, only), id);
    lemma_published(v.0, v.1.results, v.1.results.len(), id);
    lemma_pauses(p, v.1.paused, v.1.paused.len());
}

/// A delta that names its base by an id goes to the node that the user pinned to the id, if that
/// node claims it or was found to have it, and an edge to it is recorded.
pub proof fn a_pinned_base_is_used(e: EngineModel, id: Seq<char>, oid: Seq<u8>, b: Seq<char>)
    requires
        get(e.nodes, id) is Some,
        (get(e.nodes, id)->0).ref_base_oid == Some(hex(oid)),
        oid.len() == 20,
        get(e.pins, hex(oid)) == Some(b),
        has_key(e.nodes, b),
        (exists|i: int| 0 <= i < e.claimed.len() && (#[trigger] e.claimed[i]).0 == b && e.claimed[i].1.oid == oid)
            || (exists|i: int|
            0 <= i < e.found.len() && (#[trigger] e.found[i]).0 == b && e.found[i].1.contains(oid)),
    ensures
        ref_task(e, id) is Base,
        ref_task(e, id)->Base_1 == b,
        get(ref_task(e, id)->Base_0.edges, id) matches Some(v) && v.contains(b),
{
    hex_roundtrip(oid);
    assert(hex(oid).len() == 40);
    a_pinned_node_is_offered_first(e, oid, b);
    let v = match get(e.edges, id) {
        Some(v) => v,
        None => Seq::empty(),
    };
    let w = if v.contains(b) {
        v
    } else {
        v.push(b)
    };
    get_of_put(e.edges, id, w, id);
    if !v.contains(b) {
        assert(w[v.len() as int] == b);
    }
}

} // verus!
