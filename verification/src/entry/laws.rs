//! What a reconstruction is for: the object that a chain of deltas makes, its name, and the budgets
//! that bound it.
use vstd::prelude::*;
use crate::delta::{applied, parsed};
use crate::entry::chain::{chain_from, digest_of, entry_at, entry_type, first_candidate, is_candidate, precedes, provider, with_edge};
use crate::entry::inflate::{base_content, loose_base, payload_of};
use crate::git::inflate_run;
use crate::git::loose::declared;
use crate::model::bytes::first_at;
use crate::model::outside::lossy_text;
use crate::model::text::before;
use crate::entry::resolve::{
    all_there, capped, completed, continued, idx_row, index_checked, linked, opened, reconstruction_is_isolated,
    resolved, runs, source_kind, tried_again, twin, Budget, Ended, Link, Work,
};
use crate::entry::rows::{EntryModel, EvidenceModel, FailModel, PartModel, ResModel, RowsModel, StepModel};
use crate::gitobj::ObjType;
use crate::model::assoc::{del, get, get_of_put, has_key, keyed, lemma_row, lemma_row_key, put};
use crate::model::object::object_frame;
use crate::model::outside::sha1_of;
use crate::model::sort::{bytes_less, order_is_total, order_is_transitive};
use crate::model::text::hex;
use vstd::utf8::encode_utf8;

verus! {

/// The names of whole objects.
pub open spec fn is_whole_name(name: Seq<char>) -> bool {
    name == "commit"@ || name == "tree"@ || name == "blob"@ || name == "tag"@
}

proof fn lemma_names()
    ensures
        "commit"@ != "ofs_delta"@ && "commit"@ != "ref_delta"@,
        "tree"@ != "ofs_delta"@ && "tree"@ != "ref_delta"@,
        "blob"@ != "ofs_delta"@ && "blob"@ != "ref_delta"@,
        "tag"@ != "ofs_delta"@ && "tag"@ != "ref_delta"@,
        "ofs_delta"@ != "ref_delta"@ && "tree"@ != "blob"@,
        "commit"@ != "tree"@ && "commit"@ != "blob"@ && "commit"@ != "tag"@,
        "tree"@ != "tag"@ && "blob"@ != "tag"@,
        "ok"@ != "paused"@ && "ok"@ != "blocked"@ && "ok"@ != "error"@,
        "blocked"@ != "error"@ && "paused"@ != "blocked"@ && "paused"@ != "error"@,
        "missing_base"@ != "cycle"@,
{
    reveal_strlit("commit");
    reveal_strlit("tree");
    reveal_strlit("blob");
    reveal_strlit("tag");
    reveal_strlit("ofs_delta");
    reveal_strlit("ref_delta");
    reveal_strlit("ok");
    reveal_strlit("paused");
    reveal_strlit("blocked");
    reveal_strlit("error");
    reveal_strlit("missing_base");
    reveal_strlit("cycle");
    assert("commit"@.len() == 6 && "tree"@.len() == 4 && "blob"@.len() == 4 && "tag"@.len() == 3);
    assert("ofs_delta"@.len() == 9 && "ref_delta"@.len() == 9);
    assert("tree"@[0] == 't' && "blob"@[0] == 'b');
    assert("ofs_delta"@[0] == 'o' && "ref_delta"@[0] == 'r');
    assert("ok"@.len() == 2 && "paused"@.len() == 6 && "blocked"@.len() == 7 && "error"@.len() == 5);
    assert("missing_base"@.len() == 12 && "cycle"@.len() == 5);
}

/// Entry `b` is the base that the delta `e` names: the entry that stands the distance before it in
/// the same source, or one that was reconstructed as the object with the id.
pub open spec fn is_entry_base(w: RowsModel, e: EntryModel, b: i64) -> bool {
    if e.obj_type == "ofs_delta"@ {
        &&& get(w.entries, b) is Some
        &&& exists|i: int|
            0 <= i < w.entries.len() && (#[trigger] w.entries[i]).0 == b && w.entries[i].1.source_id == e.source_id
                && w.entries[i].1.offset == e.offset - match e.ofs_distance {
                Some(d) => d,
                None => 0,
            }
    } else {
        &&& e.obj_type == "ref_delta"@
        &&& get(w.entries, b) is Some
        &&& get(w.resolutions, b) is Some
        &&& get(w.resolutions, b)->0.status == "ok"@
        &&& get(w.resolutions, b)->0.oid == Some(
            match e.ref_base {
                Some(o) => o,
                None => ""@,
            },
        )
    }
}

/// A chain: a whole object first, then deltas, each on the one before it.
pub open spec fn is_chain(w: RowsModel, chain: Seq<i64>) -> bool {
    &&& chain.len() > 0
    &&& forall|i: int| 0 <= i < chain.len() ==> has_key(w.entries, #[trigger] chain[i])
    &&& get(w.entries, chain[0])->0.obj_type != "ofs_delta"@
    &&& get(w.entries, chain[0])->0.obj_type != "ref_delta"@
    &&& forall|i: int|
        0 < i < chain.len() ==> is_entry_base(w, get(w.entries, #[trigger] chain[i])->0, chain[i - 1])
}

/// The delta of entry `e` makes `out` of `base`, and both its header and its entry say so.
pub open spec fn makes(e: EntryModel, cap: u64, base: Seq<u8>, out: Seq<u8>) -> bool {
    &&& payload_of(e, cap) is Ok
    &&& parsed(payload_of(e, cap)->Ok_0) is Ok
    &&& applied(payload_of(e, cap)->Ok_0, parsed(payload_of(e, cap)->Ok_0)->Ok_0, base) matches Ok(x) && x.0 == out
    &&& out.len() == e.declared_size
}

/// The contents along a chain: each delta makes the next of the one before it.
pub open spec fn unfolds(w: RowsModel, chain: Seq<i64>, contents: Seq<Seq<u8>>, cap: u64) -> bool {
    forall|i: int|
        0 < i < contents.len() ==> makes(get(w.entries, chain[i])->0, cap, contents[i - 1], #[trigger] contents[i])
}

/// The bytes of all contents.
pub open spec fn total(contents: Seq<Seq<u8>>) -> nat
    decreases contents.len(),
{
    if contents.len() == 0 {
        0
    } else {
        total(contents.drop_last()) + contents.last().len()
    }
}

/// No content is larger than the ratio to the one before it allows.
pub open spec fn in_ratio(contents: Seq<Seq<u8>>, budget: Budget) -> bool {
    forall|i: int|
        0 < i < contents.len() && contents[i - 1].len() > 0 ==> (#[trigger] contents[i]).len() * budget.ratio_den
            <= budget.ratio_num * contents[i - 1].len()
}

proof fn lemma_entry_at(entries: Seq<(i64, EntryModel)>, source: i64, offset: u64)
    ensures
        entry_at(entries, source, offset) matches Some(b) ==> has_key(entries, b) && exists|i: int|
            0 <= i < entries.len() && (#[trigger] entries[i]).0 == b && entries[i].1.source_id == source
                && entries[i].1.offset == offset,
        entry_at(entries, source, offset) is None ==> forall|i: int|
            0 <= i < entries.len() ==> !((#[trigger] entries[i]).1.source_id == source && entries[i].1.offset
                == offset),
    decreases entries.len(),
{
    if entries.len() > 0 {
        let t = entries.skip(1);
        lemma_entry_at(t, source, offset);
        if entries[0].1.source_id == source && entries[0].1.offset == offset {
            lemma_row_key(entries, 0);
        } else {
            if let Some(b) = entry_at(t, source, offset) {
                let i = choose|i: int|
                    0 <= i < t.len() && (#[trigger] t[i]).0 == b && t[i].1.source_id == source && t[i].1.offset
                        == offset;
                assert(entries[i + 1] == t[i]);
                lemma_row_key(entries, i + 1);
            } else {
                assert forall|i: int| 0 <= i < entries.len() implies !((#[trigger] entries[i]).1.source_id == source
                    && entries[i].1.offset == offset) by {
                    if i > 0 {
                        assert(t[i - 1] == entries[i]);
                    }
                }
            }
        }
    }
}

proof fn lemma_first_candidate(w: RowsModel, oid: Seq<char>, n: nat)
    requires
        n <= w.entries.len(),
    ensures
        match first_candidate(w, oid, n) {
            Some(b) => is_candidate(w, b, oid) && forall|i: int|
                0 <= i < n && is_candidate(w, (#[trigger] w.entries[i]).0, oid) ==> !precedes(w, w.entries[i].0, b),
            None => forall|i: int| 0 <= i < n ==> !is_candidate(w, (#[trigger] w.entries[i]).0, oid),
        },
    decreases n,
{
    if n > 0 {
        lemma_first_candidate(w, oid, (n - 1) as nat);
        let id = w.entries[n - 1].0;
        if let Some(b) = first_candidate(w, oid, n) {
            let prev = first_candidate(w, oid, (n - 1) as nat);
            assert forall|i: int|
                0 <= i < n && is_candidate(w, (#[trigger] w.entries[i]).0, oid) implies !precedes(
                w,
                w.entries[i].0,
                b,
            ) by {
                if let Some(p) = prev {
                    lemma_precedes(w, w.entries[i].0, p, id);
                }
                lemma_precedes(w, id, id, id);
            }
        }
    }
}

proof fn lemma_precedes(w: RowsModel, a: i64, b: i64, c: i64)
    ensures
        !precedes(w, a, a),
        !precedes(w, a, b) && precedes(w, c, b) ==> !precedes(w, a, c),
{
    let x = encode_utf8(digest_of(w, (get(w.entries, a)->0).source_id));
    let y = encode_utf8(digest_of(w, (get(w.entries, b)->0).source_id));
    let z = encode_utf8(digest_of(w, (get(w.entries, c)->0).source_id));
    order_is_total(x, y);
    order_is_total(y, z);
    order_is_total(x, z);
    lemma_same_text(digest_of(w, (get(w.entries, a)->0).source_id), digest_of(w, (get(w.entries, b)->0).source_id));
    if bytes_less(x, z) && bytes_less(z, y) {
        order_is_transitive(x, z, y);
    }
}

proof fn lemma_same_text(a: Seq<char>, b: Seq<char>)
    ensures
        encode_utf8(a) == encode_utf8(b) ==> a == b,
{
    if encode_utf8(a) == encode_utf8(b) {
        vstd::utf8::encode_utf8_decode_utf8(a);
        vstd::utf8::encode_utf8_decode_utf8(b);
    }
}

/// The provider of an id is the pinned entry when that was reconstructed as the object, else the
/// entry that was, whose source has the least digest, and there the least offset and number.
pub proof fn providers_are_chosen_by_pin_and_place(w: RowsModel, oid: Seq<char>)
    ensures
        forall|p: i64|
            get(w.pins, oid) == Some(p) && has_key(w.entries, p) && get(w.resolutions, p) is Some && (get(
                w.resolutions,
                p,
            )->0).status == "ok"@ && (get(w.resolutions, p)->0).oid == Some(oid) ==> provider(w, oid) == p,
        get(w.pins, oid) is None && provider(w, oid) >= 0 ==> ({
            let b = provider(w, oid);
            &&& has_key(w.entries, b)
            &&& get(w.resolutions, b) is Some
            &&& (get(w.resolutions, b)->0).status == "ok"@
            &&& (get(w.resolutions, b)->0).oid == Some(oid)
            &&& forall|i: int|
                0 <= i < w.entries.len() && get(w.resolutions, (#[trigger] w.entries[i]).0) is Some && (get(
                    w.resolutions,
                    w.entries[i].0,
                )->0).status == "ok"@ && (get(w.resolutions, w.entries[i].0)->0).oid == Some(oid) ==> ({
                    let x = get(w.entries, w.entries[i].0)->0;
                    let y = get(w.entries, b)->0;
                    let dx = encode_utf8(digest_of(w, x.source_id));
                    let dy = encode_utf8(digest_of(w, y.source_id));
                    &&& dx == dy || bytes_less(dy, dx)
                    &&& dx == dy ==> y.offset <= x.offset
                    &&& dx == dy && x.offset == y.offset ==> b <= w.entries[i].0
                })
        }),
{
    lemma_first_candidate(w, oid, w.entries.len());
    if get(w.pins, oid) is None && provider(w, oid) >= 0 {
        let b = provider(w, oid);
        assert(first_candidate(w, oid, w.entries.len()) == Some(b));
        assert forall|i: int|
            0 <= i < w.entries.len() && get(w.resolutions, (#[trigger] w.entries[i]).0) is Some && (get(
                w.resolutions,
                w.entries[i].0,
            )->0).status == "ok"@ && (get(w.resolutions, w.entries[i].0)->0).oid == Some(oid) implies ({
            let x = get(w.entries, w.entries[i].0)->0;
            let y = get(w.entries, b)->0;
            let dx = encode_utf8(digest_of(w, x.source_id));
            let dy = encode_utf8(digest_of(w, y.source_id));
            &&& dx == dy || bytes_less(dy, dx)
            &&& dx == dy ==> y.offset <= x.offset
            &&& dx == dy && x.offset == y.offset ==> b <= w.entries[i].0
        }) by {
            lemma_row_key(w.entries, i);
            let a = w.entries[i].0;
            assert(is_candidate(w, a, oid));
            assert(!precedes(w, a, b));
            let dx = digest_of(w, (get(w.entries, a)->0).source_id);
            let dy = digest_of(w, (get(w.entries, b)->0).source_id);
            order_is_total(encode_utf8(dx), encode_utf8(dy));
            lemma_same_text(dx, dy);
        }
    }
}

proof fn lemma_chain(w: RowsModel, target: i64, cur: i64, seen: Seq<i64>, links: Seq<i64>) -> (x: Seq<i64>)
    requires
        has_key(w.entries, cur),
    ensures
        chain_from(w, target, cur, seen, links).1 matches Ok(c) ==> {
            &&& c == x + links.reverse()
            &&& x.len() > 0
            &&& x.last() == cur
            &&& is_chain(w, x)
        },
    decreases w.entries.len() + 1 - seen.len(),
{
    lemma_names();
    let e = get(w.entries, cur)->0;
    let t = entry_type(e);
    if !t.delta() {
        let x = seq![cur];
        assert(links.push(cur).reverse() =~= x + links.reverse());
        x
    } else if seen.contains(cur) || seen.len() > w.entries.len() {
        Seq::empty()
    } else if t == ObjType::OfsDelta {
        let dist = match e.ofs_distance {
            Some(d) => d,
            None => 0,
        };
        if dist > e.offset {
            Seq::empty()
        } else {
            let at = (e.offset - dist) as u64;
            let v = with_edge(w, cur, None, "ofs"@, crate::model::text::dec(at as nat));
            lemma_entry_at(w.entries, e.source_id, at);
            match entry_at(w.entries, e.source_id, at) {
                Some(b) => {
                    let y = lemma_chain(v, target, b, seen.push(cur), links.push(cur));
                    lemma_longer(w, v, cur, links, y);
                    y.push(cur)
                },
                None => Seq::empty(),
            }
        }
    } else {
        let oid = match e.ref_base {
            Some(o) => o,
            None => ""@,
        };
        let p = provider(w, oid);
        lemma_first_candidate(w, oid, w.entries.len());
        if p < 0 {
            Seq::empty()
        } else {
            assert(is_candidate(w, p, oid));
            let v = with_edge(w, cur, Some(p), "ref"@, oid);
            let y = lemma_chain(v, target, p, seen.push(cur), links.push(cur));
            lemma_longer(w, v, cur, links, y);
            y.push(cur)
        }
    }
}

proof fn lemma_longer(w: RowsModel, v: RowsModel, cur: i64, links: Seq<i64>, y: Seq<i64>)
    requires
        has_key(w.entries, cur),
        v.entries == w.entries,
        v.resolutions == w.resolutions,
    ensures
        y + links.push(cur).reverse() == y.push(cur) + links.reverse(),
        is_chain(v, y) && is_entry_base(w, get(w.entries, cur)->0, y.last()) ==> is_chain(w, y.push(cur)),
{
    assert(y + links.push(cur).reverse() =~= y.push(cur) + links.reverse());
    if is_chain(v, y) && is_entry_base(w, get(w.entries, cur)->0, y.last()) {
        let x = y.push(cur);
        assert forall|i: int| 0 <= i < x.len() implies has_key(w.entries, #[trigger] x[i]) by {
            if i < y.len() {
                assert(has_key(v.entries, y[i]));
            }
        }
        assert(x[0] == y[0]);
        assert forall|i: int| 0 < i < x.len() implies is_entry_base(
            w,
            get(w.entries, #[trigger] x[i])->0,
            x[i - 1],
        ) by {
            if i < y.len() {
                assert(is_entry_base(v, get(v.entries, y[i])->0, y[i - 1]));
                assert(x[i] == y[i] && x[i - 1] == y[i - 1]);
            }
        }
    }
}

proof fn lemma_total_push(cs: Seq<Seq<u8>>, c: Seq<u8>)
    ensures
        total(cs.push(c)) == total(cs) + c.len(),
{
    assert(cs.push(c).drop_last() =~= cs);
}

proof fn lemma_runs(
    w: RowsModel,
    target: i64,
    chain: Seq<i64>,
    cur_type: Seq<char>,
    k: Work,
    budget: Budget,
    cs: Seq<Seq<u8>>,
) -> (out: Seq<Seq<u8>>)
    requires
        1 <= k.idx <= chain.len(),
        cs.len() == k.idx,
        cs.last() == k.content,
        unfolds(w, chain, cs, budget.max_total_bytes),
        in_ratio(cs, budget),
        k.bytes_used == capped(total(cs) as int),
    ensures
        runs(w, target, chain, cur_type, k, budget) matches Ended::Done(d) ==> {
            &&& out.len() == chain.len()
            &&& out.take(cs.len() as int) == cs
            &&& unfolds(w, chain, out, budget.max_total_bytes)
            &&& in_ratio(out, budget)
            &&& out.last() == d.content
            &&& chain.len() > k.idx ==> k.depth_used + (chain.len() - k.idx) <= budget.max_depth || budget.max_depth
                == u64::MAX
            &&& chain.len() > k.idx ==> total(out) <= budget.max_total_bytes || budget.max_total_bytes == u64::MAX
        },
    decreases chain.len() - k.idx,
{
    if k.idx >= chain.len() {
        assert(cs.take(cs.len() as int) =~= cs);
        cs
    } else {
        let id = chain[k.idx as int];
        let e = get(w.entries, id)->0;
        let depth = capped(k.depth_used + 1);
        if depth > budget.max_depth {
            cs
        } else {
            match linked(w, target, id, e, cur_type, k.content, k.bytes_used, budget) {
                Link::Next(made, step) => {
                    let next = Work {
                        idx: k.idx + 1,
                        content: made,
                        steps: k.steps.push(step),
                        depth_used: depth,
                        bytes_used: capped(k.bytes_used + made.len()),
                    };
                    let more = cs.push(made);
                    let d = payload_of(e, budget.max_total_bytes)->Ok_0;
                    let p = parsed(d)->Ok_0;
                    assert(made.len() == p.result_size);
                    assert(makes(e, budget.max_total_bytes, k.content, made));
                    lemma_total_push(cs, made);
                    assert forall|i: int| 0 < i < more.len() implies makes(
                        get(w.entries, chain[i])->0,
                        budget.max_total_bytes,
                        more[i - 1],
                        #[trigger] more[i],
                    ) by {
                        if i < cs.len() {
                            assert(more[i] == cs[i] && more[i - 1] == cs[i - 1]);
                        } else {
                            assert(more[i - 1] == cs.last());
                        }
                    }
                    assert forall|i: int| 0 < i < more.len() && more[i - 1].len() > 0 implies (
                    #[trigger] more[i]).len() * budget.ratio_den <= budget.ratio_num * more[i - 1].len() by {
                        if i < cs.len() {
                            assert(more[i] == cs[i] && more[i - 1] == cs[i - 1]);
                        } else {
                            assert(more[i - 1] == cs.last());
                        }
                    }
                    let out = lemma_runs(w, target, chain, cur_type, next, budget, more);
                    if runs(w, target, chain, cur_type, next, budget) is Done {
                        assert(out.take(cs.len() as int) =~= more.take(cs.len() as int)) by {
                            assert(out.take(more.len() as int) == more);
                            assert forall|i: int| 0 <= i < cs.len() implies out[i] == more[i] by {
                                assert(out.take(more.len() as int)[i] == more[i]);
                            }
                        }
                        assert(more.take(cs.len() as int) =~= cs);
                        if chain.len() == k.idx + 1 {
                            assert(out =~= more) by {
                                assert(out.take(more.len() as int) =~= out);
                            }
                        }
                    }
                    out
                },
                _ => cs,
            }
        }
    }
}

/// What completing an entry keeps of it.
proof fn lemma_completed(w: RowsModel, id: i64, cur_type: Seq<char>, k: Work)
    ensures
        get(completed(w, id, cur_type, k).contents, id) == Some(k.content),
        get(completed(w, id, cur_type, k).resolutions, id) matches Some(r) && r.status == "ok"@ && r.oid == Some(
            crate::entry::resolve::oid_of(cur_type, k.content),
        ),
{
    let e = get(w.entries, id)->0;
    let oid = crate::entry::resolve::oid_of(cur_type, k.content);
    let row = ResModel {
        status: "ok"@,
        oid: Some(oid),
        depth: k.depth_used,
        steps: k.steps,
        error: None,
        attempts: tried_again(w, id),
    };
    let v = RowsModel {
        contents: put(w.contents, id, k.content),
        resolutions: put(w.resolutions, id, row),
        ..w
    };
    get_of_put(w.contents, id, k.content, id);
    get_of_put(w.resolutions, id, row, id);
    let c = index_checked(v, id, e.offset, oid);
    crate::entry::resolve::lemma_twins_only(c, id, oid, c.resolutions.len());
}

proof fn lemma_opened(w: RowsModel, id: i64, x: i64)
    ensures
        opened(w, id).entries == w.entries,
        opened(w, id).sources == w.sources,
        x != id ==> get(opened(w, id).resolutions, x) == get(w.resolutions, x),
        get(opened(w, id).resolutions, id) matches Some(r) && r.status == "paused"@,
{
    let row = ResModel {
        status: "paused"@,
        oid: None,
        depth: 0,
        steps: Seq::<StepModel>::empty(),
        error: None,
        attempts: match get(w.resolutions, id) {
            Some(r) => r.attempts,
            None => 0,
        },
    };
    get_of_put(w.resolutions, id, row, x);
    get_of_put(w.resolutions, id, row, id);
}

proof fn lemma_chain_before(w: RowsModel, id: i64, chain: Seq<i64>)
    requires
        is_chain(opened(w, id), chain),
    ensures
        is_chain(w, chain),
{
    lemma_names();
    let o = opened(w, id);
    lemma_opened(w, id, id);
    assert forall|i: int| 0 <= i < chain.len() implies has_key(w.entries, #[trigger] chain[i]) by {
        assert(has_key(o.entries, chain[i]));
    }
    assert forall|i: int| 0 < i < chain.len() implies is_entry_base(
        w,
        get(w.entries, #[trigger] chain[i])->0,
        chain[i - 1],
    ) by {
        assert(is_entry_base(o, get(o.entries, chain[i])->0, chain[i - 1]));
        lemma_opened(w, id, chain[i - 1]);
    }
}

/// The failure of every other end of a reconstruction has another status than `ok`.
proof fn lemma_only_done_is_ok(w: RowsModel, id: i64, chain: Seq<i64>, cur_type: Seq<char>, k: Work, budget: Budget)
    requires
        continued(w, id, chain, cur_type, k, budget).1 == "ok"@,
    ensures
        all_there(w, chain),
        ({
            let start = if k.depth_used == 0 {
                Work { bytes_used: capped(k.bytes_used + k.content.len()), ..k }
            } else {
                k
            };
            runs(w, id, chain, cur_type, start, budget) matches Ended::Done(d) && d.content.len() == (get(
                w.entries,
                id,
            )->0).declared_size && continued(w, id, chain, cur_type, k, budget).0 == completed(
                RowsModel { partials: del(w.partials, id), ..w },
                id,
                cur_type,
                d,
            )
        }),
{
    lemma_names();
}

/// An entry that ends `ok`, without a saved state to go on from, is the last of a chain of deltas
/// on a whole object. Its content is what the deltas make of the object one after another. Its id
/// is the hash of the frame with the type of the object at the bottom, which for a pack entry is
/// the type that the entry itself states. No more deltas were applied than the depth allows, the
/// contents together are within the bytes, and each is within the ratio to the one before it.
pub proof fn an_object_is_what_its_chain_makes(w: RowsModel, id: i64, budget: Budget) -> (r: (
    Seq<i64>,
    Seq<Seq<u8>>,
))
    requires
        has_key(w.entries, id),
        get(w.partials, id) is None,
        resolved(w, id, budget).1 == "ok"@,
    ensures
        ({
            let v = resolved(w, id, budget).0;
            let (chain, contents) = r;
            let bottom = get(w.entries, chain[0])->0;
            let loose = get(w.sources, bottom.source_id) matches Some(s) && s.kind == "loose"@;
            &&& is_chain(w, chain)
            &&& chain.last() == id
            &&& contents.len() == chain.len()
            &&& unfolds(w, chain, contents, budget.max_total_bytes)
            &&& get(v.contents, id) == Some(contents.last())
            &&& contents.last().len() == (get(w.entries, id)->0).declared_size
            &&& !loose ==> {
                &&& is_whole_name(bottom.obj_type)
                &&& payload_of(bottom, bottom.declared_size) == Ok::<Seq<u8>, Seq<char>>(contents[0])
                &&& contents[0].len() == bottom.declared_size
                &&& get(v.resolutions, id) is Some
                &&& (get(v.resolutions, id)->0).oid == Some(
                    hex(sha1_of(object_frame(bottom.obj_type, contents.last()))),
                )
            }
            &&& loose ==> {
                let t = (base_content(bottom, Some("loose"@))->Ok_0).1.text();
                &&& base_content(bottom, Some("loose"@)) is Ok
                &&& (base_content(bottom, Some("loose"@))->Ok_0).0 == contents[0]
                &&& is_whole_name(t)
                &&& (get(v.resolutions, id)->0).oid == Some(hex(sha1_of(object_frame(t, contents.last()))))
            }
            &&& chain.len() > 1 && budget.max_depth < u64::MAX ==> chain.len() - 1 <= budget.max_depth
            &&& chain.len() > 1 && budget.max_total_bytes < u64::MAX ==> total(contents) <= budget.max_total_bytes
            &&& in_ratio(contents, budget)
        }),
{
    lemma_names();
    let o = opened(w, id);
    lemma_opened(w, id, id);
    let c = chain_from(o, id, id, Seq::empty(), Seq::empty());
    crate::entry::resolve::lemma_chain_only(o, id, id, Seq::empty(), Seq::empty());
    let x = lemma_chain(o, id, id, Seq::empty(), Seq::empty());
    let chain = c.1->Ok_0;
    assert(x + Seq::<i64>::empty().reverse() =~= x);
    assert(chain == x);
    lemma_chain_before(w, id, chain);
    let b = get(c.0.entries, chain[0])->0;
    let kind = source_kind(c.0, b);
    let (content, t) = base_content(b, kind)->Ok_0;
    let k = Work { idx: 1, content, steps: Seq::<StepModel>::empty(), depth_used: 0, bytes_used: 0 };
    lemma_only_done_is_ok(c.0, id, chain, t.text(), k, budget);
    let start = Work { bytes_used: capped(k.bytes_used + content.len()), ..k };
    let one = seq![content];
    assert(one.drop_last() =~= Seq::<Seq<u8>>::empty());
    assert(total(Seq::<Seq<u8>>::empty()) == 0);
    assert(total(one) == content.len());
    let out = lemma_runs(c.0, id, chain, t.text(), start, budget, one);
    let done = runs(c.0, id, chain, t.text(), start, budget)->Done_0;
    lemma_completed(RowsModel { partials: del(c.0.partials, id), ..c.0 }, id, t.text(), done);
    assert(out.take(1)[0] == content);
    lemma_base_type(b, kind);
    assert(crate::entry::resolve::oid_of(t.text(), done.content) == hex(
        sha1_of(object_frame(t.text(), done.content)),
    ));
    assert(unfolds(w, chain, out, budget.max_total_bytes));
    (chain, out)
}

proof fn lemma_base_type(e: EntryModel, kind: Option<Seq<char>>)
    ensures
        base_content(e, kind) matches Ok(r) ==> {
            &&& !r.1.delta()
            &&& is_whole_name(r.1.text())
            &&& ObjType::of_text(r.1.text()) == Some(r.1)
            &&& kind is Some
            &&& kind != Some("loose"@) ==> r.1.text() == e.obj_type && payload_of(e, e.declared_size) == Ok::<
                Seq<u8>,
                Seq<char>,
            >(r.0) && r.0.len() == e.declared_size
        },
{
    lemma_names();
}

/// A loose object has the type that its header names, and the bytes behind the header.
pub proof fn a_loose_object_has_the_type_of_its_header(raw: Seq<u8>)
    requires
        loose_base(raw) is Ok,
    ensures
        inflate_run(raw, Seq::empty()) is Ok,
        ({
            let p = (inflate_run(raw, Seq::empty())->Ok_0).0;
            let nul = first_at(p, 0);
            let r = loose_base(raw)->Ok_0;
            &&& nul < p.len()
            &&& r.1.text() == before(lossy_text(p.take(nul as int)), ' ')
            &&& is_whole_name(r.1.text())
            &&& r.0 == p.skip(nul as int + 1)
            &&& r.0.len() == declared(lossy_text(p.take(nul as int)))
        }),
{
    lemma_names();
    if let Ok((p, _)) = inflate_run(raw, Seq::empty()) {
        crate::model::bytes::lemma_first_at(p, 0);
    }
}

proof fn lemma_whole_chain(o: RowsModel, id: i64)
    requires
        has_key(o.entries, id),
        is_whole_name((get(o.entries, id)->0).obj_type),
    ensures
        chain_from(o, id, id, Seq::empty(), Seq::empty()) == (o, Ok::<Seq<i64>, FailModel>(seq![id])),
{
    lemma_names();
    assert(Seq::<i64>::empty().push(id).reverse() =~= seq![id]);
}

/// A whole object of a pack whose data inflate to the declared size is reconstructed as its data,
/// and named by the hash of the frame with its own type.
pub proof fn a_whole_entry_is_reconstructed(w: RowsModel, id: i64, budget: Budget, c: Seq<u8>)
    requires
        get(w.entries, id) is Some,
        get(w.partials, id) is None,
        ({
            let e = get(w.entries, id)->0;
            &&& is_whole_name(e.obj_type)
            &&& get(w.sources, e.source_id) is Some
            &&& (get(w.sources, e.source_id)->0).kind != "loose"@
            &&& payload_of(e, e.declared_size) == Ok::<Seq<u8>, Seq<char>>(c)
            &&& c.len() == e.declared_size
        }),
    ensures
        resolved(w, id, budget).1 == "ok"@,
        get(resolved(w, id, budget).0.contents, id) == Some(c),
        get(resolved(w, id, budget).0.resolutions, id) is Some,
        (get(resolved(w, id, budget).0.resolutions, id)->0).oid == Some(
            hex(sha1_of(object_frame((get(w.entries, id)->0).obj_type, c))),
        ),
{
    lemma_names();
    let e = get(w.entries, id)->0;
    let o = opened(w, id);
    lemma_opened(w, id, id);
    lemma_whole_chain(o, id);
    let chain = seq![id];
    let t = ObjType::of_text(e.obj_type)->0;
    assert(base_content(e, source_kind(o, e)) == Ok::<(Seq<u8>, ObjType), (Seq<char>, Seq<char>)>((c, t)));
    let k = Work {
        idx: 1,
        content: c,
        steps: Seq::<StepModel>::empty(),
        depth_used: 0,
        bytes_used: capped(c.len() as int),
    };
    assert(all_there(o, chain));
    assert(runs(o, id, chain, t.text(), k, budget) == Ended::Done(k));
    lemma_completed(RowsModel { partials: del(o.partials, id), ..o }, id, t.text(), k);
    lemma_base_type(e, source_kind(o, e));
}

/// A delta whose base stands the distance before it in its pack is reconstructed as what it makes
/// of the base, and named with the type of the base, when one step and the bytes of both are within
/// the budgets.
pub proof fn a_delta_on_a_whole_entry_is_reconstructed(
    w: RowsModel,
    id: i64,
    b: int,
    budget: Budget,
    base: Seq<u8>,
    out: Seq<u8>,
)
    requires
        get(w.entries, id) is Some,
        get(w.partials, id) is None,
        0 <= b < w.entries.len(),
        keyed(w.entries),
        ({
            let e = get(w.entries, id)->0;
            let x = w.entries[b].1;
            &&& e.obj_type == "ofs_delta"@
            &&& e.ofs_distance matches Some(d) && d <= e.offset && x.offset == e.offset - d
            &&& x.source_id == e.source_id
            &&& forall|j: int|
                0 <= j < b ==> !((#[trigger] w.entries[j]).1.source_id == x.source_id && w.entries[j].1.offset
                    == x.offset)
            &&& is_whole_name(x.obj_type)
            &&& get(w.sources, e.source_id) is Some
            &&& (get(w.sources, e.source_id)->0).kind != "loose"@
            &&& payload_of(x, x.declared_size) == Ok::<Seq<u8>, Seq<char>>(base)
            &&& base.len() == x.declared_size
            &&& makes(e, budget.max_total_bytes, base, out)
            &&& base.len() + out.len() <= budget.max_total_bytes
            &&& base.len() > 0
            &&& out.len() * budget.ratio_den <= budget.ratio_num * base.len()
        }),
        budget.max_depth >= 1,
    ensures
        resolved(w, id, budget).1 == "ok"@,
        get(resolved(w, id, budget).0.contents, id) == Some(out),
        get(resolved(w, id, budget).0.resolutions, id) is Some,
        (get(resolved(w, id, budget).0.resolutions, id)->0).oid == Some(
            hex(sha1_of(object_frame(w.entries[b].1.obj_type, out))),
        ),
{
    lemma_names();
    let e = get(w.entries, id)->0;
    let x = w.entries[b].1;
    let bid = w.entries[b].0;
    let at = x.offset;
    lemma_row_key(w.entries, b);
    lemma_row(w.entries, bid);
    assert(get(w.entries, bid) == Some(x)) by {
        let r = crate::model::assoc::row_of(w.entries, bid) as int;
        assert(w.entries[r].0 == w.entries[b].0);
    }
    assert(bid != id);
    let o = opened(w, id);
    lemma_opened(w, id, id);
    lemma_entry_found(w.entries, x.source_id, at, b);
    let empty = Seq::<i64>::empty();
    let v = with_edge(o, id, None, "ofs"@, crate::model::text::dec(at as nat));
    let chain = seq![bid, id];
    assert(empty.push(id).push(bid).reverse() =~= chain);
    assert(chain_from(v, id, bid, empty.push(id), empty.push(id)) == (v, Ok::<Seq<i64>, FailModel>(chain)));
    assert(chain_from(o, id, id, empty, empty) == (v, Ok::<Seq<i64>, FailModel>(chain)));
    let t = ObjType::of_text(x.obj_type)->0;
    assert(base_content(x, source_kind(v, x)) == Ok::<(Seq<u8>, ObjType), (Seq<char>, Seq<char>)>((base, t)));
    lemma_base_type(x, source_kind(v, x));
    let k = Work {
        idx: 1,
        content: base,
        steps: Seq::<StepModel>::empty(),
        depth_used: 0,
        bytes_used: capped(base.len() as int),
    };
    assert(all_there(v, chain)) by {
        assert(chain[0] == bid && chain[1] == id);
    }
    assert(linked(v, id, id, e, t.text(), base, k.bytes_used, budget) is Next);
    let step = linked(v, id, id, e, t.text(), base, k.bytes_used, budget)->Next_1;
    let done = Work {
        idx: 2,
        content: out,
        steps: k.steps.push(step),
        depth_used: 1,
        bytes_used: capped(k.bytes_used + out.len()),
    };
    assert(chain[1] == id);
    assert(runs(v, id, chain, t.text(), done, budget) == Ended::Done(done));
    assert(runs(v, id, chain, t.text(), k, budget) == Ended::Done(done));
    lemma_completed(RowsModel { partials: del(v.partials, id), ..v }, id, t.text(), done);
}

proof fn lemma_entry_found(entries: Seq<(i64, EntryModel)>, source: i64, offset: u64, b: int)
    requires
        0 <= b < entries.len(),
        entries[b].1.source_id == source,
        entries[b].1.offset == offset,
        forall|j: int| 0 <= j < b ==> !((#[trigger] entries[j]).1.source_id == source && entries[j].1.offset == offset),
    ensures
        entry_at(entries, source, offset) == Some(entries[b].0),
    decreases b,
{
    if b > 0 {
        let t = entries.skip(1);
        assert(t[b - 1] == entries[b]);
        assert forall|j: int| 0 <= j < b - 1 implies !((#[trigger] t[j]).1.source_id == source && t[j].1.offset
            == offset) by {
            assert(t[j] == entries[j + 1]);
        }
        lemma_entry_found(t, source, offset, b - 1);
    }
}

/// A delta whose base nothing provides is blocked, and nothing is published: a base may still come.
pub proof fn a_delta_without_its_base_is_blocked(w: RowsModel, id: i64, budget: Budget)
    requires
        get(w.entries, id) is Some,
        get(w.partials, id) is None,
        ({
            let e = get(w.entries, id)->0;
            ||| e.obj_type == "ref_delta"@ && e.ref_base is Some && forall|x: i64|
                (#[trigger] get(w.resolutions, x)) is Some && x != id ==> (get(w.resolutions, x)->0).oid != e.ref_base
            ||| e.obj_type == "ofs_delta"@ && (e.ofs_distance matches Some(d) && d <= e.offset && forall|j: int|
                0 <= j < w.entries.len() ==> !((#[trigger] w.entries[j]).1.source_id == e.source_id
                    && w.entries[j].1.offset == e.offset - d))
        }),
    ensures
        resolved(w, id, budget).1 == "blocked"@,
        resolved(w, id, budget).0.contents == w.contents,
{
    lemma_names();
    let e = get(w.entries, id)->0;
    let o = opened(w, id);
    lemma_opened(w, id, id);
    if e.obj_type == "ref_delta"@ {
        let oid = e.ref_base->0;
        lemma_first_candidate(o, oid, o.entries.len());
        assert forall|x: i64| !is_candidate(o, x, oid) by {
            lemma_opened(w, id, x);
            if x != id && get(w.resolutions, x) is Some {
                assert((get(w.resolutions, x)->0).oid != e.ref_base);
            }
        }
        assert(provider(o, oid) < 0);
    } else {
        lemma_entry_at(w.entries, e.source_id, (e.offset - e.ofs_distance->0) as u64);
    }
    reconstruction_is_isolated(w, id, budget);
}

/// A delta that is its own base is an error, and nothing is published.
pub proof fn a_delta_on_itself_is_an_error(w: RowsModel, id: i64, budget: Budget)
    requires
        get(w.entries, id) is Some,
        get(w.partials, id) is None,
        (get(w.entries, id)->0).obj_type == "ofs_delta"@,
        (get(w.entries, id)->0).ofs_distance == Some(0u64),
        entry_at(w.entries, (get(w.entries, id)->0).source_id, (get(w.entries, id)->0).offset) == Some(id),
    ensures
        resolved(w, id, budget).1 == "error"@,
        resolved(w, id, budget).0.contents == w.contents,
        get(resolved(w, id, budget).0.resolutions, id) is Some,
        (get(resolved(w, id, budget).0.resolutions, id)->0).error is Some,
        ((get(resolved(w, id, budget).0.resolutions, id)->0).error->0).reason == "cycle"@,
{
    lemma_names();
    let e = get(w.entries, id)->0;
    let o = opened(w, id);
    lemma_opened(w, id, id);
    let empty = Seq::<i64>::empty();
    let v = with_edge(o, id, None, "ofs"@, crate::model::text::dec(e.offset as nat));
    assert(empty.push(id).contains(id)) by {
        assert(empty.push(id)[0] == id);
    }
    assert(!empty.contains(id));
    assert(chain_from(v, id, id, empty.push(id), empty.push(id)).1 is Err);
    let c = chain_from(o, id, id, empty, empty);
    assert(c == chain_from(v, id, id, empty.push(id), empty.push(id)));
    reconstruction_is_isolated(w, id, budget);
    let f = c.1->Err_0;
    assert(f.reason == "cycle"@);
    get_of_put(
        c.0.resolutions,
        id,
        ResModel {
            status: crate::entry::resolve::failed_status(f),
            oid: None,
            depth: 0,
            steps: Seq::<StepModel>::empty(),
            error: Some(f),
            attempts: tried_again(c.0, id),
        },
        id,
    );
}

/// A reconstruction that a budget stops publishes nothing, and keeps a state that says so: the
/// contents are as they were, and the entry is paused with the limit that stopped it.
pub proof fn a_pause_keeps_a_state(w: RowsModel, id: i64, budget: Budget)
    requires
        has_key(w.entries, id),
        resolved(w, id, budget).1 == "paused"@,
    ensures
        resolved(w, id, budget).0.contents == w.contents,
        get(resolved(w, id, budget).0.partials, id) is Some,
        get(resolved(w, id, budget).0.resolutions, id) is Some,
        (get(resolved(w, id, budget).0.resolutions, id)->0).oid is None,
        (get(resolved(w, id, budget).0.resolutions, id)->0).error is Some,
        ((get(resolved(w, id, budget).0.resolutions, id)->0).error->0).reason == "budget"@,
{
    lemma_names();
    reconstruction_is_isolated(w, id, budget);
    reveal_strlit("missing");
    assert("missing"@.len() == 7);
    let o = opened(w, id);
    if let Some(p) = get(w.partials, id) {
        let k = Work {
            idx: p.next_idx,
            content: p.buffer,
            steps: p.steps,
            depth_used: p.depth_used,
            bytes_used: p.bytes_used,
        };
        lemma_paused(o, id, p.chain, p.cur_type, k, budget);
    } else {
        let c = chain_from(o, id, id, Seq::empty(), Seq::empty());
        let chain = c.1->Ok_0;
        let b = get(c.0.entries, chain[0])->0;
        let (content, t) = base_content(b, source_kind(c.0, b))->Ok_0;
        let k = Work { idx: 1, content, steps: Seq::<StepModel>::empty(), depth_used: 0, bytes_used: 0 };
        lemma_paused(c.0, id, chain, t.text(), k, budget);
    }
}

proof fn lemma_paused(w: RowsModel, id: i64, chain: Seq<i64>, cur_type: Seq<char>, k: Work, budget: Budget)
    requires
        continued(w, id, chain, cur_type, k, budget).1 == "paused"@,
    ensures
        ({
            let v = continued(w, id, chain, cur_type, k, budget).0;
            &&& get(v.partials, id) is Some
            &&& get(v.resolutions, id) is Some
            &&& (get(v.resolutions, id)->0).error is Some
            &&& ((get(v.resolutions, id)->0).error->0).reason == "budget"@
        }),
{
    lemma_names();
    assert forall|x: PartModel| get(#[trigger] put(w.partials, id, x), id) == Some(x) by {
        get_of_put(w.partials, id, x, id);
    }
    assert forall|x: ResModel| get(#[trigger] put(w.resolutions, id, x), id) == Some(x) by {
        get_of_put(w.resolutions, id, x, id);
    }
}

proof fn lemma_idx_row(w: RowsModel, offset: u64, n: nat, k: int)
    requires
        n <= k < w.idx.len(),
        w.idx[k].offset == offset,
        forall|j: int| n <= j < k ==> (#[trigger] w.idx[j]).offset != offset,
    ensures
        idx_row(w, offset, n) == k,
    decreases w.idx.len() - n,
{
    if n < k {
        lemma_idx_row(w, offset, n + 1, k);
    }
}

/// The first index row on the offset of an entry that names another object leaves evidence of it;
/// one that names the same object leaves none.
pub proof fn an_index_that_names_another_object_is_noted(w: RowsModel, id: i64, offset: u64, oid: Seq<char>, k: int)
    requires
        0 <= k < w.idx.len(),
        w.idx[k].offset == offset,
        forall|j: int| 0 <= j < k ==> (#[trigger] w.idx[j]).offset != offset,
    ensures
        ({
            let v = index_checked(w, id, offset, oid);
            &&& w.idx[k].oid == oid ==> v == w
            &&& w.idx[k].oid != oid ==> exists|i: int|
                0 <= i < v.evidence.len() && (#[trigger] v.evidence[i]).kind == "idx_oid_mismatch"@
                    && v.evidence[i].entry_id == Some(id) && v.evidence[i].source_id == Some(w.idx[k].source_id)
        }),
{
    lemma_idx_row(w, offset, 0, k);
    let v = index_checked(w, id, offset, oid);
    if w.idx[k].oid != oid {
        let m = EvidenceModel {
            source_id: Some(w.idx[k].source_id),
            entry_id: Some(id),
            kind: "idx_oid_mismatch"@,
            message: "index says object at offset "@ + crate::model::text::dec(offset as nat) + " is "@
                + w.idx[k].oid + ", recomputed id is "@ + oid,
        };
        if w.evidence.contains(m) {
            let i = choose|i: int| 0 <= i < w.evidence.len() && w.evidence[i] == m;
            assert(v.evidence[i].kind == "idx_oid_mismatch"@);
        } else {
            assert(v.evidence[v.evidence.len() - 1] == m);
        }
    }
}

/// What is noted of two entries that hash to one id: that they are the same object when their
/// contents are equal, and a conflict when they are not.
pub proof fn twins_are_told_from_conflicts(w: RowsModel, id: i64, other: i64, source: i64, oid: Seq<char>)
    requires
        get(w.contents, id) is Some,
        get(w.contents, other) is Some,
    ensures
        twin(w, id, other, source, oid).entry_id == Some(id),
        (get(w.contents, id)->0) == (get(w.contents, other)->0) ==> twin(w, id, other, source, oid).kind
            == "duplicate_oid"@,
        (get(w.contents, id)->0) != (get(w.contents, other)->0) ==> twin(w, id, other, source, oid).kind
            == "oid_content_conflict"@,
{
}

} // verus!
