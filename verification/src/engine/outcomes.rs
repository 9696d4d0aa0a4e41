//! What reconstruction promises of what it makes, of what it refuses, and of what it records.
use vstd::prelude::*;
use crate::delta::{applied, parsed};
use crate::engine::importer::CandidateModel;
use crate::engine::rebuild::{base_row, is_base, solved, Ground, ResolutionModel};
use crate::engine::rerun::{consumers, consumes, lemma_into_has, tried, Bench};
use crate::git::types::ObjType;
use crate::git::zlib::drained;
use crate::model::assoc::{get, get_of_put, put};
use crate::model::object::object_frame;
use crate::model::outside::sha1_of;
use crate::model::text::{hex, lowered};

verus! {

/// Row `i` is the first that the delta `c` names as its base: the entry at the offset in the same
/// source, or what goes by the id.
pub open spec fn is_first_base(g: Ground, c: CandidateModel, i: int) -> bool {
    &&& 0 <= i < g.candidates.len()
    &&& names_as_base(c, g.candidates[i].1)
    &&& forall|j: int| 0 <= j < i ==> !names_as_base(c, (#[trigger] g.candidates[j]).1)
}

/// The delta `c` names `row` as its base.
pub open spec fn names_as_base(c: CandidateModel, row: CandidateModel) -> bool {
    if c.obj_type == "ofs-delta"@ {
        row.source_id == c.source_id && c.ofs_base_offset is Some && row.pack_offset == c.ofs_base_offset
    } else {
        let want = match c.ref_base_oid_hex {
            Some(oid) => oid,
            None => ""@,
        };
        row.declared_oid_hex == Some(want) || row.computed_oid_hex == Some(want)
    }
}

proof fn lemma_base_row(rows: Seq<(i64, CandidateModel)>, c: CandidateModel, n: nat)
    requires
        n <= rows.len(),
    ensures
        n <= base_row(rows, c, n) <= rows.len(),
        forall|i: int| n <= i < base_row(rows, c, n) ==> !is_base((#[trigger] rows[i]).1, c),
        base_row(rows, c, n) < rows.len() ==> is_base(rows[base_row(rows, c, n) as int].1, c),
    decreases rows.len() - n,
{
    if n < rows.len() && !is_base(rows[n as int].1, c) {
        lemma_base_row(rows, c, n + 1);
    }
}

proof fn lemma_delta_names()
    ensures
        "ofs-delta"@ != "ref-delta"@,
        ObjType::of_text("ofs-delta"@) is None,
        ObjType::of_text("ref-delta"@) is None,
{
    reveal_strlit("ofs-delta");
    reveal_strlit("ref-delta");
    reveal_strlit("commit");
    reveal_strlit("tree");
    reveal_strlit("blob");
    reveal_strlit("tag");
    assert("ofs-delta"@[0] == 'o' && "ref-delta"@[0] == 'r' && "commit"@.len() == 6 && "tree"@.len() == 4
        && "blob"@.len() == 4 && "tag"@.len() == 3 && "ofs-delta"@.len() == 9 && "ref-delta"@.len() == 9);
}

/// What is reconstructed of a candidate: its data hash, under the header of its type, to the id that
/// was declared, if one was; a whole object is what its stream inflates to, of the size and the type
/// that were claimed; a delta is applied to what was reconstructed of the first candidate that it
/// names as its base, and takes its type. Nothing is made of a candidate that was not parsed, whose
/// checksum differs from the one of the index, or that is within its own chain.
pub proof fn a_reconstruction_is_well_made(g: Ground, used: nat, chain: Seq<i64>, id: i64)
    requires
        solved(g, used, chain, id).0 is Done,
    ensures
        ({
            let o = solved(g, used, chain, id).0->Done_0;
            let c = get(g.candidates, id)->0;
            let comp = get(g.streams, id)->0;
            let inflated = drained(comp, g.limits.max_single_bytes as nat, Seq::empty());
            let name = hex(sha1_of(object_frame(o.kind.text(), o.data)));
            &&& get(g.candidates, id) is Some
            &&& get(g.streams, id) is Some
            &&& c.parse_status == "ok"@
            &&& c.crc_ok != Some(false)
            &&& !chain.contains(id)
            &&& c.declared_oid_hex is Some ==> lowered(c.declared_oid_hex->0) == lowered(name)
            &&& inflated is Ok
            &&& (inflated->Ok_0).0.len() == if c.claimed_size < 0 {
                0
            } else {
                c.claimed_size as int
            }
            &&& (inflated->Ok_0).0.len() <= g.limits.max_single_bytes
            &&& if c.obj_type == "ofs-delta"@ || c.obj_type == "ref-delta"@ {
                &&& chain.len() + 1 < g.limits.max_depth
                &&& o.data.len() <= g.limits.max_result_bytes
                &&& exists|i: int| #[trigger] is_first_base(g, c, i) && ({
                    let b = solved(g, used, chain.push(id), g.candidates[i].0).0;
                    let payload = (inflated->Ok_0).0;
                    &&& b is Done
                    &&& o.kind == b->Done_0.kind
                    &&& o.depth == b->Done_0.depth + 1
                    &&& parsed(payload) is Ok
                    &&& parsed(payload)->Ok_0.base_size == b->Done_0.data.len()
                    &&& applied(payload, parsed(payload)->Ok_0, b->Done_0.data) is Ok
                    &&& (applied(payload, parsed(payload)->Ok_0, b->Done_0.data)->Ok_0).0 == o.data
                })
            } else {
                &&& o.kind.text() == c.obj_type
                &&& o.data == (inflated->Ok_0).0
                &&& o.depth == 0
                &&& solved(g, used, chain, id).1 == used + o.data.len()
                &&& o.data.len() > 0 ==> used + o.data.len() <= g.limits.max_total_bytes
            }
        }),
{
    let c = get(g.candidates, id)->0;
    lemma_delta_names();
    if c.obj_type == "ofs-delta"@ || c.obj_type == "ref-delta"@ {
        lemma_base_row(g.candidates, c, 0);
        let n = base_row(g.candidates, c, 0);
        assert(is_first_base(g, c, n as int));
    }
}

/// A candidate that was not parsed, or whose checksum differs from the one of its index, is bad and
/// uses nothing of the budget; one that is reached again within its own chain is a cycle.
pub proof fn what_is_broken_is_not_tried(g: Ground, used: nat, chain: Seq<i64>, id: i64)
    requires
        get(g.candidates, id) is Some,
        ({
            let c = get(g.candidates, id)->0;
            chain.contains(id) || c.parse_status != "ok"@ || c.crc_ok == Some(false)
        }),
    ensures
        solved(g, used, chain, id).0 is Cycle <==> chain.contains(id),
        solved(g, used, chain, id).0 is Bad <==> !chain.contains(id),
        solved(g, used, chain, id).1 == used,
{
}

/// A delta of which no candidate is the base waits for it; a chain of deltas that is too long waits
/// for a larger budget. Neither uses anything of the budget.
pub proof fn a_delta_waits_for_its_base(g: Ground, used: nat, chain: Seq<i64>, id: i64)
    requires
        get(g.candidates, id) is Some,
        !chain.contains(id),
        ({
            let c = get(g.candidates, id)->0;
            &&& c.parse_status == "ok"@
            &&& c.crc_ok != Some(false)
            &&& c.obj_type == "ofs-delta"@ || (c.obj_type == "ref-delta"@ && c.ref_base_oid_hex is Some)
            &&& chain.len() + 1 >= g.limits.max_depth || forall|i: int|
                0 <= i < g.candidates.len() ==> !names_as_base(c, (#[trigger] g.candidates[i]).1)
        }),
    ensures
        solved(g, used, chain, id).0 is Paused <==> chain.len() + 1 >= g.limits.max_depth,
        solved(g, used, chain, id).0 is MissingBase <==> chain.len() + 1 < g.limits.max_depth,
        solved(g, used, chain, id).1 == used,
{
    let c = get(g.candidates, id)->0;
    lemma_base_row(g.candidates, c, 0);
    let n = base_row(g.candidates, c, 0);
    if n < g.candidates.len() && chain.len() + 1 < g.limits.max_depth {
        assert(!names_as_base(c, g.candidates[n as int].1));
    }
}

/// A sound whole object is reconstructed where the budget has room for it, and waits where it has
/// not; one whose declared id is another than that of its data is bad.
pub proof fn a_whole_object_is_reconstructed(g: Ground, used: nat, chain: Seq<i64>, id: i64, kind: ObjType)
    requires
        get(g.candidates, id) is Some,
        get(g.streams, id) is Some,
        !chain.contains(id),
        used <= g.limits.max_total_bytes,
        ({
            let c = get(g.candidates, id)->0;
            let inflated = drained(get(g.streams, id)->0, g.limits.max_single_bytes as nat, Seq::empty());
            &&& c.parse_status == "ok"@
            &&& c.crc_ok != Some(false)
            &&& c.obj_type == kind.text()
            &&& kind == ObjType::Commit || kind == ObjType::Tree || kind == ObjType::Blob || kind == ObjType::Tag
            &&& inflated is Ok
            &&& (inflated->Ok_0).0.len() == c.claimed_size
            &&& (inflated->Ok_0).0.len() <= g.limits.max_single_bytes
        }),
    ensures
        ({
            let c = get(g.candidates, id)->0;
            let data = (drained(get(g.streams, id)->0, g.limits.max_single_bytes as nat, Seq::empty())->Ok_0).0;
            let name = hex(sha1_of(object_frame(kind.text(), data)));
            let r = solved(g, used, chain, id).0;
            let room = used + data.len() <= g.limits.max_total_bytes;
            &&& r is Paused <==> !room
            &&& r is Done <==> room && (c.declared_oid_hex is None || lowered(c.declared_oid_hex->0) == lowered(name))
            &&& r is Done || r is Paused || r is Bad
            &&& r is Done ==> r->Done_0.data == data && r->Done_0.kind == kind
        }),
{
    reveal_strlit("ofs-delta");
    reveal_strlit("ref-delta");
    reveal_strlit("commit");
    reveal_strlit("tree");
    reveal_strlit("blob");
    reveal_strlit("tag");
    assert("commit"@.len() == 6 && "tree"@.len() == 4 && "blob"@.len() == 4 && "tag"@.len() == 3 && "tree"@[0] == 't'
        && "blob"@[0] == 'b' && "ofs-delta"@.len() == 9 && "ref-delta"@.len() == 9);
}

/// What is recorded of a candidate that was tried: the content under its type and its id, or the
/// failure, and no content; and a reconstructed candidate then goes by the id of its content. No
/// other candidate changes.
pub proof fn an_end_is_recorded_as_it_is(b: Bench, id: i64, other: i64)
    ensures
        ({
            let r = solved(b.ground, b.used, Seq::empty(), id).0;
            let t = tried(b, id);
            let x = get(t.resolutions, id)->0;
            &&& get(t.resolutions, id) is Some
            &&& t.used == solved(b.ground, b.used, Seq::empty(), id).1
            &&& other != id ==> get(t.resolutions, other) == get(b.resolutions, other) && get(
                t.ground.candidates,
                other,
            ) == get(b.ground.candidates, other)
            &&& x.status == "resolved"@ <==> r is Done
            &&& x.status == "cycle"@ <==> r is Cycle
            &&& x.status == "missing_base"@ <==> r is MissingBase
            &&& x.status == "paused"@ <==> r is Paused
            &&& x.status == "bad"@ <==> r is Bad
            &&& x.content is Some <==> r is Done
            &&& r is Done ==> x.content == Some(r->Done_0.data) && x.resolved_type == Some(r->Done_0.kind.text())
                && x.oid_hex == Some(hex(sha1_of(object_frame(r->Done_0.kind.text(), r->Done_0.data))))
            &&& r is Done && get(b.ground.candidates, id) is Some ==> get(t.ground.candidates, id) is Some && get(
                t.ground.candidates,
                id,
            )->0 == (CandidateModel { computed_oid_hex: x.oid_hex, ..get(b.ground.candidates, id)->0 })
            &&& !(r is Done) ==> t.ground == b.ground
        }),
{
    reveal_strlit("resolved");
    reveal_strlit("missing_base");
    reveal_strlit("cycle");
    reveal_strlit("bad");
    reveal_strlit("paused");
    assert("resolved"@.len() == 8 && "missing_base"@.len() == 12 && "cycle"@.len() == 5 && "bad"@.len() == 3
        && "paused"@.len() == 6);
    let t = tried(b, id);
    let r = solved(b.ground, b.used, Seq::empty(), id).0;
    get_of_put(b.resolutions, id, get(t.resolutions, id)->0, other);
    assert forall|x: ResolutionModel| #![trigger put(b.resolutions, id, x)]
        get(put(b.resolutions, id, x), id) == Some(x) && (other != id ==> get(
            put(b.resolutions, id, x),
            other,
        ) == get(b.resolutions, other)) by {
        get_of_put(b.resolutions, id, x, other);
    }
    assert forall|x: CandidateModel| #![trigger put(b.ground.candidates, id, x)]
        get(put(b.ground.candidates, id, x), id) == Some(x) && (other != id ==> get(
            put(b.ground.candidates, id, x),
            other,
        ) == get(b.ground.candidates, other)) by {
        get_of_put(b.ground.candidates, id, x, other);
    }
}

proof fn lemma_consumers(rows: Seq<(i64, CandidateModel)>, base: CandidateModel, n: nat, x: i64)
    requires
        n <= rows.len(),
    ensures
        consumers(rows, base, n).contains(x) <==> exists|i: int|
            0 <= i < n && (#[trigger] rows[i]).0 == x && consumes(rows[i].1, base),
    decreases n,
{
    if n > 0 {
        lemma_consumers(rows, base, (n - 1) as nat, x);
        let v = consumers(rows, base, (n - 1) as nat);
        lemma_into_has(v, rows[n - 1].0, x);
        if consumers(rows, base, n).contains(x) && v.contains(x) {
            let i = choose|i: int| 0 <= i < n - 1 && (#[trigger] rows[i]).0 == x && consumes(rows[i].1, base);
            assert(rows[i].0 == x);
        }
        if exists|i: int| 0 <= i < n && (#[trigger] rows[i]).0 == x && consumes(rows[i].1, base) {
            let i = choose|i: int| 0 <= i < n && (#[trigger] rows[i]).0 == x && consumes(rows[i].1, base);
            if i < n - 1 {
                assert(rows[i].0 == x);
            }
        }
    }
}

/// What is tried again because of a candidate are the deltas that name it as their base, and only
/// those.
pub proof fn deltas_on_a_candidate_are_tried_again(rows: Seq<(i64, CandidateModel)>, base: CandidateModel, x: i64)
    ensures
        consumers(rows, base, rows.len()).contains(x) <==> exists|i: int|
            0 <= i < rows.len() && (#[trigger] rows[i]).0 == x && (rows[i].1.obj_type == "ofs-delta"@ || (
            rows[i].1.obj_type == "ref-delta"@ && rows[i].1.ref_base_oid_hex is Some)) && names_as_base(rows[i].1, base),
{
    lemma_consumers(rows, base, rows.len(), x);
    lemma_delta_names();
    if consumers(rows, base, rows.len()).contains(x) {
        let i = choose|i: int| 0 <= i < rows.len() && (#[trigger] rows[i]).0 == x && consumes(rows[i].1, base);
        assert(names_as_base(rows[i].1, base));
    }
    if exists|i: int|
        0 <= i < rows.len() && (#[trigger] rows[i]).0 == x && (rows[i].1.obj_type == "ofs-delta"@ || (
        rows[i].1.obj_type == "ref-delta"@ && rows[i].1.ref_base_oid_hex is Some)) && names_as_base(rows[i].1, base) {
        let i = choose|i: int|
            0 <= i < rows.len() && (#[trigger] rows[i]).0 == x && (rows[i].1.obj_type == "ofs-delta"@ || (
            rows[i].1.obj_type == "ref-delta"@ && rows[i].1.ref_base_oid_hex is Some)) && names_as_base(rows[i].1, base);
        assert(consumes(rows[i].1, base));
    }
}

} // verus!
