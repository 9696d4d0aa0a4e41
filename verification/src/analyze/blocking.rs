//! Human-readable blocking chains for unresolved objects.
use vstd::prelude::*;
use vstd::string::StringExecFns;
use crate::analyze::graph::{best, CandidateNode, Graph, GraphModel, NodeModel};
use crate::model::assoc::{contains_id, get};
use crate::model::text::{byte_prefix, dec_int, is_empty, join, joined, push_byte_prefix, push_int, push_part, texts};

verus! {

/// The eight bytes of an oid that stand for it in a chain.
pub open spec fn short_oid(oid: Seq<char>) -> Seq<char> {
    if oid.len() == 0 {
        "?"@
    } else {
        byte_prefix(oid, 8)->0
    }
}

/// The name of a candidate in a chain.
pub open spec fn label_of(g: GraphModel, id: i64) -> Seq<char> {
    match get(g.nodes, id) {
        Some(n) => n.kind_name + "("@ + short_oid(n.oid) + ")@"@ + n.locator,
        None => "candidate#"@ + dec_int(id as int),
    }
}

/// Every oid is empty or can be cut after eight bytes.
pub open spec fn oids_can_be_cut(g: GraphModel) -> bool {
    forall|i: int|
        0 <= i < g.nodes.len() ==> (#[trigger] g.nodes[i]).1.oid.len() == 0 || byte_prefix(
            g.nodes[i].1.oid,
            8,
        ) is Some
}

/// The base of a candidate; nothing when it has none, a message when it is missing.
pub open spec fn base_link(g: GraphModel, n: NodeModel) -> Result<Option<i64>, Seq<char>> {
    match n.base_offset {
        Some(offset) => match get(g.by_pack_offset, (n.source_id, offset)) {
            Some(id) => Ok(Some(id)),
            None => Err(
                "missing ofs-base@pack-offset "@ + dec_int(offset as int) + " (source "@ + dec_int(
                    n.source_id as int,
                ) + ")"@,
            ),
        },
        None => match n.base_ref {
            Some(oid) => match best(g, oid) {
                Some(b) => Ok(Some(b.id)),
                None => Err("missing ref-base "@ + oid),
            },
            None => Ok(None),
        },
    }
}

/// The parts of a chain that has come to `id` after `hops` links.
pub open spec fn walked(g: GraphModel, id: i64, seen: Seq<i64>, out: Seq<Seq<char>>, hops: nat) -> Seq<Seq<char>>
    decreases 201 - hops,
{
    if seen.contains(id) {
        out.push(label_of(g, id) + " (cycle)"@)
    } else {
        let out = out.push(label_of(g, id));
        match get(g.nodes, id) {
            None => out.push("missing-candidate"@),
            Some(n) => match n.parse_error {
                Some(e) => out.push("error: "@ + e),
                None => match base_link(g, n) {
                    Err(m) => out.push(m),
                    Ok(None) => out,
                    Ok(Some(next)) => if hops + 1 > 200 {
                        out.push("chain too long"@)
                    } else {
                        walked(g, next, seen.push(id), out, hops + 1)
                    },
                },
            },
        }
    }
}

/// The blocking chain of a candidate.
pub open spec fn chain_text(g: GraphModel, id: i64) -> Seq<char> {
    joined(walked(g, id, Seq::empty(), Seq::empty(), 0), " -> "@)
}

fn label(graph: &Graph, id: i64) -> (s: String)
    requires
        oids_can_be_cut(graph@),
    ensures
        s@ == label_of(graph@, id),
{
    match graph.nodes.get(id) {
        Some(n) => {
            let mut s = n.kind_name.clone();
            s.append("(");
            if is_empty(n.oid.as_str()) {
                s.append("?");
            } else {
                proof {
                    crate::model::assoc::lemma_row(graph@.nodes, id);
                    let k = crate::model::assoc::row_of(graph@.nodes, id) as int;
                    assert(graph@.nodes[k].1 == n.deep_view());
                }
                push_byte_prefix(&mut s, n.oid.as_str(), 8);
            }
            s.append(")@");
            s.append(n.locator.as_str());
            s
        },
        None => {
            let mut s = "candidate#".to_owned();
            push_int(&mut s, id);
            s
        },
    }
}

fn next_base(graph: &Graph, node: &CandidateNode) -> (r: Result<Option<i64>, String>)
    ensures
        match r {
            Ok(b) => base_link(graph@, node.deep_view()) == Ok::<Option<i64>, Seq<char>>(b),
            Err(m) => base_link(graph@, node.deep_view()) == Err::<Option<i64>, Seq<char>>(m@),
        },
{
    if let Some(offset) = node.base_offset {
        return match graph.at_pack_offset(node.source_id, offset) {
            Some(id) => Ok(Some(id)),
            None => {
                let mut m = "missing ofs-base@pack-offset ".to_owned();
                push_int(&mut m, offset);
                m.append(" (source ");
                push_int(&mut m, node.source_id);
                m.append(")");
                Err(m)
            },
        };
    }
    if let Some(oid) = &node.base_ref {
        return match graph.best_for(oid.as_str()) {
            Some(n) => Ok(Some(n.id)),
            None => {
                let mut m = "missing ref-base ".to_owned();
                m.append(oid.as_str());
                Err(m)
            },
        };
    }
    Ok(None)
}

/// Describes why `id` cannot be reconstructed: walks its delta base links and
/// stops at the first missing/failed dependency. Cycles are rendered once.
pub fn blocking_chain(graph: &Graph, id: i64) -> (s: String)
    requires
        oids_can_be_cut(graph@),
    ensures
        s@ == chain_text(graph@, id),
{
    let mut out: Vec<String> = Vec::new();
    let mut seen: Vec<i64> = Vec::new();
    let mut cur: i64 = id;
    let mut hops: usize = 0;
    let mut open: bool = true;
    assert(texts(out@) =~= Seq::empty());
    assert(seen@ =~= Seq::empty());
    let ghost all = walked(graph@, id, Seq::empty(), Seq::empty(), 0);
    while open
        invariant
            oids_can_be_cut(graph@),
            hops <= 200,
            open ==> all == walked(graph@, cur, seen@, texts(out@), hops as nat),
            !open ==> all == texts(out@),
        decreases 201 - hops, if open { 1int } else { 0int },
    {
        if contains_id(&seen, cur) {
            let mut s = label(graph, cur);
            s.append(" (cycle)");
            push_part(&mut out, s);
            open = false;
        } else {
            seen.push(cur);
            push_part(&mut out, label(graph, cur));
            match graph.nodes.get(cur) {
                None => {
                    push_part(&mut out, "missing-candidate".to_owned());
                    open = false;
                },
                Some(node) => {
                    if let Some(err) = &node.parse_error {
                        let mut s = "error: ".to_owned();
                        s.append(err.as_str());
                        push_part(&mut out, s);
                        open = false;
                    } else {
                        match next_base(graph, node) {
                            Ok(Some(next)) => {
                                if hops + 1 > 200 {
                                    push_part(&mut out, "chain too long".to_owned());
                                    open = false;
                                } else {
                                    cur = next;
                                    hops += 1;
                                }
                            },
                            Ok(None) => {
                                open = false;
                            },
                            Err(missing) => {
                                push_part(&mut out, missing);
                                open = false;
                            },
                        }
                    }
                },
            }
        }
    }
    join(&out, " -> ")
}

/// A chain is walked to its end in a bounded number of steps.
pub proof fn chains_are_bounded(g: GraphModel, id: i64, seen: Seq<i64>, out: Seq<Seq<char>>, hops: nat)
    requires
        hops <= 200,
    ensures
        walked(g, id, seen, out, hops).len() <= out.len() + (202 - hops),
    decreases 201 - hops,
{
    if !seen.contains(id) && hops < 200 {
        if let Some(n) = get(g.nodes, id) {
            if let Ok(Some(next)) = base_link(g, n) {
                chains_are_bounded(g, next, seen.push(id), out.push(label_of(g, id)), hops + 1);
            }
        }
    }
}

/// The name of a candidate, or its name with a note that it came before.
pub open spec fn is_label(s: Seq<char>, g: GraphModel, id: i64) -> bool {
    s == label_of(g, id) || s == label_of(g, id) + " (cycle)"@
}

proof fn lemma_walk_goes_on(g: GraphModel, id: i64, seen: Seq<i64>, out: Seq<Seq<char>>, hops: nat)
    ensures
        ({
            let w = walked(g, id, seen, out, hops);
            &&& w.len() > out.len()
            &&& forall|i: int| 0 <= i < out.len() ==> #[trigger] w[i] == out[i]
            &&& is_label(w[out.len() as int], g, id)
        }),
    decreases 201 - hops,
{
    if !seen.contains(id) {
        let next = out.push(label_of(g, id));
        if let Some(n) = get(g.nodes, id) {
            if n.parse_error is None {
                if let Ok(Some(b)) = base_link(g, n) {
                    if hops + 1 <= 200 {
                        lemma_walk_goes_on(g, b, seen.push(id), next, hops + 1);
                        let w = walked(g, b, seen.push(id), next, hops + 1);
                        assert forall|i: int| 0 <= i < out.len() implies #[trigger] w[i] == out[i] by {
                            assert(w[i] == next[i]);
                        }
                        assert(w[out.len() as int] == next[out.len() as int]);
                    }
                }
            }
        }
    }
}

/// A chain starts with its candidate. It ends there when the candidate stands on nothing, says what is
/// wrong when its bytes are, names the base that is missing, and goes on with the base that is there: the
/// one at the offset, or the best one of the object id.
pub proof fn a_chain_tells_what_blocks(g: GraphModel, id: i64, n: NodeModel)
    requires
        get(g.nodes, id) == Some(n),
    ensures
        ({
            let w = walked(g, id, Seq::empty(), Seq::empty(), 0);
            &&& w[0] == label_of(g, id)
            &&& n.parse_error is Some ==> w.len() == 2 && w[1] == "error: "@ + n.parse_error->0
            &&& n.parse_error is None && n.base_offset is None && n.base_ref is None ==> w.len() == 1
            &&& n.parse_error is None && n.base_offset is Some ==> match get(
                g.by_pack_offset,
                (n.source_id, n.base_offset->0),
            ) {
                Some(b) => w.len() > 1 && is_label(w[1], g, b),
                None => w.len() == 2 && w[1] == "missing ofs-base@pack-offset "@ + dec_int(n.base_offset->0 as int)
                    + " (source "@ + dec_int(n.source_id as int) + ")"@,
            }
            &&& n.parse_error is None && n.base_offset is None && n.base_ref is Some ==> match best(g, n.base_ref->0) {
                Some(b) => w.len() > 1 && is_label(w[1], g, b.id),
                None => w.len() == 2 && w[1] == "missing ref-base "@ + n.base_ref->0,
            }
        }),
{
    let none = Seq::<i64>::empty();
    assert(!none.contains(id));
    let out = Seq::<Seq<char>>::empty().push(label_of(g, id));
    lemma_walk_goes_on(g, id, none, Seq::empty(), 0);
    if n.parse_error is None {
        if let Ok(Some(b)) = base_link(g, n) {
            lemma_walk_goes_on(g, b, none.push(id), out, 1);
            let w = walked(g, b, none.push(id), out, 1);
            assert(w[0] == out[0]);
        }
    }
}

} // verus!
