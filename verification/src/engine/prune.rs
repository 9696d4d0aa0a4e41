//! Pins, and the deletion of sources.
use vstd::prelude::*;
use vstd::pervasive::unreached;
use crate::engine::inspect::{node_name, EdgeRec, EvidenceRec, NodeRec, ObjectRec, PackRec, StepRec, Tables};
use crate::model::assoc::{
    contains_id, del, get, has_key, keyed, lemma_keys_fit, lemma_row_key,
};
use crate::model::order::views;
use crate::model::text::{is_empty, push_int, push_part, same_text, texts};

verus! {

/// Rows that belong to a node.
pub trait OfNode: Sized {
    /// The row is one that a reset of the node takes away.
    spec fn goes_with(self, id: i64) -> bool;

    fn does_go_with(&self, id: i64) -> (r: bool)
        ensures
            r == self.goes_with(id),
    ;
}

impl OfNode for StepRec {
    open spec fn goes_with(self, id: i64) -> bool {
        self.node_id == id
    }

    fn does_go_with(&self, id: i64) -> (r: bool) {
        self.node_id == id
    }
}

impl OfNode for EvidenceRec {
    open spec fn goes_with(self, id: i64) -> bool {
        self.node_id == Some(id)
    }

    fn does_go_with(&self, id: i64) -> (r: bool) {
        self.node_id == Some(id)
    }
}

impl OfNode for ObjectRec {
    open spec fn goes_with(self, id: i64) -> bool {
        self.node_id == id && self.stage@ == "resolved"@
    }

    fn does_go_with(&self, id: i64) -> (r: bool) {
        self.node_id == id && same_text(self.stage.as_str(), "resolved")
    }
}

/// The rows without those that go with a node.
pub open spec fn kept<T: OfNode>(v: Seq<T>, id: i64) -> Seq<T>
    decreases v.len(),
{
    if v.len() == 0 {
        Seq::empty()
    } else if v.last().goes_with(id) {
        kept(v.drop_last(), id)
    } else {
        kept(v.drop_last(), id).push(v.last())
    }
}

fn keep<T: OfNode>(v: &mut Vec<T>, id: i64)
    ensures
        final(v)@ == kept(old(v)@, id),
{
    let ghost start = v@;
    let ghost mut k: int = 0;
    let mut i: usize = 0;
    proof {
        assert(start.take(0) =~= Seq::empty());
        assert(kept(start.take(0), id) + start.skip(0) =~= start);
    }
    while i < v.len()
        invariant
            0 <= k <= start.len(),
            i == kept(start.take(k), id).len(),
            i <= v@.len(),
            v@ == kept(start.take(k), id) + start.skip(k),
            v@.len() - i == start.len() - k,
        decreases v@.len() - i,
    {
        let ghost before = v@;
        proof {
            assert(start.take(k + 1).drop_last() =~= start.take(k));
            assert(start.take(k + 1).last() == start[k]);
            assert(before[i as int] == start[k]);
        }
        if v[i].does_go_with(id) {
            let _gone = v.remove(i);
            proof {
                assert(v@ =~= before.remove(i as int));
                assert(v@ =~= kept(start.take(k + 1), id) + start.skip(k + 1));
            }
        } else {
            i += 1;
            proof {
                assert(v@ =~= kept(start.take(k + 1), id) + start.skip(k + 1));
            }
        }
        proof {
            k = k + 1;
        }
    }
    proof {
        assert(start.take(k) =~= start);
        assert(v@ =~= kept(start, id));
    }
}

/// The model of what pins and resets change.
pub ghost struct Changing {
    pub nodes: Seq<(i64, NodeRec)>,
    pub objects: Seq<ObjectRec>,
    pub steps: Seq<StepRec>,
    pub evidence: Seq<EvidenceRec>,
}

impl Tables {
    /// What pins and resets change.
    pub open spec fn changing(&self) -> Changing {
        Changing {
            nodes: self.nodes@,
            objects: self.objects@,
            steps: self.steps@,
            evidence: self.evidence@,
        }
    }

    /// What pins and resets leave alone is the same.
    pub open spec fn rest_is(&self, other: Tables) -> bool {
        &&& self.sources == other.sources
        &&& self.packs == other.packs
        &&& self.edges == other.edges
        &&& self.index_files == other.index_files
        &&& self.limits == other.limits
    }
}

/// The nodes of an object without pins, or with a pin on one of them.
pub open spec fn pinned_to(nodes: Seq<(i64, NodeRec)>, oid: Seq<char>, node: Option<i64>) -> Seq<(i64, NodeRec)> {
    nodes.map_values(
        |r: (i64, NodeRec)|
            (
                r.0,
                NodeRec {
                    pinned: if node == Some(r.0) {
                        1
                    } else if r.1.oid@ == oid {
                        0
                    } else {
                        r.1.pinned
                    },
                    ..r.1
                },
            ),
    )
}

/// A node can be reset.
pub open spec fn is_settled(status: Seq<char>) -> bool {
    status == "resolved"@ || status == "blocked"@ || status == "paused"@ || status == "error"@
}

/// An edge leads from a node to an object.
pub open spec fn leads_to(edges: Seq<EdgeRec>, from: i64, oid: Seq<char>) -> bool {
    exists|i: int| 0 <= i < edges.len() && (#[trigger] edges[i]).from_node == from && edges[i].to_oid@ == oid
}

/// The settled nodes, among the first `n`, with an edge to an object, that are not yet reset.
pub open spec fn users_of(
    nodes: Seq<(i64, NodeRec)>,
    edges: Seq<EdgeRec>,
    oid: Seq<char>,
    reset: Seq<i64>,
    n: nat,
) -> Seq<(i64, Seq<char>)>
    decreases n,
{
    if n == 0 {
        Seq::empty()
    } else {
        let v = users_of(nodes, edges, oid, reset, (n - 1) as nat);
        let r = nodes[n - 1];
        if is_settled(r.1.status@) && leads_to(edges, r.0, oid) && !reset.contains(r.0) {
            v.push((r.0, r.1.oid@))
        } else {
            v
        }
    }
}

/// The numbers of a list.
pub open spec fn numbers(v: Seq<(i64, Seq<char>)>) -> Seq<i64> {
    v.map_values(|x: (i64, Seq<char>)| x.0)
}

/// The names of a list.
pub open spec fn names(v: Seq<(i64, Seq<char>)>) -> Seq<Seq<char>> {
    v.map_values(|x: (i64, Seq<char>)| x.1)
}

/// The nodes that were built on the objects of `frontier`, directly or through others, behind
/// those of `reset`.
pub open spec fn descendants(
    nodes: Seq<(i64, NodeRec)>,
    edges: Seq<EdgeRec>,
    frontier: Seq<Seq<char>>,
    reset: Seq<i64>,
) -> Seq<i64>
    decreases nodes.len() + 1 - reset.len(), frontier.len(),
{
    if frontier.len() == 0 {
        reset
    } else {
        let u = users_of(nodes, edges, frontier.last(), reset, nodes.len());
        let more = reset + numbers(u);
        if more.len() > nodes.len() {
            more
        } else {
            descendants(nodes, edges, frontier.drop_last() + names(u), more)
        }
    }
}

/// The rows without those that go with any of some nodes.
pub open spec fn kept_all<T: OfNode>(v: Seq<T>, ids: Seq<i64>) -> Seq<T>
    decreases ids.len(),
{
    if ids.len() == 0 {
        v
    } else {
        kept(kept_all(v, ids.drop_last()), ids.last())
    }
}

/// The nodes of `ids` are as before any run, the others as they were.
pub open spec fn are_reset(now: Seq<(i64, NodeRec)>, start: Seq<(i64, NodeRec)>, ids: Seq<i64>) -> bool {
    &&& now.len() == start.len()
    &&& forall|i: int|
        0 <= i < start.len() ==> if ids.contains(start[i].0) {
            is_pending(#[trigger] now[i], start[i])
        } else {
            now[i] == start[i]
        }
}

/// A node as it was before any run.
pub open spec fn pending(n: NodeRec, status: String) -> NodeRec {
    NodeRec { status, error_code: None, error_note: None, final_kind: None, ..n }
}

/// A row is another row as it was before any run.
pub open spec fn is_pending(a: (i64, NodeRec), b: (i64, NodeRec)) -> bool {
    a.0 == b.0 && a.1.status@ == "pending"@ && a.1 == pending(b.1, a.1.status)
}

#[derive(Debug)]
pub struct DependentObject {
    pub node_id: i64,
    pub oid: String,
    pub status: String,
    pub relation: String,
}

/// The model of a dependent object.
pub ghost struct DependentModel {
    pub node_id: i64,
    pub oid: Seq<char>,
    pub status: Seq<char>,
    pub relation: Seq<char>,
}

impl View for DependentObject {
    type V = DependentModel;

    open spec fn view(&self) -> DependentModel {
        DependentModel {
            node_id: self.node_id,
            oid: self.oid@,
            status: self.status@,
            relation: self.relation@,
        }
    }
}

/// The nodes of other sources, among the first `n` edges, that are built on a node.
pub open spec fn built_on(
    nodes: Seq<(i64, NodeRec)>,
    edges: Seq<EdgeRec>,
    id: i64,
    source: i64,
    n: nat,
) -> Seq<DependentModel>
    decreases n,
{
    if n == 0 {
        Seq::empty()
    } else {
        let v = built_on(nodes, edges, id, source, (n - 1) as nat);
        let e = edges[n - 1];
        match get(nodes, e.from_node) {
            Some(x) => if e.to_node == Some(id) && x.source_id != source {
                v.push(
                    DependentModel {
                        node_id: e.from_node,
                        oid: if x.oid@.len() == 0 {
                            "?"@
                        } else {
                            x.oid@
                        },
                        status: x.status@,
                        relation: "delta built on object from this source"@,
                    },
                )
            } else {
                v
            },
            None => v,
        }
    }
}

/// What depends on a source, as far as its nodes among the first `n` go: each node itself, and
/// then the nodes of other sources that are built on it.
pub open spec fn depending(nodes: Seq<(i64, NodeRec)>, edges: Seq<EdgeRec>, source: i64, n: nat) -> Seq<DependentModel>
    decreases n,
{
    if n == 0 {
        Seq::empty()
    } else {
        let v = depending(nodes, edges, source, (n - 1) as nat);
        let r = nodes[n - 1];
        if r.1.source_id == source {
            v.push(
                DependentModel {
                    node_id: r.0,
                    oid: node_name(r.0, r.1.oid@),
                    status: r.1.status@,
                    relation: "contained by source"@,
                },
            ) + built_on(nodes, edges, r.0, source, edges.len())
        } else {
            v
        }
    }
}

#[derive(Debug)]
pub struct DeleteCheck {
    pub source_id: i64,
    pub filename: String,
    pub can_delete: bool,
    pub dependent_objects: Vec<DependentObject>,
}

#[derive(Debug)]
pub struct DeleteReport {
    pub deleted_source: i64,
    pub removed_nodes: usize,
    pub blocked_after: Vec<String>,
}

#[derive(Debug)]
pub struct PinReport {
    pub oid: String,
    pub pinned_node: i64,
    pub reset_nodes: Vec<i64>,
}

/// The nodes without those of a source.
pub open spec fn nodes_without(v: Seq<(i64, NodeRec)>, source: i64) -> Seq<(i64, NodeRec)>
    decreases v.len(),
{
    if v.len() == 0 {
        Seq::empty()
    } else if v.last().1.source_id == source {
        nodes_without(v.drop_last(), source)
    } else {
        nodes_without(v.drop_last(), source).push(v.last())
    }
}

/// A pack without its index, when the index is a given source.
pub open spec fn is_unmatched(a: (i64, PackRec), b: (i64, PackRec), idx: i64) -> bool {
    if b.1.idx_source_id == Some(idx) {
        &&& a.0 == b.0
        &&& a.1.mismatch_note is Some
        &&& a.1.mismatch_note->0@ == "index removed"@
        &&& a.1 == PackRec {
            idx_source_id: None,
            matched: 0,
            mismatch_note: a.1.mismatch_note,
            ..b.1
        }
    } else {
        a == b
    }
}

impl Tables {
    fn set_pins(&mut self, oid: &str, node: Option<i64>)
        ensures
            final(self).changing() == (Changing {
                nodes: pinned_to(old(self).nodes@, oid@, node),
                ..old(self).changing()
            }),
            final(self).rest_is(*old(self)),
    {
        let ghost start = self.nodes@;
        let ghost all = pinned_to(start, oid@, node);
        let mut i: usize = 0;
        assert(all.take(0) + start.skip(0) =~= start);
        while i < self.nodes.len()
            invariant
                i <= start.len(),
                all == pinned_to(start, oid@, node),
                all.len() == start.len(),
                self.nodes@ == all.take(i as int) + start.skip(i as int),
                self.changing() == (Changing { nodes: self.nodes@, ..old(self).changing() }),
                self.rest_is(*old(self)),
            decreases start.len() - i,
        {
            let ghost before = self.nodes@;
            let id: i64 = self.nodes.key_at(i);
            let n = self.nodes.value_at(i);
            assert(before[i as int] == start[i as int]);
            let hit: bool = match node {
                Some(k) => k == id,
                None => false,
            };
            let pinned: i64 = if hit {
                1
            } else if same_text(n.oid.as_str(), oid) {
                0
            } else {
                n.pinned
            };
            let mut m = copy_node(n);
            m.pinned = pinned;
            assert(all[i as int] == (id, m));
            self.nodes.set_at(i, m);
            i += 1;
            assert(self.nodes@ =~= all.take(i as int) + start.skip(i as int));
        }
        assert(self.nodes@ =~= all);
    }

    fn is_user(&self, from: i64, oid: &str) -> (r: bool)
        ensures
            r == leads_to(self.edges@, from, oid@),
    {
        let mut i: usize = 0;
        while i < self.edges.len()
            invariant
                i <= self.edges@.len(),
                forall|j: int|
                    0 <= j < i ==> !((#[trigger] self.edges@[j]).from_node == from && self.edges@[j].to_oid@
                        == oid@),
            decreases self.edges@.len() - i,
        {
            if self.edges[i].from_node == from && same_text(self.edges[i].to_oid.as_str(), oid) {
                return true;
            }
            i += 1;
        }
        false
    }

    /// Lists the settled nodes with an edge to an object that are not yet reset.
    fn find_users(&self, oid: &str, reset: &Vec<i64>) -> (v: Vec<(i64, String)>)
        ensures
            v@.map_values(|x: (i64, String)| (x.0, x.1@)) == users_of(
                self.nodes@,
                self.edges@,
                oid@,
                reset@,
                self.nodes@.len(),
            ),
            v@.len() == users_of(self.nodes@, self.edges@, oid@, reset@, self.nodes@.len()).len(),
    {
        let mut v: Vec<(i64, String)> = Vec::new();
        let mut n: usize = 0;
        assert(v@.map_values(|x: (i64, String)| (x.0, x.1@)) =~= Seq::empty());
        while n < self.nodes.len()
            invariant
                n <= self.nodes@.len(),
                v@.map_values(|x: (i64, String)| (x.0, x.1@)) == users_of(
                    self.nodes@,
                    self.edges@,
                    oid@,
                    reset@,
                    n as nat,
                ),
            decreases self.nodes@.len() - n,
        {
            let id: i64 = self.nodes.key_at(n);
            let x = self.nodes.value_at(n);
            let status = x.status.as_str();
            let settled: bool = same_text(status, "resolved") || same_text(status, "blocked") || same_text(
                status,
                "paused",
            ) || same_text(status, "error");
            if settled && self.is_user(id, oid) && !contains_id(reset, id) {
                let ghost before = v@.map_values(|x: (i64, String)| (x.0, x.1@));
                let row = (id, x.oid.clone());
                v.push(row);
                assert(v@.map_values(|x: (i64, String)| (x.0, x.1@)) =~= before.push((row.0, row.1@)));
            }
            n += 1;
        }
        v
    }

    /// Takes back what runs made of a node.
    fn reset_node(&mut self, id: i64)
        requires
            keyed(old(self).nodes@),
        ensures
            are_reset(final(self).nodes@, old(self).nodes@, seq![id]),
            final(self).objects@ == kept(old(self).objects@, id),
            final(self).steps@ == kept(old(self).steps@, id),
            final(self).evidence@ == kept(old(self).evidence@, id),
            final(self).rest_is(*old(self)),
    {
        keep(&mut self.steps, id);
        keep(&mut self.evidence, id);
        keep(&mut self.objects, id);
        let ghost start = self.nodes@;
        let mut i: usize = 0;
        while i < self.nodes.len()
            invariant
                i <= start.len(),
                self.nodes@.len() == start.len(),
                start == old(self).nodes@,
                forall|j: int|
                    0 <= j < i ==> if start[j].0 == id {
                        is_pending(#[trigger] self.nodes@[j], start[j])
                    } else {
                        self.nodes@[j] == start[j]
                    },
                forall|j: int| i <= j < start.len() ==> #[trigger] self.nodes@[j] == start[j],
                self.objects@ == kept(old(self).objects@, id),
                self.steps@ == kept(old(self).steps@, id),
                self.evidence@ == kept(old(self).evidence@, id),
                self.rest_is(*old(self)),
            decreases start.len() - i,
        {
            assert(self.nodes@[i as int] == start[i as int]);
            if self.nodes.key_at(i) == id {
                let mut m = copy_node(self.nodes.value_at(i));
                m.status = "pending".to_owned();
                m.error_code = None;
                m.error_note = None;
                m.final_kind = None;
                self.nodes.set_at(i, m);
            }
            i += 1;
        }
        assert(forall|x: i64| #[trigger] seq![id].contains(x) <==> x == id) by {
            assert(seq![id][0] == id);
        }
    }

    /// Takes back what runs made of every node that was built on an object, directly or through
    /// others. Returns those nodes.
    fn reset_descendants(&mut self, oid: &str) -> (reset: Vec<i64>)
        requires
            keyed(old(self).nodes@),
        ensures
            reset@ == descendants(old(self).nodes@, old(self).edges@, seq![oid@], Seq::empty()),
            are_reset(final(self).nodes@, old(self).nodes@, reset@),
            final(self).objects@ == kept_all(old(self).objects@, reset@),
            final(self).steps@ == kept_all(old(self).steps@, reset@),
            final(self).evidence@ == kept_all(old(self).evidence@, reset@),
            final(self).rest_is(*old(self)),
    {
        let ghost start = self.nodes@;
        let ghost edges = self.edges@;
        let ghost all = descendants(start, edges, seq![oid@], Seq::empty());
        let mut frontier: Vec<String> = Vec::new();
        push_part(&mut frontier, oid.to_owned());
        assert(texts(frontier@) =~= seq![oid@]);
        let mut reset: Vec<i64> = Vec::new();
        while frontier.len() > 0
            invariant
                start == old(self).nodes@,
                edges == old(self).edges@,
                edges == self.edges@,
                keyed(start),
                all == descendants(start, edges, texts(frontier@), reset@),
                reset@.no_duplicates(),
                forall|i: int| 0 <= i < reset@.len() ==> has_key(start, #[trigger] reset@[i]),
                are_reset(self.nodes@, start, reset@),
                self.objects@ == kept_all(old(self).objects@, reset@),
                self.steps@ == kept_all(old(self).steps@, reset@),
                self.evidence@ == kept_all(old(self).evidence@, reset@),
                self.rest_is(*old(self)),
            decreases start.len() + 1 - reset@.len(), frontier@.len(),
        {
            proof {
                lemma_keys_fit(reset@, start);
            }
            let ghost stack = texts(frontier@);
            let ghost done = reset@;
            let k: usize = frontier.len();
            let target = match frontier.pop() {
                Some(t) => t,
                None => return unreached(),
            };
            assert(texts(frontier@) =~= stack.drop_last());
            assert(target@ == stack.last());
            let found = self.find_users(target.as_str(), &reset);
            let ghost u = users_of(start, edges, target@, done, start.len());
            proof {
                lemma_users_same(self.nodes@, start, edges, target@, done, start.len());
                lemma_users(start, edges, target@, done, start.len());
                assert(found@.map_values(|x: (i64, String)| (x.0, x.1@)) == u);
            }
            let mut i: usize = 0;
            proof {
                assert(numbers(u).take(0) =~= Seq::empty());
                assert(done + numbers(u).take(0) =~= done);
                assert(stack.drop_last() + names(u).take(0) =~= stack.drop_last());
            }
            while i < found.len()
                invariant
                    i <= found@.len(),
                    found@.len() == u.len(),
                    start == old(self).nodes@,
                    edges == self.edges@,
                    keyed(start),
                    forall|j: int| 0 <= j < u.len() ==> (#[trigger] found@[j]).0 == u[j].0 && found@[j].1@ == u[j].1,
                    reset@ == done + numbers(u).take(i as int),
                    texts(frontier@) == stack.drop_last() + names(u).take(i as int),
                    (done + numbers(u)).no_duplicates(),
                    forall|j: int| 0 <= j < u.len() ==> has_key(start, (#[trigger] u[j]).0),
                    are_reset(self.nodes@, start, reset@),
                    self.objects@ == kept_all(old(self).objects@, reset@),
                    self.steps@ == kept_all(old(self).steps@, reset@),
                    self.evidence@ == kept_all(old(self).evidence@, reset@),
                    self.rest_is(*old(self)),
                decreases found@.len() - i,
            {
                let nid: i64 = found[i].0;
                let ghost before = self.nodes@;
                let ghost list = reset@;
                assert(nid == u[i as int].0);
                proof {
                    lemma_same_keys(before, start, list);
                }
                self.reset_node(nid);
                reset.push(nid);
                proof {
                    assert(reset@ =~= done + numbers(u).take(i + 1));
                    assert(reset@.drop_last() =~= list);
                    assert(!list.contains(nid)) by {
                        if list.contains(nid) {
                            let a = choose|a: int| 0 <= a < list.len() && list[a] == nid;
                            let w = done + numbers(u);
                            assert(w[a] == list[a]);
                            assert(w[done.len() + i] == nid);
                        }
                    }
                    lemma_reset_more(before, self.nodes@, start, list, nid);
                }
                push_part(&mut frontier, found[i].1.clone());
                i += 1;
                assert(texts(frontier@) =~= stack.drop_last() + names(u).take(i as int));
            }
            proof {
                assert(numbers(u).take(i as int) =~= numbers(u));
                assert(names(u).take(i as int) =~= names(u));
                assert forall|j: int| 0 <= j < reset@.len() implies has_key(start, #[trigger] reset@[j]) by {
                    if j >= done.len() {
                        assert(reset@[j] == u[j - done.len()].0);
                    } else {
                        assert(reset@[j] == done[j]);
                    }
                }
                lemma_keys_fit(reset@, start);
            }
        }
        reset
    }

    /// Pins an object to one of its candidates, and takes back what was built on the object.
    pub fn pin_candidate(&mut self, node_id: i64) -> (r: PinReport)
        requires
            has_key(old(self).nodes@, node_id),
            keyed(old(self).nodes@),
        ensures
            r.oid@ == (get(old(self).nodes@, node_id)->0).oid@,
            r.pinned_node == node_id,
            ({
                let pinned = pinned_to(old(self).nodes@, r.oid@, Some(node_id));
                &&& r.reset_nodes@ == descendants(pinned, old(self).edges@, seq![r.oid@], Seq::empty())
                &&& are_reset(final(self).nodes@, pinned, r.reset_nodes@)
            }),
            final(self).objects@ == kept_all(old(self).objects@, r.reset_nodes@),
            final(self).steps@ == kept_all(old(self).steps@, r.reset_nodes@),
            final(self).evidence@ == kept_all(old(self).evidence@, r.reset_nodes@),
            final(self).rest_is(*old(self)),
    {
        let oid = match self.nodes.get(node_id) {
            Some(n) => n.oid.clone(),
            None => return unreached(),
        };
        self.set_pins(oid.as_str(), Some(node_id));
        let reset_nodes = self.reset_descendants(oid.as_str());
        PinReport { oid, pinned_node: node_id, reset_nodes }
    }

    /// Takes the pins of an object back.
    pub fn unpin_oid(&mut self, oid: &str)
        ensures
            final(self).changing() == (Changing {
                nodes: pinned_to(old(self).nodes@, oid@, None),
                ..old(self).changing()
            }),
            final(self).rest_is(*old(self)),
    {
        self.set_pins(oid, None);
    }

    /// What a deletion of a source would concern.
    pub fn delete_source_check(&self, source_id: i64) -> (c: DeleteCheck)
        ensures
            c.source_id == source_id,
            c.filename@ == match get(self.sources@, source_id) {
                Some(s) => s.filename@,
                None => ""@,
            },
            views(c.dependent_objects@) == depending(
                self.nodes@,
                self.edges@,
                source_id,
                self.nodes@.len(),
            ),
            c.can_delete == (c.dependent_objects@.len() == 0),
    {
        let filename = match self.sources.get(source_id) {
            Some(s) => s.filename.clone(),
            None => "".to_owned(),
        };
        let mut out: Vec<DependentObject> = Vec::new();
        let mut n: usize = 0;
        assert(views(out@) =~= Seq::empty());
        while n < self.nodes.len()
            invariant
                n <= self.nodes@.len(),
                views(out@) == depending(self.nodes@, self.edges@, source_id, n as nat),
            decreases self.nodes@.len() - n,
        {
            let id: i64 = self.nodes.key_at(n);
            let x = self.nodes.value_at(n);
            if x.source_id == source_id {
                let oid = if is_empty(x.oid.as_str()) {
                    let mut s = "node#".to_owned();
                    push_int(&mut s, id);
                    s
                } else {
                    x.oid.clone()
                };
                let ghost before = views(out@);
                let d = DependentObject {
                    node_id: id,
                    oid,
                    status: x.status.clone(),
                    relation: "contained by source".to_owned(),
                };
                out.push(d);
                assert(views(out@) =~= before.push(d@));
                let ghost head = views(out@);
                let mut k: usize = 0;
                assert(head + built_on(self.nodes@, self.edges@, id, source_id, 0) =~= head);
                while k < self.edges.len()
                    invariant
                        k <= self.edges@.len(),
                        views(out@) == head + built_on(
                            self.nodes@,
                            self.edges@,
                            id,
                            source_id,
                            k as nat,
                        ),
                    decreases self.edges@.len() - k,
                {
                    let e = &self.edges[k];
                    if let Some(y) = self.nodes.get(e.from_node) {
                        if e.to_node == Some(id) && y.source_id != source_id {
                            let name = if is_empty(y.oid.as_str()) {
                                "?".to_owned()
                            } else {
                                y.oid.clone()
                            };
                            let ghost now = views(out@);
                            let d = DependentObject {
                                node_id: e.from_node,
                                oid: name,
                                status: y.status.clone(),
                                relation: "delta built on object from this source".to_owned(),
                            };
                            out.push(d);
                            assert(views(out@) =~= now.push(d@));
                        }
                    }
                    k += 1;
                    assert(views(out@) =~= head + built_on(
                        self.nodes@,
                        self.edges@,
                        id,
                        source_id,
                        k as nat,
                    ));
                }
            }
            n += 1;
        }
        let can_delete: bool = out.len() == 0;
        DeleteCheck { source_id, filename, can_delete, dependent_objects: out }
    }

    fn drop_nodes(&mut self, source: i64) -> (n: usize)
        ensures
            final(self).nodes@ == nodes_without(old(self).nodes@, source),
            n + final(self).nodes@.len() == old(self).nodes@.len(),
            final(self).changing() == (Changing {
                nodes: final(self).nodes@,
                ..old(self).changing()
            }),
            final(self).rest_is(*old(self)),
    {
        let ghost start = self.nodes@;
        let ghost mut k: int = 0;
        let mut i: usize = 0;
        let mut gone: usize = 0;
        let total: usize = self.nodes.len();
        proof {
            assert(start.take(0) =~= Seq::empty());
            assert(nodes_without(start.take(0), source) + start.skip(0) =~= start);
        }
        while i < self.nodes.len()
            invariant
                0 <= k <= start.len(),
                start.len() == total,
                gone == k - i,
                i == nodes_without(start.take(k), source).len(),
                i <= self.nodes@.len(),
                self.nodes@ == nodes_without(start.take(k), source) + start.skip(k),
                self.nodes@.len() - i == start.len() - k,
                self.changing() == (Changing { nodes: self.nodes@, ..old(self).changing() }),
                self.rest_is(*old(self)),
            decreases self.nodes@.len() - i,
        {
            let ghost before = self.nodes@;
            proof {
                assert(start.take(k + 1).drop_last() =~= start.take(k));
                assert(start.take(k + 1).last() == start[k]);
                assert(before[i as int] == start[k]);
            }
            if self.nodes.value_at(i).source_id == source {
                self.nodes.remove_at(i);
                gone += 1;
                assert(self.nodes@ =~= nodes_without(start.take(k + 1), source) + start.skip(k + 1));
            } else {
                i += 1;
                assert(self.nodes@ =~= nodes_without(start.take(k + 1), source) + start.skip(k + 1));
            }
            proof {
                k = k + 1;
            }
        }
        proof {
            assert(start.take(k) =~= start);
            assert(self.nodes@ =~= nodes_without(start, source));
        }
        gone
    }

    fn unmatch_packs(&mut self, idx: i64)
        ensures
            final(self).packs@.len() == old(self).packs@.len(),
            forall|i: int|
                0 <= i < old(self).packs@.len() ==> is_unmatched(
                    #[trigger] final(self).packs@[i],
                    old(self).packs@[i],
                    idx,
                ),
            final(self).changing() == old(self).changing(),
            final(self).sources == old(self).sources,
            final(self).edges == old(self).edges,
            final(self).index_files == old(self).index_files,
            final(self).limits == old(self).limits,
    {
        let ghost start = self.packs@;
        let mut i: usize = 0;
        while i < self.packs.len()
            invariant
                i <= start.len(),
                self.packs@.len() == start.len(),
                start == old(self).packs@,
                forall|j: int|
                    0 <= j < i ==> is_unmatched(#[trigger] self.packs@[j], start[j], idx),
                forall|j: int| i <= j < start.len() ==> #[trigger] self.packs@[j] == start[j],
                self.changing() == old(self).changing(),
                self.sources == old(self).sources,
                self.edges == old(self).edges,
                self.index_files == old(self).index_files,
                self.limits == old(self).limits,
            decreases start.len() - i,
        {
            let p = self.packs.value_at(i);
            assert(self.packs@[i as int] == start[i as int]);
            let hit: bool = match p.idx_source_id {
                Some(k) => k == idx,
                None => false,
            };
            if hit {
                let q = PackRec {
                    source_id: p.source_id,
                    version: p.version,
                    object_count: p.object_count,
                    trailer_oid: p.trailer_oid.clone(),
                    computed_checksum: p.computed_checksum.clone(),
                    matched: 0,
                    idx_source_id: None,
                    idx_checksum_ok: p.idx_checksum_ok,
                    mismatch_note: Some("index removed".to_owned()),
                };
                self.packs.set_at(i, q);
            }
            i += 1;
        }
    }

    /// Deletes a source, its nodes and, for an index, the match with its pack. Without `force`
    /// nothing is deleted while something depends on the source.
    pub fn delete_source(&mut self, source_id: i64, force: bool) -> (r: DeleteReport)
        requires
            has_key(old(self).sources@, source_id),
        ensures
            ({
                let dependent = depending(
                    old(self).nodes@,
                    old(self).edges@,
                    source_id,
                    old(self).nodes@.len(),
                );
                if !force && dependent.len() > 0 {
                    &&& r.deleted_source == 0
                    &&& r.removed_nodes == 0
                    &&& *final(self) == *old(self)
                } else {
                    &&& r.deleted_source == source_id
                    &&& final(self).nodes@ == nodes_without(old(self).nodes@, source_id)
                    &&& r.removed_nodes + final(self).nodes@.len() == old(self).nodes@.len()
                    &&& final(self).sources@ == del(old(self).sources@, source_id)
                    &&& final(self).packs@.len() == old(self).packs@.len()
                    &&& if (get(old(self).sources@, source_id)->0).kind@ == "idx"@ {
                        forall|i: int|
                            0 <= i < old(self).packs@.len() ==> is_unmatched(
                                #[trigger] final(self).packs@[i],
                                old(self).packs@[i],
                                source_id,
                            )
                    } else {
                        final(self).packs@ == old(self).packs@
                    }
                    &&& final(self).changing() == Changing {
                        nodes: final(self).nodes@,
                        ..old(self).changing()
                    }
                    &&& final(self).edges == old(self).edges
                    &&& final(self).index_files == old(self).index_files
                    &&& final(self).limits == old(self).limits
                }
            }),
            r.blocked_after@.len() == 0,
    {
        let check = self.delete_source_check(source_id);
        if !force && !check.can_delete {
            return DeleteReport { deleted_source: 0, removed_nodes: 0, blocked_after: Vec::new() };
        }
        let index: bool = match self.sources.get(source_id) {
            Some(s) => same_text(s.kind.as_str(), "idx"),
            None => false,
        };
        let removed_nodes: usize = self.drop_nodes(source_id);
        if index {
            self.unmatch_packs(source_id);
        }
        self.sources.remove(source_id);
        DeleteReport { deleted_source: source_id, removed_nodes, blocked_after: Vec::new() }
    }
}

proof fn lemma_same_keys(now: Seq<(i64, NodeRec)>, start: Seq<(i64, NodeRec)>, ids: Seq<i64>)
    requires
        are_reset(now, start, ids),
        keyed(start),
    ensures
        keyed(now),
        forall|i: int| 0 <= i < start.len() ==> (#[trigger] now[i]).0 == start[i].0,
{
    assert forall|i: int| 0 <= i < start.len() implies (#[trigger] now[i]).0 == start[i].0 by {}
}

proof fn lemma_reset_more(
    before: Seq<(i64, NodeRec)>,
    now: Seq<(i64, NodeRec)>,
    start: Seq<(i64, NodeRec)>,
    ids: Seq<i64>,
    id: i64,
)
    requires
        are_reset(before, start, ids),
        are_reset(now, before, seq![id]),
        !ids.contains(id),
    ensures
        are_reset(now, start, ids.push(id)),
{
    assert(forall|x: i64| #[trigger] seq![id].contains(x) <==> x == id) by {
        assert(seq![id][0] == id);
    }
    assert forall|x: i64| #[trigger] ids.push(id).contains(x) <==> ids.contains(x) || x == id by {
        if ids.contains(x) {
            let n = choose|n: int| 0 <= n < ids.len() && ids[n] == x;
            assert(ids.push(id)[n] == x);
        }
        if x == id {
            assert(ids.push(id)[ids.len() as int] == x);
        }
        if ids.push(id).contains(x) && x != id {
            let n = choose|n: int| 0 <= n < ids.push(id).len() && ids.push(id)[n] == x;
            assert(ids[n] == x);
        }
    }
    assert forall|i: int| 0 <= i < start.len() implies if ids.push(id).contains(start[i].0) {
        is_pending(#[trigger] now[i], start[i])
    } else {
        now[i] == start[i]
    } by {
        assert(before[i].0 == start[i].0);
    }
}

/// A reset node is settled no more, and the others have the status they had.
proof fn lemma_users_same(
    now: Seq<(i64, NodeRec)>,
    start: Seq<(i64, NodeRec)>,
    edges: Seq<EdgeRec>,
    oid: Seq<char>,
    reset: Seq<i64>,
    n: nat,
)
    requires
        are_reset(now, start, reset),
        n <= start.len(),
    ensures
        users_of(now, edges, oid, reset, n) == users_of(start, edges, oid, reset, n),
    decreases n,
{
    if n > 0 {
        lemma_users_same(now, start, edges, oid, reset, (n - 1) as nat);
        let a = now[n - 1];
        let b = start[n - 1];
        assert(a.0 == b.0);
    }
}

proof fn lemma_users(nodes: Seq<(i64, NodeRec)>, edges: Seq<EdgeRec>, oid: Seq<char>, reset: Seq<i64>, n: nat)
    requires
        keyed(nodes),
        n <= nodes.len(),
        reset.no_duplicates(),
    ensures
        ({
            let u = users_of(nodes, edges, oid, reset, n);
            &&& (reset + numbers(u)).no_duplicates()
            &&& forall|j: int| 0 <= j < u.len() ==> has_key(nodes, (#[trigger] u[j]).0)
            &&& forall|j: int|
                0 <= j < u.len() ==> exists|i: int| 0 <= i < n && nodes[i].0 == (#[trigger] u[j]).0
        }),
    decreases n,
{
    let u = users_of(nodes, edges, oid, reset, n);
    if n == 0 {
        assert(reset + numbers(u) =~= reset);
    } else {
        lemma_users(nodes, edges, oid, reset, (n - 1) as nat);
        let t = users_of(nodes, edges, oid, reset, (n - 1) as nat);
        let r = nodes[n - 1];
        lemma_row_key(nodes, n - 1);
        assert forall|j: int| 0 <= j < u.len() implies exists|i: int|
            0 <= i < n && nodes[i].0 == (#[trigger] u[j]).0 by {
            if j < t.len() {
                assert(u[j] == t[j]);
                let i = choose|i: int| 0 <= i < n - 1 && nodes[i].0 == t[j].0;
                assert(nodes[i].0 == u[j].0);
            } else {
                assert(nodes[n - 1].0 == u[j].0);
            }
        }
        if u.len() > t.len() {
            let w = reset + numbers(t);
            assert(reset + numbers(u) =~= w.push(r.0));
            assert(!w.contains(r.0)) by {
                if w.contains(r.0) {
                    let a = choose|a: int| 0 <= a < w.len() && w[a] == r.0;
                    if a < reset.len() {
                        assert(reset[a] == r.0);
                    } else {
                        let j = a - reset.len();
                        assert(t[j].0 == r.0);
                        let i = choose|i: int| 0 <= i < n - 1 && nodes[i].0 == t[j].0;
                        assert(nodes[i].0 != nodes[n - 1].0);
                    }
                }
            }
            assert forall|x: int, y: int|
                0 <= x < w.push(r.0).len() && 0 <= y < w.push(r.0).len() && x != y implies w.push(r.0)[x]
                != w.push(r.0)[y] by {
                if x == w.len() {
                    assert(w.contains(w[y]));
                } else if y == w.len() {
                    assert(w.contains(w[x]));
                }
            }
        }
    }
}

fn copy_node(n: &NodeRec) -> (m: NodeRec)
    ensures
        m == *n,
{
    NodeRec {
        oid: n.oid.clone(),
        kind: n.kind.clone(),
        final_kind: n.final_kind.clone(),
        status: n.status.clone(),
        error_code: n.error_code.clone(),
        error_note: n.error_note.clone(),
        source_id: n.source_id,
        pack_id: n.pack_id,
        pack_offset: n.pack_offset,
        zlib_start: n.zlib_start,
        entry_end: n.entry_end,
        declared_size: n.declared_size,
        base_offset: n.base_offset,
        base_oid: n.base_oid.clone(),
        resolve_depth: n.resolve_depth,
        idx_crc: n.idx_crc,
        computed_crc: n.computed_crc,
        crc_ok: n.crc_ok,
        pinned: n.pinned,
    }
}

proof fn lemma_built_on(nodes: Seq<(i64, NodeRec)>, edges: Seq<EdgeRec>, id: i64, source: i64, n: nat, x: i64)
    requires
        n <= edges.len(),
    ensures
        (exists|k: int|
            0 <= k < built_on(nodes, edges, id, source, n).len() && (#[trigger] built_on(
                nodes,
                edges,
                id,
                source,
                n,
            )[k]).node_id == x) <==> (exists|i: int|
            0 <= i < n && (#[trigger] edges[i]).from_node == x && edges[i].to_node == Some(id)) && (get(nodes, x)
            is Some && (get(nodes, x)->0).source_id != source),
    decreases n,
{
    if n > 0 {
        lemma_built_on(nodes, edges, id, source, (n - 1) as nat, x);
        let v = built_on(nodes, edges, id, source, (n - 1) as nat);
        let w = built_on(nodes, edges, id, source, n);
        let e = edges[n - 1];
        assert(forall|k: int| 0 <= k < v.len() ==> #[trigger] w[k] == v[k]);
        if exists|k: int| 0 <= k < w.len() && (#[trigger] w[k]).node_id == x {
            let k = choose|k: int| 0 <= k < w.len() && (#[trigger] w[k]).node_id == x;
            if k < v.len() {
                assert(v[k].node_id == x);
                let i = choose|i: int| 0 <= i < n - 1 && (#[trigger] edges[i]).from_node == x && edges[i].to_node == Some(id);
                assert(0 <= i < n && edges[i].from_node == x);
            } else {
                assert(edges[n - 1].from_node == x);
            }
        }
        if (exists|i: int| 0 <= i < n && (#[trigger] edges[i]).from_node == x && edges[i].to_node == Some(id)) && (get(
            nodes,
            x,
        ) is Some && (get(nodes, x)->0).source_id != source) {
            let i = choose|i: int| 0 <= i < n && (#[trigger] edges[i]).from_node == x && edges[i].to_node == Some(id);
            if i < n - 1 {
                let k = choose|k: int| 0 <= k < v.len() && (#[trigger] v[k]).node_id == x;
                assert(w[k].node_id == x);
            } else {
                assert(w[w.len() - 1].node_id == x);
            }
        }
    }
}

proof fn lemma_depending(nodes: Seq<(i64, NodeRec)>, edges: Seq<EdgeRec>, source: i64, n: nat)
    requires
        n <= nodes.len(),
    ensures
        depending(nodes, edges, source, n).len() == 0 <==> forall|i: int|
            0 <= i < n ==> (#[trigger] nodes[i]).1.source_id != source,
    decreases n,
{
    if n > 0 {
        lemma_depending(nodes, edges, source, (n - 1) as nat);
        assert(nodes[n - 1].1.source_id == source || nodes[n - 1].1.source_id != source);
    }
}

proof fn lemma_depending_lists(
    nodes: Seq<(i64, NodeRec)>,
    edges: Seq<EdgeRec>,
    source: i64,
    n: nat,
    i: int,
    j: int,
)
    requires
        0 <= i < n <= nodes.len(),
        nodes[i].1.source_id == source,
        0 <= j < edges.len(),
        edges[j].to_node == Some(nodes[i].0),
        get(nodes, edges[j].from_node) is Some,
        (get(nodes, edges[j].from_node)->0).source_id != source,
    ensures
        exists|k: int|
            0 <= k < depending(nodes, edges, source, n).len() && (#[trigger] depending(nodes, edges, source, n)[k]).node_id
                == edges[j].from_node,
    decreases n,
{
    let x = edges[j].from_node;
    let w = depending(nodes, edges, source, n);
    let v = depending(nodes, edges, source, (n - 1) as nat);
    let r = nodes[n - 1];
    if i == n - 1 {
        lemma_built_on(nodes, edges, r.0, source, edges.len(), x);
        let b = built_on(nodes, edges, r.0, source, edges.len());
        assert(edges[j].from_node == x);
        let k = choose|k: int| 0 <= k < b.len() && (#[trigger] b[k]).node_id == x;
        assert(w[v.len() + 1 + k] == b[k]);
    } else {
        lemma_depending_lists(nodes, edges, source, (n - 1) as nat, i, j);
        let k = choose|k: int| 0 <= k < v.len() && (#[trigger] v[k]).node_id == x;
        assert(w[k] == v[k]);
    }
}

/// A source with a node is held back without force. A node of another source that an edge says was
/// built on a node of the source is listed among what depends on it.
pub proof fn what_was_built_on_a_source_holds_it(nodes: Seq<(i64, NodeRec)>, edges: Seq<EdgeRec>, source: i64)
    ensures
        depending(nodes, edges, source, nodes.len()).len() == 0 <==> forall|i: int|
            0 <= i < nodes.len() ==> (#[trigger] nodes[i]).1.source_id != source,
        forall|i: int, j: int|
            0 <= i < nodes.len() && 0 <= j < edges.len() && (#[trigger] nodes[i]).1.source_id == source
                && (#[trigger] edges[j]).to_node == Some(nodes[i].0) && get(nodes, edges[j].from_node) is Some && (get(
                nodes,
                edges[j].from_node,
            )->0).source_id != source ==> exists|k: int|
                0 <= k < depending(nodes, edges, source, nodes.len()).len() && (#[trigger] depending(
                    nodes,
                    edges,
                    source,
                    nodes.len(),
                )[k]).node_id == edges[j].from_node,
{
    lemma_depending(nodes, edges, source, nodes.len());
    assert forall|i: int, j: int|
        0 <= i < nodes.len() && 0 <= j < edges.len() && (#[trigger] nodes[i]).1.source_id == source
            && (#[trigger] edges[j]).to_node == Some(nodes[i].0) && get(nodes, edges[j].from_node) is Some && (get(
            nodes,
            edges[j].from_node,
        )->0).source_id != source implies exists|k: int|
            0 <= k < depending(nodes, edges, source, nodes.len()).len() && (#[trigger] depending(
                nodes,
                edges,
                source,
                nodes.len(),
            )[k]).node_id == edges[j].from_node by {
        lemma_depending_lists(nodes, edges, source, nodes.len(), i, j);
    }
}

/// Without a source, exactly the nodes of the other sources are left, in their order.
pub proof fn deleting_leaves_the_other_nodes(v: Seq<(i64, NodeRec)>, source: i64)
    ensures
        forall|i: int|
            0 <= i < nodes_without(v, source).len() ==> (#[trigger] nodes_without(v, source)[i]).1.source_id != source
                && v.contains(nodes_without(v, source)[i]),
        forall|j: int|
            0 <= j < v.len() && (#[trigger] v[j]).1.source_id != source ==> nodes_without(v, source).contains(v[j]),
    decreases v.len(),
{
    if v.len() > 0 {
        let t = v.drop_last();
        deleting_leaves_the_other_nodes(t, source);
        let w = nodes_without(t, source);
        let u = nodes_without(v, source);
        assert forall|i: int| 0 <= i < u.len() implies (#[trigger] u[i]).1.source_id != source && v.contains(u[i]) by {
            if i < w.len() {
                assert(u[i] == w[i]);
                assert(t.contains(w[i]));
                let k = choose|k: int| 0 <= k < t.len() && t[k] == w[i];
                assert(v[k] == u[i]);
            } else {
                assert(u[i] == v[v.len() - 1]);
            }
        }
        assert forall|j: int| 0 <= j < v.len() && (#[trigger] v[j]).1.source_id != source implies u.contains(v[j]) by {
            if j < t.len() {
                assert(t[j] == v[j]);
                assert(w.contains(t[j]));
                let k = choose|k: int| 0 <= k < w.len() && w[k] == t[j];
                assert(u[k] == v[j]);
            } else {
                assert(u[u.len() - 1] == v[j]);
            }
        }
    }
}

} // verus!
