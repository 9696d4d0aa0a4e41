//! Budgets, resumption, deletion and branches.
use vstd::prelude::*;
use vstd::string::StringExecFns;
use vstd::utf8::encode_utf8;
use crate::analyze::graph::text_opt;
use crate::kernel::engine::candidates::{
    close_over, closed_under, contains_text_in, dependents, lemma_contains_push,
};
use crate::kernel::engine::import::reconciled;
use crate::kernel::engine::publish::{claims_rebuilt, node_ids, reset_nodes, resolved_all};
use crate::kernel::engine::rows::{
    empty_engine, evidence_models, source_models, Budget, BudgetView, Engine, EngineModel, NodeState,
    SourceModel,
};
use crate::model::assoc::{del, get, has_key, put, TextMap};
use crate::model::sort::{bytes_less, sort_texts};
use crate::model::text::{push_part, same_text, texts};

verus! {

/// How much a counter has grown.
pub open spec fn grown(after: u64, before: u64) -> u64 {
    if after >= before {
        (after - before) as u64
    } else {
        0
    }
}

/// The ids of the paused nodes among the first `n`.
pub open spec fn paused_ids(e: EngineModel, n: nat) -> Seq<Seq<char>>
    decreases n,
{
    if n == 0 {
        Seq::empty()
    } else {
        let v = paused_ids(e, (n - 1) as nat);
        if e.nodes[n - 1].1.state is Paused {
            v.push(e.nodes[n - 1].1.id)
        } else {
            v
        }
    }
}

/// The engine with the paused nodes, and what depends on them, tried again.
pub open spec fn resumed(e: EngineModel) -> EngineModel {
    let seeds = paused_ids(e, e.nodes.len());
    if seeds.len() == 0 {
        e
    } else {
        let affected = dependents(e.edges, seeds.to_set(), Set::empty());
        resolved_all(claims_rebuilt(reset_nodes(e, affected)), Some(affected))
    }
}

/// The ids of the nodes of a source among the first `n`.
pub open spec fn own_ids(e: EngineModel, source: Seq<char>, n: nat) -> Seq<Seq<char>>
    decreases n,
{
    if n == 0 {
        Seq::empty()
    } else {
        let v = own_ids(e, source, (n - 1) as nat);
        if e.nodes[n - 1].1.source_id == source {
            v.push(e.nodes[n - 1].1.id)
        } else {
            v
        }
    }
}

/// The nodes of other sources that depend on a source.
pub open spec fn outside_dependents(e: EngineModel, source: Seq<char>) -> Set<Seq<char>> {
    let own = own_ids(e, source, e.nodes.len()).to_set();
    dependents(e.edges, own, Set::empty()).difference(own)
}

/// Whether a node is a resolved object.
pub open spec fn is_object(e: EngineModel, id: Seq<char>) -> bool {
    get(e.nodes, id) matches Some(n) && n.state is Resolved
}

/// The resolved objects of other sources that depend on a source.
pub open spec fn dependent_objects(e: EngineModel, source: Seq<char>) -> Set<Seq<char>> {
    outside_dependents(e, source).filter(|id: Seq<char>| is_object(e, id))
}

/// `v` lists a set: each member once, in the order of its UTF-8 bytes.
pub open spec fn lists(v: Seq<Seq<char>>, s: Set<Seq<char>>) -> bool {
    &&& v.to_set() == s
    &&& v.no_duplicates()
    &&& forall|i: int, j: int|
        0 <= i < j < v.len() ==> !bytes_less(encode_utf8(#[trigger] v[j]), encode_utf8(#[trigger] v[i]))
}

/// The engine without a node.
pub open spec fn without_node(e: EngineModel, id: Seq<char>) -> EngineModel {
    EngineModel {
        contents: del(e.contents, id),
        found: del(e.found, id),
        claimed: del(e.claimed, id),
        edges: del(e.edges, id),
        missing_edges: del(e.missing_edges, id),
        charged: del(e.charged, id),
        charged_total: match get(e.charged, id) {
            Some(c) => grown(e.charged_total, c),
            None => e.charged_total,
        },
        nodes: del(e.nodes, id),
        ..e
    }
}

/// The engine without the first `n` nodes of a list.
pub open spec fn without_nodes(e: EngineModel, ids: Seq<Seq<char>>, n: nat) -> EngineModel
    decreases n,
{
    if n == 0 {
        e
    } else {
        without_node(without_nodes(e, ids, (n - 1) as nat), ids[n - 1])
    }
}

/// The sources without one.
pub open spec fn sources_without(v: Seq<SourceModel>, id: Seq<char>) -> Seq<SourceModel>
    decreases v.len(),
{
    if v.len() == 0 {
        Seq::empty()
    } else if v.last().id == id {
        sources_without(v.drop_last(), id)
    } else {
        sources_without(v.drop_last(), id).push(v.last())
    }
}

/// The engine without a source: its nodes are gone, and what depended on it is tried again.
pub open spec fn without_source(e: EngineModel, source: Seq<char>) -> EngineModel {
    let own = own_ids(e, source, e.nodes.len());
    let affected = dependents(e.edges, outside_dependents(e, source), own.to_set());
    let r = reset_nodes(e, affected);
    let cleared = without_nodes(
        EngineModel {
            packs: del(r.packs, source),
            idxs: del(r.idxs, source),
            looses: del(r.looses, source),
            ..r
        },
        own,
        own.len(),
    );
    let left = EngineModel { sources: sources_without(cleared.sources, source), ..cleared };
    resolved_all(claims_rebuilt(reconciled(left)), Some(affected))
}

/// The engine with every node tried again.
pub open spec fn tried_again(e: EngineModel) -> EngineModel {
    resolved_all(claims_rebuilt(reset_nodes(e, node_ids(e).to_set())), None)
}

impl Engine {
    pub fn new() -> (e: Engine)
        ensures
            e@ == empty_engine(),
    {
        let e = Engine {
            sources: Vec::new(),
            packs: TextMap::new(),
            idxs: TextMap::new(),
            looses: TextMap::new(),
            nodes: TextMap::new(),
            contents: TextMap::new(),
            evidence: Vec::new(),
            claimed: TextMap::new(),
            found: TextMap::new(),
            edges: TextMap::new(),
            missing_edges: TextMap::new(),
            charged: TextMap::new(),
            charged_total: 0,
            budget: Budget::default(),
            branches: TextMap::new(),
            active_branch: None,
            pins: TextMap::new(),
            seq: 0,
            recompute_runs: 0,
            recomputed_nodes: 0,
        };
        assert(source_models(e.sources@) =~= Seq::empty());
        assert(evidence_models(e.evidence@) =~= Seq::empty());
        e
    }

    pub fn budget(&self) -> (b: BudgetView)
        ensures
            b == (BudgetView {
                max_depth: self@.budget.max_depth,
                total_bytes: self@.budget.total_bytes,
                single_cap: self@.budget.single_cap,
                charged_bytes: self@.charged_total,
            }),
    {
        BudgetView {
            max_depth: self.budget.max_depth,
            total_bytes: self.budget.total_bytes,
            single_cap: self.budget.single_cap,
            charged_bytes: self.charged_total,
        }
    }

    pub fn set_budget(&mut self, budget: Budget)
        ensures
            final(self)@ == (EngineModel { budget, ..old(self)@ }),
    {
        self.budget = budget;
    }

    /// Retries paused chains after the budget has been raised. Only paused subgraphs (and their
    /// dependents) are reset and recomputed. Returns the number of recomputed nodes.
    pub fn resume(&mut self) -> (n: u64)
        ensures
            final(self)@ == resumed(old(self)@),
            n == grown(final(self)@.recomputed_nodes, old(self)@.recomputed_nodes),
    {
        let ghost e = self@;
        let before: u64 = self.recomputed_nodes;
        let mut seeds: Vec<String> = Vec::new();
        let mut i: usize = 0;
        assert(texts(seeds@) =~= Seq::empty());
        while i < self.nodes.len()
            invariant
                i <= e.nodes.len(),
                e == self@,
                texts(seeds@) == paused_ids(e, i as nat),
            decreases e.nodes.len() - i,
        {
            let n = self.nodes.value_at(i);
            assert(n.deep_view() == e.nodes[i as int].1);
            if let NodeState::Paused { .. } = &n.state {
                push_part(&mut seeds, n.id.clone());
            }
            i += 1;
        }
        if seeds.len() == 0 {
            return 0;
        }
        let none: Vec<String> = Vec::new();
        let affected = close_over(&self.edges, &seeds, &none);
        proof {
            assert(texts(none@).to_set() =~= Set::empty());
        }
        self.reset_subtree(&affected);
        self.rebuild_claims();
        self.resolve_all(Some(&affected));
        if self.recomputed_nodes >= before {
            self.recomputed_nodes - before
        } else {
            0
        }
    }

    fn ids_of_source(&self, source: &str) -> (v: Vec<String>)
        ensures
            texts(v@) == own_ids(self@, source@, self@.nodes.len()),
    {
        let mut v: Vec<String> = Vec::new();
        let mut i: usize = 0;
        assert(texts(v@) =~= Seq::empty());
        while i < self.nodes.len()
            invariant
                i <= self@.nodes.len(),
                texts(v@) == own_ids(self@, source@, i as nat),
            decreases self@.nodes.len() - i,
        {
            let n = self.nodes.value_at(i);
            assert(n.deep_view() == self@.nodes[i as int].1);
            if same_text(n.source_id.as_str(), source) {
                push_part(&mut v, n.id.clone());
            }
            i += 1;
        }
        v
    }

    /// Returns the ids of resolved objects that still depend on a source and would disappear if it
    /// were deleted.
    pub fn dependents_of_source(&self, source_id: &str) -> (v: Vec<String>)
        ensures
            lists(texts(v@), dependent_objects(self@, source_id@)),
    {
        let all = self.outside_ids(source_id);
        let ghost a = texts(all@);
        let mut v: Vec<String> = Vec::new();
        let mut i: usize = 0;
        while i < all.len()
            invariant
                i <= all@.len(),
                a == texts(all@),
                lists(a, outside_dependents(self@, source_id@)),
                texts(v@).no_duplicates(),
                forall|x: Seq<char>| #[trigger]
                    texts(v@).contains(x) <==> a.take(i as int).contains(x) && is_object(self@, x),
                forall|j: int, k: int|
                    0 <= j < k < v@.len() ==> !bytes_less(
                        encode_utf8(#[trigger] texts(v@)[k]),
                        encode_utf8(#[trigger] texts(v@)[j]),
                    ),
            decreases all@.len() - i,
        {
            let ghost now = texts(v@);
            let ghost name = a[i as int];
            proof {
                lemma_contains_push(a.take(i as int), name);
                assert(a.take(i + 1) =~= a.take(i as int).push(name));
                lemma_contains_push(now, name);
                assert(!a.take(i as int).contains(name)) by {
                    if a.take(i as int).contains(name) {
                        let k = choose|k: int| 0 <= k < i && a.take(i as int)[k] == name;
                        assert(a[k] == a[i as int]);
                    }
                }
                assert forall|j: int| 0 <= j < now.len() implies !bytes_less(
                    encode_utf8(name),
                    encode_utf8(#[trigger] now[j]),
                ) by {
                    assert(now.contains(now[j]));
                    let k = choose|k: int| 0 <= k < i && a.take(i as int)[k] == now[j];
                    assert(a[k] == now[j]);
                }
            }
            assert(all@[i as int]@ == name);
            let resolved: bool = match self.nodes.get(all[i].as_str()) {
                Some(n) => match n.state {
                    NodeState::Resolved { .. } => true,
                    _ => false,
                },
                None => false,
            };
            if resolved {
                push_part(&mut v, all[i].clone());
            }
            i += 1;
        }
        proof {
            assert(a.take(i as int) =~= a);
            let d = dependent_objects(self@, source_id@);
            assert forall|x: Seq<char>| texts(v@).to_set().contains(x) == d.contains(x) by {
                assert(a.to_set().contains(x) <==> a.contains(x));
                assert(texts(v@).contains(x) <==> a.contains(x) && is_object(self@, x));
            }
            assert(texts(v@).to_set() =~= d);
        }
        v
    }

    /// The ids of all nodes of other sources that depend on a source.
    fn outside_ids(&self, source_id: &str) -> (v: Vec<String>)
        ensures
            lists(texts(v@), outside_dependents(self@, source_id@)),
    {
        let own = self.ids_of_source(source_id);
        let none: Vec<String> = Vec::new();
        let all = close_over(&self.edges, &own, &none);
        proof {
            assert(texts(none@).to_set() =~= Set::empty());
        }
        let ghost a = texts(all@);
        let ghost o = texts(own@);
        let mut out: Vec<String> = Vec::new();
        let mut i: usize = 0;
        while i < all.len()
            invariant
                i <= all@.len(),
                a == texts(all@),
                o == texts(own@),
                a.no_duplicates(),
                texts(out@).no_duplicates(),
                forall|x: Seq<char>| #[trigger]
                    texts(out@).contains(x) <==> a.take(i as int).contains(x) && !o.contains(x),
            decreases all@.len() - i,
        {
            let ghost now = texts(out@);
            let ghost name = a[i as int];
            proof {
                lemma_contains_push(a.take(i as int), name);
                assert(a.take(i + 1) =~= a.take(i as int).push(name));
                lemma_contains_push(now, name);
                assert(!a.take(i as int).contains(name)) by {
                    if a.take(i as int).contains(name) {
                        let k = choose|k: int| 0 <= k < i && a.take(i as int)[k] == name;
                        assert(a[k] == a[i as int]);
                    }
                }
            }
            assert(all@[i as int]@ == name);
            if !contains_text_in(&own, all[i].as_str()) {
                push_part(&mut out, all[i].clone());
            }
            i += 1;
        }
        let v = sort_texts(&out);
        proof {
            assert(a.take(i as int) =~= a);
            let d = outside_dependents(self@, source_id@);
            assert forall|x: Seq<char>| texts(v@).to_set().contains(x) == d.contains(x) by {
                assert(texts(v@).contains(x) <==> texts(out@).contains(x));
                assert(a.to_set().contains(x) <==> a.contains(x));
                assert(o.to_set().contains(x) <==> o.contains(x));
            }
            assert(texts(v@).to_set() =~= d);
        }
        v
    }

    fn drop_node(&mut self, id: &str)
        ensures
            final(self)@ == without_node(old(self)@, id@),
    {
        self.contents.remove(id);
        self.found.remove(id);
        self.claimed.remove(id);
        self.edges.remove(id);
        self.missing_edges.remove(id);
        let charge: Option<u64> = match self.charged.get(id) {
            Some(c) => Some(*c),
            None => None,
        };
        if let Some(c) = charge {
            self.charged_total = if self.charged_total >= c {
                self.charged_total - c
            } else {
                0
            };
        }
        self.charged.remove(id);
        self.nodes.remove(id);
    }

    fn drop_source(&mut self, id: &str)
        ensures
            final(self)@ == (EngineModel {
                sources: sources_without(old(self)@.sources, id@),
                ..old(self)@
            }),
    {
        let ghost start = self@.sources;
        let ghost mut k: int = 0;
        let mut i: usize = 0;
        proof {
            assert(start.take(0) =~= Seq::empty());
            assert(sources_without(start.take(0), id@) + start.skip(0) =~= start);
        }
        while i < self.sources.len()
            invariant
                0 <= k <= start.len(),
                i == sources_without(start.take(k), id@).len(),
                i <= self.sources@.len(),
                self@.sources == sources_without(start.take(k), id@) + start.skip(k),
                self@.sources.len() - i == start.len() - k,
                self@ == (EngineModel { sources: self@.sources, ..old(self)@ }),
            decreases self.sources@.len() - i,
        {
            let ghost before = self@.sources;
            proof {
                assert(start.take(k + 1).drop_last() =~= start.take(k));
                assert(start.take(k + 1).last() == start[k]);
                assert(before[i as int] == start[k]);
                assert(before[i as int] == self.sources@[i as int]@);
            }
            if same_text(self.sources[i].id.as_str(), id) {
                let _gone = self.sources.remove(i);
                proof {
                    assert(self@.sources =~= before.remove(i as int));
                    assert(self@.sources =~= sources_without(start.take(k + 1), id@) + start.skip(k + 1));
                }
            } else {
                i += 1;
                proof {
                    assert(self@.sources =~= sources_without(start.take(k + 1), id@) + start.skip(k + 1));
                }
            }
            proof {
                k = k + 1;
            }
        }
        proof {
            assert(start.take(k) =~= start);
            assert(self@.sources =~= sources_without(start, id@));
        }
    }

    /// Deletes an imported source. When `force` is false and other objects still depend on it,
    /// nothing changes and the dependent ids come back.
    pub fn delete_source(&mut self, source_id: &str, force: bool) -> (r: Result<u64, (u64, Vec<String>)>)
        ensures
            match r {
                Ok(n) => {
                    &&& force || dependent_objects(old(self)@, source_id@) == Set::<Seq<char>>::empty()
                    &&& final(self)@ == without_source(old(self)@, source_id@)
                    &&& n == grown(final(self)@.recomputed_nodes, old(self)@.recomputed_nodes)
                },
                Err((n, ids)) => {
                    &&& !force
                    &&& n == 0
                    &&& ids@.len() > 0
                    &&& lists(texts(ids@), dependent_objects(old(self)@, source_id@))
                    &&& final(self)@ == old(self)@
                },
            },
    {
        let ghost e = self@;
        let deps = self.dependents_of_source(source_id);
        if !force && deps.len() > 0 {
            return Err((0, deps));
        }
        proof {
            let d = dependent_objects(e, source_id@);
            if deps@.len() == 0 {
                assert(d =~= Set::empty()) by {
                    assert forall|x: Seq<char>| !d.contains(x) by {
                        assert(texts(deps@).to_set().contains(x) == d.contains(x));
                    }
                }
            }
        }
        let own = self.ids_of_source(source_id);
        let before: u64 = self.recomputed_nodes;
        let outside = self.outside_ids(source_id);
        let affected = close_over(&self.edges, &outside, &own);
        self.reset_subtree(&affected);
        self.packs.remove(source_id);
        self.idxs.remove(source_id);
        self.looses.remove(source_id);
        let ghost r = self@;
        let mut i: usize = 0;
        while i < own.len()
            invariant
                i <= own@.len(),
                self@ == without_nodes(r, texts(own@), i as nat),
            decreases own@.len() - i,
        {
            assert(texts(own@)[i as int] == own@[i as int]@);
            self.drop_node(own[i].as_str());
            i += 1;
        }
        self.drop_source(source_id);
        self.reconcile_idxs();
        self.rebuild_claims();
        self.resolve_all(Some(&affected));
        Ok(
            if self.recomputed_nodes >= before {
                self.recomputed_nodes - before
            } else {
                0
            },
        )
    }

    /// Keeps the pins of a branch: object id to node id.
    pub fn save_branch(&mut self, name: &str, pins: TextMap<String>)
        ensures
            final(self)@ == (EngineModel {
                branches: put(old(self)@.branches, name@, pins@),
                ..old(self)@
            }),
    {
        self.branches.insert(name.to_owned(), pins);
    }

    fn try_again(&mut self)
        ensures
            final(self)@ == tried_again(old(self)@),
    {
        let ids = self.list_ids();
        self.reset_subtree(&ids);
        self.rebuild_claims();
        self.resolve_all(None);
    }

    /// Chooses a branch. Pins change the edges that are chosen, so everything is tried again.
    pub fn set_branch(&mut self, name: Option<String>) -> (r: Result<(), String>)
        ensures
            match r {
                Ok(_) => {
                    &&& name is Some ==> has_key(old(self)@.branches, name->0@)
                    &&& final(self)@ == tried_again(
                        EngineModel { active_branch: text_opt(name), ..old(self)@ },
                    )
                },
                Err(m) => {
                    &&& name is Some
                    &&& !has_key(old(self)@.branches, name->0@)
                    &&& m@ == "unknown branch "@ + name->0@
                    &&& final(self)@ == old(self)@
                },
            },
    {
        if let Some(n) = &name {
            if !self.branches.contains(n.as_str()) {
                let mut m = "unknown branch ".to_owned();
                m.append(n.as_str());
                return Err(m);
            }
        }
        self.active_branch = name;
        self.try_again();
        Ok(())
    }

    /// Pins an object to a node, or takes the pin back, and tries everything again.
    pub fn set_ephemeral_pin(&mut self, oid_hex: &str, node_id: Option<String>)
        ensures
            final(self)@ == tried_again(
                EngineModel {
                    pins: match node_id {
                        Some(n) => put(old(self)@.pins, oid_hex@, n@),
                        None => del(old(self)@.pins, oid_hex@),
                    },
                    ..old(self)@
                },
            ),
    {
        match node_id {
            Some(n) => {
                self.pins.insert(oid_hex.to_owned(), n);
            },
            None => {
                self.pins.remove(oid_hex);
            },
        }
        self.try_again();
    }

    pub fn active_branch(&self) -> (r: Option<&str>)
        ensures
            match r {
                Some(s) => self@.active_branch == Some(s@),
                None => self@.active_branch is None,
            },
    {
        match &self.active_branch {
            Some(s) => Some(s.as_str()),
            None => None,
        }
    }

    pub fn branches(&self) -> (r: &TextMap<TextMap<String>>)
        ensures
            r@ == self@.branches,
    {
        &self.branches
    }
}

/// A node was built on another.
pub open spec fn was_built_on(edges: Seq<(Seq<char>, Seq<Seq<char>>)>, a: Seq<char>, b: Seq<char>) -> bool {
    exists|i: int| 0 <= i < edges.len() && (#[trigger] edges[i]).0 == a && edges[i].1.contains(b)
}

/// Each node of `c` was built on the next one.
pub open spec fn is_descent(edges: Seq<(Seq<char>, Seq<Seq<char>>)>, c: Seq<Seq<char>>) -> bool {
    forall|k: int| 0 <= k < c.len() - 1 ==> was_built_on(edges, #[trigger] c[k], c[k + 1])
}

/// A node of the source has an id.
pub open spec fn is_own(e: EngineModel, source: Seq<char>, x: Seq<char>) -> bool {
    exists|i: int| 0 <= i < e.nodes.len() && (#[trigger] e.nodes[i]).1.id == x && e.nodes[i].1.source_id == source
}

proof fn lemma_own_ids(e: EngineModel, source: Seq<char>, n: nat, x: Seq<char>)
    requires
        n <= e.nodes.len(),
    ensures
        own_ids(e, source, n).contains(x) <==> exists|i: int|
            0 <= i < n && (#[trigger] e.nodes[i]).1.id == x && e.nodes[i].1.source_id == source,
    decreases n,
{
    if n > 0 {
        lemma_own_ids(e, source, (n - 1) as nat, x);
        let v = own_ids(e, source, (n - 1) as nat);
        lemma_contains_push(v, e.nodes[n - 1].1.id);
        assert(e.nodes[n - 1].1.id == e.nodes[n - 1].1.id);
    }
}

proof fn lemma_descends(e: EngineModel, source: Seq<char>, c: Seq<Seq<char>>, s: Set<Seq<char>>)
    requires
        c.len() > 0,
        is_descent(e.edges, c),
        is_own(e, source, c.last()),
        own_ids(e, source, e.nodes.len()).to_set().subset_of(s),
        closed_under(e.edges, Set::empty(), s),
    ensures
        s.contains(c[0]),
    decreases c.len(),
{
    if c.len() == 1 {
        lemma_own_ids(e, source, e.nodes.len(), c[0]);
        assert(own_ids(e, source, e.nodes.len()).to_set().contains(c[0]));
    } else {
        let t = c.skip(1);
        assert forall|k: int| 0 <= k < t.len() - 1 implies was_built_on(e.edges, #[trigger] t[k], t[k + 1]) by {
            assert(was_built_on(e.edges, c[k + 1], c[k + 2]));
        }
        assert(t.last() == c.last());
        lemma_descends(e, source, t, s);
        assert(was_built_on(e.edges, c[0], c[1]));
        let i = choose|i: int|
            0 <= i < e.edges.len() && (#[trigger] e.edges[i]).0 == c[0] && e.edges[i].1.contains(c[1]);
        let row = e.edges[i].1;
        let j = choose|j: int| 0 <= j < row.len() && row[j] == c[1];
        assert(e.edges[i].1[j] == t[0]);
        assert(s.contains(e.edges[i].1[j]));
        assert(s.contains(e.edges[i].0));
    }
}

/// A resolved object holds a source back exactly when it is not of the source itself and was built,
/// directly or through others, on one of its nodes.
pub proof fn objects_hold_the_sources_they_were_built_on(e: EngineModel, source: Seq<char>, x: Seq<char>)
    ensures
        dependent_objects(e, source).contains(x) <==> (get(e.nodes, x) matches Some(n) && n.state is Resolved)
            && !is_own(e, source, x) && exists|c: Seq<Seq<char>>|
            c.len() > 0 && c[0] == x && #[trigger] is_descent(e.edges, c) && is_own(e, source, c.last()),
{
    let own = own_ids(e, source, e.nodes.len());
    let seeds = own.to_set();
    let none = Set::<Seq<char>>::empty();
    lemma_own_ids(e, source, e.nodes.len(), x);
    assert(seeds.contains(x) <==> is_own(e, source, x));
    let reach = Set::new(
        |y: Seq<char>|
            exists|c: Seq<Seq<char>>|
                c.len() > 0 && c[0] == y && #[trigger] is_descent(e.edges, c) && is_own(e, source, c.last()),
    );
    if dependents(e.edges, seeds, none).contains(x) {
        assert forall|y: Seq<char>| seeds.contains(y) implies reach.contains(y) by {
            lemma_own_ids(e, source, e.nodes.len(), y);
            let c = seq![y];
            assert(is_descent(e.edges, c));
            assert(c.last() == y);
        }
        assert forall|i: int, j: int|
            0 <= i < e.edges.len() && 0 <= j < e.edges[i].1.len() && reach.contains(#[trigger] e.edges[i].1[j])
                && !none.contains(e.edges[i].1[j]) implies reach.contains(e.edges[i].0) by {
            let b = e.edges[i].1[j];
            let c = choose|c: Seq<Seq<char>>|
                c.len() > 0 && c[0] == b && #[trigger] is_descent(e.edges, c) && is_own(e, source, c.last());
            let d = seq![e.edges[i].0] + c;
            assert(e.edges[i].1.contains(b));
            assert(was_built_on(e.edges, e.edges[i].0, b));
            assert forall|m: int| 0 <= m < d.len() - 1 implies was_built_on(e.edges, #[trigger] d[m], d[m + 1]) by {
                if m > 0 {
                    assert(was_built_on(e.edges, c[m - 1], c[m]));
                    assert(d[m] == c[m - 1] && d[m + 1] == c[m]);
                } else {
                    assert(d[1] == c[0]);
                }
            }
            assert(is_descent(e.edges, d));
            assert(d[0] == e.edges[i].0);
            assert(d.last() == c.last());
        }
        assert(closed_under(e.edges, none, reach));
        assert(seeds.subset_of(reach));
        assert(reach.contains(x));
    }
    if exists|c: Seq<Seq<char>>|
        c.len() > 0 && c[0] == x && #[trigger] is_descent(e.edges, c) && is_own(e, source, c.last()) {
        let c = choose|c: Seq<Seq<char>>|
            c.len() > 0 && c[0] == x && #[trigger] is_descent(e.edges, c) && is_own(e, source, c.last());
        assert forall|s: Set<Seq<char>>| seeds.subset_of(s) && #[trigger] closed_under(e.edges, none, s) implies
            s.contains(x) by {
            lemma_descends(e, source, c, s);
        }
    }
}

} // verus!
