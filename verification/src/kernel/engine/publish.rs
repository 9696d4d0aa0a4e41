//! Runs over all nodes, what they publish, and what is taken back before a new run.
use vstd::prelude::*;
use vstd::string::StringExecFns;
use crate::analyze::graph::{copy_opt, text_opt};
use crate::kernel::engine::candidates::contains_text_in;
use crate::kernel::engine::chain::{
    cap_sum, capped, id_of, id_of_hex, noted, read_hex_id, visited, visits_only_record, ChainOutcome,
    CtxModel, OutModel, PauseModel, PauseRow, RunCtx, RunModel, RunResult,
};
use crate::kernel::engine::rows::{
    copy_steps, Claim, ClaimModel, Engine, EngineModel, NodeModel, NodeState, Oids, StateModel,
};
use crate::kernel::git::{git_object_id, GitType};
use crate::model::assoc::{del, get, get_of_put, has_key, lemma_put_existing, lemma_row_key, put, TextMap};
use crate::model::outside::hex_encode;
use crate::model::sort::{sort_texts, sorted_texts};
use crate::model::text::{hex, push_part, same_text, texts};

verus! {

/// The last base that was recorded for a node.
pub open spec fn last_base(e: EngineModel, node: Seq<char>) -> Option<Seq<char>> {
    match get(e.edges, node) {
        Some(v) => if v.len() > 0 {
            Some(v.last())
        } else {
            None
        },
        None => None,
    }
}

/// The nodes that a failure at `id` goes back to, after those of `chain`. It ends at a node
/// without a base, at the node where it began, or at 256 nodes.
pub open spec fn blockers(e: EngineModel, id: Seq<char>, cur: Option<Seq<char>>, chain: Seq<Seq<char>>) -> Seq<Seq<char>>
    decreases 257 - chain.len(),
{
    match cur {
        None => chain,
        Some(node) => {
            let v = chain.push(node);
            if v.len() > 256 {
                v
            } else if last_base(e, node) == Some(id) {
                v.push(id + " (cycle)"@)
            } else {
                blockers(e, id, last_base(e, node), v)
            }
        },
    }
}

/// The nodes that a failure at `id` goes back to.
pub open spec fn blocker_chain_of(e: EngineModel, id: Seq<char>) -> Seq<Seq<char>> {
    blockers(e, id, Some(id), Seq::empty())
}

/// The engine with an object id added to those of a node.
pub open spec fn more_found(e: EngineModel, id: Seq<char>, oid: Seq<u8>) -> EngineModel {
    let v = match get(e.found, id) {
        Some(v) => v,
        None => Seq::empty(),
    };
    EngineModel { found: put(e.found, id, v.push(oid)), ..e }
}

/// The engine with another state of a node.
pub open spec fn with_state(e: EngineModel, id: Seq<char>, state: StateModel) -> EngineModel {
    EngineModel {
        nodes: put(e.nodes, id, NodeModel { state, ..get(e.nodes, id)->0 }),
        ..e
    }
}

/// The engine with a reconstructed object.
pub open spec fn with_object(e: EngineModel, id: Seq<char>, o: OutModel) -> EngineModel {
    let n = get(e.nodes, id)->0;
    let oid = id_of(o.kind, o.data);
    let fits = n.idx_oid is None || n.idx_oid == Some(hex(oid));
    let e1 = if fits {
        e
    } else {
        noted(
            e,
            Some(id),
            Some(n.source_id),
            "oid-mismatch"@,
            "reconstructed object hashes to "@ + hex(oid) + " but expected "@ + n.idx_oid->0,
            n.offset,
        )
    };
    let e2 = EngineModel { contents: put(e1.contents, id, o.data), ..e1 };
    let e3 = if has_key(e2.charged, id) {
        e2
    } else {
        EngineModel {
            charged: put(e2.charged, id, o.chain_bytes),
            charged_total: capped(e2.charged_total + o.chain_bytes),
            ..e2
        }
    };
    with_state(
        more_found(e3, id, oid),
        id,
        StateModel::Resolved {
            object_type: o.kind.text(),
            size: o.data.len() as u64,
            oid: hex(oid),
            oid_expected: n.idx_oid,
            oid_match: fits,
            depth: o.depth,
            chain_bytes: o.chain_bytes,
            steps: o.steps,
        },
    )
}

/// The engine with the result of a run for one node.
pub open spec fn published(e: EngineModel, id: Seq<char>, r: RunModel) -> EngineModel {
    if !has_key(e.nodes, id) {
        e
    } else {
        let v = match r {
            RunModel::Done(o) => with_object(e, id, o),
            RunModel::Failed(k, m) => with_state(
                e,
                id,
                StateModel::Failed { fail: k, message: m, blocker_chain: blocker_chain_of(e, id) },
            ),
        };
        EngineModel { recomputed_nodes: capped(v.recomputed_nodes + 1), ..v }
    }
}

/// The engine with the first `n` results of a run.
pub open spec fn all_published(e: EngineModel, rows: Seq<(Seq<char>, RunModel)>, n: nat) -> EngineModel
    decreases n,
{
    if n == 0 {
        e
    } else {
        published(all_published(e, rows, (n - 1) as nat), rows[n - 1].0, rows[n - 1].1)
    }
}

/// The engine with a pause of one node. A pause never replaces a good object.
pub open spec fn pause_published(e: EngineModel, id: Seq<char>, p: PauseModel) -> EngineModel {
    if !has_key(e.nodes, id) || (get(e.nodes, id)->0).state is Resolved {
        e
    } else {
        with_state(
            e,
            id,
            StateModel::Paused {
                pause: p.kind,
                message: p.message,
                attempted_target: p.target,
                blocker_chain: blocker_chain_of(e, id),
            },
        )
    }
}

/// The engine with the first `n` pauses of a run.
pub open spec fn pauses_published(e: EngineModel, rows: Seq<(Seq<char>, PauseModel)>, n: nat) -> EngineModel
    decreases n,
{
    if n == 0 {
        e
    } else {
        pause_published(pauses_published(e, rows, (n - 1) as nat), rows[n - 1].0, rows[n - 1].1)
    }
}

/// The ids of the nodes.
pub open spec fn node_ids(e: EngineModel) -> Seq<Seq<char>> {
    e.nodes.map_values(|r: (Seq<char>, NodeModel)| r.0)
}

/// A node takes part in a run.
pub open spec fn in_run(only: Option<Set<Seq<char>>>, id: Seq<char>) -> bool {
    match only {
        Some(s) => s.contains(id),
        None => true,
    }
}

/// The visits of the first `n` of `ids`.
pub open spec fn all_visited(
    e: EngineModel,
    c: CtxModel,
    ids: Seq<Seq<char>>,
    only: Option<Set<Seq<char>>>,
    n: nat,
) -> (EngineModel, CtxModel)
    decreases n,
{
    if n == 0 {
        (e, c)
    } else {
        let v = all_visited(e, c, ids, only, (n - 1) as nat);
        if in_run(only, ids[n - 1]) {
            let w = visited(v.0, v.1, ids[n - 1], 0);
            (w.0, w.1)
        } else {
            v
        }
    }
}

/// A run that has not begun.
pub open spec fn fresh_run(e: EngineModel) -> CtxModel {
    CtxModel {
        stack: Seq::empty(),
        results: Seq::empty(),
        paused: Seq::empty(),
        charged_total: e.charged_total,
        local_charge: 0,
        counted: Seq::empty(),
    }
}

/// A run over the nodes of `only`, or over all: they are visited in the order of their ids, and
/// then published.
pub open spec fn resolved_all(e: EngineModel, only: Option<Set<Seq<char>>>) -> EngineModel {
    let e0 = EngineModel { recompute_runs: capped(e.recompute_runs + 1), ..e };
    let ids = sorted_texts(node_ids(e));
    let v = all_visited(e0, fresh_run(e), ids, only, ids.len());
    let p = all_published(v.0, v.1.results, v.1.results.len());
    pauses_published(p, v.1.paused, v.1.paused.len())
}

/// A node without what earlier runs made of it. A failure of the stored bytes stays.
pub open spec fn reset_one(e: EngineModel, id: Seq<char>) -> EngineModel {
    let n = get(e.nodes, id)->0;
    let e1 = match get(e.charged, id) {
        Some(c) => EngineModel {
            charged: del(e.charged, id),
            charged_total: if e.charged_total > c {
                (e.charged_total - c) as u64
            } else {
                0
            },
            ..e
        },
        None => e,
    };
    let e2 = EngineModel {
        contents: del(e1.contents, id),
        found: del(e1.found, id),
        edges: del(e1.edges, id),
        missing_edges: del(e1.missing_edges, id),
        ..e1
    };
    if n.state is Failed && n.state->fail.lasting() {
        e2
    } else {
        with_state(e2, id, StateModel::Unprocessed)
    }
}

/// The nodes of `ids` among the first `n` without what earlier runs made of them.
pub open spec fn reset(e: EngineModel, ids: Set<Seq<char>>, n: nat) -> EngineModel
    decreases n,
{
    if n == 0 {
        e
    } else {
        let v = reset(e, ids, (n - 1) as nat);
        if ids.contains(e.nodes[n - 1].0) {
            reset_one(v, e.nodes[n - 1].0)
        } else {
            v
        }
    }
}

/// The nodes of `ids` without what earlier runs made of them.
pub open spec fn reset_nodes(e: EngineModel, ids: Set<Seq<char>>) -> EngineModel {
    reset(e, ids, e.nodes.len())
}

/// The claims of the paths of the first `n` loose objects; a claim that is there stays.
pub open spec fn path_claims(e: EngineModel, n: nat) -> EngineModel
    decreases n,
{
    if n == 0 {
        e
    } else {
        let v = path_claims(e, (n - 1) as nat);
        let node = e.looses[n - 1].0 + ":loose"@;
        match e.looses[n - 1].1.path_oid {
            Some(oid) => if has_key(v.claimed, node) {
                v
            } else {
                EngineModel {
                    claimed: put(v.claimed, node, ClaimModel { origin: "loose-path"@, oid }),
                    ..v
                }
            },
            None => v,
        }
    }
}

/// The ids of the reconstructed objects among the first `n` nodes.
pub open spec fn object_claims(e: EngineModel, n: nat) -> EngineModel
    decreases n,
{
    if n == 0 {
        e
    } else {
        let v = object_claims(e, (n - 1) as nat);
        match e.nodes[n - 1].1.state {
            StateModel::Resolved { oid, .. } => more_found(v, e.nodes[n - 1].1.id, id_of_hex(oid)),
            _ => v,
        }
    }
}

/// The claims of loose paths and of reconstructed objects.
pub open spec fn claims_rebuilt(e: EngineModel) -> EngineModel {
    object_claims(path_claims(e, e.looses.len()), e.nodes.len())
}

impl Engine {
    pub(crate) fn blocker_chain(&self, id: &str) -> (chain: Vec<String>)
        ensures
            texts(chain@) == blocker_chain_of(self@, id@),
    {
        let ghost e = self@;
        let mut chain: Vec<String> = Vec::new();
        assert(texts(chain@) =~= Seq::empty());
        let mut cur: Option<String> = Some(id.to_owned());
        loop
            invariant
                e == self@,
                texts(chain@).len() <= 256,
                blocker_chain_of(e, id@) == blockers(e, id@, text_opt(cur), texts(chain@)),
            decreases 257 - chain@.len(),
        {
            let node = match cur {
                Some(n) => n,
                None => return chain,
            };
            push_part(&mut chain, node.clone());
            if chain.len() > 256 {
                return chain;
            }
            cur = match self.edges.get(node.as_str()) {
                Some(v) => if v.list.len() > 0 {
                    assert(v.deep_view().last() == v.list@[v.list@.len() - 1]@);
                    Some(v.list[v.list.len() - 1].clone())
                } else {
                    None
                },
                None => None,
            };
            let back: bool = match &cur {
                Some(n) => same_text(n.as_str(), id),
                None => false,
            };
            if back {
                let mut s = id.to_owned();
                s.append(" (cycle)");
                push_part(&mut chain, s);
                return chain;
            }
        }
    }

    fn push_found(&mut self, id: &str, oid: [u8; 20])
        ensures
            final(self)@ == more_found(old(self)@, id@, oid@),
    {
        let mut v = match self.found.get(id) {
            Some(o) => Oids { list: o.list.clone() },
            None => Oids { list: Vec::new() },
        };
        let ghost start = match get(self@.found, id@) {
            Some(v) => v,
            None => Seq::empty(),
        };
        assert(v.deep_view() =~= start);
        v.list.push(oid);
        assert(v.deep_view() =~= start.push(oid@));
        self.found.insert(id.to_owned(), v);
    }

    pub(crate) fn set_state(&mut self, id: &str, state: NodeState)
        requires
            has_key(old(self)@.nodes, id@),
        ensures
            final(self)@ == with_state(old(self)@, id@, state@),
    {
        let n = match self.nodes.get(id) {
            Some(n) => n.with_state(state),
            None => return,
        };
        self.nodes.insert(id.to_owned(), n);
    }

    fn publish_object(&mut self, id: &str, o: &ChainOutcome)
        requires
            has_key(old(self)@.nodes, id@),
        ensures
            final(self)@ == with_object(old(self)@, id@, o@),
    {
        let (want, source, offset) = match self.nodes.get(id) {
            Some(n) => (copy_opt(&n.idx_oid), n.source_id.clone(), n.offset),
            None => return,
        };
        let oid = git_object_id(o.kind, o.data.as_slice());
        let oid_hex = hex_encode(oid.as_slice());
        let fits: bool = match &want {
            Some(w) => same_text(w.as_str(), oid_hex.as_str()),
            None => true,
        };
        if !fits {
            if let Some(w) = &want {
                let mut m = "reconstructed object hashes to ".to_owned();
                m.append(oid_hex.as_str());
                m.append(" but expected ");
                m.append(w.as_str());
                self.add_evidence(Some(id.to_owned()), Some(source), "oid-mismatch", m, offset);
            }
        }
        let data = o.data.clone();
        assert(data.deep_view() =~= data@);
        self.contents.insert(id.to_owned(), data);
        if !self.charged.contains(id) {
            self.charged.insert(id.to_owned(), o.chain_bytes);
            self.charged_total = cap_sum(self.charged_total, o.chain_bytes);
        }
        self.push_found(id, oid);
        let state = NodeState::Resolved {
            object_type: o.kind.name().to_owned(),
            size: o.data.len() as u64,
            oid: oid_hex,
            oid_expected: want,
            oid_match: fits,
            depth: o.depth,
            chain_bytes: o.chain_bytes,
            steps: copy_steps(&o.steps),
        };
        self.set_state(id, state);
    }

    fn publish(&mut self, id: &str, r: &RunResult)
        ensures
            final(self)@ == published(old(self)@, id@, r.deep_view()),
    {
        if !self.nodes.contains(id) {
            return;
        }
        match r {
            RunResult::Done(o) => {
                self.publish_object(id, o);
            },
            RunResult::Failed(k, m) => {
                let chain = self.blocker_chain(id);
                self.set_state(
                    id,
                    NodeState::Failed { kind: *k, message: m.clone(), blocker_chain: chain },
                );
            },
        }
        self.recomputed_nodes = cap_sum(self.recomputed_nodes, 1);
    }

    fn publish_pause(&mut self, id: &str, p: &PauseRow)
        ensures
            final(self)@ == pause_published(old(self)@, id@, p.deep_view()),
    {
        match self.nodes.get(id) {
            Some(n) => {
                if let NodeState::Resolved { .. } = &n.state {
                    return;
                }
            },
            None => return,
        }
        let chain = self.blocker_chain(id);
        self.set_state(
            id,
            NodeState::Paused {
                kind: p.kind,
                message: p.message.clone(),
                attempted_target: p.target,
                blocker_chain: chain,
            },
        );
    }

    pub(crate) fn list_ids(&self) -> (ids: Vec<String>)
        ensures
            texts(ids@) == node_ids(self@),
    {
        let mut ids: Vec<String> = Vec::new();
        let mut i: usize = 0;
        assert(texts(ids@) =~= node_ids(self@).take(0));
        while i < self.nodes.len()
            invariant
                i <= self@.nodes.len(),
                texts(ids@) == node_ids(self@).take(i as int),
            decreases self@.nodes.len() - i,
        {
            push_part(&mut ids, self.nodes.key_at(i).clone());
            i += 1;
            assert(texts(ids@) =~= node_ids(self@).take(i as int));
        }
        assert(texts(ids@) =~= node_ids(self@));
        ids
    }

    /// Runs over the nodes of `only`, or over all, and publishes what it finds.
    pub fn resolve_all(&mut self, only: Option<&Vec<String>>)
        ensures
            final(self)@ == resolved_all(
                old(self)@,
                match only {
                    Some(v) => Some(texts(v@).to_set()),
                    None => None,
                },
            ),
    {
        let ghost start = self@;
        let ghost set = match only {
            Some(v) => Some(texts(v@).to_set()),
            None => None,
        };
        self.recompute_runs = cap_sum(self.recompute_runs, 1);
        let ghost e0 = self@;
        let names = self.list_ids();
        let ids = sort_texts(&names);
        let ghost order = texts(ids@);
        let mut ctx = RunCtx {
            stack: Vec::new(),
            results: TextMap::new(),
            paused: TextMap::new(),
            charged_total: self.charged_total,
            local_charge: 0,
            counted: Vec::new(),
        };
        let ghost c0 = ctx@;
        proof {
            assert(c0.stack =~= Seq::empty());
            assert(c0.counted =~= Seq::empty());
            assert(c0 == fresh_run(start));
        }
        let mut k: usize = 0;
        while k < ids.len()
            invariant
                k <= ids@.len(),
                order == texts(ids@),
                set == match only {
                    Some(v) => Some(texts(v@).to_set()),
                    None => None,
                },
                (self@, ctx@) == all_visited(e0, c0, order, set, k as nat),
                self@.nodes == e0.nodes,
                forall|i: int| 0 <= i < ids@.len() ==> node_ids(e0).contains(#[trigger] order[i]),
            decreases ids@.len() - k,
        {
            let id = ids[k].as_str();
            assert(order[k as int] == id@);
            let take: bool = match only {
                Some(v) => contains_text_in(v, id),
                None => true,
            };
            if take {
                proof {
                    assert(node_ids(e0).contains(id@));
                    let i = choose|i: int| 0 <= i < node_ids(e0).len() && node_ids(e0)[i] == id@;
                    lemma_row_key(e0.nodes, i);
                    visits_only_record(self@, ctx@, id@, 0);
                }
                let _answer = self.resolve_node(id, 0, &mut ctx);
            }
            k += 1;
        }
        let ghost e1 = self@;
        let ghost rows = ctx@.results;
        let mut i: usize = 0;
        while i < ctx.results.len()
            invariant
                i <= rows.len(),
                rows == ctx@.results,
                self@ == all_published(e1, rows, i as nat),
            decreases rows.len() - i,
        {
            self.publish(ctx.results.key_at(i).as_str(), ctx.results.value_at(i));
            i += 1;
        }
        let ghost e2 = self@;
        let ghost stops = ctx@.paused;
        let mut j: usize = 0;
        while j < ctx.paused.len()
            invariant
                j <= stops.len(),
                stops == ctx@.paused,
                self@ == pauses_published(e2, stops, j as nat),
            decreases stops.len() - j,
        {
            self.publish_pause(ctx.paused.key_at(j).as_str(), ctx.paused.value_at(j));
            j += 1;
        }
    }

    fn forget(&mut self, id: &str)
        requires
            has_key(old(self)@.nodes, id@),
        ensures
            final(self)@ == reset_one(old(self)@, id@),
    {
        let lasting: bool = match self.nodes.get(id) {
            Some(n) => match &n.state {
                NodeState::Failed { kind, .. } => kind.is_lasting(),
                _ => false,
            },
            None => false,
        };
        let charge: Option<u64> = match self.charged.get(id) {
            Some(c) => Some(*c),
            None => None,
        };
        if let Some(c) = charge {
            self.charged.remove(id);
            self.charged_total = if self.charged_total > c {
                self.charged_total - c
            } else {
                0
            };
        }
        self.contents.remove(id);
        self.found.remove(id);
        self.edges.remove(id);
        self.missing_edges.remove(id);
        if !lasting {
            self.set_state(id, NodeState::Unprocessed);
        }
    }

    /// Takes back what earlier runs made of the nodes of `ids`.
    pub(crate) fn reset_subtree(&mut self, ids: &Vec<String>)
        ensures
            final(self)@ == reset_nodes(old(self)@, texts(ids@).to_set()),
    {
        let ghost e = self@;
        let ghost set = texts(ids@).to_set();
        let mut i: usize = 0;
        while i < self.nodes.len()
            invariant
                i <= e.nodes.len(),
                self@.nodes.len() == e.nodes.len(),
                set == texts(ids@).to_set(),
                self@ == reset(e, set, i as nat),
                forall|k: int| 0 <= k < e.nodes.len() ==> (#[trigger] self@.nodes[k]).0 == e.nodes[k].0,
            decreases e.nodes.len() - i,
        {
            let id = self.nodes.key_at(i).clone();
            assert(id@ == e.nodes[i as int].0);
            let ghost now = self@;
            if contains_text_in(ids, id.as_str()) {
                proof {
                    lemma_row_key(now.nodes, i as int);
                    lemma_put_existing(
                        now.nodes,
                        id@,
                        NodeModel { state: StateModel::Unprocessed, ..get(now.nodes, id@)->0 },
                    );
                }
                self.forget(id.as_str());
            }
            i += 1;
        }
    }

    fn claim_paths(&mut self)
        ensures
            final(self)@ == path_claims(old(self)@, old(self)@.looses.len()),
    {
        let ghost e = self@;
        let mut i: usize = 0;
        while i < self.looses.len()
            invariant
                i <= e.looses.len(),
                self@.looses == e.looses,
                self@ == path_claims(e, i as nat),
            decreases e.looses.len() - i,
        {
            let mut node = self.looses.key_at(i).clone();
            node.append(":loose");
            let path: Option<[u8; 20]> = self.looses.value_at(i).path_oid;
            if let Some(oid) = path {
                if !self.claimed.contains(node.as_str()) {
                    self.claimed.insert(node, Claim { origin: "loose-path".to_owned(), oid });
                }
            }
            i += 1;
        }
    }

    /// Rebuilds the claims of loose paths and of reconstructed objects.
    pub(crate) fn rebuild_claims(&mut self)
        ensures
            final(self)@ == claims_rebuilt(old(self)@),
    {
        self.claim_paths();
        let ghost e = self@;
        proof {
            lemma_paths_keep(old(self)@, old(self)@.looses.len());
        }
        let mut i: usize = 0;
        while i < self.nodes.len()
            invariant
                i <= e.nodes.len(),
                self@.nodes == e.nodes,
                self@ == object_claims(e, i as nat),
            decreases e.nodes.len() - i,
        {
            let n = self.nodes.value_at(i);
            let found: Option<(String, [u8; 20])> = match &n.state {
                NodeState::Resolved { oid, .. } => Some((n.id.clone(), read_hex_id(oid.as_str()))),
                _ => None,
            };
            if let Some((id, oid)) = found {
                self.push_found(id.as_str(), oid);
            }
            i += 1;
        }
    }
}

proof fn lemma_paths_keep(e: EngineModel, n: nat)
    ensures
        path_claims(e, n) == (EngineModel { claimed: path_claims(e, n).claimed, ..e }),
    decreases n,
{
    if n > 0 {
        lemma_paths_keep(e, (n - 1) as nat);
    }
}

proof fn lemma_objects_keep(e: EngineModel, n: nat)
    ensures
        object_claims(e, n) == (EngineModel { found: object_claims(e, n).found, ..e }),
    decreases n,
{
    if n > 0 {
        lemma_objects_keep(e, (n - 1) as nat);
    }
}

/// Rebuilding the claims changes nothing else.
pub proof fn claims_only_claim(e: EngineModel)
    ensures
        claims_rebuilt(e) == (EngineModel {
            claimed: claims_rebuilt(e).claimed,
            found: claims_rebuilt(e).found,
            ..e
        }),
{
    lemma_paths_keep(e, e.looses.len());
    let p = path_claims(e, e.looses.len());
    lemma_objects_keep(p, p.nodes.len());
}

/// An object that a node is said to be is there, and hashes to the id that is given.
pub open spec fn object_sound(e: EngineModel, id: Seq<char>) -> bool {
    match get(e.nodes, id) {
        Some(n) => match n.state {
            StateModel::Resolved { object_type, size, oid, .. } => {
                &&& get(e.contents, id) is Some
                &&& size == (get(e.contents, id)->0).len() as u64
                &&& exists|kind: GitType|
                    object_type == kind.text() && oid == hex(#[trigger] id_of(kind, get(e.contents, id)->0))
            },
            _ => true,
        },
        None => true,
    }
}

/// Every reconstructed object is sound.
pub open spec fn objects_sound(e: EngineModel) -> bool {
    forall|id: Seq<char>| #[trigger] object_sound(e, id)
}

proof fn lemma_published_sound(e: EngineModel, id: Seq<char>, r: RunModel)
    requires
        objects_sound(e),
    ensures
        objects_sound(published(e, id, r)),
{
    let v = published(e, id, r);
    assert forall|x: Seq<char>| #[trigger] object_sound(v, x) by {
        assert(object_sound(e, x));
        if has_key(e.nodes, id) {
            match r {
                RunModel::Done(o) => {
                    let n = get(e.nodes, id)->0;
                    get_of_put(e.contents, id, o.data, x);
                    let oid = id_of(o.kind, o.data);
                    let state = StateModel::Resolved {
                        object_type: o.kind.text(),
                        size: o.data.len() as u64,
                        oid: hex(oid),
                        oid_expected: n.idx_oid,
                        oid_match: n.idx_oid is None || n.idx_oid == Some(hex(oid)),
                        depth: o.depth,
                        chain_bytes: o.chain_bytes,
                        steps: o.steps,
                    };
                    get_of_put(e.nodes, id, NodeModel { state, ..n }, x);
                    assert(v.contents == put(e.contents, id, o.data));
                    assert(v.nodes == put(e.nodes, id, NodeModel { state, ..n }));
                    if x == id {
                        assert(oid == id_of(o.kind, get(v.contents, x)->0));
                    }
                },
                RunModel::Failed(k, m) => {
                    let state = StateModel::Failed {
                        fail: k,
                        message: m,
                        blocker_chain: blocker_chain_of(e, id),
                    };
                    get_of_put(e.nodes, id, NodeModel { state, ..get(e.nodes, id)->0 }, x);
                },
            }
        }
    }
}

proof fn lemma_all_published_sound(e: EngineModel, rows: Seq<(Seq<char>, RunModel)>, n: nat)
    requires
        objects_sound(e),
    ensures
        objects_sound(all_published(e, rows, n)),
    decreases n,
{
    if n > 0 {
        lemma_all_published_sound(e, rows, (n - 1) as nat);
        lemma_published_sound(all_published(e, rows, (n - 1) as nat), rows[n - 1].0, rows[n - 1].1);
    }
}

/// A pause never replaces a committed object: what is kept of a reconstructed node stays.
pub proof fn pauses_keep_objects(e: EngineModel, rows: Seq<(Seq<char>, PauseModel)>, n: nat, id: Seq<char>)
    ensures
        pauses_published(e, rows, n).contents == e.contents,
        has_key(e.nodes, id) && (get(e.nodes, id)->0).state is Resolved ==> get(
            pauses_published(e, rows, n).nodes,
            id,
        ) == get(e.nodes, id),
        get(e.nodes, id) is None ==> get(pauses_published(e, rows, n).nodes, id) is None,
        !(has_key(e.nodes, id) && (get(e.nodes, id)->0).state is Resolved) && get(
            pauses_published(e, rows, n).nodes,
            id,
        ) is Some ==> !((get(pauses_published(e, rows, n).nodes, id)->0).state is Resolved),
    decreases n,
{
    if n > 0 {
        pauses_keep_objects(e, rows, (n - 1) as nat, id);
        let v = pauses_published(e, rows, (n - 1) as nat);
        let at = rows[n - 1].0;
        let p = rows[n - 1].1;
        let state = StateModel::Paused {
            pause: p.kind,
            message: p.message,
            attempted_target: p.target,
            blocker_chain: blocker_chain_of(v, at),
        };
        get_of_put(v.nodes, at, NodeModel { state, ..get(v.nodes, at)->0 }, id);
    }
}

proof fn lemma_all_visited_keep(
    e: EngineModel,
    c: CtxModel,
    ids: Seq<Seq<char>>,
    only: Option<Set<Seq<char>>>,
    n: nat,
)
    ensures
        all_visited(e, c, ids, only, n).0.nodes == e.nodes,
        all_visited(e, c, ids, only, n).0.contents == e.contents,
    decreases n,
{
    if n > 0 {
        lemma_all_visited_keep(e, c, ids, only, (n - 1) as nat);
        let v = all_visited(e, c, ids, only, (n - 1) as nat);
        visits_only_record(v.0, v.1, ids[n - 1], 0);
    }
}

/// After every run each node that is said to be reconstructed holds its content, and its id is
/// the hash of that content, computed anew.
pub proof fn runs_keep_objects_sound(e: EngineModel, only: Option<Set<Seq<char>>>)
    requires
        objects_sound(e),
    ensures
        objects_sound(resolved_all(e, only)),
{
    let e0 = EngineModel { recompute_runs: capped(e.recompute_runs + 1), ..e };
    let ids = sorted_texts(node_ids(e));
    let v = all_visited(e0, fresh_run(e), ids, only, ids.len());
    lemma_all_visited_keep(e0, fresh_run(e), ids, only, ids.len());
    assert(objects_sound(v.0)) by {
        assert forall|x: Seq<char>| #[trigger] object_sound(v.0, x) by {
            assert(object_sound(e, x));
        }
    }
    lemma_all_published_sound(v.0, v.1.results, v.1.results.len());
    let p = all_published(v.0, v.1.results, v.1.results.len());
    let w = pauses_published(p, v.1.paused, v.1.paused.len());
    assert forall|x: Seq<char>| #[trigger] object_sound(w, x) by {
        assert(object_sound(p, x));
        pauses_keep_objects(p, v.1.paused, v.1.paused.len(), x);
    }
}

} // verus!
