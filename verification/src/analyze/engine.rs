//! Delta-DAG resolution with budgets, isolation and retryable pauses.
use vstd::prelude::*;
use vstd::string::StringExecFns;
use crate::analyze::blocking::{blocking_chain, chain_text, oids_can_be_cut};
use crate::analyze::graph::{
    best, candidate_payload, payload_of, payload_view, payloads_are_capped, text_opt, CandidateNode, FileModel, FileRead, Graph,
    GraphModel, NodeModel,
};
use crate::git::delta::{
    applies_exactly_when_sound, apply_delta, declared_sizes, no_size, result_of, sizes, DeltaInstr,
};
use crate::git::{git_object_id, GitType};
use crate::model::assoc::{contains_id, get, get_of_put, has_key, put, IdMap, TextMap};
use crate::model::num::{to_unsigned, unsigned};
use crate::model::object::object_frame;
use crate::model::outside::{hex_encode, sha1_smol_of};
use crate::model::text::{
    dec, dec_int, hex, is_empty, join, joined, push_dec, push_int, push_part, same_text, texts,
};

verus! {

/// The resource limits of one analysis run.
#[derive(Debug, Clone, Copy)]
pub struct Budget {
    /// The longest chain of bases that is followed.
    pub max_depth: u32,
    /// The bytes that all reconstructions of a run may expand to.
    pub max_expand_bytes: u64,
    /// The bytes that one object may have.
    pub max_single_bytes: u64,
}

/// Final state of one analysis run.
#[derive(Debug)]
pub struct RunSummary {
    pub run_id: i64,
    pub status: String,
    pub resolved: usize,
    pub blocked: usize,
    pub paused: usize,
    pub depth_used: u32,
    pub bytes_used: u64,
    pub messages: Vec<String>,
}

#[derive(Debug, Clone, Copy, PartialEq, Eq, Structural)]
pub enum NodeState {
    Resolved,
    Failed,
    Paused,
}

impl DeepView for NodeState {
    type V = NodeState;

    open spec fn deep_view(&self) -> NodeState {
        *self
    }
}

pub struct ResolvedNode {
    pub oid: String,
    pub candidate_id: i64,
    pub kind: GitType,
    pub content: Vec<u8>,
    pub depth: u32,
    pub oid_ok: bool,
}

/// The model of a resolved object.
pub ghost struct ResolvedModel {
    pub oid: Seq<char>,
    pub candidate_id: i64,
    pub kind: GitType,
    pub content: Seq<u8>,
    pub depth: u32,
    pub oid_ok: bool,
}

impl DeepView for ResolvedNode {
    type V = ResolvedModel;

    open spec fn deep_view(&self) -> ResolvedModel {
        ResolvedModel {
            oid: self.oid@,
            candidate_id: self.candidate_id,
            kind: self.kind,
            content: self.content@,
            depth: self.depth,
            oid_ok: self.oid_ok,
        }
    }
}

/// The record of one delta that was applied.
pub struct DeltaStepRec {
    pub oid: String,
    pub step: u32,
    pub child_candidate_id: i64,
    pub base_candidate_id: i64,
    pub base_oid: String,
    pub commands: Vec<DeltaInstr>,
    pub input_len: u64,
    pub output_len: u64,
    pub verify: &'static str,
}

/// The model of a delta step.
pub ghost struct StepModel {
    pub oid: Seq<char>,
    pub step: u32,
    pub child_candidate_id: i64,
    pub base_candidate_id: i64,
    pub base_oid: Seq<char>,
    pub commands: Seq<DeltaInstr>,
    pub input_len: nat,
    pub output_len: nat,
    pub verify: Seq<char>,
}

impl View for DeltaStepRec {
    type V = StepModel;

    open spec fn view(&self) -> StepModel {
        StepModel {
            oid: self.oid@,
            step: self.step,
            child_candidate_id: self.child_candidate_id,
            base_candidate_id: self.base_candidate_id,
            base_oid: self.base_oid@,
            commands: self.commands@,
            input_len: self.input_len as nat,
            output_len: self.output_len as nat,
            verify: self.verify@,
        }
    }
}

/// What a run has found so far.
pub struct RunAcc {
    pub state: IdMap<NodeState>,
    pub resolved: IdMap<ResolvedNode>,
    /// computed oid -> candidate id of a resolved object, so chains that
    /// reach an object through different candidate nodes share the result.
    pub resolved_by_oid: TextMap<i64>,
    pub reason: IdMap<String>,
    pub steps: Vec<DeltaStepRec>,
    pub evidence: Vec<(Option<String>, String)>,
    pub bytes_used: u64,
    pub depth_used: u32,
    pub paused: bool,
}

/// The model of a run.
pub ghost struct AccModel {
    pub state: Seq<(i64, NodeState)>,
    pub resolved: Seq<(i64, ResolvedModel)>,
    pub resolved_by_oid: Seq<(Seq<char>, i64)>,
    pub reason: Seq<(i64, Seq<char>)>,
    pub steps: Seq<StepModel>,
    pub evidence: Seq<(Option<Seq<char>>, Seq<char>)>,
    pub bytes_used: nat,
    pub depth_used: u32,
    pub paused: bool,
}

/// The models of delta steps.
pub open spec fn step_models(v: Seq<DeltaStepRec>) -> Seq<StepModel> {
    v.map_values(|s: DeltaStepRec| s@)
}

/// The models of pieces of evidence.
pub open spec fn evidence_models(v: Seq<(Option<String>, String)>) -> Seq<(Option<Seq<char>>, Seq<char>)> {
    v.map_values(|e: (Option<String>, String)| (text_opt(e.0), e.1@))
}

impl View for RunAcc {
    type V = AccModel;

    open spec fn view(&self) -> AccModel {
        AccModel {
            state: self.state@,
            resolved: self.resolved@,
            resolved_by_oid: self.resolved_by_oid@,
            reason: self.reason@,
            steps: step_models(self.steps@),
            evidence: evidence_models(self.evidence@),
            bytes_used: self.bytes_used as nat,
            depth_used: self.depth_used,
            paused: self.paused,
        }
    }
}

/// A run that has found nothing.
pub open spec fn fresh_run() -> AccModel {
    AccModel {
        state: Seq::empty(),
        resolved: Seq::empty(),
        resolved_by_oid: Seq::empty(),
        reason: Seq::empty(),
        steps: Seq::empty(),
        evidence: Seq::empty(),
        bytes_used: 0,
        depth_used: 0,
        paused: false,
    }
}

/// What is fixed while a run goes on.
pub ghost struct Env {
    pub graph: GraphModel,
    pub files: Seq<(Seq<char>, FileModel)>,
    pub budget: Budget,
}

/// The oid of a candidate, if it has one.
pub open spec fn oid_opt(n: NodeModel) -> Option<Seq<char>> {
    if n.oid.len() == 0 {
        None
    } else {
        Some(n.oid)
    }
}

/// How a candidate is called in messages.
pub open spec fn described(g: GraphModel, id: i64) -> Seq<char> {
    match get(g.nodes, id) {
        Some(n) => n.kind_name + "@"@ + n.locator,
        None => "candidate#"@ + dec_int(id as int),
    }
}

/// The run with a state, a reason and a piece of evidence for candidate `id`.
pub open spec fn marked(a: AccModel, id: i64, s: NodeState, reason: Seq<char>, oid: Option<Seq<char>>) -> AccModel {
    AccModel {
        state: put(a.state, id, s),
        reason: put(a.reason, id, reason),
        evidence: a.evidence.push((oid, reason)),
        ..a
    }
}

/// The run with candidate `id` paused.
pub open spec fn paused_at(a: AccModel, id: i64, reason: Seq<char>, oid: Option<Seq<char>>) -> AccModel {
    AccModel { paused: true, ..marked(a, id, NodeState::Paused, reason, oid) }
}

/// The run with candidate `id` failed.
pub open spec fn failed_at(a: AccModel, id: i64, reason: Seq<char>, oid: Option<Seq<char>>) -> AccModel {
    marked(a, id, NodeState::Failed, reason, oid)
}

/// The run with an object reconstructed.
pub open spec fn settled(
    a: AccModel,
    id: i64,
    oid: Seq<char>,
    kind: GitType,
    content: Seq<u8>,
    depth: u32,
    oid_ok: bool,
) -> AccModel {
    AccModel {
        bytes_used: a.bytes_used + content.len(),
        depth_used: if a.depth_used < depth {
            depth
        } else {
            a.depth_used
        },
        state: put(a.state, id, NodeState::Resolved),
        resolved_by_oid: if has_key(a.resolved_by_oid, oid) {
            a.resolved_by_oid
        } else {
            put(a.resolved_by_oid, oid, id)
        },
        resolved: put(a.resolved, id, ResolvedModel { oid, candidate_id: id, kind, content, depth, oid_ok }),
        ..a
    }
}

/// The hexadecimal oid of an object.
pub open spec fn oid_text(kind: GitType, content: Seq<u8>) -> Seq<char> {
    hex(sha1_smol_of(object_frame(kind.text(), content)))
}

/// A candidate's claim about its oid is met.
pub open spec fn claim_holds(n: NodeModel, computed: Seq<char>) -> bool {
    n.oid.len() == 0 || n.oid == computed
}

/// The oid under which a reconstructed candidate is kept.
pub open spec fn kept_oid(n: NodeModel, computed: Seq<char>) -> Seq<char> {
    if n.oid.len() == 0 {
        computed
    } else {
        n.oid
    }
}

/// The run with evidence of a claim that is not met.
pub open spec fn claim_checked(a: AccModel, n: NodeModel, computed: Seq<char>, head: Seq<char>, claims: Seq<char>, is: Seq<char>) -> AccModel {
    if claim_holds(n, computed) {
        a
    } else {
        let oid = kept_oid(n, computed);
        AccModel { evidence: a.evidence.push((Some(oid), head + claims + oid + is + computed)), ..a }
    }
}

/// The kinds that name a whole object.
pub open spec fn names_base(kind: Seq<char>) -> bool {
    kind == "commit"@ || kind == "tree"@ || kind == "blob"@ || kind == "tag"@
}

pub open spec fn ratio_text(n: Seq<char>, cap: u64) -> Seq<char> {
    "single object "@ + n + " bytes exceeds per-object ratio cap "@ + dec(cap as nat)
}

/// The source file of a candidate.
pub open spec fn file_of(files: Seq<(Seq<char>, FileModel)>, path: Seq<char>) -> FileModel {
    match get(files, path) {
        Some(f) => f,
        None => FileModel::Failed("read "@ + path + " failed: not supplied"@),
    }
}

/// The run with a whole object read.
pub open spec fn base_read(env: Env, a: AccModel, id: i64, n: NodeModel, depth: u32, kind: GitType, payload: Seq<u8>) -> AccModel {
    let b = env.budget;
    if a.bytes_used + payload.len() > b.max_expand_bytes {
        paused_at(
            a,
            id,
            "total expansion budget "@ + dec(b.max_expand_bytes as nat) + " exhausted at "@ + dec(a.bytes_used)
                + " bytes"@,
            oid_opt(n),
        )
    } else if payload.len() > b.max_single_bytes {
        failed_at(a, id, ratio_text(dec(payload.len()), b.max_single_bytes), oid_opt(n))
    } else {
        let computed = oid_text(kind, payload);
        let c = claim_checked(
            a,
            n,
            computed,
            "oid mismatch for "@ + described(env.graph, id),
            ": candidate claims "@,
            ", content is "@,
        );
        settled(c, id, kept_oid(n, computed), kind, payload, depth, claim_holds(n, computed))
    }
}

/// What is decided of a candidate before its base is looked at: the run when it is settled, or
/// the delta that is to be applied.
pub open spec fn opened(env: Env, a: AccModel, id: i64, n: NodeModel, depth: u32) -> Result<Seq<u8>, AccModel> {
    let b = env.budget;
    if n.parse_error is Some {
        Err(failed_at(a, id, described(env.graph, id) + ": "@ + n.parse_error->0, oid_opt(n)))
    } else if depth >= b.max_depth {
        Err(
            paused_at(
                a,
                id,
                described(env.graph, id) + ": depth budget exhausted at depth "@ + dec(depth as nat),
                oid_opt(n),
            ),
        )
    } else if names_base(n.kind_name) && unsigned(n.inflate_size) > b.max_single_bytes {
        Err(failed_at(a, id, ratio_text(dec_int(n.inflate_size as int), b.max_single_bytes), oid_opt(n)))
    } else if names_base(n.kind_name) && a.bytes_used + unsigned(n.inflate_size) > b.max_expand_bytes {
        Err(
            paused_at(
                a,
                id,
                "total expansion budget "@ + dec(b.max_expand_bytes as nat) + " exhausted (need "@ + dec_int(
                    n.inflate_size as int,
                ) + " more) before inflation"@,
                oid_opt(n),
            ),
        )
    } else {
        match payload_of(n, file_of(env.files, n.stored_path)) {
            Err(e) => Err(failed_at(a, id, "inflate failure: "@ + e, oid_opt(n))),
            Ok((kind, payload)) => if kind.delta() {
                Ok(payload)
            } else {
                Err(base_read(env, a, id, n, depth, kind, payload))
            },
        }
    }
}

/// The base that a delta names, or why there is none.
pub open spec fn nominal_base(g: GraphModel, n: NodeModel) -> Result<i64, Seq<char>> {
    match n.base_offset {
        Some(offset) => match get(g.by_pack_offset, (n.source_id, offset)) {
            Some(id) => Ok(id),
            None => Err(
                "missing external ofs-delta base at pack offset "@ + dec_int(offset as int) + " (source "@
                    + dec_int(n.source_id as int) + ")"@,
            ),
        },
        None => match n.base_ref {
            Some(oid) => match best(g, oid) {
                Some(b) => Ok(b.id),
                None => Err("missing external ref-delta base "@ + oid),
            },
            None => Err(n.locator + " has no base reference"@),
        },
    }
}

/// The candidate through which the oid that a delta names was reconstructed.
pub open spec fn known_base(a: AccModel, n: NodeModel) -> Option<i64> {
    match n.base_ref {
        Some(oid) => get(a.resolved_by_oid, oid),
        None => None,
    }
}

/// The base on which a delta is built: the nominal one, unless it is not resolved and its oid
/// was reconstructed through another candidate.
pub open spec fn chosen_base(g: GraphModel, a: AccModel, n: NodeModel) -> Result<i64, Seq<char>> {
    match nominal_base(g, n) {
        Err(m) => match known_base(a, n) {
            Some(b) => Ok(b),
            None => Err(m),
        },
        Ok(b) => if get(a.state, b) == Some(NodeState::Resolved) {
            Ok(b)
        } else {
            match known_base(a, n) {
                Some(c) => Ok(c),
                None => Ok(b),
            }
        },
    }
}

/// The run with a delta applied to its base.
pub open spec fn applied(env: Env, a: AccModel, id: i64, n: NodeModel, depth: u32, payload: Seq<u8>, base_id: i64, base: ResolvedModel) -> AccModel {
    let b = env.budget;
    let me = described(env.graph, id);
    match sizes(payload) {
        Err(k) => failed_at(a, id, me + ": delta invalid: "@ + no_size(k).message, oid_opt(n)),
        Ok((base_len, result_len, start)) => if base_len != base.content.len() {
            failed_at(
                a,
                id,
                me + ": size spoof: delta header claims base "@ + dec(base_len) + ", base is "@ + dec(
                    base.content.len(),
                ) + " bytes"@,
                oid_opt(n),
            )
        } else if result_len > b.max_single_bytes {
            failed_at(
                a,
                id,
                "delta result "@ + dec(result_len) + " bytes exceeds per-object cap "@ + dec(
                    b.max_single_bytes as nat,
                ),
                oid_opt(n),
            )
        } else if a.bytes_used + result_len > b.max_expand_bytes {
            paused_at(
                a,
                id,
                "total expansion budget "@ + dec(b.max_expand_bytes as nat) + " exhausted (need "@ + dec(
                    result_len,
                ) + " more)"@,
                oid_opt(n),
            )
        } else {
            match result_of(base.content, payload) {
                Err(e) => failed_at(a, id, me + ": "@ + e.message, oid_opt(n)),
                Ok((out, commands)) => {
                    let computed = oid_text(base.kind, out);
                    let c = claim_checked(
                        a,
                        n,
                        computed,
                        "oid mismatch for "@ + me,
                        ": index names "@,
                        ", reconstruction is "@,
                    );
                    let step = StepModel {
                        oid: kept_oid(n, computed),
                        step: depth,
                        child_candidate_id: id,
                        base_candidate_id: base_id,
                        base_oid: base.oid,
                        commands,
                        input_len: base_len,
                        output_len: result_len,
                        verify: if claim_holds(n, computed) {
                            "ok"@
                        } else {
                            "oid-mismatch"@
                        },
                    };
                    settled(
                        AccModel { steps: c.steps.push(step), ..c },
                        id,
                        kept_oid(n, computed),
                        base.kind,
                        out,
                        (depth + 1) as u32,
                        claim_holds(n, computed),
                    )
                },
            }
        },
    }
}

/// The run once the base of a delta has been tried.
pub open spec fn built_on(env: Env, a: AccModel, id: i64, n: NodeModel, depth: u32, payload: Seq<u8>, base_id: i64) -> AccModel {
    let me = described(env.graph, id);
    match get(a.state, base_id) {
        Some(NodeState::Resolved) => if a.paused {
            marked(a, id, NodeState::Paused, me + ": paused mid-chain"@, oid_opt(n))
        } else {
            match get(a.resolved, base_id) {
                Some(base) => applied(env, a, id, n, depth, payload, base_id, base),
                None => a,
            }
        },
        Some(NodeState::Paused) => paused_at(
            a,
            id,
            me + ": paused waiting for base "@ + described(env.graph, base_id),
            oid_opt(n),
        ),
        _ => failed_at(
            a,
            id,
            me + ": base "@ + described(env.graph, base_id) + " unresolved; blocking chain: "@ + chain_text(
                env.graph,
                id,
            ),
            oid_opt(n),
        ),
    }
}

/// The descriptions of candidates.
pub open spec fn descriptions(g: GraphModel, ids: Seq<i64>) -> Seq<Seq<char>> {
    ids.map_values(|id: i64| described(g, id))
}

/// The oid of candidate `id`, if it is known.
pub open spec fn oid_of_id(g: GraphModel, id: i64) -> Option<Seq<char>> {
    match get(g.nodes, id) {
        Some(n) => oid_opt(n),
        None => None,
    }
}

/// The run with every undecided candidate of `ids` failed.
pub open spec fn all_failed(g: GraphModel, a: AccModel, ids: Seq<i64>, reason: Seq<char>) -> AccModel
    decreases ids.len(),
{
    if ids.len() == 0 {
        a
    } else {
        let next = if has_key(a.state, ids[0]) {
            a
        } else {
            failed_at(a, ids[0], reason, oid_of_id(g, ids[0]))
        };
        all_failed(g, next, ids.skip(1), reason)
    }
}

/// The run once candidate `id`, reached through the deltas of `stack`, has been tried.
pub open spec fn tried(env: Env, a: AccModel, id: i64, stack: Seq<i64>, depth: u32) -> AccModel
    decreases env.budget.max_depth - depth,
{
    match get(a.state, id) {
        Some(s) => if s == NodeState::Paused {
            AccModel { paused: true, ..a }
        } else {
            a
        },
        None => if stack.contains(id) {
            let ids = stack.push(id);
            all_failed(
                env.graph,
                a,
                ids,
                "delta cycle: "@ + joined(descriptions(env.graph, ids), " -> "@),
            )
        } else {
            match get(env.graph.nodes, id) {
                None => a,
                Some(n) => match opened(env, a, id, n, depth) {
                    Err(done) => done,
                    Ok(payload) => match chosen_base(env.graph, a, n) {
                        Err(reason) => failed_at(a, id, reason, oid_opt(n)),
                        Ok(b) => built_on(
                            env,
                            tried(env, a, b, stack.push(id), (depth + 1) as u32),
                            id,
                            n,
                            depth,
                            payload,
                            b,
                        ),
                    },
                },
            }
        },
    }
}

impl RunAcc {
    pub fn new() -> (a: Self)
        ensures
            a@ == fresh_run(),
    {
        let a = RunAcc {
            state: IdMap::new(),
            resolved: IdMap::new(),
            resolved_by_oid: TextMap::new(),
            reason: IdMap::new(),
            steps: Vec::new(),
            evidence: Vec::new(),
            bytes_used: 0,
            depth_used: 0,
            paused: false,
        };
        assert(a@.steps =~= Seq::empty());
        assert(a@.evidence =~= Seq::empty());
        a
    }
}

fn push_evidence(acc: &mut RunAcc, oid: Option<String>, message: String)
    ensures
        final(acc)@ == (AccModel { evidence: old(acc)@.evidence.push((text_opt(oid), message@)), ..old(acc)@ }),
{
    let ghost before = acc@.evidence;
    acc.evidence.push((oid, message));
    assert(acc@.evidence =~= before.push((text_opt(oid), message@)));
}

fn mark(acc: &mut RunAcc, id: i64, state: NodeState, reason: String, oid: Option<String>)
    ensures
        final(acc)@ == marked(old(acc)@, id, state, reason@, text_opt(oid)),
{
    acc.state.insert(id, state);
    acc.reason.insert(id, reason.clone());
    push_evidence(acc, oid, reason);
}

fn oid_of(node: &CandidateNode) -> (r: Option<String>)
    ensures
        text_opt(r) == oid_opt(node.deep_view()),
{
    if is_empty(node.oid.as_str()) {
        None
    } else {
        Some(node.oid.clone())
    }
}

fn describe(graph: &Graph, id: i64) -> (s: String)
    ensures
        s@ == described(graph@, id),
{
    match graph.nodes.get(id) {
        Some(n) => {
            let mut s = n.kind_name.clone();
            s.append("@");
            s.append(n.locator.as_str());
            s
        },
        None => {
            let mut s = "candidate#".to_owned();
            push_int(&mut s, id);
            s
        },
    }
}

fn resolve_base(graph: &Graph, node: &CandidateNode) -> (r: Result<i64, String>)
    ensures
        match r {
            Ok(b) => nominal_base(graph@, node.deep_view()) == Ok::<i64, Seq<char>>(b),
            Err(m) => nominal_base(graph@, node.deep_view()) == Err::<i64, Seq<char>>(m@),
        },
{
    if let Some(offset) = node.base_offset {
        return match graph.at_pack_offset(node.source_id, offset) {
            Some(id) => Ok(id),
            None => {
                let mut m = "missing external ofs-delta base at pack offset ".to_owned();
                push_int(&mut m, offset);
                m.append(" (source ");
                push_int(&mut m, node.source_id);
                m.append(")");
                Err(m)
            },
        };
    }
    if let Some(oid) = &node.base_ref {
        return match graph.best_for(oid.as_str()) {
            Some(n) => Ok(n.id),
            None => {
                let mut m = "missing external ref-delta base ".to_owned();
                m.append(oid.as_str());
                Err(m)
            },
        };
    }
    let mut m = node.locator.clone();
    m.append(" has no base reference");
    Err(m)
}

fn reconstructed_base(acc: &RunAcc, node: &CandidateNode) -> (r: Option<i64>)
    ensures
        r == known_base(acc@, node.deep_view()),
{
    match &node.base_ref {
        Some(oid) => match acc.resolved_by_oid.get(oid.as_str()) {
            Some(b) => Some(*b),
            None => None,
        },
        None => None,
    }
}

fn choose_base(graph: &Graph, acc: &RunAcc, node: &CandidateNode) -> (r: Result<i64, String>)
    ensures
        match r {
            Ok(b) => chosen_base(graph@, acc@, node.deep_view()) == Ok::<i64, Seq<char>>(b),
            Err(m) => chosen_base(graph@, acc@, node.deep_view()) == Err::<i64, Seq<char>>(m@),
        },
{
    match resolve_base(graph, node) {
        Err(m) => match reconstructed_base(acc, node) {
            Some(b) => Ok(b),
            None => Err(m),
        },
        Ok(b) => {
            let resolved = match acc.state.get(b) {
                Some(s) => matches!(*s, NodeState::Resolved),
                None => false,
            };
            if resolved {
                Ok(b)
            } else {
                match reconstructed_base(acc, node) {
                    Some(c) => Ok(c),
                    None => Ok(b),
                }
            }
        },
    }
}

fn git_oid(kind: GitType, content: &[u8]) -> (s: String)
    ensures
        s@ == oid_text(kind, content@),
{
    let id = git_object_id(kind.name(), content);
    hex_encode(id.as_slice())
}

fn settle(acc: &mut RunAcc, id: i64, oid: String, kind: GitType, content: Vec<u8>, depth: u32, oid_ok: bool)
    requires
        old(acc)@.bytes_used + content@.len() <= u64::MAX,
    ensures
        final(acc)@ == settled(old(acc)@, id, oid@, kind, content@, depth, oid_ok),
{
    acc.bytes_used = acc.bytes_used + content.len() as u64;
    if acc.depth_used < depth {
        acc.depth_used = depth;
    }
    acc.state.insert(id, NodeState::Resolved);
    if !acc.resolved_by_oid.contains(oid.as_str()) {
        acc.resolved_by_oid.insert(oid.clone(), id);
    }
    acc.resolved.insert(id, ResolvedNode { oid, candidate_id: id, kind, content, depth, oid_ok });
}

/// Compares the claim of a candidate with what was computed. Returns the oid that is kept and
/// whether the claim is met.
fn check_claim(
    graph: &Graph,
    acc: &mut RunAcc,
    id: i64,
    node: &CandidateNode,
    computed: String,
    claims: &str,
    is: &str,
) -> (r: (String, bool))
    ensures
        final(acc)@ == claim_checked(
            old(acc)@,
            node.deep_view(),
            computed@,
            "oid mismatch for "@ + described(graph@, id),
            claims@,
            is@,
        ),
        r.0@ == kept_oid(node.deep_view(), computed@),
        r.1 == claim_holds(node.deep_view(), computed@),
{
    if is_empty(node.oid.as_str()) {
        return (computed, true);
    }
    let oid = node.oid.clone();
    if same_text(node.oid.as_str(), computed.as_str()) {
        return (oid, true);
    }
    let mut m = "oid mismatch for ".to_owned();
    m.append(describe(graph, id).as_str());
    m.append(claims);
    m.append(oid.as_str());
    m.append(is);
    m.append(computed.as_str());
    push_evidence(acc, Some(oid.clone()), m);
    (oid, false)
}

fn over(a: u64, b: u64, limit: u64) -> (r: bool)
    ensures
        r == (a + b > limit),
{
    a > limit || b > limit - a
}

fn ratio_message(n: String, cap: u64) -> (m: String)
    ensures
        m@ == ratio_text(n@, cap),
{
    let mut m = "single object ".to_owned();
    m.append(n.as_str());
    m.append(" bytes exceeds per-object ratio cap ");
    push_dec(&mut m, cap);
    m
}

fn is_base_name(name: &str) -> (r: bool)
    ensures
        r == names_base(name@),
{
    same_text(name, "commit") || same_text(name, "tree") || same_text(name, "blob") || same_text(name, "tag")
}

fn read_base(
    graph: &Graph,
    acc: &mut RunAcc,
    id: i64,
    node: &CandidateNode,
    budget: Budget,
    depth: u32,
    kind: GitType,
    payload: Vec<u8>,
    Ghost(env): Ghost<Env>,
)
    requires
        env.graph == graph@,
        env.budget == budget,
    ensures
        final(acc)@ == base_read(env, old(acc)@, id, node.deep_view(), depth, kind, payload@),
{
    let n: u64 = payload.len() as u64;
    if over(acc.bytes_used, n, budget.max_expand_bytes) {
        let mut m = "total expansion budget ".to_owned();
        push_dec(&mut m, budget.max_expand_bytes);
        m.append(" exhausted at ");
        push_dec(&mut m, acc.bytes_used);
        m.append(" bytes");
        acc.paused = true;
        mark(acc, id, NodeState::Paused, m, oid_of(node));
        return;
    }
    if n > budget.max_single_bytes {
        let mut d = String::new();
        push_dec(&mut d, n);
        assert(d@ =~= dec(n as nat));
        mark(acc, id, NodeState::Failed, ratio_message(d, budget.max_single_bytes), oid_of(node));
        return;
    }
    let computed = git_oid(kind, payload.as_slice());
    let (oid, oid_ok) = check_claim(
        graph,
        acc,
        id,
        node,
        computed,
        ": candidate claims ",
        ", content is ",
    );
    settle(acc, id, oid, kind, payload, depth, oid_ok);
}

fn read_candidate(node: &CandidateNode, files: &TextMap<FileRead>) -> (r: Result<(GitType, Vec<u8>), String>)
    ensures
        payload_view(r) == payload_of(
            node.deep_view(),
            file_of(files@, node.deep_view().stored_path),
        ),
{
    match files.get(node.stored_path.as_str()) {
        Some(f) => candidate_payload(node, f),
        None => {
            let mut m = "read ".to_owned();
            m.append(node.stored_path.as_str());
            m.append(" failed: not supplied");
            Err(m)
        },
    }
}

/// Decides all that can be decided of a candidate before its base is looked at.
fn open_node(
    graph: &Graph,
    files: &TextMap<FileRead>,
    acc: &mut RunAcc,
    id: i64,
    node: &CandidateNode,
    budget: Budget,
    depth: u32,
    Ghost(env): Ghost<Env>,
) -> (r: Option<Vec<u8>>)
    requires
        env.graph == graph@,
        env.files == files@,
        env.budget == budget,
    ensures
        match opened(env, old(acc)@, id, node.deep_view(), depth) {
            Err(done) => r is None && final(acc)@ == done,
            Ok(payload) => r matches Some(v) && v@ == payload && final(acc)@ == old(acc)@ && depth
                < budget.max_depth,
        },
{
    // Parse-level corruption (bad CRC, spoofed inflated size, bad header, unparseable entry)
    // isolates this object permanently.
    if let Some(err) = &node.parse_error {
        let mut m = describe(graph, id);
        m.append(": ");
        m.append(err.as_str());
        mark(acc, id, NodeState::Failed, m, oid_of(node));
        return None;
    }
    // The depth budget is a retryable pause, not corruption.
    if depth >= budget.max_depth {
        let mut m = describe(graph, id);
        m.append(": depth budget exhausted at depth ");
        push_dec(&mut m, depth as u64);
        acc.paused = true;
        mark(acc, id, NodeState::Paused, m, oid_of(node));
        return None;
    }
    // The inflated length of a whole object is known from the import scan, so a pause or a
    // ratio failure is decided before any bytes are spent.
    if is_base_name(node.kind_name.as_str()) {
        let size: u64 = to_unsigned(node.inflate_size);
        if size > budget.max_single_bytes {
            let mut d = String::new();
            push_int(&mut d, node.inflate_size);
            assert(d@ =~= dec_int(node.inflate_size as int));
            mark(acc, id, NodeState::Failed, ratio_message(d, budget.max_single_bytes), oid_of(node));
            return None;
        }
        if over(acc.bytes_used, size, budget.max_expand_bytes) {
            let mut m = "total expansion budget ".to_owned();
            push_dec(&mut m, budget.max_expand_bytes);
            m.append(" exhausted (need ");
            push_int(&mut m, node.inflate_size);
            m.append(" more) before inflation");
            acc.paused = true;
            mark(acc, id, NodeState::Paused, m, oid_of(node));
            return None;
        }
    }
    match read_candidate(node, files) {
        Err(e) => {
            let mut m = "inflate failure: ".to_owned();
            m.append(e.as_str());
            mark(acc, id, NodeState::Failed, m, oid_of(node));
            None
        },
        Ok((kind, payload)) => {
            if kind.is_delta() {
                Some(payload)
            } else {
                read_base(graph, acc, id, node, budget, depth, kind, payload, Ghost(env));
                None
            }
        },
    }
}

fn copy_resolved(n: &ResolvedNode) -> (c: ResolvedNode)
    ensures
        c.deep_view() == n.deep_view(),
{
    ResolvedNode {
        oid: n.oid.clone(),
        candidate_id: n.candidate_id,
        kind: n.kind,
        content: n.content.clone(),
        depth: n.depth,
        oid_ok: n.oid_ok,
    }
}

/// Applies a delta to its reconstructed base.
fn apply_node(
    graph: &Graph,
    acc: &mut RunAcc,
    id: i64,
    node: &CandidateNode,
    budget: Budget,
    depth: u32,
    payload: Vec<u8>,
    base_id: i64,
    base: ResolvedNode,
    Ghost(env): Ghost<Env>,
)
    requires
        env.graph == graph@,
        env.budget == budget,
        depth < budget.max_depth,
    ensures
        final(acc)@ == applied(
            env,
            old(acc)@,
            id,
            node.deep_view(),
            depth,
            payload@,
            base_id,
            base.deep_view(),
        ),
{
    // The declared sizes are read before anything is allocated, and a spoofed base size is
    // rejected without touching the expansion budget.
    let (declared_base, declared) = match declared_sizes(payload.as_slice()) {
        Ok(v) => v,
        Err(e) => {
            let mut m = describe(graph, id);
            m.append(": delta invalid: ");
            m.append(e.message.as_str());
            mark(acc, id, NodeState::Failed, m, oid_of(node));
            return;
        },
    };
    if declared_base != base.content.len() as u64 {
        let mut m = describe(graph, id);
        m.append(": size spoof: delta header claims base ");
        push_dec(&mut m, declared_base);
        m.append(", base is ");
        push_dec(&mut m, base.content.len() as u64);
        m.append(" bytes");
        mark(acc, id, NodeState::Failed, m, oid_of(node));
        return;
    }
    if declared > budget.max_single_bytes {
        let mut m = "delta result ".to_owned();
        push_dec(&mut m, declared);
        m.append(" bytes exceeds per-object cap ");
        push_dec(&mut m, budget.max_single_bytes);
        mark(acc, id, NodeState::Failed, m, oid_of(node));
        return;
    }
    if over(acc.bytes_used, declared, budget.max_expand_bytes) {
        let mut m = "total expansion budget ".to_owned();
        push_dec(&mut m, budget.max_expand_bytes);
        m.append(" exhausted (need ");
        push_dec(&mut m, declared);
        m.append(" more)");
        acc.paused = true;
        mark(acc, id, NodeState::Paused, m, oid_of(node));
        return;
    }
    let outcome = match apply_delta(base.content.as_slice(), payload.as_slice()) {
        Ok(o) => o,
        Err(e) => {
            let mut m = describe(graph, id);
            m.append(": ");
            m.append(e.message.as_str());
            mark(acc, id, NodeState::Failed, m, oid_of(node));
            return;
        },
    };
    proof {
        assert(payload@.len() == payload.len());
        applies_exactly_when_sound(base.content@, payload@);
    }
    // The result type equals the base object's real type.
    let computed = git_oid(base.kind, outcome.output.as_slice());
    let (oid, oid_ok) = check_claim(
        graph,
        acc,
        id,
        node,
        computed,
        ": index names ",
        ", reconstruction is ",
    );
    let step = DeltaStepRec {
        oid: oid.clone(),
        step: depth,
        child_candidate_id: id,
        base_candidate_id: base_id,
        base_oid: base.oid,
        commands: outcome.instrs,
        input_len: declared_base,
        output_len: declared,
        verify: if oid_ok {
            "ok"
        } else {
            "oid-mismatch"
        },
    };
    let ghost listed = acc@.steps;
    acc.steps.push(step);
    assert(acc@.steps =~= listed.push(step@));
    settle(acc, id, oid, base.kind, outcome.output, depth + 1, oid_ok);
}

/// Builds a delta once its base has been tried.
fn build_on(
    graph: &Graph,
    acc: &mut RunAcc,
    id: i64,
    node: &CandidateNode,
    budget: Budget,
    depth: u32,
    payload: Vec<u8>,
    base_id: i64,
    Ghost(env): Ghost<Env>,
)
    requires
        env.graph == graph@,
        env.budget == budget,
        depth < budget.max_depth,
        oids_can_be_cut(graph@),
    ensures
        final(acc)@ == built_on(env, old(acc)@, id, node.deep_view(), depth, payload@, base_id),
{
    let state: Option<NodeState> = match acc.state.get(base_id) {
        Some(s) => Some(*s),
        None => None,
    };
    match state {
        Some(NodeState::Resolved) => {},
        Some(NodeState::Paused) => {
            let mut m = describe(graph, id);
            m.append(": paused waiting for base ");
            m.append(describe(graph, base_id).as_str());
            acc.paused = true;
            mark(acc, id, NodeState::Paused, m, oid_of(node));
            return;
        },
        _ => {
            let mut m = describe(graph, id);
            m.append(": base ");
            m.append(describe(graph, base_id).as_str());
            m.append(" unresolved; blocking chain: ");
            m.append(blocking_chain(graph, id).as_str());
            mark(acc, id, NodeState::Failed, m, oid_of(node));
            return;
        },
    }
    if acc.paused {
        let mut m = describe(graph, id);
        m.append(": paused mid-chain");
        mark(acc, id, NodeState::Paused, m, oid_of(node));
        return;
    }
    let base = match acc.resolved.get(base_id) {
        Some(b) => copy_resolved(b),
        None => return,
    };
    apply_node(graph, acc, id, node, budget, depth, payload, base_id, base, Ghost(env));
}

/// Fails every undecided candidate of a cycle.
fn fail_cycle(graph: &Graph, acc: &mut RunAcc, ids: &Vec<i64>)
    ensures
        final(acc)@ == all_failed(
            graph@,
            old(acc)@,
            ids@,
            "delta cycle: "@ + joined(descriptions(graph@, ids@), " -> "@),
        ),
{
    let mut cycle: Vec<String> = Vec::new();
    let mut k: usize = 0;
    assert(texts(cycle@) =~= descriptions(graph@, ids@).take(0));
    while k < ids.len()
        invariant
            k <= ids@.len(),
            texts(cycle@) == descriptions(graph@, ids@).take(k as int),
        decreases ids@.len() - k,
    {
        push_part(&mut cycle, describe(graph, ids[k]));
        k += 1;
        assert(texts(cycle@) =~= descriptions(graph@, ids@).take(k as int));
    }
    assert(texts(cycle@) =~= descriptions(graph@, ids@));
    let mut reason = "delta cycle: ".to_owned();
    reason.append(join(&cycle, " -> ").as_str());
    let ghost start = acc@;
    let mut i: usize = 0;
    assert(ids@.skip(0) =~= ids@);
    while i < ids.len()
        invariant
            i <= ids@.len(),
            all_failed(graph@, start, ids@, reason@) == all_failed(
                graph@,
                acc@,
                ids@.skip(i as int),
                reason@,
            ),
        decreases ids@.len() - i,
    {
        let cid: i64 = ids[i];
        let ghost rest = ids@.skip(i as int);
        if !acc.state.contains(cid) {
            let oid: Option<String> = match graph.nodes.get(cid) {
                Some(n) => oid_of(n),
                None => None,
            };
            mark(acc, cid, NodeState::Failed, reason.clone(), oid);
        }
        assert(rest.skip(1) =~= ids@.skip(i + 1));
        i += 1;
    }
}

/// Tries to reconstruct candidate `id`, which was reached through the deltas of `stack`, and
/// before it every base that it rests on.
pub fn resolve_node(
    graph: &Graph,
    files: &TextMap<FileRead>,
    acc: &mut RunAcc,
    id: i64,
    stack: &mut Vec<i64>,
    budget: Budget,
    depth: u32,
)
    requires
        oids_can_be_cut(graph@),
    ensures
        final(acc)@ == tried(
            Env { graph: graph@, files: files@, budget },
            old(acc)@,
            id,
            old(stack)@,
            depth,
        ),
        final(stack)@ == old(stack)@,
    decreases budget.max_depth - depth,
{
    let ghost env = Env { graph: graph@, files: files@, budget };
    if let Some(state) = acc.state.get(id) {
        if matches!(*state, NodeState::Paused) {
            acc.paused = true;
        }
        return;
    }
    if contains_id(stack, id) {
        let mut ids: Vec<i64> = stack.clone();
        ids.push(id);
        assert(ids@ =~= stack@.push(id));
        fail_cycle(graph, acc, &ids);
        return;
    }
    let node = match graph.nodes.get(id) {
        Some(n) => n,
        None => return,
    };
    let payload = match open_node(graph, files, acc, id, node, budget, depth, Ghost(env)) {
        Some(p) => p,
        None => return,
    };
    match choose_base(graph, acc, node) {
        Err(reason) => {
            mark(acc, id, NodeState::Failed, reason, oid_of(node));
        },
        Ok(base_id) => {
            let ghost before = stack@;
            stack.push(id);
            resolve_node(graph, files, acc, base_id, stack, budget, depth + 1);
            let top = stack.pop();
            assert(stack@ =~= before);
            build_on(graph, acc, id, node, budget, depth, payload, base_id, Ghost(env));
        },
    }
}

/// What holds of a run at every moment.
pub open spec fn sound(env: Env, a: AccModel) -> bool {
    &&& a.bytes_used <= env.budget.max_expand_bytes
    &&& a.depth_used <= env.budget.max_depth
    &&& forall|x: i64|
        has_key(a.resolved, x) ==> (#[trigger] get(a.state, x)) == Some(NodeState::Resolved) && object_sound(
            env,
            get(a.resolved, x)->0,
        )
    &&& forall|x: i64| get(a.state, x) == Some(NodeState::Resolved) ==> #[trigger] has_key(a.resolved, x)
}

/// A reconstructed object is whole, within the limits, and hashes to its oid where its
/// candidate's claim was met.
pub open spec fn object_sound(env: Env, r: ResolvedModel) -> bool {
    &&& !r.kind.delta()
    &&& r.content.len() <= env.budget.max_single_bytes
    &&& r.depth <= env.budget.max_depth
    &&& r.oid_ok ==> r.oid == oid_text(r.kind, r.content)
}

/// Every candidate that `a` had decided is decided in the same way by `b`, and the objects of
/// `ids` are as they were.
pub open spec fn keeps(a: AccModel, b: AccModel, ids: Seq<i64>) -> bool {
    &&& forall|x: i64| #[trigger] get(a.state, x) is Some ==> get(b.state, x) == get(a.state, x)
    &&& forall|x: i64| ids.contains(x) ==> #[trigger] get(b.resolved, x) == get(a.resolved, x)
}

proof fn lemma_marked(env: Env, a: AccModel, id: i64, s: NodeState, reason: Seq<char>, oid: Option<Seq<char>>)
    requires
        sound(env, a),
        s != NodeState::Resolved,
        !has_key(a.resolved, id),
    ensures
        sound(env, marked(a, id, s, reason, oid)),
        sound(env, paused_at(a, id, reason, oid)),
        get(marked(a, id, s, reason, oid).state, id) == Some(s),
        forall|x: i64| x != id ==> #[trigger] get(marked(a, id, s, reason, oid).state, x) == get(a.state, x),
{
    let b = marked(a, id, s, reason, oid);
    assert forall|x: i64| x != id implies #[trigger] get(b.state, x) == get(a.state, x) by {
        get_of_put(a.state, id, s, x);
    }
    get_of_put(a.state, id, s, id);
    let c = paused_at(a, id, reason, oid);
    assert forall|x: i64| x != id implies #[trigger] get(c.state, x) == get(a.state, x) by {
        get_of_put(a.state, id, NodeState::Paused, x);
    }
    get_of_put(a.state, id, NodeState::Paused, id);
    assert forall|x: i64| get(b.state, x) == Some(NodeState::Resolved) implies #[trigger] has_key(b.resolved, x) by {
        assert(get(a.state, x) == Some(NodeState::Resolved));
        assert(has_key(a.resolved, x));
    }
    assert forall|x: i64| get(c.state, x) == Some(NodeState::Resolved) implies #[trigger] has_key(c.resolved, x) by {
        assert(get(a.state, x) == Some(NodeState::Resolved));
        assert(has_key(a.resolved, x));
    }
    assert forall|x: i64| has_key(b.resolved, x) implies (#[trigger] get(b.state, x)) == Some(
        NodeState::Resolved,
    ) && object_sound(env, get(b.resolved, x)->0) by {
        assert(get(a.state, x) == Some(NodeState::Resolved));
    }
    assert forall|x: i64| has_key(c.resolved, x) implies (#[trigger] get(c.state, x)) == Some(
        NodeState::Resolved,
    ) && object_sound(env, get(c.resolved, x)->0) by {
        assert(get(a.state, x) == Some(NodeState::Resolved));
    }
}

proof fn lemma_settled(
    env: Env,
    a: AccModel,
    id: i64,
    oid: Seq<char>,
    kind: GitType,
    content: Seq<u8>,
    depth: u32,
    oid_ok: bool,
)
    requires
        sound(env, a),
        !kind.delta(),
        content.len() <= env.budget.max_single_bytes,
        a.bytes_used + content.len() <= env.budget.max_expand_bytes,
        depth <= env.budget.max_depth,
        oid_ok ==> oid == oid_text(kind, content),
    ensures
        ({
            let b = settled(a, id, oid, kind, content, depth, oid_ok);
            &&& sound(env, b)
            &&& get(b.state, id) == Some(NodeState::Resolved)
            &&& forall|x: i64| x != id ==> #[trigger] get(b.state, x) == get(a.state, x)
            &&& forall|x: i64| x != id ==> #[trigger] get(b.resolved, x) == get(a.resolved, x)
        }),
{
    let b = settled(a, id, oid, kind, content, depth, oid_ok);
    let r = ResolvedModel { oid, candidate_id: id, kind, content, depth, oid_ok };
    get_of_put(a.state, id, NodeState::Resolved, id);
    get_of_put(a.resolved, id, r, id);
    assert forall|x: i64| x != id implies #[trigger] get(b.state, x) == get(a.state, x) by {
        get_of_put(a.state, id, NodeState::Resolved, x);
    }
    assert forall|x: i64| x != id implies #[trigger] get(b.resolved, x) == get(a.resolved, x) by {
        get_of_put(a.resolved, id, r, x);
    }
    assert forall|x: i64| get(b.state, x) == Some(NodeState::Resolved) implies #[trigger] has_key(b.resolved, x) by {
        if x != id {
            assert(get(a.state, x) == Some(NodeState::Resolved));
            assert(has_key(a.resolved, x));
            assert(get(b.resolved, x) == get(a.resolved, x));
        }
    }
    assert forall|x: i64| has_key(b.resolved, x) implies (#[trigger] get(b.state, x)) == Some(
        NodeState::Resolved,
    ) && object_sound(env, get(b.resolved, x)->0) by {
        if x != id {
            assert(get(b.resolved, x) == get(a.resolved, x));
            assert(has_key(a.resolved, x));
            assert(get(a.state, x) == Some(NodeState::Resolved));
        }
    }
}

proof fn lemma_all_failed(env: Env, a: AccModel, ids: Seq<i64>, reason: Seq<char>)
    requires
        sound(env, a),
    ensures
        sound(env, all_failed(env.graph, a, ids, reason)),
        all_failed(env.graph, a, ids, reason).resolved == a.resolved,
        forall|x: i64| #[trigger]
            get(a.state, x) is Some ==> get(all_failed(env.graph, a, ids, reason).state, x) == get(a.state, x),
        forall|k: int|
            0 <= k < ids.len() ==> has_key(
                all_failed(env.graph, a, ids, reason).state,
                #[trigger] ids[k],
            ),
    decreases ids.len(),
{
    if ids.len() > 0 {
        let next = if has_key(a.state, ids[0]) {
            a
        } else {
            failed_at(a, ids[0], reason, oid_of_id(env.graph, ids[0]))
        };
        let end = all_failed(env.graph, a, ids, reason);
        if !has_key(a.state, ids[0]) {
            assert(get(a.state, ids[0]) is None);
            lemma_marked(
                env,
                a,
                ids[0],
                NodeState::Failed,
                reason,
                oid_of_id(env.graph, ids[0]),
            );
        }
        assert(has_key(next.state, ids[0])) by {
            assert(get(next.state, ids[0]) is Some);
        }
        lemma_all_failed(env, next, ids.skip(1), reason);
        assert forall|x: i64| #[trigger] get(a.state, x) is Some implies get(end.state, x) == get(a.state, x) by {
            assert(get(next.state, x) == get(a.state, x));
        }
        assert forall|k: int| 0 <= k < ids.len() implies has_key(end.state, #[trigger] ids[k]) by {
            if k == 0 {
                assert(get(next.state, ids[0]) is Some);
                assert(get(end.state, ids[0]) is Some);
            } else {
                assert(ids.skip(1)[k - 1] == ids[k]);
            }
        }
    }
}

proof fn lemma_opened(env: Env, a: AccModel, id: i64, n: NodeModel, depth: u32)
    requires
        sound(env, a),
        get(a.state, id) is None,
    ensures
        opened(env, a, id, n, depth) matches Err(b) ==> {
            &&& sound(env, b)
            &&& has_key(b.state, id)
            &&& forall|x: i64| x != id ==> #[trigger] get(b.state, x) == get(a.state, x)
            &&& forall|x: i64| x != id ==> #[trigger] get(b.resolved, x) == get(a.resolved, x)
        },
{
    assert(!has_key(a.resolved, id)) by {
        if has_key(a.resolved, id) {
            assert(get(a.state, id) == Some(NodeState::Resolved));
        }
    }
    assert forall|m: Seq<char>| sound(env, #[trigger] failed_at(a, id, m, oid_opt(n))) && get(
        failed_at(a, id, m, oid_opt(n)).state,
        id,
    ) is Some && forall|x: i64|
        x != id ==> #[trigger] get(failed_at(a, id, m, oid_opt(n)).state, x) == get(a.state, x) by {
        lemma_marked(env, a, id, NodeState::Failed, m, oid_opt(n));
    }
    assert forall|m: Seq<char>| sound(env, #[trigger] paused_at(a, id, m, oid_opt(n))) && get(
        paused_at(a, id, m, oid_opt(n)).state,
        id,
    ) is Some && forall|x: i64|
        x != id ==> #[trigger] get(paused_at(a, id, m, oid_opt(n)).state, x) == get(a.state, x) by {
        lemma_marked(env, a, id, NodeState::Paused, m, oid_opt(n));
    }
    if let Ok((kind, payload)) = payload_of(n, file_of(env.files, n.stored_path)) {
        let computed = oid_text(kind, payload);
        let c = claim_checked(
            a,
            n,
            computed,
            "oid mismatch for "@ + described(env.graph, id),
            ": candidate claims "@,
            ", content is "@,
        );
        assert(sound(env, c)) by {
            assert(c.state == a.state && c.resolved == a.resolved);
            assert forall|x: i64| has_key(c.resolved, x) implies (#[trigger] get(c.state, x)) == Some(
                NodeState::Resolved,
            ) && object_sound(env, get(c.resolved, x)->0) by {
                assert(get(a.state, x) == Some(NodeState::Resolved));
            }
            assert forall|x: i64| get(c.state, x) == Some(NodeState::Resolved) implies #[trigger] has_key(
                c.resolved,
                x,
            ) by {
                assert(has_key(a.resolved, x));
            }
        }
        if !kind.delta() && depth < env.budget.max_depth && a.bytes_used + payload.len()
            <= env.budget.max_expand_bytes && payload.len() <= env.budget.max_single_bytes {
            lemma_settled(
                env,
                c,
                id,
                kept_oid(n, computed),
                kind,
                payload,
                depth,
                claim_holds(n, computed),
            );
        }
    }
}

proof fn lemma_built_on(env: Env, a: AccModel, id: i64, n: NodeModel, depth: u32, payload: Seq<u8>, base_id: i64)
    requires
        sound(env, a),
        depth < env.budget.max_depth,
        payload.len() <= usize::MAX,
        !has_key(a.resolved, id),
    ensures
        ({
            let b = built_on(env, a, id, n, depth, payload, base_id);
            &&& sound(env, b)
            &&& has_key(b.state, id)
            &&& forall|x: i64| x != id ==> #[trigger] get(b.state, x) == get(a.state, x)
            &&& forall|x: i64| x != id ==> #[trigger] get(b.resolved, x) == get(a.resolved, x)
        }),
{
    assert forall|m: Seq<char>, s: NodeState| s != NodeState::Resolved implies sound(
        env,
        #[trigger] marked(a, id, s, m, oid_opt(n)),
    ) && get(marked(a, id, s, m, oid_opt(n)).state, id) is Some && forall|x: i64|
        x != id ==> #[trigger] get(marked(a, id, s, m, oid_opt(n)).state, x) == get(a.state, x) by {
        lemma_marked(env, a, id, s, m, oid_opt(n));
    }
    assert forall|m: Seq<char>| sound(env, #[trigger] paused_at(a, id, m, oid_opt(n))) && get(
        paused_at(a, id, m, oid_opt(n)).state,
        id,
    ) is Some && forall|x: i64|
        x != id ==> #[trigger] get(paused_at(a, id, m, oid_opt(n)).state, x) == get(a.state, x) by {
        lemma_marked(env, a, id, NodeState::Paused, m, oid_opt(n));
    }
    if get(a.state, base_id) == Some(NodeState::Resolved) && !a.paused {
        assert(has_key(a.resolved, base_id));
        let base = get(a.resolved, base_id)->0;
        assert(object_sound(env, base));
        if let Ok((base_len, result_len, start)) = sizes(payload) {
            if let Ok((out, commands)) = result_of(base.content, payload) {
                applies_exactly_when_sound(base.content, payload);
                let computed = oid_text(base.kind, out);
                let c = claim_checked(
                    a,
                    n,
                    computed,
                    "oid mismatch for "@ + described(env.graph, id),
                    ": index names "@,
                    ", reconstruction is "@,
                );
                let b = built_on(env, a, id, n, depth, payload, base_id);
                if base_len == base.content.len() && result_len <= env.budget.max_single_bytes && a.bytes_used
                    + result_len <= env.budget.max_expand_bytes {
                    let step = b.steps.last();
                    let d = AccModel { steps: c.steps.push(step), ..c };
                    assert(sound(env, d)) by {
                        assert(d.state == a.state && d.resolved == a.resolved);
                        assert forall|x: i64| has_key(d.resolved, x) implies (#[trigger] get(d.state, x)) == Some(
                            NodeState::Resolved,
                        ) && object_sound(env, get(d.resolved, x)->0) by {
                            assert(get(a.state, x) == Some(NodeState::Resolved));
                        }
                        assert forall|x: i64| get(d.state, x) == Some(
                            NodeState::Resolved,
                        ) implies #[trigger] has_key(d.resolved, x) by {
                            assert(has_key(a.resolved, x));
                        }
                    }
                    lemma_settled(
                        env,
                        d,
                        id,
                        kept_oid(n, computed),
                        base.kind,
                        out,
                        (depth + 1) as u32,
                        claim_holds(n, computed),
                    );
                }
            }
        }
    }
}

/// Trying a candidate keeps a run sound, decides the candidate, never changes what was decided
/// before, and reconstructs nothing that a chain is still waiting for.
///
/// So a run never expands more bytes than its budget, follows no chain beyond its depth, and
/// every object that it reconstructs hashes to the oid it is kept under, unless its candidate
/// claimed another one.
pub proof fn trying_keeps_a_run_sound(env: Env, a: AccModel, id: i64, stack: Seq<i64>, depth: u32)
    requires
        sound(env, a),
    ensures
        sound(env, tried(env, a, id, stack, depth)),
        keeps(a, tried(env, a, id, stack, depth), stack),
        has_key(env.graph.nodes, id) ==> has_key(tried(env, a, id, stack, depth).state, id),
    decreases env.budget.max_depth - depth,
{
    let t = tried(env, a, id, stack, depth);
    if get(a.state, id) is Some {
        assert forall|x: i64| has_key(t.resolved, x) implies (#[trigger] get(t.state, x)) == Some(
            NodeState::Resolved,
        ) && object_sound(env, get(t.resolved, x)->0) by {
            assert(get(a.state, x) == Some(NodeState::Resolved));
        }
        assert forall|x: i64| get(t.state, x) == Some(NodeState::Resolved) implies #[trigger] has_key(
            t.resolved,
            x,
        ) by {
            assert(has_key(a.resolved, x));
        }
    } else if stack.contains(id) {
        let ids = stack.push(id);
        lemma_all_failed(
            env,
            a,
            ids,
            "delta cycle: "@ + joined(descriptions(env.graph, ids), " -> "@),
        );
        assert(ids[stack.len() as int] == id);
    } else if let Some(n) = get(env.graph.nodes, id) {
        lemma_opened(env, a, id, n, depth);
        match opened(env, a, id, n, depth) {
            Err(done) => {},
            Ok(payload) => {
                payloads_are_capped(n, file_of(env.files, n.stored_path));
                assert(!has_key(a.resolved, id)) by {
                    if has_key(a.resolved, id) {
                        assert(get(a.state, id) == Some(NodeState::Resolved));
                    }
                }
                match chosen_base(env.graph, a, n) {
                    Err(reason) => {
                        lemma_marked(env, a, id, NodeState::Failed, reason, oid_opt(n));
                        assert(get(t.state, id) is Some);
                    },
                    Ok(b) => {
                        let inner = stack.push(id);
                        trying_keeps_a_run_sound(env, a, b, inner, (depth + 1) as u32);
                        let m = tried(env, a, b, inner, (depth + 1) as u32);
                        assert(inner[stack.len() as int] == id);
                        assert(inner.contains(id));
                        assert(get(m.resolved, id) == get(a.resolved, id));
                        assert(!has_key(m.resolved, id));
                        lemma_built_on(env, m, id, n, depth, payload, b);
                        assert forall|x: i64| stack.contains(x) implies #[trigger] get(t.resolved, x) == get(
                            a.resolved,
                            x,
                        ) by {
                            let k = choose|k: int| 0 <= k < stack.len() && stack[k] == x;
                            assert(inner[k] == x);
                            assert(inner.contains(x));
                            assert(get(m.resolved, x) == get(a.resolved, x));
                        }
                        assert forall|x: i64| #[trigger] get(a.state, x) is Some implies get(t.state, x) == get(
                            a.state,
                            x,
                        ) by {
                            assert(get(m.state, x) == get(a.state, x));
                        }
                    },
                }
            },
        }
    }
}

/// A candidate is newly paused only where the run is.
pub open spec fn pauses_told(a: AccModel, b: AccModel) -> bool {
    &&& a.paused ==> b.paused
    &&& forall|x: i64| #[trigger]
        get(b.state, x) == Some(NodeState::Paused) && get(a.state, x) != Some(NodeState::Paused) ==> b.paused
}

proof fn lemma_pause_told(a: AccModel, b: AccModel, id: i64, s: NodeState)
    requires
        b.state == put(a.state, id, s),
        a.paused ==> b.paused,
        s == NodeState::Paused ==> b.paused,
    ensures
        pauses_told(a, b),
{
    assert forall|x: i64| #[trigger] get(b.state, x) == Some(NodeState::Paused) && get(a.state, x) != Some(
        NodeState::Paused,
    ) implies b.paused by {
        get_of_put(a.state, id, s, x);
    }
}

/// A candidate that trying another one pauses marks the run as paused, and the mark stays.
pub proof fn pauses_mark_the_run(env: Env, a: AccModel, id: i64, stack: Seq<i64>, depth: u32)
    ensures
        pauses_told(a, tried(env, a, id, stack, depth)),
    decreases env.budget.max_depth - depth,
{
    let t = tried(env, a, id, stack, depth);
    if get(a.state, id) is None && stack.contains(id) {
        let ids = stack.push(id);
        let reason = "delta cycle: "@ + joined(descriptions(env.graph, ids), " -> "@);
        assert forall|x: i64| #[trigger] get(t.state, x) == Some(NodeState::Paused) implies get(a.state, x)
            == Some(NodeState::Paused) by {
            lemma_cycle(env.graph, a, ids, reason, x);
        }
        lemma_cycle(env.graph, a, ids, reason, id);
    } else if get(a.state, id) is None {
        if let Some(n) = get(env.graph.nodes, id) {
            match opened(env, a, id, n, depth) {
                Err(done) => {
                    lemma_opened_state(env, a, id, n, depth);
                },
                Ok(payload) => match chosen_base(env.graph, a, n) {
                    Err(reason) => {
                        lemma_pause_told(a, t, id, NodeState::Failed);
                    },
                    Ok(b) => {
                        let m = tried(env, a, b, stack.push(id), (depth + 1) as u32);
                        pauses_mark_the_run(env, a, b, stack.push(id), (depth + 1) as u32);
                        lemma_built_state(env, m, id, n, depth, payload, b);
                        assert forall|x: i64| #[trigger] get(t.state, x) == Some(NodeState::Paused) && get(
                            a.state,
                            x,
                        ) != Some(NodeState::Paused) implies t.paused by {
                            if get(m.state, x) == Some(NodeState::Paused) {
                                assert(m.paused);
                            }
                        }
                    },
                },
            }
        }
    }
}

proof fn lemma_opened_state(env: Env, a: AccModel, id: i64, n: NodeModel, depth: u32)
    ensures
        opened(env, a, id, n, depth) matches Err(b) ==> pauses_told(a, b),
{
    if let Err(b) = opened(env, a, id, n, depth) {
        let s = if b.state == put(a.state, id, NodeState::Paused) {
            NodeState::Paused
        } else if b.state == put(a.state, id, NodeState::Failed) {
            NodeState::Failed
        } else {
            NodeState::Resolved
        };
        if b.paused || s != NodeState::Paused {
            lemma_pause_told(a, b, id, s);
        } else {
            get_of_put(a.state, id, NodeState::Paused, id);
            get_of_put(a.state, id, NodeState::Failed, id);
            get_of_put(a.state, id, NodeState::Resolved, id);
        }
    }
}

proof fn lemma_built_state(env: Env, a: AccModel, id: i64, n: NodeModel, depth: u32, payload: Seq<u8>, base_id: i64)
    ensures
        pauses_told(a, built_on(env, a, id, n, depth, payload, base_id)),
{
    let b = built_on(env, a, id, n, depth, payload, base_id);
    if b != a {
        get_of_put(a.state, id, NodeState::Paused, id);
        get_of_put(a.state, id, NodeState::Failed, id);
        get_of_put(a.state, id, NodeState::Resolved, id);
        let s = get(b.state, id)->0;
        lemma_pause_told(a, b, id, s);
    }
}

proof fn lemma_cycle(g: GraphModel, a: AccModel, ids: Seq<i64>, reason: Seq<char>, x: i64)
    ensures
        ({
            let end = all_failed(g, a, ids, reason);
            &&& end.resolved == a.resolved && end.paused == a.paused && end.bytes_used == a.bytes_used
            &&& end.resolved_by_oid == a.resolved_by_oid
            &&& get(end.state, x) == if get(a.state, x) is None && ids.contains(x) {
                Some(NodeState::Failed)
            } else {
                get(a.state, x)
            }
            &&& get(a.state, x) is None && ids.contains(x) ==> get(end.reason, x) == Some(reason)
            &&& get(a.state, x) is Some ==> get(end.reason, x) == get(a.reason, x)
        }),
    decreases ids.len(),
{
    if ids.len() > 0 {
        let rest = ids.skip(1);
        let next = if has_key(a.state, ids[0]) {
            a
        } else {
            failed_at(a, ids[0], reason, oid_of_id(g, ids[0]))
        };
        get_of_put(a.state, ids[0], NodeState::Failed, x);
        get_of_put(a.reason, ids[0], reason, x);
        lemma_cycle(g, next, rest, reason, x);
        assert(ids.contains(x) <==> x == ids[0] || rest.contains(x)) by {
            if ids.contains(x) && x != ids[0] {
                let k = choose|k: int| 0 <= k < ids.len() && ids[k] == x;
                assert(rest[k - 1] == x);
            }
            if rest.contains(x) {
                let k = choose|k: int| 0 <= k < rest.len() && rest[k] == x;
                assert(ids[k + 1] == x);
            }
        }
    }
}

/// A candidate that is reached again while a chain waits for it closes a cycle: it and every
/// candidate of the chain that was not decided fail, with the cycle as the reason, and nothing
/// else changes its state or is reconstructed.
pub proof fn a_cycle_fails_its_chain(env: Env, a: AccModel, id: i64, stack: Seq<i64>, depth: u32, x: i64)
    requires
        stack.contains(id),
        get(a.state, id) is None,
    ensures
        ({
            let t = tried(env, a, id, stack, depth);
            let reason = "delta cycle: "@ + joined(descriptions(env.graph, stack.push(id)), " -> "@);
            &&& get(t.state, id) == Some(NodeState::Failed)
            &&& get(t.state, x) == if get(a.state, x) is None && stack.contains(x) {
                Some(NodeState::Failed)
            } else {
                get(a.state, x)
            }
            &&& get(a.state, x) is None && stack.contains(x) ==> get(t.reason, x) == Some(reason)
            &&& t.resolved == a.resolved && t.paused == a.paused && t.bytes_used == a.bytes_used
            &&& t.resolved_by_oid == a.resolved_by_oid
        }),
{
    let ids = stack.push(id);
    let reason = "delta cycle: "@ + joined(descriptions(env.graph, ids), " -> "@);
    lemma_cycle(env.graph, a, ids, reason, x);
    lemma_cycle(env.graph, a, ids, reason, id);
    assert(ids[stack.len() as int] == id);
    assert forall|y: i64| ids.contains(y) implies stack.contains(y) by {
        let k = choose|k: int| 0 <= k < ids.len() && ids[k] == y;
        if k < stack.len() {
            assert(stack[k] == y);
        }
    }
    if stack.contains(x) {
        let k = choose|k: int| 0 <= k < stack.len() && stack[k] == x;
        assert(ids[k] == x);
    }
}

/// What was reconstructed in `a` is in `b` as it was.
pub open spec fn holds_all(a: AccModel, b: AccModel) -> bool {
    forall|x: i64| #[trigger] has_key(a.resolved, x) ==> get(b.resolved, x) == get(a.resolved, x)
}

proof fn lemma_unresolved(env: Env, a: AccModel, x: i64)
    requires
        sound(env, a),
        get(a.state, x) != Some(NodeState::Resolved),
    ensures
        !has_key(a.resolved, x),
        get(a.resolved, x) is None,
{
    if has_key(a.resolved, x) {
        assert(get(a.state, x) == Some(NodeState::Resolved));
    }
}

proof fn lemma_opened_holds(env: Env, a: AccModel, id: i64, n: NodeModel, depth: u32)
    requires
        sound(env, a),
        get(a.state, id) is None,
    ensures
        opened(env, a, id, n, depth) matches Err(b) ==> holds_all(a, b),
{
    lemma_unresolved(env, a, id);
    lemma_opened(env, a, id, n, depth);
    if let Err(b) = opened(env, a, id, n, depth) {
        assert forall|x: i64| #[trigger] has_key(a.resolved, x) implies get(b.resolved, x) == get(a.resolved, x) by {
            assert(x != id);
        }
    }
}

proof fn lemma_built_holds(env: Env, a: AccModel, id: i64, n: NodeModel, depth: u32, payload: Seq<u8>, base_id: i64)
    requires
        sound(env, a),
        depth < env.budget.max_depth,
        payload.len() <= usize::MAX,
        !has_key(a.resolved, id),
    ensures
        holds_all(a, built_on(env, a, id, n, depth, payload, base_id)),
{
    lemma_built_on(env, a, id, n, depth, payload, base_id);
    let b = built_on(env, a, id, n, depth, payload, base_id);
    assert forall|x: i64| #[trigger] has_key(a.resolved, x) implies get(b.resolved, x) == get(a.resolved, x) by {
        assert(x != id);
    }
}

/// Trying a candidate changes nothing that was reconstructed before.
pub proof fn trying_keeps_what_was_reconstructed(env: Env, a: AccModel, id: i64, stack: Seq<i64>, depth: u32)
    requires
        sound(env, a),
    ensures
        holds_all(a, tried(env, a, id, stack, depth)),
    decreases env.budget.max_depth - depth,
{
    let t = tried(env, a, id, stack, depth);
    if get(a.state, id) is None {
        if stack.contains(id) {
            let ids = stack.push(id);
            lemma_cycle(
                env.graph,
                a,
                ids,
                "delta cycle: "@ + joined(descriptions(env.graph, ids), " -> "@),
                id,
            );
        } else if let Some(n) = get(env.graph.nodes, id) {
            match opened(env, a, id, n, depth) {
                Err(done) => lemma_opened_holds(env, a, id, n, depth),
                Ok(payload) => {
                    payloads_are_capped(n, file_of(env.files, n.stored_path));
                    match chosen_base(env.graph, a, n) {
                        Err(reason) => {},
                        Ok(b) => {
                            let inner = stack.push(id);
                            let m = tried(env, a, b, inner, (depth + 1) as u32);
                            trying_keeps_a_run_sound(env, a, b, inner, (depth + 1) as u32);
                            trying_keeps_what_was_reconstructed(env, a, b, inner, (depth + 1) as u32);
                            lemma_unresolved(env, a, id);
                            assert(inner[stack.len() as int] == id);
                            assert(inner.contains(id));
                            assert(get(m.resolved, id) == get(a.resolved, id));
                            assert(!has_key(m.resolved, id));
                            lemma_built_holds(env, m, id, n, depth, payload, b);
                            assert forall|x: i64| #[trigger] has_key(a.resolved, x) implies get(t.resolved, x) == get(
                                a.resolved,
                                x,
                            ) by {
                                assert(get(m.resolved, x) == get(a.resolved, x));
                                assert(has_key(m.resolved, x));
                            }
                        },
                    }
                },
            }
        }
    }
}

/// One budget allows all that another does: what all objects together may expand to, and the
/// length of chains, are no smaller, and what one object may have is the same.
pub open spec fn raised(low: Budget, high: Budget) -> bool {
    &&& low.max_depth <= high.max_depth
    &&& low.max_expand_bytes <= high.max_expand_bytes
    &&& low.max_single_bytes == high.max_single_bytes
}

/// The surroundings of a run under another budget.
pub open spec fn under(env: Env, budget: Budget) -> Env {
    Env { budget, ..env }
}

pub proof fn lemma_sound_raised(env: Env, high: Budget, a: AccModel)
    requires
        sound(env, a),
        raised(env.budget, high),
    ensures
        sound(under(env, high), a),
{
    let e = under(env, high);
    assert forall|x: i64| has_key(a.resolved, x) implies (#[trigger] get(a.state, x)) == Some(NodeState::Resolved)
        && object_sound(e, get(a.resolved, x)->0) by {
        assert(get(a.state, x) == Some(NodeState::Resolved));
    }
}

proof fn lemma_opened_raised(env: Env, high: Budget, a: AccModel, id: i64, n: NodeModel, depth: u32)
    requires
        sound(env, a),
        raised(env.budget, high),
        !a.paused,
        get(a.state, id) is None,
    ensures
        match opened(env, a, id, n, depth) {
            Ok(p) => opened(under(env, high), a, id, n, depth) == Ok::<Seq<u8>, AccModel>(p),
            Err(b) => if b.paused {
                b.resolved == a.resolved
            } else {
                opened(under(env, high), a, id, n, depth) == Err::<Seq<u8>, AccModel>(b)
            },
        },
{
}

proof fn lemma_built_raised(
    env: Env,
    high: Budget,
    a: AccModel,
    id: i64,
    n: NodeModel,
    depth: u32,
    payload: Seq<u8>,
    base_id: i64,
)
    requires
        sound(env, a),
        raised(env.budget, high),
        !a.paused,
    ensures
        ({
            let b = built_on(env, a, id, n, depth, payload, base_id);
            if b.paused {
                b.resolved == a.resolved
            } else {
                built_on(under(env, high), a, id, n, depth, payload, base_id) == b
            }
        }),
{
}

/// Under a raised budget, trying a candidate goes as before as long as nothing is paused, and where
/// something is, all that was reconstructed until then is reconstructed with the same content.
pub proof fn raising_the_budget_keeps_a_try(env: Env, high: Budget, a: AccModel, id: i64, stack: Seq<i64>, depth: u32)
    requires
        sound(env, a),
        !a.paused,
        raised(env.budget, high),
    ensures
        ({
            let low = tried(env, a, id, stack, depth);
            let more = tried(under(env, high), a, id, stack, depth);
            if low.paused {
                holds_all(low, more)
            } else {
                more == low
            }
        }),
    decreases env.budget.max_depth - depth,
{
    let e = under(env, high);
    let low = tried(env, a, id, stack, depth);
    let more = tried(e, a, id, stack, depth);
    lemma_sound_raised(env, high, a);
    if get(a.state, id) is None && !stack.contains(id) {
        if let Some(n) = get(env.graph.nodes, id) {
            lemma_opened_raised(env, high, a, id, n, depth);
            match opened(env, a, id, n, depth) {
                Err(b) => {
                    if b.paused {
                        trying_keeps_what_was_reconstructed(e, a, id, stack, depth);
                    }
                },
                Ok(payload) => {
                    payloads_are_capped(n, file_of(env.files, n.stored_path));
                    match chosen_base(env.graph, a, n) {
                        Err(reason) => {},
                        Ok(b) => {
                            let inner = stack.push(id);
                            let next = (depth + 1) as u32;
                            raising_the_budget_keeps_a_try(env, high, a, b, inner, next);
                            trying_keeps_a_run_sound(env, a, b, inner, next);
                            trying_keeps_a_run_sound(e, a, b, inner, next);
                            let m = tried(env, a, b, inner, next);
                            let w = tried(e, a, b, inner, next);
                            lemma_unresolved(env, a, id);
                            assert(inner[stack.len() as int] == id);
                            assert(inner.contains(id));
                            assert(get(m.resolved, id) == get(a.resolved, id));
                            assert(get(w.resolved, id) == get(a.resolved, id));
                            assert(!has_key(m.resolved, id));
                            assert(!has_key(w.resolved, id));
                            lemma_built_holds(e, w, id, n, depth, payload, b);
                            if m.paused {
                                assert(low.resolved == m.resolved);
                                assert forall|x: i64| #[trigger] has_key(low.resolved, x) implies get(
                                    more.resolved,
                                    x,
                                ) == get(low.resolved, x) by {
                                    assert(has_key(m.resolved, x));
                                    assert(get(w.resolved, x) == get(m.resolved, x));
                                    assert(has_key(w.resolved, x));
                                }
                            } else {
                                lemma_built_raised(env, high, m, id, n, depth, payload, b);
                            }
                        },
                    }
                },
            }
        }
    } else if get(a.state, id) is None {
        let ids = stack.push(id);
        lemma_cycle(
            env.graph,
            a,
            ids,
            "delta cycle: "@ + joined(descriptions(env.graph, ids), " -> "@),
            id,
        );
    }
}

} // verus!
