//! One analysis run over a branch, and the rows that are kept of it.
use vstd::prelude::*;
use vstd::string::StringExecFns;
use crate::analyze::blocking::oids_can_be_cut;
use crate::analyze::engine::{
    fresh_run, holds_all, keeps, lemma_sound_raised, raised, raising_the_budget_keeps_a_try, resolve_node, sound,
    step_models, tried, trying_keeps_a_run_sound, trying_keeps_what_was_reconstructed, under, AccModel, Budget,
    DeltaStepRec, Env, NodeState, ResolvedModel, RunAcc, RunSummary, StepModel,
};
use crate::analyze::graph::{
    build_graph, copy_opt, flag, graph_of, node_models, text_opt, CandidateNode, FileRead, Graph, GraphModel,
    NodeModel,
};
use crate::git::delta::DeltaInstr;
use crate::model::assoc::{contains_id, get, has_key, TextMap};
use crate::model::rank::{rank, ranked};
use crate::model::text::{
    contains_text, dec, dec_int, has_part, is_empty, join, joined, push_dec, push_int, push_part, same_text,
    texts,
};

verus! {

/// The best candidate of each oid.
pub open spec fn heads(by_oid: Seq<(Seq<char>, Seq<i64>)>) -> Seq<i64>
    decreases by_oid.len(),
{
    if by_oid.len() == 0 {
        Seq::empty()
    } else if by_oid.last().1.len() > 0 {
        heads(by_oid.drop_last()).push(by_oid.last().1[0])
    } else {
        heads(by_oid.drop_last())
    }
}

/// `roots` and every candidate without an oid that is not among them.
pub open spec fn with_nameless(roots: Seq<i64>, nodes: Seq<(i64, NodeModel)>) -> Seq<i64>
    decreases nodes.len(),
{
    if nodes.len() == 0 {
        roots
    } else {
        let before = with_nameless(roots, nodes.drop_last());
        let last = nodes.last();
        if last.1.oid.len() == 0 && !before.contains(last.0) {
            before.push(last.0)
        } else {
            before
        }
    }
}

/// The kinds that name a delta.
pub open spec fn names_delta(kind: Seq<char>) -> bool {
    kind == "ofs-delta"@ || kind == "ref-delta"@
}

/// The rank of a root: whole objects before deltas, then source, offset and candidate.
pub open spec fn root_rank(nodes: Seq<(i64, NodeModel)>, id: i64) -> (i64, i64, i64, i64) {
    match get(nodes, id) {
        Some(n) => (flag(names_delta(n.kind_name)), n.source_id, n.offset, id),
        None => (0, 0, 0, id),
    }
}

/// The candidates that a run tries, in the order in which it tries them.
pub open spec fn roots_of(g: GraphModel) -> Seq<i64> {
    ranked(
        with_nameless(heads(g.by_oid), g.nodes).map_values(|id: i64| root_rank(g.nodes, id)),
    ).map_values(|r: (i64, i64, i64, i64)| r.3)
}

/// The run over `roots`; it ends at the first pause.
pub open spec fn run_over(env: Env, a: AccModel, roots: Seq<i64>) -> AccModel
    decreases roots.len(),
{
    if roots.len() == 0 {
        a
    } else {
        let next = tried(env, a, roots[0], Seq::empty(), 0);
        if next.paused {
            next
        } else {
            run_over(env, next, roots.skip(1))
        }
    }
}

/// How many candidates are in a state.
pub open spec fn count_state(states: Seq<(i64, NodeState)>, s: NodeState) -> nat
    decreases states.len(),
{
    if states.len() == 0 {
        0
    } else {
        count_state(states.drop_last(), s) + if states.last().1 == s {
            1nat
        } else {
            0nat
        }
    }
}

/// The status of a run.
pub open spec fn status_text(a: AccModel) -> Seq<char> {
    if a.paused {
        "paused"@
    } else if count_state(a.state, NodeState::Failed) > 0 {
        "failed"@
    } else {
        "complete"@
    }
}

/// The messages that a run starts with.
pub open spec fn first_messages(resume: Option<i64>) -> Seq<Seq<char>> {
    match resume {
        Some(prev) => seq!["resuming after paused run #"@ + dec_int(prev as int) + " with fresh budget"@],
        None => Seq::empty(),
    }
}

/// A finished run.
pub struct Analysis {
    pub acc: RunAcc,
    pub status: &'static str,
    pub messages: Vec<String>,
}

fn root_ids(graph: &Graph) -> (out: Vec<i64>)
    ensures
        out@ == with_nameless(heads(graph@.by_oid), graph@.nodes),
{
    let ghost by_oid = graph@.by_oid;
    let ghost nodes = graph@.nodes;
    let mut out: Vec<i64> = Vec::new();
    let mut i: usize = 0;
    assert(by_oid.take(0) =~= Seq::empty());
    assert(out@ =~= heads(by_oid.take(0)));
    while i < graph.by_oid.len()
        invariant
            i <= by_oid.len(),
            by_oid == graph.by_oid@,
            out@ == heads(by_oid.take(i as int)),
        decreases by_oid.len() - i,
    {
        let ids = graph.by_oid.value_at(i);
        assert(ids.deep_view() =~= ids@);
        if ids.len() > 0 {
            out.push(ids[0]);
        }
        proof {
            assert(by_oid.take(i + 1).drop_last() =~= by_oid.take(i as int));
            assert(by_oid.take(i + 1).last() == by_oid[i as int]);
        }
        i += 1;
    }
    assert(by_oid.take(i as int) =~= by_oid);
    let ghost roots = out@;
    let mut k: usize = 0;
    assert(nodes.take(0) =~= Seq::empty());
    while k < graph.nodes.len()
        invariant
            k <= nodes.len(),
            nodes == graph.nodes@,
            out@ == with_nameless(roots, nodes.take(k as int)),
        decreases nodes.len() - k,
    {
        let id: i64 = graph.nodes.key_at(k);
        let n = graph.nodes.value_at(k);
        proof {
            assert(nodes.take(k + 1).drop_last() =~= nodes.take(k as int));
            assert(nodes.take(k + 1).last() == nodes[k as int]);
        }
        if is_empty(n.oid.as_str()) && !contains_id(&out, id) {
            out.push(id);
        }
        k += 1;
    }
    assert(nodes.take(k as int) =~= nodes);
    out
}

/// The root set of a run: one candidate per oid (the pinned choice wins), plus every delta
/// without an oid. Bases come before deltas, so that pausing does not depend on the order of
/// import.
pub fn order_roots(graph: &Graph) -> (out: Vec<i64>)
    ensures
        out@ == roots_of(graph@),
{
    let ids = root_ids(graph);
    let ghost nodes = graph@.nodes;
    let ghost wanted = ids@.map_values(|id: i64| root_rank(nodes, id));
    let mut keys: Vec<(i64, i64, i64, i64)> = Vec::new();
    let mut i: usize = 0;
    while i < ids.len()
        invariant
            i <= ids@.len(),
            nodes == graph.nodes@,
            wanted == ids@.map_values(|id: i64| root_rank(nodes, id)),
            keys@ == wanted.take(i as int),
        decreases ids@.len() - i,
    {
        let id: i64 = ids[i];
        let key: (i64, i64, i64, i64) = match graph.nodes.get(id) {
            Some(n) => {
                let delta: bool = same_text(n.kind_name.as_str(), "ofs-delta") || same_text(
                    n.kind_name.as_str(),
                    "ref-delta",
                );
                let first: i64 = if delta {
                    1
                } else {
                    0
                };
                (first, n.source_id, n.offset, id)
            },
            None => (0, 0, 0, id),
        };
        keys.push(key);
        i += 1;
        assert(keys@ =~= wanted.take(i as int));
    }
    assert(keys@ =~= wanted);
    let sorted = rank(&keys);
    let ghost all = sorted@.map_values(|r: (i64, i64, i64, i64)| r.3);
    let mut out: Vec<i64> = Vec::new();
    let mut j: usize = 0;
    while j < sorted.len()
        invariant
            j <= sorted@.len(),
            all == sorted@.map_values(|r: (i64, i64, i64, i64)| r.3),
            out@ == all.take(j as int),
        decreases sorted@.len() - j,
    {
        out.push(sorted[j].3);
        j += 1;
        assert(out@ =~= all.take(j as int));
    }
    assert(out@ =~= all);
    out
}

fn count(acc: &RunAcc, s: NodeState) -> (n: usize)
    ensures
        n == count_state(acc@.state, s),
{
    let ghost states = acc@.state;
    let mut n: usize = 0;
    let mut i: usize = 0;
    assert(states.take(0) =~= Seq::empty());
    while i < acc.state.len()
        invariant
            i <= states.len(),
            states == acc.state@,
            n <= i,
            n == count_state(states.take(i as int), s),
        decreases states.len() - i,
    {
        proof {
            assert(states.take(i + 1).drop_last() =~= states.take(i as int));
            assert(states.take(i + 1).last() == states[i as int]);
        }
        if *acc.state.value_at(i) == s {
            n += 1;
        }
        i += 1;
    }
    assert(states.take(i as int) =~= states);
    n
}

fn status_of(acc: &RunAcc) -> (s: &'static str)
    ensures
        s@ == status_text(acc@),
{
    if acc.paused {
        "paused"
    } else if count(acc, NodeState::Failed) > 0 {
        "failed"
    } else {
        "complete"
    }
}

/// Runs the analysis of a branch over the candidates of a store and their source files.
/// `resume_run_id` references a previous paused run; the budget is always fresh.
pub fn analyze_branch(
    rows: &[CandidateNode],
    pins: &TextMap<i64>,
    files: &TextMap<FileRead>,
    budget: Budget,
    resume_run_id: Option<i64>,
) -> (r: Analysis)
    requires
        oids_can_be_cut(graph_of(node_models(rows@), pins@)),
    ensures
        ({
            let g = graph_of(node_models(rows@), pins@);
            &&& r.acc@ == run_over(Env { graph: g, files: files@, budget }, fresh_run(), roots_of(g))
            &&& r.status@ == status_text(r.acc@)
            &&& texts(r.messages@) == first_messages(resume_run_id)
            &&& sound(Env { graph: g, files: files@, budget }, r.acc@)
        }),
{
    let graph = build_graph(rows, pins);
    let ghost env = Env { graph: graph@, files: files@, budget };
    let mut messages: Vec<String> = Vec::new();
    assert(texts(messages@) =~= Seq::empty());
    if let Some(prev) = resume_run_id {
        let mut m = "resuming after paused run #".to_owned();
        push_int(&mut m, prev);
        m.append(" with fresh budget");
        push_part(&mut messages, m);
    }
    assert(texts(messages@) =~= first_messages(resume_run_id));
    let roots = order_roots(&graph);
    let mut acc = RunAcc::new();
    let mut stack: Vec<i64> = Vec::new();
    let mut i: usize = 0;
    let mut open: bool = true;
    assert(roots@.skip(0) =~= roots@);
    assert(stack@ =~= Seq::empty());
    proof {
        lemma_fresh(env);
    }
    while open && i < roots.len()
        invariant
            i <= roots@.len(),
            env == (Env { graph: graph@, files: files@, budget }),
            oids_can_be_cut(graph@),
            stack@ == Seq::<i64>::empty(),
            sound(env, acc@),
            open ==> run_over(env, fresh_run(), roots@) == run_over(env, acc@, roots@.skip(i as int)),
            !open ==> run_over(env, fresh_run(), roots@) == acc@,
        decreases roots@.len() - i,
    {
        let ghost rest = roots@.skip(i as int);
        proof {
            trying_keeps_a_run_sound(env, acc@, roots@[i as int], Seq::empty(), 0);
        }
        resolve_node(&graph, files, &mut acc, roots[i], &mut stack, budget, 0);
        assert(rest.skip(1) =~= roots@.skip(i + 1));
        if acc.paused {
            open = false;
        }
        i += 1;
    }
    let status = status_of(&acc);
    Analysis { acc, status, messages }
}

proof fn lemma_fresh(env: Env)
    ensures
        sound(env, fresh_run()),
{
    let a = fresh_run();
    assert forall|x: i64| !has_key(a.resolved, x) && get(a.state, x) is None by {
        crate::model::assoc::lemma_row(a.resolved, x);
        crate::model::assoc::lemma_row(a.state, x);
    }
}

/// The summary of a run that was kept under `run_id`.
pub fn summarize(run_id: i64, run: Analysis) -> (s: RunSummary)
    ensures
        s.run_id == run_id,
        s.status@ == run.status@,
        s.resolved == run.acc@.resolved.len(),
        s.blocked == count_state(run.acc@.state, NodeState::Failed),
        s.paused == count_state(run.acc@.state, NodeState::Paused),
        s.depth_used == run.acc@.depth_used,
        s.bytes_used == run.acc@.bytes_used,
        s.messages == run.messages,
{
    let resolved: usize = run.acc.resolved.len();
    let blocked: usize = count(&run.acc, NodeState::Failed);
    let paused: usize = count(&run.acc, NodeState::Paused);
    RunSummary {
        run_id,
        status: run.status.to_owned(),
        resolved,
        blocked,
        paused,
        depth_used: run.acc.depth_used,
        bytes_used: run.acc.bytes_used,
        messages: run.messages,
    }
}

/// The text that is kept of a run.
pub open spec fn summary_text(a: AccModel, budget: Budget, messages: Seq<Seq<char>>) -> Seq<char> {
    joined(messages, "; "@) + if a.paused {
        " | paused: expand "@ + dec(a.bytes_used) + "/"@ + dec(budget.max_expand_bytes as nat)
            + " bytes, depth "@ + dec(a.depth_used as nat)
    } else {
        " | resolved="@ + dec(a.resolved.len()) + " failed="@ + dec(count_state(a.state, NodeState::Failed))
            + " expand "@ + dec(a.bytes_used) + " bytes depth "@ + dec(a.depth_used as nat)
    }
}

/// The level of a piece of evidence.
pub open spec fn level_text(message: Seq<char>) -> Seq<char> {
    if has_part(message, "cycle"@) || has_part(message, "mismatch"@) || has_part(message, "spoof"@)
        || has_part(message, "error"@) || has_part(message, "missing"@) || has_part(message, "invalid"@) {
        "error"@
    } else {
        "warn"@
    }
}

/// The level of a piece of evidence.
pub fn evidence_level(message: &str) -> (s: &'static str)
    ensures
        s@ == level_text(message@),
{
    if contains_text(message, "cycle") || contains_text(message, "mismatch") || contains_text(
        message,
        "spoof",
    ) || contains_text(message, "error") || contains_text(message, "missing") || contains_text(
        message,
        "invalid",
    ) {
        "error"
    } else {
        "warn"
    }
}

/// A row of evidence.
pub struct EvidenceRow {
    pub oid: Option<String>,
    pub level: &'static str,
    pub message: String,
}

/// A row of a reconstructed object.
pub struct ResolvedRow {
    pub oid: String,
    pub candidate_id: i64,
    pub kind_name: &'static str,
    pub depth: i64,
    pub content: Vec<u8>,
    pub oid_ok: bool,
}

/// A row of a delta command.
pub struct CommandRow {
    pub oid: String,
    pub step: i64,
    pub seq: usize,
    pub kind: &'static str,
    pub cmd_start: usize,
    pub cmd_end: usize,
    pub src_offset: usize,
    pub src_len: usize,
    pub out_offset: usize,
    pub out_len: usize,
}

/// A row of a delta step.
pub struct StepRow {
    pub oid: String,
    pub step: i64,
    pub child_candidate_id: i64,
    pub base_candidate_id: i64,
    pub base_oid: String,
    pub cmd_start: usize,
    pub cmd_end: usize,
    pub cmd_count: usize,
    pub input_len: u64,
    pub output_len: u64,
    pub verify: &'static str,
}

/// The rows that are kept of a run.
pub struct RunRows {
    pub summary: String,
    pub evidence: Vec<EvidenceRow>,
    pub resolved: Vec<ResolvedRow>,
    pub commands: Vec<CommandRow>,
    pub steps: Vec<StepRow>,
}

pub open spec fn is_evidence_row(r: EvidenceRow, e: (Option<Seq<char>>, Seq<char>)) -> bool {
    text_opt(r.oid) == e.0 && r.message@ == e.1 && r.level@ == level_text(e.1)
}

pub open spec fn is_resolved_row(r: ResolvedRow, m: ResolvedModel) -> bool {
    &&& r.oid@ == m.oid
    &&& r.candidate_id == m.candidate_id
    &&& r.kind_name@ == m.kind.text()
    &&& r.depth == m.depth
    &&& r.content@ == m.content
    &&& r.oid_ok == m.oid_ok
}

/// Where a command stands and what it reads and writes: kind, range, source and output.
pub open spec fn is_command_row(r: CommandRow, oid: Seq<char>, step: u32, seq: int, i: DeltaInstr) -> bool {
    &&& r.oid@ == oid
    &&& r.step == step
    &&& r.seq == seq
    &&& match i {
        DeltaInstr::Copy { range, src_pos, src_len, out_pos, len } => {
            &&& r.kind@ == "copy"@
            &&& (r.cmd_start, r.cmd_end) == range
            &&& r.src_offset == src_pos
            &&& r.src_len == src_len
            &&& r.out_offset == out_pos
            &&& r.out_len == len
        },
        DeltaInstr::Insert { range, data_range, out_pos, len } => {
            &&& r.kind@ == "insert"@
            &&& (r.cmd_start, r.cmd_end) == range
            &&& r.src_offset == data_range.0
            &&& r.src_len == len
            &&& r.out_offset == out_pos
            &&& r.out_len == len
        },
    }
}

pub open spec fn instr_range(i: DeltaInstr) -> (usize, usize) {
    match i {
        DeltaInstr::Insert { range, .. } => range,
        DeltaInstr::Copy { range, .. } => range,
    }
}

pub open spec fn is_step_row(r: StepRow, s: StepModel) -> bool {
    &&& r.oid@ == s.oid
    &&& r.step == s.step
    &&& r.child_candidate_id == s.child_candidate_id
    &&& r.base_candidate_id == s.base_candidate_id
    &&& r.base_oid@ == s.base_oid
    &&& r.cmd_count == s.commands.len()
    &&& r.cmd_start == if s.commands.len() > 0 {
        instr_range(s.commands[0]).0
    } else {
        0
    }
    &&& r.cmd_end == if s.commands.len() > 0 {
        instr_range(s.commands.last()).1
    } else {
        0
    }
    &&& r.input_len == s.input_len
    &&& r.output_len == s.output_len
    &&& r.verify@ == s.verify
}

/// The commands of all steps, in order: the step, the number in the step, the command.
pub open spec fn all_commands(steps: Seq<StepModel>) -> Seq<(StepModel, int, DeltaInstr)>
    decreases steps.len(),
{
    if steps.len() == 0 {
        Seq::empty()
    } else {
        let s = steps.last();
        all_commands(steps.drop_last()) + s.commands.map(|i: int, c: DeltaInstr| (s, i, c))
    }
}

/// The command rows of all steps, in order.
pub open spec fn are_command_rows(rows: Seq<CommandRow>, cs: Seq<(StepModel, int, DeltaInstr)>) -> bool {
    &&& rows.len() == cs.len()
    &&& forall|i: int|
        0 <= i < cs.len() ==> is_command_row(
            #[trigger] rows[i],
            cs[i].0.oid,
            cs[i].0.step,
            cs[i].1,
            cs[i].2,
        )
}

fn evidence_rows(acc: &RunAcc) -> (rows: Vec<EvidenceRow>)
    ensures
        rows@.len() == acc@.evidence.len(),
        forall|i: int|
            0 <= i < rows@.len() ==> is_evidence_row(#[trigger] rows@[i], acc@.evidence[i]),
{
    let mut rows: Vec<EvidenceRow> = Vec::new();
    let mut i: usize = 0;
    while i < acc.evidence.len()
        invariant
            i <= acc.evidence@.len(),
            rows@.len() == i,
            forall|k: int| 0 <= k < i ==> is_evidence_row(#[trigger] rows@[k], acc@.evidence[k]),
        decreases acc.evidence@.len() - i,
    {
        let message = acc.evidence[i].1.clone();
        let row = EvidenceRow {
            oid: copy_opt(&acc.evidence[i].0),
            level: evidence_level(message.as_str()),
            message,
        };
        assert(is_evidence_row(row, acc@.evidence[i as int]));
        rows.push(row);
        i += 1;
    }
    rows
}

fn resolved_rows(acc: &RunAcc) -> (rows: Vec<ResolvedRow>)
    ensures
        rows@.len() == acc@.resolved.len(),
        forall|i: int|
            0 <= i < rows@.len() ==> is_resolved_row(#[trigger] rows@[i], acc@.resolved[i].1),
{
    let mut rows: Vec<ResolvedRow> = Vec::new();
    let mut i: usize = 0;
    while i < acc.resolved.len()
        invariant
            i <= acc.resolved@.len(),
            rows@.len() == i,
            forall|k: int| 0 <= k < i ==> is_resolved_row(#[trigger] rows@[k], acc@.resolved[k].1),
        decreases acc.resolved@.len() - i,
    {
        let n = acc.resolved.value_at(i);
        let row = ResolvedRow {
            oid: n.oid.clone(),
            candidate_id: n.candidate_id,
            kind_name: n.kind.name(),
            depth: n.depth as i64,
            content: n.content.clone(),
            oid_ok: n.oid_ok,
        };
        assert(is_resolved_row(row, acc@.resolved[i as int].1));
        rows.push(row);
        i += 1;
    }
    rows
}

fn command_row(step: &DeltaStepRec, seq: usize) -> (r: CommandRow)
    requires
        seq < step.commands@.len(),
    ensures
        is_command_row(r, step@.oid, step@.step, seq as int, step@.commands[seq as int]),
{
    match step.commands[seq] {
        DeltaInstr::Copy { range, src_pos, src_len, out_pos, len } => CommandRow {
            oid: step.oid.clone(),
            step: step.step as i64,
            seq,
            kind: "copy",
            cmd_start: range.0,
            cmd_end: range.1,
            src_offset: src_pos,
            src_len,
            out_offset: out_pos,
            out_len: len,
        },
        DeltaInstr::Insert { range, data_range, out_pos, len } => CommandRow {
            oid: step.oid.clone(),
            step: step.step as i64,
            seq,
            kind: "insert",
            cmd_start: range.0,
            cmd_end: range.1,
            src_offset: data_range.0,
            src_len: len,
            out_offset: out_pos,
            out_len: len,
        },
    }
}

fn push_commands(rows: &mut Vec<CommandRow>, step: &DeltaStepRec, Ghost(cs): Ghost<Seq<(StepModel, int, DeltaInstr)>>)
    requires
        are_command_rows(old(rows)@, cs),
    ensures
        are_command_rows(
            final(rows)@,
            cs + step@.commands.map(|i: int, c: DeltaInstr| (step@, i, c)),
        ),
{
    let ghost all = cs + step@.commands.map(|i: int, c: DeltaInstr| (step@, i, c));
    let mut j: usize = 0;
    assert(all.take(cs.len() as int) =~= cs);
    while j < step.commands.len()
        invariant
            j <= step.commands@.len(),
            all == cs + step@.commands.map(|i: int, c: DeltaInstr| (step@, i, c)),
            are_command_rows(rows@, all.take(cs.len() + j as int)),
        decreases step.commands@.len() - j,
    {
        let row = command_row(step, j);
        let ghost before = rows@;
        rows.push(row);
        proof {
            let now = all.take(cs.len() + j + 1);
            assert(now.len() == rows@.len());
            assert forall|i: int| 0 <= i < now.len() implies is_command_row(
                #[trigger] rows@[i],
                now[i].0.oid,
                now[i].0.step,
                now[i].1,
                now[i].2,
            ) by {
                if i < before.len() {
                    assert(rows@[i] == before[i]);
                    assert(now[i] == all.take(cs.len() + j as int)[i]);
                } else {
                    assert(now[i] == (step@, j as int, step@.commands[j as int]));
                }
            }
        }
        j += 1;
    }
    assert(all.take(cs.len() + j as int) =~= all);
}

fn step_row(step: &DeltaStepRec) -> (r: StepRow)
    ensures
        is_step_row(r, step@),
{
    let n: usize = step.commands.len();
    let first: usize = if n > 0 {
        match step.commands[0] {
            DeltaInstr::Insert { range, .. } => range.0,
            DeltaInstr::Copy { range, .. } => range.0,
        }
    } else {
        0
    };
    let last: usize = if n > 0 {
        match step.commands[n - 1] {
            DeltaInstr::Insert { range, .. } => range.1,
            DeltaInstr::Copy { range, .. } => range.1,
        }
    } else {
        0
    };
    StepRow {
        oid: step.oid.clone(),
        step: step.step as i64,
        child_candidate_id: step.child_candidate_id,
        base_candidate_id: step.base_candidate_id,
        base_oid: step.base_oid.clone(),
        cmd_start: first,
        cmd_end: last,
        cmd_count: n,
        input_len: step.input_len,
        output_len: step.output_len,
        verify: step.verify,
    }
}

fn summary_of(acc: &RunAcc, budget: Budget, messages: &Vec<String>) -> (s: String)
    ensures
        s@ == summary_text(acc@, budget, texts(messages@)),
{
    let mut s = join(messages, "; ");
    let ghost head = s@;
    if acc.paused {
        let mut m = " | paused: expand ".to_owned();
        push_dec(&mut m, acc.bytes_used);
        m.append("/");
        push_dec(&mut m, budget.max_expand_bytes);
        m.append(" bytes, depth ");
        push_dec(&mut m, acc.depth_used as u64);
        s.append(m.as_str());
    } else {
        let mut m = " | resolved=".to_owned();
        push_dec(&mut m, acc.resolved.len() as u64);
        m.append(" failed=");
        push_dec(&mut m, count(acc, NodeState::Failed) as u64);
        m.append(" expand ");
        push_dec(&mut m, acc.bytes_used);
        m.append(" bytes depth ");
        push_dec(&mut m, acc.depth_used as u64);
        s.append(m.as_str());
    }
    s
}

/// The rows that are kept of one run. Paused runs keep only the summary and the evidence: no
/// partial object is ever advertised as a complete reconstruction.
pub fn flush_run(run: &Analysis, budget: Budget) -> (rows: RunRows)
    ensures
        rows.summary@ == summary_text(run.acc@, budget, texts(run.messages@)),
        rows.evidence@.len() == run.acc@.evidence.len(),
        forall|i: int|
            0 <= i < rows.evidence@.len() ==> is_evidence_row(
                #[trigger] rows.evidence@[i],
                run.acc@.evidence[i],
            ),
        run.status@ == "paused"@ ==> rows.resolved@.len() == 0 && rows.commands@.len() == 0
            && rows.steps@.len() == 0,
        run.status@ != "paused"@ ==> {
            &&& rows.resolved@.len() == run.acc@.resolved.len()
            &&& forall|i: int|
                0 <= i < rows.resolved@.len() ==> is_resolved_row(
                    #[trigger] rows.resolved@[i],
                    run.acc@.resolved[i].1,
                )
            &&& are_command_rows(rows.commands@, all_commands(run.acc@.steps))
            &&& rows.steps@.len() == run.acc@.steps.len()
            &&& forall|i: int|
                0 <= i < rows.steps@.len() ==> is_step_row(#[trigger] rows.steps@[i], run.acc@.steps[i])
        },
{
    let acc = &run.acc;
    let summary = summary_of(acc, budget, &run.messages);
    let evidence = evidence_rows(acc);
    let mut commands: Vec<CommandRow> = Vec::new();
    let mut steps: Vec<StepRow> = Vec::new();
    if same_text(run.status, "paused") {
        return RunRows { summary, evidence, resolved: Vec::new(), commands, steps };
    }
    let resolved = resolved_rows(acc);
    let ghost models = acc@.steps;
    let mut i: usize = 0;
    assert(models.take(0) =~= Seq::empty());
    while i < acc.steps.len()
        invariant
            i <= acc.steps@.len(),
            models == step_models(acc.steps@),
            steps@.len() == i,
            are_command_rows(commands@, all_commands(models.take(i as int))),
            forall|k: int| 0 <= k < i ==> is_step_row(#[trigger] steps@[k], models[k]),
        decreases acc.steps@.len() - i,
    {
        let step = &acc.steps[i];
        push_commands(&mut commands, step, Ghost(all_commands(models.take(i as int))));
        proof {
            assert(models.take(i + 1).drop_last() =~= models.take(i as int));
            assert(models.take(i + 1).last() == step@);
        }
        steps.push(step_row(step));
        i += 1;
    }
    assert(models.take(i as int) =~= models);
    RunRows { summary, evidence, resolved, commands, steps }
}

/// A run over more roots keeps what was decided before.
pub proof fn runs_keep_decisions(env: Env, a: AccModel, roots: Seq<i64>)
    requires
        sound(env, a),
    ensures
        sound(env, run_over(env, a, roots)),
        keeps(a, run_over(env, a, roots), Seq::empty()),
    decreases roots.len(),
{
    if roots.len() > 0 {
        trying_keeps_a_run_sound(env, a, roots[0], Seq::empty(), 0);
        let next = tried(env, a, roots[0], Seq::empty(), 0);
        if !next.paused {
            runs_keep_decisions(env, next, roots.skip(1));
            let end = run_over(env, a, roots);
            assert forall|x: i64| #[trigger] get(a.state, x) is Some implies get(end.state, x) == get(
                a.state,
                x,
            ) by {
                assert(get(next.state, x) == get(a.state, x));
            }
        }
    }
}

proof fn lemma_run_holds(env: Env, a: AccModel, roots: Seq<i64>)
    requires
        sound(env, a),
    ensures
        holds_all(a, run_over(env, a, roots)),
    decreases roots.len(),
{
    if roots.len() > 0 {
        let next = tried(env, a, roots[0], Seq::empty(), 0);
        trying_keeps_a_run_sound(env, a, roots[0], Seq::empty(), 0);
        trying_keeps_what_was_reconstructed(env, a, roots[0], Seq::empty(), 0);
        if !next.paused {
            lemma_run_holds(env, next, roots.skip(1));
            let end = run_over(env, a, roots);
            assert forall|x: i64| #[trigger] has_key(a.resolved, x) implies get(end.resolved, x) == get(
                a.resolved,
                x,
            ) by {
                assert(get(next.resolved, x) == get(a.resolved, x));
                assert(has_key(next.resolved, x));
            }
        }
    }
}

/// What a run reconstructs, a run under a raised budget reconstructs with identical content.
pub proof fn raising_the_budget_keeps_a_run(env: Env, high: Budget, a: AccModel, roots: Seq<i64>)
    requires
        sound(env, a),
        !a.paused,
        raised(env.budget, high),
    ensures
        holds_all(run_over(env, a, roots), run_over(under(env, high), a, roots)),
    decreases roots.len(),
{
    if roots.len() > 0 {
        let e = under(env, high);
        let low = tried(env, a, roots[0], Seq::empty(), 0);
        let more = tried(e, a, roots[0], Seq::empty(), 0);
        raising_the_budget_keeps_a_try(env, high, a, roots[0], Seq::empty(), 0);
        trying_keeps_a_run_sound(env, a, roots[0], Seq::empty(), 0);
        if !low.paused {
            raising_the_budget_keeps_a_run(env, high, low, roots.skip(1));
        } else if !more.paused {
            lemma_sound_raised(env, high, a);
            trying_keeps_a_run_sound(e, a, roots[0], Seq::empty(), 0);
            lemma_run_holds(e, more, roots.skip(1));
            let end = run_over(e, a, roots);
            assert forall|x: i64| #[trigger] has_key(low.resolved, x) implies get(end.resolved, x) == get(
                low.resolved,
                x,
            ) by {
                assert(get(more.resolved, x) == get(low.resolved, x));
                assert(has_key(more.resolved, x));
            }
        }
    }
}

/// A message in which one of the words of trouble stands is an error, whatever stands around it.
pub proof fn a_message_of_trouble_is_an_error(before: Seq<char>, word: Seq<char>, after: Seq<char>)
    requires
        word == "cycle"@ || word == "mismatch"@ || word == "spoof"@ || word == "error"@ || word == "missing"@ || word
            == "invalid"@,
    ensures
        level_text(before + word + after) == "error"@,
{
    let s = before + word + after;
    let i = before.len() as int;
    assert(s.subrange(i, i + word.len()) =~= word);
}

/// A row of a candidate that came to a state.
pub open spec fn in_state(s: NodeState) -> spec_fn((i64, NodeState)) -> bool {
    |r: (i64, NodeState)| r.1 == s
}

/// How many candidates came to a state is how many are left when the others are taken out.
pub proof fn states_are_counted(states: Seq<(i64, NodeState)>, s: NodeState)
    ensures
        count_state(states, s) == states.filter(in_state(s)).len(),
    decreases states.len(),
{
    reveal(Seq::filter);
    if states.len() > 0 {
        states_are_counted(states.drop_last(), s);
    }
}

} // verus!
