//! Delta chain reconstruction: memoized, cycle-checked and bounded by a budget.
use vstd::prelude::*;
use vstd::string::StringExecFns;
use crate::analyze::graph::{copy_opt, text_opt};
use crate::kernel::delta::{
    applied, apply_delta, header_of, parse_header, CmdKind, DeltaCmd, DeltaError, DeltaHeader, PauseReason,
    Trouble,
};
use crate::kernel::engine::candidates::{
    contains_oid, contains_text_in, offer_models, offers, pin_of, Offer, OfferModel,
};
use crate::kernel::engine::rows::{
    cmd_models, copy_steps, evidence_models, step_models, CmdModel, DeltaStepView, Engine, EngineModel,
    Evidence, EvidenceModel, FailKind, Names, NodeModel, NodeState, Oids, PauseKind, StateModel, StepCmd,
    StepModel,
};
use crate::kernel::git::{git_object_id, GitType};
use crate::kernel::inflate::Fault;
use crate::kernel::pack::{fault_text, models, EntryModel, PackEntry, StreamError};
use crate::model::assoc::{get, has_key, put, TextMap};
use crate::model::bytes::same_bytes;
use crate::model::object::object_frame;
use crate::model::outside::{hex_decode, hex_encode, sha1_of};
use crate::model::text::{
    dec, hex, hexa, is_hex, join, joined, push_dec, push_hexa, push_part, same_text, texts, unhex,
};

verus! {

/// A sum that stays at the largest word.
pub open spec fn capped(a: int) -> u64 {
    if a > u64::MAX {
        u64::MAX
    } else {
        a as u64
    }
}

/// A sum that stays at the largest word.
pub fn cap_sum(a: u64, b: u64) -> (r: u64)
    ensures
        r == capped(a + b),
{
    if b > u64::MAX - a {
        u64::MAX
    } else {
        a + b
    }
}

/// What a reconstruction made.
pub struct ChainOutcome {
    pub kind: GitType,
    pub oid: [u8; 20],
    pub data: Vec<u8>,
    pub depth: usize,
    pub chain_bytes: u64,
    pub steps: Vec<DeltaStepView>,
}

/// The model of what a reconstruction made.
pub ghost struct OutModel {
    pub kind: GitType,
    pub oid: Seq<u8>,
    pub data: Seq<u8>,
    pub depth: nat,
    pub chain_bytes: u64,
    pub steps: Seq<StepModel>,
}

impl View for ChainOutcome {
    type V = OutModel;

    open spec fn view(&self) -> OutModel {
        OutModel {
            kind: self.kind,
            oid: self.oid@,
            data: self.data@,
            depth: self.depth as nat,
            chain_bytes: self.chain_bytes,
            steps: step_models(self.steps@),
        }
    }
}

impl ChainOutcome {
    fn copy(&self) -> (o: ChainOutcome)
        ensures
            o@ == self@,
    {
        ChainOutcome {
            kind: self.kind,
            oid: self.oid,
            data: self.data.clone(),
            depth: self.depth,
            chain_bytes: self.chain_bytes,
            steps: copy_steps(&self.steps),
        }
    }
}

/// The result of a run for one node.
pub enum RunResult {
    Done(ChainOutcome),
    Failed(FailKind, String),
}

/// The model of the result of a run for one node.
pub ghost enum RunModel {
    Done(OutModel),
    Failed(FailKind, Seq<char>),
}

impl DeepView for RunResult {
    type V = RunModel;

    open spec fn deep_view(&self) -> RunModel {
        match *self {
            RunResult::Done(o) => RunModel::Done(o@),
            RunResult::Failed(k, m) => RunModel::Failed(k, m@),
        }
    }
}

/// Why a node was paused.
pub struct PauseRow {
    pub kind: PauseKind,
    pub message: String,
    pub target: u64,
}

/// The model of why a node was paused.
pub ghost struct PauseModel {
    pub kind: PauseKind,
    pub message: Seq<char>,
    pub target: u64,
}

impl DeepView for PauseRow {
    type V = PauseModel;

    open spec fn deep_view(&self) -> PauseModel {
        PauseModel { kind: self.kind, message: self.message@, target: self.target }
    }
}

/// What one run knows.
pub struct RunCtx {
    pub stack: Vec<String>,
    pub results: TextMap<RunResult>,
    pub paused: TextMap<PauseRow>,
    pub charged_total: u64,
    pub local_charge: u64,
    pub counted: Vec<String>,
}

/// The model of what one run knows.
pub ghost struct CtxModel {
    pub stack: Seq<Seq<char>>,
    pub results: Seq<(Seq<char>, RunModel)>,
    pub paused: Seq<(Seq<char>, PauseModel)>,
    pub charged_total: u64,
    pub local_charge: u64,
    pub counted: Seq<Seq<char>>,
}

impl View for RunCtx {
    type V = CtxModel;

    open spec fn view(&self) -> CtxModel {
        CtxModel {
            stack: texts(self.stack@),
            results: self.results@,
            paused: self.paused@,
            charged_total: self.charged_total,
            local_charge: self.local_charge,
            counted: texts(self.counted@),
        }
    }
}

/// The answer for one node.
pub enum Res {
    Done,
    Fail(FailKind, String),
    Pause(PauseKind, String, u64),
}

/// The model of the answer for one node.
pub ghost enum ResModel {
    Done,
    Fail(FailKind, Seq<char>),
    Pause(PauseKind, Seq<char>, u64),
}

impl View for Res {
    type V = ResModel;

    open spec fn view(&self) -> ResModel {
        match *self {
            Res::Done => ResModel::Done,
            Res::Fail(k, m) => ResModel::Fail(k, m@),
            Res::Pause(k, m, t) => ResModel::Pause(k, m@, t),
        }
    }
}

/// The engine with a piece of evidence.
pub open spec fn noted(
    e: EngineModel,
    node_id: Option<Seq<char>>,
    source_id: Option<Seq<char>>,
    code: Seq<char>,
    message: Seq<char>,
    offset: Option<u64>,
) -> EngineModel {
    EngineModel {
        evidence: e.evidence.push(
            EvidenceModel { id: e.evidence.len(), node_id, source_id, code, message, offset },
        ),
        ..e
    }
}

/// The type with a given name.
pub open spec fn kind_named(t: Seq<char>) -> Option<GitType> {
    if t == "commit"@ {
        Some(GitType::Commit)
    } else if t == "tree"@ {
        Some(GitType::Tree)
    } else if t == "blob"@ {
        Some(GitType::Blob)
    } else if t == "tag"@ {
        Some(GitType::Tag)
    } else {
        None
    }
}

fn kind_of_name(t: &str) -> (r: Option<GitType>)
    ensures
        r == kind_named(t@),
{
    if same_text(t, "commit") {
        Some(GitType::Commit)
    } else if same_text(t, "tree") {
        Some(GitType::Tree)
    } else if same_text(t, "blob") {
        Some(GitType::Blob)
    } else if same_text(t, "tag") {
        Some(GitType::Tag)
    } else {
        None
    }
}

/// The id of an object.
pub open spec fn id_of(kind: GitType, data: Seq<u8>) -> Seq<u8> {
    sha1_of(object_frame(kind.text(), data))
}

/// What an earlier run made of a node.
pub open spec fn existing(e: EngineModel, id: Seq<char>) -> Option<OutModel> {
    match get(e.nodes, id) {
        None => None,
        Some(n) => match n.state {
            StateModel::Resolved { object_type, depth, chain_bytes, steps, .. } => match kind_named(object_type) {
                None => None,
                Some(kind) => match get(e.contents, id) {
                    None => None,
                    Some(data) => Some(
                        OutModel { kind, oid: id_of(kind, data), data, depth, chain_bytes, steps },
                    ),
                },
            },
            _ => None,
        },
    }
}

/// Charging an object of `bytes` bytes: once for each node, within the limits.
pub open spec fn charged_slot(e: EngineModel, c: CtxModel, id: Seq<char>, bytes: u64) -> (
    CtxModel,
    Option<(PauseKind, Seq<char>)>,
) {
    let used = capped(c.charged_total + c.local_charge);
    if bytes > e.budget.single_cap {
        (
            c,
            Some(
                (
                    PauseKind::SingleObject,
                    "object expansion "@ + dec(bytes as nat) + " bytes exceeds single-object allowance "@
                        + dec(e.budget.single_cap as nat) + " ("@ + dec(e.budget.single_percent as nat)
                        + "% of total budget)"@,
                ),
            ),
        )
    } else if has_key(e.charged, id) || c.counted.contains(id) {
        (c, None)
    } else if capped(used + bytes) > e.budget.total_bytes {
        (
            c,
            Some(
                (
                    PauseKind::TotalBytes,
                    "expanding "@ + dec(bytes as nat) + " bytes would cross total budget "@ + dec(
                        e.budget.total_bytes as nat,
                    ) + " (used "@ + dec(used as nat) + ")"@,
                ),
            ),
        )
    } else {
        (
            CtxModel {
                local_charge: capped(c.local_charge + bytes),
                counted: c.counted.push(id),
                ..c
            },
            None,
        )
    }
}

/// The engine with an object id found for a node.
pub open spec fn with_found(e: EngineModel, id: Seq<char>, oid: Seq<u8>) -> EngineModel {
    let v = match get(e.found, id) {
        Some(v) => v,
        None => Seq::empty(),
    };
    EngineModel {
        found: put(
            e.found,
            id,
            if v.contains(oid) {
                v
            } else {
                v.push(oid)
            },
        ),
        ..e
    }
}

/// The engine with a delta edge.
pub open spec fn with_base(e: EngineModel, id: Seq<char>, base: Seq<char>) -> EngineModel {
    let v = match get(e.edges, id) {
        Some(v) => v,
        None => Seq::empty(),
    };
    EngineModel {
        edges: put(
            e.edges,
            id,
            if v.contains(base) {
                v
            } else {
                v.push(base)
            },
        ),
        ..e
    }
}

/// The run with a result.
pub open spec fn with_result(c: CtxModel, id: Seq<char>, r: RunModel) -> CtxModel {
    CtxModel { results: put(c.results, id, r), ..c }
}

/// The kind of failure that a broken stream is.
pub open spec fn fault_kind(f: Fault) -> FailKind {
    match f {
        Fault::Zlib(_) => FailKind::BadInflate,
        Fault::SizeMismatch { .. } => FailKind::SizeMismatch,
        Fault::SizeSpoof { .. } => FailKind::SizeSpoof,
    }
}

/// The first entry at an offset.
pub open spec fn entry_with(v: Seq<EntryModel>, offset: u64) -> Option<EntryModel>
    decreases v.len(),
{
    if v.len() == 0 {
        None
    } else if v[0].offset == offset {
        Some(v[0])
    } else {
        entry_with(v.skip(1), offset)
    }
}

/// A loose object is read.
pub open spec fn loose_read(e: EngineModel, c: CtxModel, id: Seq<char>, depth: nat) -> (EngineModel, CtxModel, ResModel) {
    let source = (get(e.nodes, id)->0).source_id;
    match get(e.looses, source) {
        None => (e, c, ResModel::Fail(FailKind::BadLoose, "loose payload missing"@)),
        Some(l) => match l.content {
            Err(m) => (e, c, ResModel::Fail(FailKind::BadLoose, m)),
            Ok(data) => {
                let bytes = data.len() as u64;
                let oid = id_of(l.kind, data);
                match charged_slot(e, c, id, bytes) {
                    (c1, Some((k, m))) => (e, c1, ResModel::Pause(k, m, bytes)),
                    (c1, None) => {
                        let e1 = if l.path_oid is Some && l.path_oid != Some(oid) {
                            noted(
                                e,
                                Some(id),
                                Some(source),
                                "oid-mismatch"@,
                                "loose object hashes to "@ + hex(oid) + " but path advertised "@ + hex(
                                    l.path_oid->0,
                                ),
                                None,
                            )
                        } else {
                            e
                        };
                        (
                            with_found(e1, id, oid),
                            with_result(
                                c1,
                                id,
                                RunModel::Done(
                                    OutModel {
                                        kind: l.kind,
                                        oid,
                                        data,
                                        depth,
                                        chain_bytes: bytes,
                                        steps: Seq::empty(),
                                    },
                                ),
                            ),
                            ResModel::Done,
                        )
                    },
                }
            },
        },
    }
}

/// The offset of a node; zero when it has none.
pub open spec fn offset_of(n: NodeModel) -> u64 {
    match n.offset {
        Some(o) => o,
        None => 0,
    }
}

/// A whole object of a pack is read.
pub open spec fn base_read(e: EngineModel, c: CtxModel, id: Seq<char>, depth: nat) -> (EngineModel, CtxModel, ResModel) {
    let n = get(e.nodes, id)->0;
    match kind_named(n.object_type) {
        None => (
            e,
            c,
            ResModel::Fail(FailKind::BadDelta, "unexpected base object type "@ + n.object_type),
        ),
        Some(kind) => match get(e.packs, n.source_id) {
            None => (e, c, ResModel::Fail(FailKind::BadInflate, "pack payload missing"@)),
            Some(p) => match entry_with(p.entries, offset_of(n)) {
                None => (e, c, ResModel::Fail(FailKind::BadInflate, "pack entry missing"@)),
                Some(x) => match x.inflated {
                    Err(f) => (e, c, ResModel::Fail(fault_kind(f), fault_text(f))),
                    Ok(data) => match charged_slot(e, c, id, n.declared_size) {
                        (c1, Some((k, m))) => (e, c1, ResModel::Pause(k, m, n.declared_size)),
                        (c1, None) => {
                            let oid = id_of(kind, data);
                            (
                                with_found(e, id, oid),
                                with_result(
                                    c1,
                                    id,
                                    RunModel::Done(
                                        OutModel {
                                            kind,
                                            oid,
                                            data,
                                            depth,
                                            chain_bytes: n.declared_size,
                                            steps: Seq::empty(),
                                        },
                                    ),
                                ),
                                ResModel::Done,
                            )
                        },
                    },
                },
            },
        },
    }
}

/// The id of the node of a pack entry.
pub open spec fn pack_node_id(source: Seq<char>, offset: nat) -> Seq<char> {
    source + ":0x"@ + hexa(offset)
}

/// What is to be done for a node: it is answered, or its base comes first.
pub ghost enum Task {
    Answer(EngineModel, ResModel),
    Base(EngineModel, Seq<char>),
}

/// A number, zero when there is none.
pub open spec fn or_zero(x: Option<u64>) -> nat {
    match x {
        Some(v) => v as nat,
        None => 0,
    }
}

/// The base of a delta that names it by distance.
pub open spec fn ofs_task(e: EngineModel, id: Seq<char>) -> Task {
    let n = get(e.nodes, id)->0;
    let offset = offset_of(n);
    match n.ofs_base_offset {
        None => Task::Answer(
            e,
            ResModel::Fail(
                FailKind::OfsOutOfRange,
                "ofs-delta negative distance "@ + dec(or_zero(n.ofs_distance)) + " underflows at offset "@
                    + dec(offset as nat),
            ),
        ),
        Some(boff) => {
            let base = pack_node_id(n.source_id, boff as nat);
            if !has_key(e.nodes, base) {
                Task::Answer(
                    noted(
                        e,
                        Some(id),
                        Some(n.source_id),
                        "ofs-out-of-range"@,
                        "ofs-delta at "@ + dec(offset as nat) + " points at "@ + dec(boff as nat)
                            + " (distance "@ + dec(or_zero(n.ofs_distance))
                            + "), but no object starts there"@,
                        Some(offset),
                    ),
                    ResModel::Fail(
                        FailKind::OfsOutOfRange,
                        "no pack object at ofs-delta base offset "@ + dec(boff as nat),
                    ),
                )
            } else if boff >= offset {
                Task::Answer(
                    e,
                    ResModel::Fail(
                        FailKind::OfsOutOfRange,
                        "ofs-delta base offset "@ + dec(boff as nat) + " is not before "@ + dec(offset as nat),
                    ),
                )
            } else {
                Task::Base(with_base(e, id, base), base)
            }
        },
    }
}

/// The object id that a text of forty hexadecimal digits spells; zeros otherwise.
pub open spec fn id_of_hex(s: Seq<char>) -> Seq<u8> {
    if is_hex(s) && s.len() == 40 {
        unhex(s)
    } else {
        Seq::new(20, |i: int| 0u8)
    }
}

/// The base that a delta names by id; empty when there is none.
pub open spec fn ref_of(n: NodeModel) -> Seq<char> {
    match n.ref_base_oid {
        Some(h) => h,
        None => ""@,
    }
}

/// One offer in a list of alternatives.
pub open spec fn offer_text(e: EngineModel, o: OfferModel) -> Seq<char> {
    o.node + " ["@ + o.origin + " @ "@ + match (get(e.nodes, o.node)->0).offset {
        Some(x) => "0x"@ + hexa(x as nat),
        None => "loose"@,
    } + "]"@
}

/// The alternatives for an object.
pub open spec fn offer_texts(e: EngineModel, v: Seq<OfferModel>) -> Seq<Seq<char>> {
    v.map_values(|o: OfferModel| offer_text(e, o))
}

/// The base of a delta that names it by id.
pub open spec fn ref_task(e: EngineModel, id: Seq<char>) -> Task {
    let n = get(e.nodes, id)->0;
    let want = ref_of(n);
    let v = offers(e, id_of_hex(want));
    if v.len() == 0 {
        Task::Answer(
            noted(
                EngineModel { missing_edges: put(e.missing_edges, id, want), ..e },
                Some(id),
                Some(n.source_id),
                "missing-base"@,
                "ref-delta base object "@ + want + " is not present in any imported source"@,
                n.offset,
            ),
            ResModel::Fail(FailKind::MissingBase, "missing base object "@ + want),
        )
    } else {
        let e1 = if v.len() > 1 && pin_of(e, want) is None {
            noted(
                e,
                Some(id),
                Some(n.source_id),
                "duplicate-oid"@,
                "object "@ + want + " has "@ + dec(v.len()) + " candidate sources; using "@ + v[0].node
                    + "; alternatives: "@ + joined(offer_texts(e, v), ", "@),
                n.offset,
            )
        } else {
            e
        };
        Task::Base(with_base(e1, id, v[0].node), v[0].node)
    }
}

/// The outcome of a base that was visited.
pub open spec fn base_outcome(e: EngineModel, c: CtxModel, base: Seq<char>) -> Result<(CtxModel, OutModel), ResModel> {
    match get(c.results, base) {
        Some(RunModel::Done(o)) => Ok((c, o)),
        Some(RunModel::Failed(k, m)) => Err(ResModel::Fail(k, "base "@ + base + ": "@ + m)),
        None => match existing(e, base) {
            Some(o) => Ok((with_result(c, base, RunModel::Done(o)), o)),
            None => Err(
                ResModel::Fail(FailKind::BadDelta, "base "@ + base + " produced no outcome"@),
            ),
        },
    }
}

/// The delta of a node.
pub open spec fn delta_of(e: EngineModel, n: NodeModel) -> Result<Seq<u8>, ResModel> {
    let x = match get(e.packs, n.source_id) {
        Some(p) => entry_with(p.entries, offset_of(n)),
        None => None,
    };
    match x {
        None => Err(ResModel::Fail(FailKind::BadDelta, "delta entry vanished"@)),
        Some(x) => match x.inflated {
            Ok(d) => Ok(d),
            Err(f) => Err(ResModel::Fail(fault_kind(f), fault_text(f))),
        },
    }
}

/// The message of a delta error.
pub open spec fn trouble_text(t: Trouble) -> Seq<char> {
    match t {
        Trouble::Truncated(m) => m,
        Trouble::BadEncoding(m) => m,
        Trouble::BadCommand(m) => "bad delta command: "@ + m,
        Trouble::SizeMismatch { declared, actual } => "delta declared target size "@ + dec(declared)
            + " but commands emitted "@ + dec(actual) + " bytes"@,
        Trouble::Paused { target_size, reason } => "reconstruction paused at "@ + dec(target_size)
            + " target bytes ("@ + reason.text() + " budget)"@,
    }
}

/// The pause that a reason stands for.
pub open spec fn pause_of(r: PauseReason) -> PauseKind {
    match r {
        PauseReason::SingleObject => PauseKind::SingleObject,
        PauseReason::TotalBytes => PauseKind::TotalBytes,
    }
}

/// What is left of a word that may not fit an address.
pub open spec fn reach(n: u64) -> nat {
    if n > usize::MAX {
        usize::MAX as nat
    } else {
        n as nat
    }
}

/// What is left of the total.
pub open spec fn remaining(e: EngineModel, c: CtxModel) -> u64 {
    let used = capped(c.charged_total + c.local_charge);
    if used > e.budget.total_bytes {
        0
    } else {
        (e.budget.total_bytes - used) as u64
    }
}

/// The view of a command.
pub open spec fn cmd_of(c: DeltaCmd) -> CmdModel {
    match c.kind {
        CmdKind::Copy { offset, len } => CmdModel {
            index: c.index,
            op: "copy"@,
            range_start: c.range.0,
            range_end: c.range.1,
            copy_offset: Some(offset),
            len,
        },
        CmdKind::Insert { len } => CmdModel {
            index: c.index,
            op: "insert"@,
            range_start: c.range.0,
            range_end: c.range.1,
            copy_offset: None,
            len,
        },
    }
}

/// How a size compares with the one that a header gives.
pub open spec fn size_check(header: nat, actual: nat, what: Seq<char>) -> Seq<char> {
    if header == actual {
        "match ("@ + dec(actual) + " bytes)"@
    } else {
        "mismatch: header "@ + dec(header) + what + dec(actual)
    }
}

/// How an object id compares with the one that an index gives.
pub open spec fn id_check(want: Option<Seq<char>>, oid: Seq<char>) -> Seq<char> {
    match want {
        Some(w) => if w == oid {
            "match"@
        } else {
            "mismatch: computed "@ + oid + ", index expects "@ + w
        },
        None => "no-expected-oid"@,
    }
}

/// The record of an applied delta.
pub open spec fn step_for(
    id: Seq<char>,
    base: Seq<char>,
    o: OutModel,
    delta: Seq<u8>,
    h: DeltaHeader,
    out: Seq<u8>,
    cmds: Seq<DeltaCmd>,
    check: Seq<char>,
) -> StepModel {
    StepModel {
        order: o.steps.len(),
        delta_node: id,
        base_node: base,
        base_oid: Some(hex(o.oid)),
        base_type: o.kind.text(),
        instr_start: h.instr_start as nat,
        instr_end: delta.len(),
        input_len: o.data.len(),
        output_len: out.len(),
        base_size_check: size_check(h.base_size as nat, o.data.len(), " vs base "@),
        output_size_check: size_check(h.target_size as nat, out.len(), " vs produced "@),
        oid_check: check,
        cmds: cmds.map_values(|x: DeltaCmd| cmd_of(x)),
    }
}

/// A delta is applied to its base, under what is left of the budget: the budget refuses before
/// any bytes are made, so a paused attempt can never be mistaken for a full object.
pub open spec fn delta_applied(
    e: EngineModel,
    c: CtxModel,
    id: Seq<char>,
    base: Seq<char>,
    o: OutModel,
    delta: Seq<u8>,
    depth: nat,
) -> (EngineModel, CtxModel, ResModel) {
    let n = get(e.nodes, id)->0;
    let at = Some(offset_of(n));
    match header_of(delta) {
        Err(t) => (
            noted(e, Some(id), Some(n.source_id), "bad-delta"@, trouble_text(t), at),
            c,
            ResModel::Fail(FailKind::BadDelta, trouble_text(t)),
        ),
        Ok(h) => match applied(o.data, delta, reach(e.budget.single_cap), reach(remaining(e, c))) {
            Err(Trouble::Paused { target_size, reason }) => {
                let m = "delta target "@ + dec(target_size) + " bytes blocked by "@ + pause_of(reason).text()
                    + " budget (base "@ + base + ")"@;
                (
                    noted(e, Some(id), Some(n.source_id), "budget-pause"@, m, at),
                    c,
                    ResModel::Pause(pause_of(reason), m, target_size as u64),
                )
            },
            Err(t) => (
                noted(e, Some(id), Some(n.source_id), "bad-delta"@, trouble_text(t), at),
                c,
                ResModel::Fail(FailKind::BadDelta, trouble_text(t)),
            ),
            Ok((out, cmds, _)) => if out.len() != n.declared_size {
                let m = "pack entry declares "@ + dec(n.declared_size as nat)
                    + " bytes but delta reconstructs "@ + dec(out.len()) + " bytes"@;
                (
                    noted(e, Some(id), Some(n.source_id), "size-mismatch"@, m, at),
                    c,
                    ResModel::Fail(FailKind::SizeMismatch, m),
                )
            } else {
                match charged_slot(e, c, id, out.len() as u64) {
                    (c1, Some((k, m))) => (e, c1, ResModel::Pause(k, m, out.len() as u64)),
                    (c1, None) => {
                        let oid = id_of(o.kind, out);
                        let e1 = match n.idx_oid {
                            Some(w) => if w != hex(oid) {
                                noted(
                                    e,
                                    Some(id),
                                    Some(n.source_id),
                                    "oid-mismatch"@,
                                    "reconstructed "@ + hex(oid) + " but expected "@ + w,
                                    at,
                                )
                            } else {
                                e
                            },
                            None => e,
                        };
                        (
                            with_found(e1, id, oid),
                            with_result(
                                c1,
                                id,
                                RunModel::Done(
                                    OutModel {
                                        kind: o.kind,
                                        oid,
                                        data: out,
                                        depth,
                                        chain_bytes: capped(o.chain_bytes + out.len()),
                                        steps: o.steps.push(
                                            step_for(
                                                id,
                                                base,
                                                o,
                                                delta,
                                                h,
                                                out,
                                                cmds,
                                                id_check(n.idx_oid, hex(oid)),
                                            ),
                                        ),
                                    },
                                ),
                            ),
                            ResModel::Done,
                        )
                    },
                }
            },
        },
    }
}

/// What follows the visit of a base that was answered by `r`.
pub open spec fn after_base(
    e: EngineModel,
    c: CtxModel,
    r: ResModel,
    id: Seq<char>,
    base: Seq<char>,
    depth: nat,
) -> (EngineModel, CtxModel, ResModel) {
    match r {
        ResModel::Fail(k, m) => (e, c, ResModel::Fail(k, "base "@ + base + " failed: "@ + m)),
        ResModel::Pause(k, m, t) => (
            e,
            c,
            ResModel::Pause(k, "blocked by base "@ + base + ": "@ + m, t),
        ),
        ResModel::Done => match base_outcome(e, c, base) {
            Err(x) => (e, c, x),
            Ok((c1, o)) => match delta_of(e, get(e.nodes, id)->0) {
                Err(x) => (e, c1, x),
                Ok(delta) => delta_applied(e, c1, id, base, o, delta, depth),
            },
        },
    }
}

/// The answer for a node that need not be worked on.
pub open spec fn at_once(e: EngineModel, c: CtxModel, id: Seq<char>, depth: nat) -> Option<
    (EngineModel, CtxModel, ResModel),
> {
    let n = get(e.nodes, id)->0;
    if existing(e, id) is Some {
        Some(
            (
                e,
                if has_key(c.results, id) {
                    c
                } else {
                    with_result(c, id, RunModel::Done(existing(e, id)->0))
                },
                ResModel::Done,
            ),
        )
    } else if has_key(c.results, id) {
        Some((e, c, ResModel::Done))
    } else if has_key(c.paused, id) {
        let p = get(c.paused, id)->0;
        Some((e, c, ResModel::Pause(p.kind, p.message, p.target)))
    } else if c.stack.contains(id) {
        let m = "delta cycle detected through "@ + id;
        Some(
            (
                noted(e, Some(id), Some(n.source_id), "cycle"@, m, None),
                with_result(c, id, RunModel::Failed(FailKind::Cycle, m)),
                ResModel::Fail(FailKind::Cycle, m),
            ),
        )
    } else if n.state is Failed && n.state->fail.lasting() {
        let k = n.state->fail;
        let m = n.state->Failed_message;
        Some((e, with_result(c, id, RunModel::Failed(k, m)), ResModel::Fail(k, m)))
    } else if depth >= e.budget.max_depth {
        let m = "delta depth limit "@ + dec(e.budget.max_depth as nat) + " reached at "@ + id;
        Some(
            (
                noted(e, Some(id), Some(n.source_id), "budget-depth"@, m, None),
                CtxModel {
                    paused: put(
                        c.paused,
                        id,
                        PauseModel { kind: PauseKind::Depth, message: m, target: n.declared_size },
                    ),
                    ..c
                },
                ResModel::Pause(PauseKind::Depth, m, n.declared_size),
            ),
        )
    } else {
        None
    }
}

/// The end of the work on a node: the run remembers the answer.
pub open spec fn remembered(v: (EngineModel, CtxModel, ResModel), id: Seq<char>) -> (EngineModel, CtxModel, ResModel) {
    let c = CtxModel {
        stack: if v.1.stack.len() > 0 {
            v.1.stack.drop_last()
        } else {
            v.1.stack
        },
        ..v.1
    };
    match v.2 {
        ResModel::Done => (
            v.0,
            if has_key(c.results, id) {
                c
            } else {
                with_result(c, id, RunModel::Failed(FailKind::BadDelta, "internal: missing outcome"@))
            },
            v.2,
        ),
        ResModel::Fail(k, m) => (v.0, with_result(c, id, RunModel::Failed(k, m)), v.2),
        ResModel::Pause(k, m, t) => (
            v.0,
            CtxModel {
                paused: put(c.paused, id, PauseModel { kind: k, message: m, target: t }),
                ..c
            },
            v.2,
        ),
    }
}

/// The visit of a node: the tables, the run and the answer that it leads to.
pub open spec fn visited(e: EngineModel, c: CtxModel, id: Seq<char>, depth: nat) -> (EngineModel, CtxModel, ResModel)
    decreases e.budget.max_depth - depth,
{
    match at_once(e, c, id, depth) {
        Some(v) => v,
        None => {
            let n = get(e.nodes, id)->0;
            let c1 = CtxModel { stack: c.stack.push(id), ..c };
            if n.node_kind == "loose"@ {
                remembered(loose_read(e, c1, id, depth), id)
            } else if n.object_type == "ofs-delta"@ || n.object_type == "ref-delta"@ {
                let task = if n.object_type == "ofs-delta"@ {
                    ofs_task(e, id)
                } else {
                    ref_task(e, id)
                };
                match task {
                    Task::Answer(e1, r) => remembered((e1, c1, r), id),
                    Task::Base(e1, base) => {
                        let v = visited(e1, c1, base, depth + 1);
                        remembered(after_base(v.0, v.1, v.2, id, base, depth), id)
                    },
                }
            } else {
                remembered(base_read(e, c1, id, depth), id)
            }
        },
    }
}

/// A visit changes nothing but evidence, found ids and edges.
pub proof fn visits_only_record(e: EngineModel, c: CtxModel, id: Seq<char>, depth: nat)
    ensures
        ({
            let v = visited(e, c, id, depth).0;
            v == EngineModel {
                evidence: v.evidence,
                found: v.found,
                edges: v.edges,
                missing_edges: v.missing_edges,
                ..e
            }
        }),
    decreases e.budget.max_depth - depth,
{
    if at_once(e, c, id, depth) is None {
        let n = get(e.nodes, id)->0;
        let c1 = CtxModel { stack: c.stack.push(id), ..c };
        if n.node_kind != "loose"@ && (n.object_type == "ofs-delta"@ || n.object_type == "ref-delta"@) {
            let task = if n.object_type == "ofs-delta"@ {
                ofs_task(e, id)
            } else {
                ref_task(e, id)
            };
            if let Task::Base(e1, base) = task {
                visits_only_record(e1, c1, base, depth + 1);
            }
        }
    }
}

/// The first entry at an offset.
pub fn find_entry(v: &Vec<PackEntry>, offset: u64) -> (r: Option<&PackEntry>)
    ensures
        match r {
            Some(x) => entry_with(models(v@), offset) == Some(x@),
            None => entry_with(models(v@), offset) is None,
        },
{
    let ghost m = models(v@);
    let mut i: usize = 0;
    assert(m.skip(0) =~= m);
    while i < v.len()
        invariant
            i <= v@.len(),
            m == models(v@),
            entry_with(m, offset) == entry_with(m.skip(i as int), offset),
        decreases v@.len() - i,
    {
        assert(m.skip(i as int)[0] == v@[i as int]@);
        if v[i].offset == offset {
            return Some(&v[i]);
        }
        assert(m.skip(i as int).skip(1) =~= m.skip(i + 1));
        i += 1;
    }
    None
}

fn kind_of_fault(f: &StreamError) -> (k: FailKind)
    ensures
        k == fault_kind(f@),
{
    match f {
        StreamError::Zlib(_) => FailKind::BadInflate,
        StreamError::SizeMismatch { .. } => FailKind::SizeMismatch,
        StreamError::SizeSpoof { .. } => FailKind::SizeSpoof,
    }
}

/// The id of the node of a pack entry.
pub fn pack_node_name(source: &str, offset: u64) -> (s: String)
    ensures
        s@ == pack_node_id(source@, offset as nat),
{
    let mut s = source.to_owned();
    s.append(":0x");
    push_hexa(&mut s, offset);
    s
}

fn some_text(s: &str) -> (r: Option<String>)
    ensures
        text_opt(r) == Some(s@),
{
    Some(s.to_owned())
}

/// The object id that a text spells.
pub fn read_hex_id(s: &str) -> (id: [u8; 20])
    ensures
        id@ == id_of_hex(s@),
{
    let mut id: [u8; 20] = [0; 20];
    assert(id@ =~= Seq::new(20, |i: int| 0u8));
    if let Some(v) = hex_decode(s) {
        if v.len() == 20 {
            let ghost zero = id@;
            let mut i: usize = 0;
            while i < 20
                invariant
                    i <= 20,
                    v@.len() == 20,
                    forall|j: int| 0 <= j < i ==> id@[j] == v@[j],
                decreases 20 - i,
            {
                id[i] = v[i];
                i += 1;
            }
            assert(id@ =~= v@);
        }
    }
    id
}

fn cap_reach(n: u64) -> (r: usize)
    ensures
        r == reach(n),
{
    if n > usize::MAX as u64 {
        usize::MAX
    } else {
        n as usize
    }
}

fn check_sizes(header: u64, actual: usize, what: &str) -> (s: String)
    ensures
        s@ == size_check(header as nat, actual as nat, what@),
{
    if header == actual as u64 {
        let mut s = "match (".to_owned();
        push_dec(&mut s, actual as u64);
        s.append(" bytes)");
        s
    } else {
        let mut s = "mismatch: header ".to_owned();
        push_dec(&mut s, header);
        s.append(what);
        push_dec(&mut s, actual as u64);
        s
    }
}

fn check_ids(want: &Option<String>, oid: &str) -> (s: String)
    ensures
        s@ == id_check(text_opt(*want), oid@),
{
    match want {
        Some(w) => if same_text(w.as_str(), oid) {
            "match".to_owned()
        } else {
            let mut s = "mismatch: computed ".to_owned();
            s.append(oid);
            s.append(", index expects ");
            s.append(w.as_str());
            s
        },
        None => "no-expected-oid".to_owned(),
    }
}

fn cmd_view(c: &DeltaCmd) -> (s: StepCmd)
    ensures
        s@ == cmd_of(*c),
{
    match c.kind {
        CmdKind::Copy { offset, len } => StepCmd {
            index: c.index,
            op: "copy".to_owned(),
            range_start: c.range.0,
            range_end: c.range.1,
            copy_offset: Some(offset),
            len,
        },
        CmdKind::Insert { len } => StepCmd {
            index: c.index,
            op: "insert".to_owned(),
            range_start: c.range.0,
            range_end: c.range.1,
            copy_offset: None,
            len,
        },
    }
}

fn cmd_views(v: &Vec<DeltaCmd>) -> (r: Vec<StepCmd>)
    ensures
        cmd_models(r@) == v@.map_values(|x: DeltaCmd| cmd_of(x)),
{
    let ghost m = v@.map_values(|x: DeltaCmd| cmd_of(x));
    let mut r: Vec<StepCmd> = Vec::new();
    let mut i: usize = 0;
    while i < v.len()
        invariant
            i <= v@.len(),
            m == v@.map_values(|x: DeltaCmd| cmd_of(x)),
            cmd_models(r@) == m.take(i as int),
        decreases v@.len() - i,
    {
        let ghost before = cmd_models(r@);
        let c = cmd_view(&v[i]);
        r.push(c);
        assert(cmd_models(r@) =~= before.push(c@));
        i += 1;
        assert(cmd_models(r@) =~= m.take(i as int));
    }
    assert(cmd_models(r@) =~= m);
    r
}

proof fn lemma_trouble(e: DeltaError)
    ensures
        e.text() == trouble_text(e@),
{
}

impl Engine {
    pub(crate) fn add_evidence(
        &mut self,
        node_id: Option<String>,
        source_id: Option<String>,
        code: &str,
        message: String,
        offset: Option<u64>,
    )
        ensures
            final(self)@ == noted(
                old(self)@,
                text_opt(node_id),
                text_opt(source_id),
                code@,
                message@,
                offset,
            ),
    {
        let ghost before = self.evidence@;
        let x = Evidence {
            id: self.evidence.len(),
            node_id,
            source_id,
            code: code.to_owned(),
            message,
            offset,
        };
        self.evidence.push(x);
        assert(evidence_models(self.evidence@) =~= evidence_models(before).push(x@));
    }

    /// What an earlier run made of a node.
    pub fn existing_outcome(&self, id: &str) -> (r: Option<ChainOutcome>)
        ensures
            match r {
                Some(o) => existing(self@, id@) == Some(o@),
                None => existing(self@, id@) is None,
            },
    {
        let n = match self.nodes.get(id) {
            Some(n) => n,
            None => return None,
        };
        match &n.state {
            NodeState::Resolved { object_type, depth, chain_bytes, steps, .. } => {
                let kind = match kind_of_name(object_type.as_str()) {
                    Some(k) => k,
                    None => return None,
                };
                match self.contents.get(id) {
                    Some(data) => {
                        assert(data.deep_view() =~= data@);
                        Some(
                            ChainOutcome {
                                kind,
                                oid: git_object_id(kind, data.as_slice()),
                                data: data.clone(),
                                depth: *depth,
                                chain_bytes: *chain_bytes,
                                steps: copy_steps(steps),
                            },
                        )
                    },
                    None => None,
                }
            },
            _ => None,
        }
    }

    /// Charges an object once for each node, within the limits.
    fn charge_slot(&self, id: &str, bytes: u64, ctx: &mut RunCtx) -> (r: Option<(PauseKind, String)>)
        ensures
            ({
                let v = charged_slot(self@, old(ctx)@, id@, bytes);
                &&& final(ctx)@ == v.0
                &&& match r {
                    Some((k, m)) => v.1 == Some((k, m@)),
                    None => v.1 is None,
                }
            }),
    {
        let cap: u64 = self.budget.single_cap;
        if bytes > cap {
            let mut m = "object expansion ".to_owned();
            push_dec(&mut m, bytes);
            m.append(" bytes exceeds single-object allowance ");
            push_dec(&mut m, cap);
            m.append(" (");
            push_dec(&mut m, self.budget.single_percent as u64);
            m.append("% of total budget)");
            return Some((PauseKind::SingleObject, m));
        }
        if self.charged.contains(id) || contains_text_in(&ctx.counted, id) {
            return None;
        }
        let used: u64 = cap_sum(ctx.charged_total, ctx.local_charge);
        if cap_sum(used, bytes) > self.budget.total_bytes {
            let mut m = "expanding ".to_owned();
            push_dec(&mut m, bytes);
            m.append(" bytes would cross total budget ");
            push_dec(&mut m, self.budget.total_bytes);
            m.append(" (used ");
            push_dec(&mut m, used);
            m.append(")");
            return Some((PauseKind::TotalBytes, m));
        }
        ctx.local_charge = cap_sum(ctx.local_charge, bytes);
        push_part(&mut ctx.counted, id.to_owned());
        None
    }

    fn register_dynamic(&mut self, id: &str, oid: [u8; 20])
        ensures
            final(self)@ == with_found(old(self)@, id@, oid@),
    {
        let mut v = match self.found.get(id) {
            Some(o) => Oids { list: o.list.clone() },
            None => Oids { list: Vec::new() },
        };
        proof {
            let start = match get(self@.found, id@) {
                Some(v) => v,
                None => Seq::empty(),
            };
            assert(v.deep_view() =~= start);
        }
        if !contains_oid(&v, &oid) {
            let ghost before = v.deep_view();
            v.list.push(oid);
            assert(v.deep_view() =~= before.push(oid@));
        }
        self.found.insert(id.to_owned(), v);
    }

    fn record_edge(&mut self, id: &str, base: &str)
        ensures
            final(self)@ == with_base(old(self)@, id@, base@),
    {
        let mut v: Vec<String> = Vec::new();
        if let Some(o) = self.edges.get(id) {
            v = crate::kernel::engine::rows::copy_texts(&o.list);
        }
        proof {
            let start = match get(self@.edges, id@) {
                Some(v) => v,
                None => Seq::empty(),
            };
            assert(texts(v@) =~= start);
        }
        if !contains_text_in(&v, base) {
            push_part(&mut v, base.to_owned());
        }
        self.edges.insert(id.to_owned(), Names { list: v });
    }

    fn resolve_loose(&mut self, id: &str, depth: usize, ctx: &mut RunCtx) -> (r: Res)
        requires
            has_key(old(self)@.nodes, id@),
        ensures
            (final(self)@, final(ctx)@, r@) == loose_read(old(self)@, old(ctx)@, id@, depth as nat),
    {
        let source = match self.nodes.get(id) {
            Some(n) => n.source_id.clone(),
            None => String::new(),
        };
        let l = match self.looses.get(source.as_str()) {
            Some(l) => l,
            None => return Res::Fail(FailKind::BadLoose, "loose payload missing".to_owned()),
        };
        let data = match &l.content {
            Ok(c) => c.clone(),
            Err(m) => return Res::Fail(FailKind::BadLoose, m.clone()),
        };
        let kind = l.kind;
        let path_oid: Option<[u8; 20]> = l.path_oid;
        let bytes: u64 = data.len() as u64;
        if let Some((k, m)) = self.charge_slot(id, bytes, ctx) {
            return Res::Pause(k, m, bytes);
        }
        let oid = git_object_id(kind, data.as_slice());
        if let Some(want) = path_oid {
            if !same_bytes(want.as_slice(), oid.as_slice()) {
                let mut m = "loose object hashes to ".to_owned();
                m.append(hex_encode(oid.as_slice()).as_str());
                m.append(" but path advertised ");
                m.append(hex_encode(want.as_slice()).as_str());
                self.add_evidence(some_text(id), Some(source), "oid-mismatch", m, None);
            }
        }
        self.register_dynamic(id, oid);
        let steps: Vec<DeltaStepView> = Vec::new();
        assert(step_models(steps@) =~= Seq::empty());
        ctx.results.insert(
            id.to_owned(),
            RunResult::Done(ChainOutcome { kind, oid, data, depth, chain_bytes: bytes, steps }),
        );
        Res::Done
    }

    fn resolve_pack_base(&mut self, id: &str, depth: usize, ctx: &mut RunCtx) -> (r: Res)
        requires
            has_key(old(self)@.nodes, id@),
        ensures
            (final(self)@, final(ctx)@, r@) == base_read(old(self)@, old(ctx)@, id@, depth as nat),
    {
        let n = match self.nodes.get(id) {
            Some(n) => n,
            None => return Res::Done,
        };
        let offset: u64 = match n.offset {
            Some(o) => o,
            None => 0,
        };
        let declared: u64 = n.declared_size;
        let kind = match kind_of_name(n.object_type.as_str()) {
            Some(k) => k,
            None => {
                let mut m = "unexpected base object type ".to_owned();
                m.append(n.object_type.as_str());
                return Res::Fail(FailKind::BadDelta, m);
            },
        };
        let pack = match self.packs.get(n.source_id.as_str()) {
            Some(p) => p,
            None => return Res::Fail(FailKind::BadInflate, "pack payload missing".to_owned()),
        };
        let entry = match find_entry(&pack.entries, offset) {
            Some(x) => x,
            None => return Res::Fail(FailKind::BadInflate, "pack entry missing".to_owned()),
        };
        let data = match &entry.inflated {
            Ok(d) => d.clone(),
            Err(f) => return Res::Fail(kind_of_fault(f), f.message()),
        };
        if let Some((k, m)) = self.charge_slot(id, declared, ctx) {
            return Res::Pause(k, m, declared);
        }
        let oid = git_object_id(kind, data.as_slice());
        self.register_dynamic(id, oid);
        let steps: Vec<DeltaStepView> = Vec::new();
        assert(step_models(steps@) =~= Seq::empty());
        ctx.results.insert(
            id.to_owned(),
            RunResult::Done(ChainOutcome { kind, oid, data, depth, chain_bytes: declared, steps }),
        );
        Res::Done
    }

    /// Finds the base of a delta that names it by distance.
    fn ofs_base(&mut self, id: &str) -> (r: Result<String, Res>)
        requires
            has_key(old(self)@.nodes, id@),
        ensures
            match ofs_task(old(self)@, id@) {
                Task::Answer(e, x) => r matches Err(y) && y@ == x && final(self)@ == e,
                Task::Base(e, b) => r matches Ok(y) && y@ == b && final(self)@ == e && has_key(e.nodes, b),
            },
    {
        let n = match self.nodes.get(id) {
            Some(n) => n,
            None => return Err(Res::Done),
        };
        let source = n.source_id.clone();
        let offset: u64 = match n.offset {
            Some(o) => o,
            None => 0,
        };
        let distance: u64 = match n.ofs_distance {
            Some(d) => d,
            None => 0,
        };
        let boff: u64 = match n.ofs_base_offset {
            Some(b) => b,
            None => {
                let mut m = "ofs-delta negative distance ".to_owned();
                push_dec(&mut m, distance);
                m.append(" underflows at offset ");
                push_dec(&mut m, offset);
                return Err(Res::Fail(FailKind::OfsOutOfRange, m));
            },
        };
        let base = pack_node_name(source.as_str(), boff);
        if !self.nodes.contains(base.as_str()) {
            let mut m = "ofs-delta at ".to_owned();
            push_dec(&mut m, offset);
            m.append(" points at ");
            push_dec(&mut m, boff);
            m.append(" (distance ");
            push_dec(&mut m, distance);
            m.append("), but no object starts there");
            self.add_evidence(some_text(id), Some(source), "ofs-out-of-range", m, Some(offset));
            let mut f = "no pack object at ofs-delta base offset ".to_owned();
            push_dec(&mut f, boff);
            return Err(Res::Fail(FailKind::OfsOutOfRange, f));
        }
        if boff >= offset {
            let mut m = "ofs-delta base offset ".to_owned();
            push_dec(&mut m, boff);
            m.append(" is not before ");
            push_dec(&mut m, offset);
            return Err(Res::Fail(FailKind::OfsOutOfRange, m));
        }
        self.record_edge(id, base.as_str());
        Ok(base)
    }

    fn describe_offer(&self, o: &Offer) -> (s: String)
        requires
            has_key(self@.nodes, o@.node),
        ensures
            s@ == offer_text(self@, o@),
    {
        let mut s = o.node.clone();
        s.append(" [");
        s.append(o.origin);
        s.append(" @ ");
        let at: Option<u64> = match self.nodes.get(o.node.as_str()) {
            Some(n) => n.offset,
            None => None,
        };
        match at {
            Some(x) => {
                let mut h = "0x".to_owned();
                push_hexa(&mut h, x);
                s.append(h.as_str());
            },
            None => {
                s.append("loose");
            },
        }
        s.append("]");
        s
    }

    fn describe_offers(&self, v: &Vec<Offer>) -> (s: String)
        requires
            forall|i: int| 0 <= i < v@.len() ==> has_key(self@.nodes, (#[trigger] v@[i]).node@),
        ensures
            s@ == joined(offer_texts(self@, offer_models(v@)), ", "@),
    {
        let ghost m = offer_texts(self@, offer_models(v@));
        let mut parts: Vec<String> = Vec::new();
        let mut i: usize = 0;
        assert(texts(parts@) =~= m.take(0));
        while i < v.len()
            invariant
                i <= v@.len(),
                m == offer_texts(self@, offer_models(v@)),
                forall|j: int| 0 <= j < v@.len() ==> has_key(self@.nodes, (#[trigger] v@[j]).node@),
                texts(parts@) == m.take(i as int),
            decreases v@.len() - i,
        {
            assert(v@[i as int].node@ == v@[i as int]@.node);
            assert(m[i as int] == offer_text(self@, v@[i as int]@));
            push_part(&mut parts, self.describe_offer(&v[i]));
            i += 1;
            assert(texts(parts@) =~= m.take(i as int));
        }
        assert(m.take(i as int) =~= m);
        join(&parts, ", ")
    }

    /// Finds the base of a delta that names it by id.
    fn ref_base(&mut self, id: &str) -> (r: Result<String, Res>)
        requires
            has_key(old(self)@.nodes, id@),
        ensures
            match ref_task(old(self)@, id@) {
                Task::Answer(e, x) => r matches Err(y) && y@ == x && final(self)@ == e,
                Task::Base(e, b) => r matches Ok(y) && y@ == b && final(self)@ == e && has_key(e.nodes, b),
            },
    {
        let n = match self.nodes.get(id) {
            Some(n) => n,
            None => return Err(Res::Done),
        };
        let source = n.source_id.clone();
        let offset: Option<u64> = n.offset;
        let want = match &n.ref_base_oid {
            Some(h) => h.clone(),
            None => "".to_owned(),
        };
        let oid = read_hex_id(want.as_str());
        let v = self.gather_candidates(&oid);
        let ghost offered = offer_models(v@);
        if v.len() == 0 {
            self.missing_edges.insert(id.to_owned(), want.clone());
            let mut m = "ref-delta base object ".to_owned();
            m.append(want.as_str());
            m.append(" is not present in any imported source");
            self.add_evidence(some_text(id), Some(source), "missing-base", m, offset);
            let mut f = "missing base object ".to_owned();
            f.append(want.as_str());
            return Err(Res::Fail(FailKind::MissingBase, f));
        }
        assert(offered[0] == v@[0]@);
        if v.len() > 1 && self.active_pin(want.as_str()).is_none() {
            let mut m = "object ".to_owned();
            m.append(want.as_str());
            m.append(" has ");
            push_dec(&mut m, v.len() as u64);
            m.append(" candidate sources; using ");
            m.append(v[0].node.as_str());
            m.append("; alternatives: ");
            m.append(self.describe_offers(&v).as_str());
            self.add_evidence(some_text(id), Some(source), "duplicate-oid", m, offset);
        }
        let base = v[0].node.clone();
        self.record_edge(id, base.as_str());
        Ok(base)
    }

    /// The outcome of a base that was visited.
    fn outcome_of_base(&self, base: &str, ctx: &mut RunCtx) -> (r: Result<ChainOutcome, Res>)
        ensures
            match base_outcome(self@, old(ctx)@, base@) {
                Ok((c, o)) => r matches Ok(x) && x@ == o && final(ctx)@ == c,
                Err(x) => r matches Err(y) && y@ == x && final(ctx)@ == old(ctx)@,
            },
    {
        match ctx.results.get(base) {
            Some(RunResult::Done(o)) => return Ok(o.copy()),
            Some(RunResult::Failed(k, m)) => {
                let mut s = "base ".to_owned();
                s.append(base);
                s.append(": ");
                s.append(m.as_str());
                return Err(Res::Fail(*k, s));
            },
            None => {},
        }
        match self.existing_outcome(base) {
            Some(o) => {
                ctx.results.insert(base.to_owned(), RunResult::Done(o.copy()));
                Ok(o)
            },
            None => {
                let mut s = "base ".to_owned();
                s.append(base);
                s.append(" produced no outcome");
                Err(Res::Fail(FailKind::BadDelta, s))
            },
        }
    }

    /// The delta of a node.
    fn delta_bytes(&self, id: &str) -> (r: Result<Vec<u8>, Res>)
        requires
            has_key(self@.nodes, id@),
        ensures
            match delta_of(self@, get(self@.nodes, id@)->0) {
                Ok(d) => r matches Ok(x) && x@ == d,
                Err(x) => r matches Err(y) && y@ == x,
            },
    {
        let n = match self.nodes.get(id) {
            Some(n) => n,
            None => return Err(Res::Done),
        };
        let offset: u64 = match n.offset {
            Some(o) => o,
            None => 0,
        };
        let found = match self.packs.get(n.source_id.as_str()) {
            Some(p) => find_entry(&p.entries, offset),
            None => None,
        };
        match found {
            Some(x) => match &x.inflated {
                Ok(d) => Ok(d.clone()),
                Err(f) => Err(Res::Fail(kind_of_fault(f), f.message())),
            },
            None => Err(Res::Fail(FailKind::BadDelta, "delta entry vanished".to_owned())),
        }
    }

    /// Applies the delta of a node to the outcome of its base.
    fn apply_to_base(
        &mut self,
        id: &str,
        base: &str,
        o: ChainOutcome,
        delta: &Vec<u8>,
        depth: usize,
        ctx: &mut RunCtx,
    ) -> (r: Res)
        requires
            has_key(old(self)@.nodes, id@),
        ensures
            (final(self)@, final(ctx)@, r@) == delta_applied(
                old(self)@,
                old(ctx)@,
                id@,
                base@,
                o@,
                delta@,
                depth as nat,
            ),
    {
        let (source, at, declared, want) = match self.nodes.get(id) {
            Some(n) => (
                n.source_id.clone(),
                match n.offset {
                    Some(x) => x,
                    None => 0,
                },
                n.declared_size,
                copy_opt(&n.idx_oid),
            ),
            None => (String::new(), 0, 0, None),
        };
        let header = match parse_header(delta.as_slice()) {
            Ok(h) => h,
            Err(x) => {
                proof {
                    lemma_trouble(x);
                }
                self.add_evidence(some_text(id), Some(source), "bad-delta", x.message(), Some(at));
                return Res::Fail(FailKind::BadDelta, x.message());
            },
        };
        let used: u64 = cap_sum(ctx.charged_total, ctx.local_charge);
        let left: u64 = if used > self.budget.total_bytes {
            0
        } else {
            self.budget.total_bytes - used
        };
        let (out, cmds, _again) = match apply_delta(
            o.data.as_slice(),
            delta.as_slice(),
            cap_reach(self.budget.single_cap),
            cap_reach(left),
        ) {
            Ok(v) => v,
            Err(DeltaError::BudgetPaused { target_size, reason }) => {
                let kind = match reason {
                    PauseReason::SingleObject => PauseKind::SingleObject,
                    PauseReason::TotalBytes => PauseKind::TotalBytes,
                };
                let mut m = "delta target ".to_owned();
                push_dec(&mut m, target_size);
                m.append(" bytes blocked by ");
                m.append(kind.label());
                m.append(" budget (base ");
                m.append(base);
                m.append(")");
                self.add_evidence(some_text(id), Some(source), "budget-pause", m.clone(), Some(at));
                return Res::Pause(kind, m, target_size);
            },
            Err(x) => {
                proof {
                    lemma_trouble(x);
                }
                self.add_evidence(some_text(id), Some(source), "bad-delta", x.message(), Some(at));
                return Res::Fail(FailKind::BadDelta, x.message());
            },
        };
        let made: u64 = out.len() as u64;
        if made != declared {
            let mut m = "pack entry declares ".to_owned();
            push_dec(&mut m, declared);
            m.append(" bytes but delta reconstructs ");
            push_dec(&mut m, made);
            m.append(" bytes");
            self.add_evidence(some_text(id), Some(source), "size-mismatch", m.clone(), Some(at));
            return Res::Fail(FailKind::SizeMismatch, m);
        }
        if let Some((k, m)) = self.charge_slot(id, made, ctx) {
            return Res::Pause(k, m, made);
        }
        let oid = git_object_id(o.kind, out.as_slice());
        let oid_hex = hex_encode(oid.as_slice());
        if let Some(w) = &want {
            if !same_text(w.as_str(), oid_hex.as_str()) {
                let mut m = "reconstructed ".to_owned();
                m.append(oid_hex.as_str());
                m.append(" but expected ");
                m.append(w.as_str());
                self.add_evidence(some_text(id), Some(source), "oid-mismatch", m, Some(at));
            }
        }
        let step = DeltaStepView {
            order: o.steps.len(),
            delta_node: id.to_owned(),
            base_node: base.to_owned(),
            base_oid: Some(hex_encode(o.oid.as_slice())),
            base_type: o.kind.name().to_owned(),
            instr_start: header.instr_start,
            instr_end: delta.len(),
            input_len: o.data.len(),
            output_len: out.len(),
            base_size_check: check_sizes(header.base_size, o.data.len(), " vs base "),
            output_size_check: check_sizes(header.target_size, out.len(), " vs produced "),
            oid_check: check_ids(&want, oid_hex.as_str()),
            cmds: cmd_views(&cmds),
        };
        let mut steps = copy_steps(&o.steps);
        let ghost before = step_models(steps@);
        steps.push(step);
        assert(step_models(steps@) =~= before.push(step@));
        self.register_dynamic(id, oid);
        let chain_bytes: u64 = cap_sum(o.chain_bytes, made);
        ctx.results.insert(
            id.to_owned(),
            RunResult::Done(ChainOutcome { kind: o.kind, oid, data: out, depth, chain_bytes, steps }),
        );
        Res::Done
    }

    /// Resolves a base and applies the delta of a node to it.
    fn apply_chain(&mut self, id: &str, base: &str, depth: usize, ctx: &mut RunCtx) -> (r: Res)
        requires
            has_key(old(self)@.nodes, id@),
            has_key(old(self)@.nodes, base@),
            depth < old(self)@.budget.max_depth,
        ensures
            ({
                let v = visited(old(self)@, old(ctx)@, base@, depth as nat + 1);
                (final(self)@, final(ctx)@, r@) == after_base(v.0, v.1, v.2, id@, base@, depth as nat)
            }),
        decreases old(self)@.budget.max_depth - depth, 0int,
    {
        proof {
            visits_only_record(self@, ctx@, base@, depth as nat + 1);
        }
        match self.resolve_node(base, depth + 1, ctx) {
            Res::Done => {},
            Res::Fail(k, m) => {
                let mut s = "base ".to_owned();
                s.append(base);
                s.append(" failed: ");
                s.append(m.as_str());
                return Res::Fail(k, s);
            },
            Res::Pause(k, m, t) => {
                let mut s = "blocked by base ".to_owned();
                s.append(base);
                s.append(": ");
                s.append(m.as_str());
                return Res::Pause(k, s, t);
            },
        }
        let o = match self.outcome_of_base(base, ctx) {
            Ok(o) => o,
            Err(x) => return x,
        };
        let delta = match self.delta_bytes(id) {
            Ok(d) => d,
            Err(x) => return x,
        };
        self.apply_to_base(id, base, o, &delta, depth, ctx)
    }

    /// The answer for a node that need not be worked on.
    fn answer_at_once(&mut self, id: &str, depth: usize, ctx: &mut RunCtx) -> (r: Option<Res>)
        requires
            has_key(old(self)@.nodes, id@),
        ensures
            match at_once(old(self)@, old(ctx)@, id@, depth as nat) {
                Some(v) => r matches Some(x) && (final(self)@, final(ctx)@, x@) == v,
                None => r is None && final(self)@ == old(self)@ && final(ctx)@ == old(ctx)@,
            },
    {
        if let Some(o) = self.existing_outcome(id) {
            if !ctx.results.contains(id) {
                ctx.results.insert(id.to_owned(), RunResult::Done(o));
            }
            return Some(Res::Done);
        }
        if ctx.results.contains(id) {
            return Some(Res::Done);
        }
        if let Some(p) = ctx.paused.get(id) {
            return Some(Res::Pause(p.kind, p.message.clone(), p.target));
        }
        let n = match self.nodes.get(id) {
            Some(n) => n,
            None => return None,
        };
        let source = n.source_id.clone();
        let declared: u64 = n.declared_size;
        if contains_text_in(&ctx.stack, id) {
            let mut m = "delta cycle detected through ".to_owned();
            m.append(id);
            self.add_evidence(some_text(id), Some(source), "cycle", m.clone(), None);
            ctx.results.insert(id.to_owned(), RunResult::Failed(FailKind::Cycle, m.clone()));
            return Some(Res::Fail(FailKind::Cycle, m));
        }
        if let NodeState::Failed { kind, message, .. } = &n.state {
            if kind.is_lasting() {
                ctx.results.insert(id.to_owned(), RunResult::Failed(*kind, message.clone()));
                return Some(Res::Fail(*kind, message.clone()));
            }
        }
        if depth >= self.budget.max_depth {
            let mut m = "delta depth limit ".to_owned();
            push_dec(&mut m, self.budget.max_depth as u64);
            m.append(" reached at ");
            m.append(id);
            self.add_evidence(some_text(id), Some(source), "budget-depth", m.clone(), None);
            ctx.paused.insert(
                id.to_owned(),
                PauseRow { kind: PauseKind::Depth, message: m.clone(), target: declared },
            );
            return Some(Res::Pause(PauseKind::Depth, m, declared));
        }
        None
    }

    /// Resolves one node, its bases first.
    pub(crate) fn resolve_node(&mut self, id: &str, depth: usize, ctx: &mut RunCtx) -> (r: Res)
        requires
            has_key(old(self)@.nodes, id@),
        ensures
            (final(self)@, final(ctx)@, r@) == visited(old(self)@, old(ctx)@, id@, depth as nat),
        decreases old(self)@.budget.max_depth - depth, 1int,
    {
        if let Some(r) = self.answer_at_once(id, depth, ctx) {
            return r;
        }
        let ghost e0 = self@;
        let ghost c0 = ctx@;
        push_part(&mut ctx.stack, id.to_owned());
        let (loose, ofs, by_ref) = match self.nodes.get(id) {
            Some(n) => (
                same_text(n.node_kind.as_str(), "loose"),
                same_text(n.object_type.as_str(), "ofs-delta"),
                same_text(n.object_type.as_str(), "ref-delta"),
            ),
            None => (false, false, false),
        };
        let result = if loose {
            self.resolve_loose(id, depth, ctx)
        } else if ofs || by_ref {
            let base = if ofs {
                self.ofs_base(id)
            } else {
                self.ref_base(id)
            };
            match base {
                Ok(b) => self.apply_chain(id, b.as_str(), depth, ctx),
                Err(x) => x,
            }
        } else {
            self.resolve_pack_base(id, depth, ctx)
        };
        let ghost after = (self@, ctx@, result@);
        let _popped = ctx.stack.pop();
        proof {
            if after.1.stack.len() > 0 {
                assert(texts(ctx.stack@) =~= after.1.stack.drop_last());
            } else {
                assert(texts(ctx.stack@) =~= after.1.stack);
            }
        }
        match &result {
            Res::Done => {
                if !ctx.results.contains(id) {
                    ctx.results.insert(
                        id.to_owned(),
                        RunResult::Failed(FailKind::BadDelta, "internal: missing outcome".to_owned()),
                    );
                }
            },
            Res::Fail(k, m) => {
                ctx.results.insert(id.to_owned(), RunResult::Failed(*k, m.clone()));
            },
            Res::Pause(k, m, t) => {
                ctx.paused.insert(
                    id.to_owned(),
                    PauseRow { kind: *k, message: m.clone(), target: *t },
                );
            },
        }
        assert((self@, ctx@, result@) == remembered(after, id@));
        result
    }
}

} // verus!
