//! The tables of the engine: sources, nodes, evidence and what is known of each object.
use vstd::prelude::*;
use crate::analyze::graph::{copy_opt, text_opt};
use crate::kernel::git::GitType;
use crate::kernel::idx::ParsedIdx;
use crate::kernel::loose::ParsedLoose;
use crate::kernel::pack::{models, EntryModel, ParsedPack};
use crate::model::assoc::TextMap;
use crate::model::text::{push_part, texts};

verus! {

#[derive(Clone, Copy, PartialEq, Eq, Debug, Structural)]
pub enum SourceKind {
    Pack,
    Idx,
    Loose,
    Unknown,
}

#[derive(Debug)]
pub struct SourceFile {
    pub id: String,
    pub filename: String,
    pub size: usize,
    pub sha256: String,
    pub kind: SourceKind,
    pub import_seq: u64,
    pub parse_error: Option<String>,
}

/// The model of a source file.
pub ghost struct SourceModel {
    pub id: Seq<char>,
    pub filename: Seq<char>,
    pub size: nat,
    pub sha256: Seq<char>,
    pub kind: SourceKind,
    pub import_seq: u64,
    pub parse_error: Option<Seq<char>>,
}

impl View for SourceFile {
    type V = SourceModel;

    open spec fn view(&self) -> SourceModel {
        SourceModel {
            id: self.id@,
            filename: self.filename@,
            size: self.size as nat,
            sha256: self.sha256@,
            kind: self.kind,
            import_seq: self.import_seq,
            parse_error: text_opt(self.parse_error),
        }
    }
}

/// The models of source files.
pub open spec fn source_models(v: Seq<SourceFile>) -> Seq<SourceModel> {
    v.map_values(|s: SourceFile| s@)
}

#[derive(Debug)]
pub struct Evidence {
    pub id: usize,
    pub node_id: Option<String>,
    pub source_id: Option<String>,
    pub code: String,
    pub message: String,
    pub offset: Option<u64>,
}

/// The model of a piece of evidence.
pub ghost struct EvidenceModel {
    pub id: nat,
    pub node_id: Option<Seq<char>>,
    pub source_id: Option<Seq<char>>,
    pub code: Seq<char>,
    pub message: Seq<char>,
    pub offset: Option<u64>,
}

impl View for Evidence {
    type V = EvidenceModel;

    open spec fn view(&self) -> EvidenceModel {
        EvidenceModel {
            id: self.id as nat,
            node_id: text_opt(self.node_id),
            source_id: text_opt(self.source_id),
            code: self.code@,
            message: self.message@,
            offset: self.offset,
        }
    }
}

/// The models of pieces of evidence.
pub open spec fn evidence_models(v: Seq<Evidence>) -> Seq<EvidenceModel> {
    v.map_values(|e: Evidence| e@)
}

#[derive(Debug)]
pub struct StepCmd {
    pub index: usize,
    pub op: String,
    pub range_start: usize,
    pub range_end: usize,
    pub copy_offset: Option<usize>,
    pub len: usize,
}

/// The model of a command.
pub ghost struct CmdModel {
    pub index: usize,
    pub op: Seq<char>,
    pub range_start: usize,
    pub range_end: usize,
    pub copy_offset: Option<usize>,
    pub len: usize,
}

impl View for StepCmd {
    type V = CmdModel;

    open spec fn view(&self) -> CmdModel {
        CmdModel {
            index: self.index,
            op: self.op@,
            range_start: self.range_start,
            range_end: self.range_end,
            copy_offset: self.copy_offset,
            len: self.len,
        }
    }
}

/// The models of commands.
pub open spec fn cmd_models(v: Seq<StepCmd>) -> Seq<CmdModel> {
    v.map_values(|c: StepCmd| c@)
}

#[derive(Debug)]
pub struct DeltaStepView {
    pub order: usize,
    pub delta_node: String,
    pub base_node: String,
    pub base_oid: Option<String>,
    pub base_type: String,
    pub instr_start: usize,
    pub instr_end: usize,
    pub input_len: usize,
    pub output_len: usize,
    pub base_size_check: String,
    pub output_size_check: String,
    pub oid_check: String,
    pub cmds: Vec<StepCmd>,
}

/// The model of an applied delta.
pub ghost struct StepModel {
    pub order: nat,
    pub delta_node: Seq<char>,
    pub base_node: Seq<char>,
    pub base_oid: Option<Seq<char>>,
    pub base_type: Seq<char>,
    pub instr_start: nat,
    pub instr_end: nat,
    pub input_len: nat,
    pub output_len: nat,
    pub base_size_check: Seq<char>,
    pub output_size_check: Seq<char>,
    pub oid_check: Seq<char>,
    pub cmds: Seq<CmdModel>,
}

impl View for DeltaStepView {
    type V = StepModel;

    open spec fn view(&self) -> StepModel {
        StepModel {
            order: self.order as nat,
            delta_node: self.delta_node@,
            base_node: self.base_node@,
            base_oid: text_opt(self.base_oid),
            base_type: self.base_type@,
            instr_start: self.instr_start as nat,
            instr_end: self.instr_end as nat,
            input_len: self.input_len as nat,
            output_len: self.output_len as nat,
            base_size_check: self.base_size_check@,
            output_size_check: self.output_size_check@,
            oid_check: self.oid_check@,
            cmds: cmd_models(self.cmds@),
        }
    }
}

/// The models of applied deltas.
pub open spec fn step_models(v: Seq<DeltaStepView>) -> Seq<StepModel> {
    v.map_values(|s: DeltaStepView| s@)
}

fn copy_cmds(v: &Vec<StepCmd>) -> (r: Vec<StepCmd>)
    ensures
        cmd_models(r@) == cmd_models(v@),
{
    let mut r: Vec<StepCmd> = Vec::new();
    let mut i: usize = 0;
    while i < v.len()
        invariant
            i <= v@.len(),
            cmd_models(r@) == cmd_models(v@).take(i as int),
        decreases v@.len() - i,
    {
        let c = &v[i];
        let ghost before = cmd_models(r@);
        let d = StepCmd {
            index: c.index,
            op: c.op.clone(),
            range_start: c.range_start,
            range_end: c.range_end,
            copy_offset: c.copy_offset,
            len: c.len,
        };
        assert(d@ == c@);
        r.push(d);
        assert(cmd_models(r@) =~= before.push(d@));
        i += 1;
        assert(cmd_models(r@) =~= cmd_models(v@).take(i as int));
    }
    assert(cmd_models(r@) =~= cmd_models(v@));
    r
}

/// Copies a list of applied deltas.
pub fn copy_steps(v: &Vec<DeltaStepView>) -> (r: Vec<DeltaStepView>)
    ensures
        step_models(r@) == step_models(v@),
{
    let mut r: Vec<DeltaStepView> = Vec::new();
    let mut i: usize = 0;
    while i < v.len()
        invariant
            i <= v@.len(),
            step_models(r@) == step_models(v@).take(i as int),
        decreases v@.len() - i,
    {
        let s = &v[i];
        let ghost before = step_models(r@);
        let d = DeltaStepView {
            order: s.order,
            delta_node: s.delta_node.clone(),
            base_node: s.base_node.clone(),
            base_oid: copy_opt(&s.base_oid),
            base_type: s.base_type.clone(),
            instr_start: s.instr_start,
            instr_end: s.instr_end,
            input_len: s.input_len,
            output_len: s.output_len,
            base_size_check: s.base_size_check.clone(),
            output_size_check: s.output_size_check.clone(),
            oid_check: s.oid_check.clone(),
            cmds: copy_cmds(&s.cmds),
        };
        assert(d@ == s@);
        r.push(d);
        assert(step_models(r@) =~= before.push(d@));
        i += 1;
        assert(step_models(r@) =~= step_models(v@).take(i as int));
    }
    assert(step_models(r@) =~= step_models(v@));
    r
}

/// Copies a list of texts.
pub fn copy_texts(v: &Vec<String>) -> (r: Vec<String>)
    ensures
        texts(r@) == texts(v@),
{
    let mut r: Vec<String> = Vec::new();
    let mut i: usize = 0;
    while i < v.len()
        invariant
            i <= v@.len(),
            texts(r@) == texts(v@).take(i as int),
        decreases v@.len() - i,
    {
        push_part(&mut r, v[i].clone());
        i += 1;
        assert(texts(r@) =~= texts(v@).take(i as int));
    }
    assert(texts(r@) =~= texts(v@));
    r
}

#[derive(Clone, Copy, PartialEq, Eq, Debug, Structural)]
pub enum FailKind {
    BadCrc,
    BadInflate,
    SizeSpoof,
    SizeMismatch,
    BadDelta,
    OfsOutOfRange,
    MissingBase,
    Cycle,
    BadLoose,
}

impl FailKind {
    /// The failure lies in the stored bytes: no other object can mend it.
    pub open spec fn lasting(self) -> bool {
        self == FailKind::BadCrc || self == FailKind::BadInflate || self == FailKind::SizeSpoof || self
            == FailKind::SizeMismatch || self == FailKind::BadLoose
    }

    pub fn is_lasting(self) -> (r: bool)
        ensures
            r == self.lasting(),
    {
        match self {
            FailKind::BadCrc => true,
            FailKind::BadInflate => true,
            FailKind::SizeSpoof => true,
            FailKind::SizeMismatch => true,
            FailKind::BadLoose => true,
            _ => false,
        }
    }
}

#[derive(Clone, Copy, PartialEq, Eq, Debug, Structural)]
pub enum PauseKind {
    Depth,
    TotalBytes,
    SingleObject,
}

impl PauseKind {
    pub open spec fn text(self) -> Seq<char> {
        match self {
            PauseKind::Depth => "Depth"@,
            PauseKind::TotalBytes => "TotalBytes"@,
            PauseKind::SingleObject => "SingleObject"@,
        }
    }

    pub fn label(self) -> (s: &'static str)
        ensures
            s@ == self.text(),
    {
        match self {
            PauseKind::Depth => "Depth",
            PauseKind::TotalBytes => "TotalBytes",
            PauseKind::SingleObject => "SingleObject",
        }
    }
}

#[derive(Debug)]
#[allow(inconsistent_fields)]
pub enum NodeState {
    Unprocessed,
    Resolved {
        object_type: String,
        size: u64,
        oid: String,
        oid_expected: Option<String>,
        oid_match: bool,
        depth: usize,
        chain_bytes: u64,
        steps: Vec<DeltaStepView>,
    },
    Failed { kind: FailKind, message: String, blocker_chain: Vec<String> },
    Paused { kind: PauseKind, message: String, attempted_target: u64, blocker_chain: Vec<String> },
}

/// The model of the state of a node.
pub ghost enum StateModel {
    Unprocessed,
    Resolved {
        object_type: Seq<char>,
        size: u64,
        oid: Seq<char>,
        oid_expected: Option<Seq<char>>,
        oid_match: bool,
        depth: nat,
        chain_bytes: u64,
        steps: Seq<StepModel>,
    },
    Failed { fail: FailKind, message: Seq<char>, blocker_chain: Seq<Seq<char>> },
    Paused { pause: PauseKind, message: Seq<char>, attempted_target: u64, blocker_chain: Seq<Seq<char>> },
}

impl View for NodeState {
    type V = StateModel;

    open spec fn view(&self) -> StateModel {
        match *self {
            NodeState::Unprocessed => StateModel::Unprocessed,
            NodeState::Resolved {
                object_type,
                size,
                oid,
                oid_expected,
                oid_match,
                depth,
                chain_bytes,
                steps,
            } => StateModel::Resolved {
                object_type: object_type@,
                size,
                oid: oid@,
                oid_expected: text_opt(oid_expected),
                oid_match,
                depth: depth as nat,
                chain_bytes,
                steps: step_models(steps@),
            },
            NodeState::Failed { kind, message, blocker_chain } => StateModel::Failed {
                fail: kind,
                message: message@,
                blocker_chain: texts(blocker_chain@),
            },
            NodeState::Paused { kind, message, attempted_target, blocker_chain } => StateModel::Paused {
                pause: kind,
                message: message@,
                attempted_target,
                blocker_chain: texts(blocker_chain@),
            },
        }
    }
}

impl NodeState {
    /// Copies a state.
    pub fn copy(&self) -> (r: NodeState)
        ensures
            r@ == self@,
    {
        match self {
            NodeState::Unprocessed => NodeState::Unprocessed,
            NodeState::Resolved {
                object_type,
                size,
                oid,
                oid_expected,
                oid_match,
                depth,
                chain_bytes,
                steps,
            } => NodeState::Resolved {
                object_type: object_type.clone(),
                size: *size,
                oid: oid.clone(),
                oid_expected: copy_opt(oid_expected),
                oid_match: *oid_match,
                depth: *depth,
                chain_bytes: *chain_bytes,
                steps: copy_steps(steps),
            },
            NodeState::Failed { kind, message, blocker_chain } => NodeState::Failed {
                kind: *kind,
                message: message.clone(),
                blocker_chain: copy_texts(blocker_chain),
            },
            NodeState::Paused { kind, message, attempted_target, blocker_chain } => NodeState::Paused {
                kind: *kind,
                message: message.clone(),
                attempted_target: *attempted_target,
                blocker_chain: copy_texts(blocker_chain),
            },
        }
    }
}

#[derive(Debug)]
pub struct Node {
    pub id: String,
    pub source_id: String,
    pub source_name: String,
    /// "loose" or "pack".
    pub node_kind: String,
    /// blob, tree, commit, tag, ofs-delta or ref-delta.
    pub object_type: String,
    pub offset: Option<u64>,
    pub data_offset: Option<u64>,
    pub end_offset: Option<u64>,
    pub declared_size: u64,
    pub idx_oid: Option<String>,
    pub state: NodeState,
    pub crc32: Option<u32>,
    pub crc_ok: Option<bool>,
    pub ofs_distance: Option<u64>,
    pub ofs_base_offset: Option<u64>,
    pub ref_base_oid: Option<String>,
}

/// The model of a node.
pub ghost struct NodeModel {
    pub id: Seq<char>,
    pub source_id: Seq<char>,
    pub source_name: Seq<char>,
    pub node_kind: Seq<char>,
    pub object_type: Seq<char>,
    pub offset: Option<u64>,
    pub data_offset: Option<u64>,
    pub end_offset: Option<u64>,
    pub declared_size: u64,
    pub idx_oid: Option<Seq<char>>,
    pub state: StateModel,
    pub crc32: Option<u32>,
    pub crc_ok: Option<bool>,
    pub ofs_distance: Option<u64>,
    pub ofs_base_offset: Option<u64>,
    pub ref_base_oid: Option<Seq<char>>,
}

impl DeepView for Node {
    type V = NodeModel;

    open spec fn deep_view(&self) -> NodeModel {
        NodeModel {
            id: self.id@,
            source_id: self.source_id@,
            source_name: self.source_name@,
            node_kind: self.node_kind@,
            object_type: self.object_type@,
            offset: self.offset,
            data_offset: self.data_offset,
            end_offset: self.end_offset,
            declared_size: self.declared_size,
            idx_oid: text_opt(self.idx_oid),
            state: self.state@,
            crc32: self.crc32,
            crc_ok: self.crc_ok,
            ofs_distance: self.ofs_distance,
            ofs_base_offset: self.ofs_base_offset,
            ref_base_oid: text_opt(self.ref_base_oid),
        }
    }
}

impl Node {
    /// Copies a node with another state.
    pub fn with_state(&self, state: NodeState) -> (n: Node)
        ensures
            n.deep_view() == (NodeModel { state: state@, ..self.deep_view() }),
    {
        Node {
            id: self.id.clone(),
            source_id: self.source_id.clone(),
            source_name: self.source_name.clone(),
            node_kind: self.node_kind.clone(),
            object_type: self.object_type.clone(),
            offset: self.offset,
            data_offset: self.data_offset,
            end_offset: self.end_offset,
            declared_size: self.declared_size,
            idx_oid: copy_opt(&self.idx_oid),
            state,
            crc32: self.crc32,
            crc_ok: self.crc_ok,
            ofs_distance: self.ofs_distance,
            ofs_base_offset: self.ofs_base_offset,
            ref_base_oid: copy_opt(&self.ref_base_oid),
        }
    }
}

/// The model of a parsed pack.
pub ghost struct PackModel {
    pub version: u32,
    pub num_entries: u32,
    pub entries: Seq<EntryModel>,
    pub trailer_sha: Seq<u8>,
    pub computed_sha: Seq<u8>,
    pub checksum_ok: bool,
    pub scan_error: Option<Seq<char>>,
}

impl DeepView for ParsedPack {
    type V = PackModel;

    open spec fn deep_view(&self) -> PackModel {
        PackModel {
            version: self.version,
            num_entries: self.num_entries,
            entries: models(self.entries@),
            trailer_sha: self.trailer_sha@,
            computed_sha: self.computed_sha@,
            checksum_ok: self.checksum_ok,
            scan_error: text_opt(self.scan_error),
        }
    }
}

/// The model of an index row.
pub ghost struct ClaimRow {
    pub oid: Seq<u8>,
    pub offset: u64,
    pub crc32: Option<u32>,
}

/// The model of a parsed index.
pub ghost struct IdxModel {
    pub version: u8,
    pub fanout: Seq<u32>,
    pub num_entries: u32,
    pub entries: Seq<ClaimRow>,
    pub pack_checksum: Seq<u8>,
    pub idx_checksum: Seq<u8>,
    pub computed_idx_sha: Seq<u8>,
    pub idx_checksum_ok: bool,
    pub parse_error: Option<Seq<char>>,
}

impl DeepView for ParsedIdx {
    type V = IdxModel;

    open spec fn deep_view(&self) -> IdxModel {
        IdxModel {
            version: self.version,
            fanout: self.fanout@,
            num_entries: self.num_entries,
            entries: Seq::new(
                self.entries@.len(),
                |i: int|
                    ClaimRow {
                        oid: self.entries@[i].oid@,
                        offset: self.entries@[i].offset,
                        crc32: self.entries@[i].crc32,
                    },
            ),
            pack_checksum: self.pack_checksum@,
            idx_checksum: self.idx_checksum@,
            computed_idx_sha: self.computed_idx_sha@,
            idx_checksum_ok: self.idx_checksum_ok,
            parse_error: text_opt(self.parse_error),
        }
    }
}

/// The model of a loose object.
pub ghost struct LooseModel {
    pub path_oid: Option<Seq<u8>>,
    pub kind: GitType,
    pub content: Result<Seq<u8>, Seq<char>>,
    pub declared_size: u64,
    pub consumed: Option<nat>,
}

/// The bytes of an optional object id.
pub open spec fn id_opt(id: Option<[u8; 20]>) -> Option<Seq<u8>> {
    match id {
        Some(b) => Some(b@),
        None => None,
    }
}

impl DeepView for ParsedLoose {
    type V = LooseModel;

    open spec fn deep_view(&self) -> LooseModel {
        LooseModel {
            path_oid: id_opt(self.path_oid),
            kind: self.kind,
            content: match self.content {
                Ok(c) => Ok(c@),
                Err(e) => Err(e@),
            },
            declared_size: self.declared_size,
            consumed: match self.consumed {
                Some(n) => Some(n as nat),
                None => None,
            },
        }
    }
}

/// An object id that an index or a path claims for a node.
#[derive(Debug)]
pub struct Claim {
    pub origin: String,
    pub oid: [u8; 20],
}

/// The model of a claim.
pub ghost struct ClaimModel {
    pub origin: Seq<char>,
    pub oid: Seq<u8>,
}

impl DeepView for Claim {
    type V = ClaimModel;

    open spec fn deep_view(&self) -> ClaimModel {
        ClaimModel { origin: self.origin@, oid: self.oid@ }
    }
}

/// The object ids that a node was found to have.
#[derive(Debug)]
pub struct Oids {
    pub list: Vec<[u8; 20]>,
}

impl DeepView for Oids {
    type V = Seq<Seq<u8>>;

    open spec fn deep_view(&self) -> Seq<Seq<u8>> {
        self.list@.map_values(|b: [u8; 20]| b@)
    }
}

/// Names of other nodes.
#[derive(Debug)]
pub struct Names {
    pub list: Vec<String>,
}

impl DeepView for Names {
    type V = Seq<Seq<char>>;

    open spec fn deep_view(&self) -> Seq<Seq<char>> {
        texts(self.list@)
    }
}

/// The limits of a run. `single_cap` is what one object may expand to; `single_percent` is the
/// same limit as a percentage of the total, for messages.
#[derive(Clone, Copy, PartialEq, Eq, Debug, Structural)]
pub struct Budget {
    pub max_depth: usize,
    pub total_bytes: u64,
    pub single_cap: u64,
    pub single_percent: u32,
}

impl Default for Budget {
    /// Depth 32, 64 MiB in all, and nine tenths of that for one object.
    fn default() -> (b: Self)
        ensures
            b == (Budget {
                max_depth: 32,
                total_bytes: 0x400_0000,
                single_cap: 60_397_977,
                single_percent: 90,
            }),
    {
        Budget { max_depth: 32, total_bytes: 0x400_0000, single_cap: 60_397_977, single_percent: 90 }
    }
}

#[derive(Clone, Copy, PartialEq, Eq, Debug, Structural)]
pub struct BudgetView {
    pub max_depth: usize,
    pub total_bytes: u64,
    pub single_cap: u64,
    pub charged_bytes: u64,
}

/// A source of an object, and whether it is the one that is used.
#[derive(Debug)]
pub struct CandidateInfo {
    pub oid: String,
    pub node_id: String,
    pub source_name: String,
    pub offset: Option<u64>,
    pub origin: String,
    pub chosen: bool,
}

pub struct Engine {
    pub sources: Vec<SourceFile>,
    pub packs: TextMap<ParsedPack>,
    pub idxs: TextMap<ParsedIdx>,
    pub looses: TextMap<ParsedLoose>,
    pub nodes: TextMap<Node>,
    pub contents: TextMap<Vec<u8>>,
    pub evidence: Vec<Evidence>,
    /// Node id to statically claimed object id (index row or loose path).
    pub claimed: TextMap<Claim>,
    /// Node id to recomputed object ids.
    pub found: TextMap<Oids>,
    /// Recorded delta edges, from a node to its bases.
    pub edges: TextMap<Names>,
    /// Recorded missing bases, from a node to the object id.
    pub missing_edges: TextMap<String>,
    pub charged: TextMap<u64>,
    pub charged_total: u64,
    pub budget: Budget,
    /// Branch name to its pins: object id to node id.
    pub branches: TextMap<TextMap<String>>,
    pub active_branch: Option<String>,
    pub pins: TextMap<String>,
    pub seq: u64,
    pub recompute_runs: u64,
    pub recomputed_nodes: u64,
}

/// The model of the engine.
pub ghost struct EngineModel {
    pub sources: Seq<SourceModel>,
    pub packs: Seq<(Seq<char>, PackModel)>,
    pub idxs: Seq<(Seq<char>, IdxModel)>,
    pub looses: Seq<(Seq<char>, LooseModel)>,
    pub nodes: Seq<(Seq<char>, NodeModel)>,
    pub contents: Seq<(Seq<char>, Seq<u8>)>,
    pub evidence: Seq<EvidenceModel>,
    pub claimed: Seq<(Seq<char>, ClaimModel)>,
    pub found: Seq<(Seq<char>, Seq<Seq<u8>>)>,
    pub edges: Seq<(Seq<char>, Seq<Seq<char>>)>,
    pub missing_edges: Seq<(Seq<char>, Seq<char>)>,
    pub charged: Seq<(Seq<char>, u64)>,
    pub charged_total: u64,
    pub budget: Budget,
    pub branches: Seq<(Seq<char>, Seq<(Seq<char>, Seq<char>)>)>,
    pub active_branch: Option<Seq<char>>,
    pub pins: Seq<(Seq<char>, Seq<char>)>,
    pub seq: u64,
    pub recompute_runs: u64,
    pub recomputed_nodes: u64,
}

impl View for Engine {
    type V = EngineModel;

    open spec fn view(&self) -> EngineModel {
        EngineModel {
            sources: source_models(self.sources@),
            packs: self.packs@,
            idxs: self.idxs@,
            looses: self.looses@,
            nodes: self.nodes@,
            contents: self.contents@,
            evidence: evidence_models(self.evidence@),
            claimed: self.claimed@,
            found: self.found@,
            edges: self.edges@,
            missing_edges: self.missing_edges@,
            charged: self.charged@,
            charged_total: self.charged_total,
            budget: self.budget,
            branches: self.branches@,
            active_branch: text_opt(self.active_branch),
            pins: self.pins@,
            seq: self.seq,
            recompute_runs: self.recompute_runs,
            recomputed_nodes: self.recomputed_nodes,
        }
    }
}

/// An engine that holds nothing.
pub open spec fn empty_engine() -> EngineModel {
    EngineModel {
        sources: Seq::empty(),
        packs: Seq::empty(),
        idxs: Seq::empty(),
        looses: Seq::empty(),
        nodes: Seq::empty(),
        contents: Seq::empty(),
        evidence: Seq::empty(),
        claimed: Seq::empty(),
        found: Seq::empty(),
        edges: Seq::empty(),
        missing_edges: Seq::empty(),
        charged: Seq::empty(),
        charged_total: 0,
        budget: Budget {
            max_depth: 32,
            total_bytes: 0x400_0000,
            single_cap: 60_397_977,
            single_percent: 90,
        },
        branches: Seq::empty(),
        active_branch: None,
        pins: Seq::empty(),
        seq: 0,
        recompute_runs: 0,
        recomputed_nodes: 0,
    }
}

} // verus!
