//! Reconstruction of candidates: recursive resolution of deltas with cycle detection, budgets and
//! chains of blockers.
use vstd::prelude::*;
use vstd::string::StringExecFns;
use crate::analyze::graph::text_opt;
use crate::delta::{a_parsed_delta_can_be_applied, applied, apply_delta, parse_delta, parsed, ParsedModel};
use crate::engine::importer::{CandidateModel, CandidateRow, Catalog};
use crate::git::types::{hash_object, oid_hex, ObjType};
use crate::git::zlib::{drained, inflate_one};
use crate::model::assoc::{contains_id, get, IdMap};
use crate::model::bytes::be32_bytes;
use crate::model::object::object_frame;
use crate::model::order::views;
use crate::model::outside::sha1_of;
use crate::model::text::{dec, dec_int, hex, lowered, push_dec, push_hex32, push_int, same_lower, same_text};

verus! {

/// How far reconstruction may go.
#[derive(Clone, Copy, Debug)]
pub struct Limits {
    pub max_depth: u32,
    pub max_total_bytes: u64,
    /// What one stream may inflate to.
    pub max_single_bytes: usize,
    /// What one delta may make.
    pub max_result_bytes: u64,
}

/// Why a candidate cannot be reconstructed, and the candidates on the way there.
#[derive(Debug)]
pub struct Blocker {
    pub code: String,
    pub message: String,
    pub candidate_id: Option<i64>,
    pub chain: Vec<i64>,
}

/// The model of a blocker.
pub ghost struct BlockerModel {
    pub code: Seq<char>,
    pub message: Seq<char>,
    pub candidate_id: Option<i64>,
    pub chain: Seq<i64>,
}

impl View for Blocker {
    type V = BlockerModel;

    open spec fn view(&self) -> BlockerModel {
        BlockerModel {
            code: self.code@,
            message: self.message@,
            candidate_id: self.candidate_id,
            chain: self.chain@,
        }
    }
}

/// One step of a reconstruction.
#[derive(Debug)]
pub struct StepJson {
    pub step: usize,
    pub candidate_id: i64,
    pub kind: String,
    pub base_candidate_id: Option<i64>,
    pub delta_header_len: usize,
    pub ops_count: usize,
    pub ops_range_start: usize,
    pub ops_range_end: usize,
    pub input_len: u64,
    pub output_len: u64,
    pub compressed_len: u64,
    pub check: String,
    pub check_detail: String,
}

/// The model of a step.
pub ghost struct StepModel {
    pub step: nat,
    pub candidate_id: i64,
    pub kind: Seq<char>,
    pub base_candidate_id: Option<i64>,
    pub delta_header_len: nat,
    pub ops_count: nat,
    pub ops_range_start: nat,
    pub ops_range_end: nat,
    pub input_len: nat,
    pub output_len: nat,
    pub compressed_len: nat,
    pub check: Seq<char>,
    pub check_detail: Seq<char>,
}

impl View for StepJson {
    type V = StepModel;

    open spec fn view(&self) -> StepModel {
        StepModel {
            step: self.step as nat,
            candidate_id: self.candidate_id,
            kind: self.kind@,
            base_candidate_id: self.base_candidate_id,
            delta_header_len: self.delta_header_len as nat,
            ops_count: self.ops_count as nat,
            ops_range_start: self.ops_range_start as nat,
            ops_range_end: self.ops_range_end as nat,
            input_len: self.input_len as nat,
            output_len: self.output_len as nat,
            compressed_len: self.compressed_len as nat,
            check: self.check@,
            check_detail: self.check_detail@,
        }
    }
}

/// A reconstructed object with the steps that made it, its base first.
#[derive(Debug)]
pub struct ResolvedObj {
    pub kind: ObjType,
    pub data: Vec<u8>,
    pub depth: u32,
    pub steps: Vec<StepJson>,
}

/// The model of a reconstructed object.
pub ghost struct ObjModel {
    pub kind: ObjType,
    pub data: Seq<u8>,
    pub depth: nat,
    pub steps: Seq<StepModel>,
}

impl View for ResolvedObj {
    type V = ObjModel;

    open spec fn view(&self) -> ObjModel {
        ObjModel { kind: self.kind, data: self.data@, depth: self.depth as nat, steps: views(self.steps@) }
    }
}

/// How the reconstruction of a candidate ends.
#[derive(Debug)]
pub enum Res {
    Done(ResolvedObj),
    Cycle { chain: Vec<i64> },
    MissingBase { blockers: Vec<Blocker> },
    Bad { code: String, detail: String, blockers: Vec<Blocker> },
    Paused { kind: String, limit: u64, used: u64, blockers: Vec<Blocker> },
}

/// The model of such an end.
pub ghost enum ResModel {
    Done(ObjModel),
    Cycle { chain: Seq<i64> },
    MissingBase { blockers: Seq<BlockerModel> },
    Bad { code: Seq<char>, detail: Seq<char>, blockers: Seq<BlockerModel> },
    Paused { kind: Seq<char>, limit: nat, used: nat, blockers: Seq<BlockerModel> },
}

impl View for Res {
    type V = ResModel;

    open spec fn view(&self) -> ResModel {
        match self {
            Res::Done(o) => ResModel::Done(o@),
            Res::Cycle { chain } => ResModel::Cycle { chain: chain@ },
            Res::MissingBase { blockers } => ResModel::MissingBase { blockers: views(blockers@) },
            Res::Bad { code, detail, blockers } => ResModel::Bad {
                code: code@,
                detail: detail@,
                blockers: views(blockers@),
            },
            Res::Paused { kind, limit, used, blockers } => ResModel::Paused {
                kind: kind@,
                limit: *limit as nat,
                used: *used as nat,
                blockers: views(blockers@),
            },
        }
    }
}

/// What a run of reconstructions has used of the budget, the candidates it is within, and those it
/// has come to an end with, in ascending order.
#[derive(Debug)]
pub struct Runtime {
    pub used_seed: u64,
    pub chain: Vec<i64>,
    pub touched: Vec<i64>,
}

impl Runtime {
    pub fn new() -> (rt: Self)
        ensures
            rt.used_seed == 0,
            rt.chain@ == Seq::<i64>::empty(),
            rt.touched@ == Seq::<i64>::empty(),
    {
        Runtime { used_seed: 0, chain: Vec::new(), touched: Vec::new() }
    }
}

/// The record of how a candidate ended. The content of what was reconstructed is kept with it.
#[derive(Debug)]
pub struct ResolutionRow {
    pub status: String,
    pub resolved_type: Option<String>,
    pub content: Option<Vec<u8>>,
    pub oid_hex: Option<String>,
    pub oid_match: Option<bool>,
    pub depth: u32,
    pub error_code: Option<String>,
    pub error_detail: Option<String>,
    pub blockers: Vec<Blocker>,
    pub steps: Option<Vec<StepJson>>,
}

/// The model of such a record.
pub ghost struct ResolutionModel {
    pub status: Seq<char>,
    pub resolved_type: Option<Seq<char>>,
    pub content: Option<Seq<u8>>,
    pub oid_hex: Option<Seq<char>>,
    pub oid_match: Option<bool>,
    pub depth: nat,
    pub error_code: Option<Seq<char>>,
    pub error_detail: Option<Seq<char>>,
    pub blockers: Seq<BlockerModel>,
    pub steps: Option<Seq<StepModel>>,
}

impl DeepView for ResolutionRow {
    type V = ResolutionModel;

    open spec fn deep_view(&self) -> ResolutionModel {
        ResolutionModel {
            status: self.status@,
            resolved_type: text_opt(self.resolved_type),
            content: match self.content {
                Some(v) => Some(v@),
                None => None,
            },
            oid_hex: text_opt(self.oid_hex),
            oid_match: self.oid_match,
            depth: self.depth as nat,
            error_code: text_opt(self.error_code),
            error_detail: text_opt(self.error_detail),
            blockers: views(self.blockers@),
            steps: match self.steps {
                Some(v) => Some(views(v@)),
                None => None,
            },
        }
    }
}

/// The catalog, the compressed stream of each candidate, how each ended, the limits, and what has
/// been used of the budget.
pub struct App {
    pub catalog: Catalog,
    pub streams: IdMap<Vec<u8>>,
    pub resolutions: IdMap<ResolutionRow>,
    pub limits: Limits,
    pub used_bytes: u64,
}

/// What reconstruction reads: the candidates, the compressed stream of each, and the limits.
pub ghost struct Ground {
    pub candidates: Seq<(i64, CandidateModel)>,
    pub streams: Seq<(i64, Seq<u8>)>,
    pub limits: Limits,
}

/// One blocker.
pub open spec fn blocked(code: Seq<char>, message: Seq<char>, id: i64, chain: Seq<i64>) -> Seq<BlockerModel> {
    seq![BlockerModel { code, message, candidate_id: Some(id), chain }]
}

/// A candidate that is bad, with one blocker that says so.
pub open spec fn bad(code: Seq<char>, detail: Seq<char>, id: i64, chain: Seq<i64>) -> ResModel {
    ResModel::Bad { code, detail, blockers: blocked(code, detail, id, chain) }
}

/// A candidate that is bad, with nothing more to say of it.
pub open spec fn bare(code: Seq<char>, detail: Seq<char>) -> ResModel {
    ResModel::Bad { code, detail, blockers: Seq::empty() }
}

/// A candidate that waits for more of the budget.
pub open spec fn waiting(
    kind: Seq<char>,
    limit: nat,
    used: nat,
    message: Seq<char>,
    id: i64,
    chain: Seq<i64>,
) -> ResModel {
    ResModel::Paused { kind, limit, used, blockers: blocked("budget_paused"@, message, id, chain) }
}

/// The blockers, with one more candidate on the way to them.
pub open spec fn passed_on(blockers: Seq<BlockerModel>, id: i64) -> Seq<BlockerModel> {
    blockers.map_values(
        |b: BlockerModel|
            BlockerModel {
                candidate_id: if b.candidate_id is None {
                    Some(id)
                } else {
                    b.candidate_id
                },
                chain: b.chain.push(id),
                ..b
            },
    )
}

/// What a stream expands to.
pub ghost enum Expansion {
    Whole { data: Seq<u8>, used: nat },
    SizeSpoof(Seq<char>),
    Truncated,
    HardCap,
    Paused { limit: nat, need: nat },
    Broken { code: Seq<char>, message: Seq<char> },
}

/// What is left of the budget.
pub open spec fn left(total: u64, used: nat) -> nat {
    if used < total {
        (total - used) as nat
    } else {
        0
    }
}

/// What a stream expands to when its header claims a size and so much of the budget is left.
pub open spec fn expansion(comp: Seq<u8>, claimed: nat, remaining: nat, single: nat) -> Expansion {
    match drained(comp, single, Seq::empty()) {
        Err(t) => if t.code == "zlib_truncated"@ {
            Expansion::Truncated
        } else if t.code == "inflation_cap"@ {
            Expansion::HardCap
        } else {
            Expansion::Broken { code: t.code, message: t.message }
        },
        Ok((data, used)) => if data.len() > single {
            Expansion::HardCap
        } else if data.len() != claimed {
            Expansion::SizeSpoof(
                "declared "@ + dec(claimed) + " bytes but the stream holds "@ + dec(data.len()),
            )
        } else if data.len() > remaining {
            Expansion::Paused { limit: remaining, need: data.len() }
        } else {
            Expansion::Whole { data, used }
        },
    }
}

/// What the size of a candidate is claimed to be.
pub open spec fn claim(c: CandidateModel) -> nat {
    if c.claimed_size < 0 {
        0
    } else {
        c.claimed_size as nat
    }
}

/// Whether a declared id agrees with what the content hashes to.
pub open spec fn agrees(declared: Option<Seq<char>>, computed: Seq<char>) -> Option<bool> {
    match declared {
        Some(d) => Some(lowered(d) == lowered(computed)),
        None => None,
    }
}

/// The object id of a content.
pub open spec fn id_of(kind: ObjType, data: Seq<u8>) -> Seq<char> {
    hex(sha1_of(object_frame(kind.text(), data)))
}

/// The label of a check.
pub open spec fn check_label(m: Option<bool>) -> Seq<char> {
    match m {
        Some(true) => "oid_match"@,
        Some(false) => "oid_mismatch"@,
        None => "oid_computed"@,
    }
}

/// The step of a candidate that stands on no base.
pub open spec fn leaf_step(id: i64, kind: ObjType, data: Seq<u8>, used: nat, m: Option<bool>) -> StepModel {
    StepModel {
        step: 0,
        candidate_id: id,
        kind: kind.text(),
        base_candidate_id: None,
        delta_header_len: 0,
        ops_count: 0,
        ops_range_start: 0,
        ops_range_end: 0,
        input_len: 0,
        output_len: data.len(),
        compressed_len: used,
        check: check_label(m),
        check_detail: if m == Some(true) {
            "sha1 ok: "@ + id_of(kind, data)
        } else {
            "sha1 computed: "@ + id_of(kind, data) + " (no declared oid)"@
        },
    }
}

/// The message about a candidate whose stream is not there.
pub open spec fn no_stream(id: i64) -> Seq<char> {
    "not found: stream of candidate "@ + dec_int(id as int)
}

/// How the reconstruction of a candidate that stands on no base ends, and what is then used.
pub open spec fn leaf(g: Ground, used: nat, chain: Seq<i64>, id: i64, c: CandidateModel) -> (ResModel, nat) {
    match ObjType::of_text(c.obj_type) {
        None => (bare("unknown_type"@, "object type '"@ + c.obj_type + "' not a leaf"@), used),
        Some(kind) => match get(g.streams, id) {
            None => (bare("not_found"@, no_stream(id)), used),
            Some(comp) => match expansion(
                comp,
                claim(c),
                left(g.limits.max_total_bytes, used),
                g.limits.max_single_bytes as nat,
            ) {
                Expansion::Broken { code, message } => (bare(code, message), used),
                Expansion::SizeSpoof(detail) => (bad("size_spoof"@, detail, id, chain), used),
                Expansion::Truncated => (bad("truncated"@, "zlib stream truncated"@, id, chain), used),
                Expansion::HardCap => (bare("hard_cap"@, "single object exceeds hard expansion cap"@), used),
                Expansion::Paused { limit, need } => (
                    waiting(
                        "total_expansion"@,
                        limit,
                        need,
                        "leaf inflation needs "@ + dec(need) + " bytes (limit "@ + dec(limit) + ")"@,
                        id,
                        chain,
                    ),
                    used,
                ),
                Expansion::Whole { data, used: comp_len } => {
                    let m = agrees(c.declared_oid_hex, id_of(kind, data));
                    (
                        if m == Some(false) {
                            ResModel::Bad {
                                code: "oid_mismatch"@,
                                detail: "recomputed object id "@ + id_of(kind, data)
                                    + " but index declares "@ + c.declared_oid_hex->0,
                                blockers: blocked(
                                    "oid_mismatch"@,
                                    "recomputed Git object id disagrees with declared identity"@,
                                    id,
                                    chain,
                                ),
                            }
                        } else {
                            ResModel::Done(
                                ObjModel {
                                    kind,
                                    data,
                                    depth: 0,
                                    steps: seq![leaf_step(id, kind, data, comp_len, m)],
                                },
                            )
                        },
                        used + data.len(),
                    )
                },
            },
        },
    }
}

/// Whether a row is the base that an offset delta points at.
pub open spec fn at_offset(row: CandidateModel, c: CandidateModel) -> bool {
    row.source_id == c.source_id && c.ofs_base_offset is Some && row.pack_offset == c.ofs_base_offset
}

/// Whether a row goes by an id.
pub open spec fn goes_by(row: CandidateModel, oid: Seq<char>) -> bool {
    row.declared_oid_hex == Some(oid) || row.computed_oid_hex == Some(oid)
}

/// The id that a reference delta names.
pub open spec fn named_base(c: CandidateModel) -> Seq<char> {
    match c.ref_base_oid_hex {
        Some(o) => o,
        None => ""@,
    }
}

/// Whether a row is the base of a delta.
pub open spec fn is_base(row: CandidateModel, c: CandidateModel) -> bool {
    if c.obj_type == "ofs-delta"@ {
        at_offset(row, c)
    } else {
        goes_by(row, named_base(c))
    }
}

/// The first row, from `n` on, that is the base of a delta.
pub open spec fn base_row(rows: Seq<(i64, CandidateModel)>, c: CandidateModel, n: nat) -> nat
    decreases rows.len() - n,
{
    if n >= rows.len() || is_base(rows[n as int].1, c) {
        n
    } else {
        base_row(rows, c, n + 1)
    }
}

/// How a delta declares its base.
pub open spec fn declared_as(row: CandidateModel, c: CandidateModel) -> Seq<char> {
    if c.obj_type == "ofs-delta"@ {
        "ofs@"@ + dec_int(
            match row.pack_offset {
                Some(o) => o as int,
                None => -1,
            },
        )
    } else {
        "ref:"@ + named_base(c)
    }
}

/// A delta whose base is not there.
pub open spec fn baseless(c: CandidateModel, id: i64, chain: Seq<i64>) -> ResModel {
    ResModel::MissingBase {
        blockers: if c.obj_type == "ofs-delta"@ {
            blocked(
                "ofs_base_unreachable"@,
                "ofs-delta references offset "@ + dec_int(
                    match c.ofs_base_offset {
                        Some(o) => o as int,
                        None => -1,
                    },
                ) + " which is not a parseable entry"@,
                id,
                chain,
            )
        } else {
            blocked(
                "external_base_missing"@,
                "ref-delta base "@ + named_base(c) + " is not present in any source"@,
                id,
                chain,
            )
        },
    }
}

/// The step of a delta on its base.
pub open spec fn delta_step(
    id: i64,
    c: CandidateModel,
    base_id: i64,
    decl: Seq<char>,
    base: ObjModel,
    p: ParsedModel,
    data: Seq<u8>,
    used: nat,
    m: Option<bool>,
) -> StepModel {
    StepModel {
        step: base.steps.len(),
        candidate_id: id,
        kind: c.obj_type,
        base_candidate_id: Some(base_id),
        delta_header_len: p.instr_offset,
        ops_count: p.ops.len(),
        ops_range_start: if p.ops.len() == 0 {
            p.instr_offset
        } else {
            p.ops[0].instr_start
        },
        ops_range_end: if p.ops.len() == 0 {
            p.instr_offset
        } else {
            p.ops.last().instr_end
        },
        input_len: base.data.len(),
        output_len: data.len(),
        compressed_len: used,
        check: check_label(m),
        check_detail: dec(p.ops.len()) + " ops; base "@ + dec(p.base_size as nat) + "->result "@ + dec(
            p.result_size as nat,
        ) + "; "@ + decl + " "@ + (if m == Some(true) {
            "sha1 ok: "@
        } else {
            "sha1 computed: "@
        }) + id_of(base.kind, data),
    }
}

/// What a delta makes of its base, and what is then used. `payload` is what its stream expands to,
/// which is already charged.
pub open spec fn made(
    g: Ground,
    used: nat,
    chain: Seq<i64>,
    id: i64,
    c: CandidateModel,
    base_id: i64,
    decl: Seq<char>,
    base: ObjModel,
    payload: Seq<u8>,
    comp_len: nat,
) -> (ResModel, nat) {
    match parsed(payload) {
        Err(e) => (bad("bad_delta_opcode"@, e, id, chain), used),
        Ok(p) => {
            let room = left(g.limits.max_total_bytes, used);
            if p.base_size != base.data.len() {
                (
                    bad(
                        "delta_base_size"@,
                        "delta declares base size "@ + dec(p.base_size as nat) + " but base is "@ + dec(
                            base.data.len(),
                        ) + " bytes"@,
                        id,
                        chain,
                    ),
                    used,
                )
            } else if p.result_size > g.limits.max_result_bytes {
                (
                    waiting(
                        "result_size"@,
                        g.limits.max_result_bytes as nat,
                        p.result_size as nat,
                        "delta result needs "@ + dec(p.result_size as nat) + " bytes (result_size limit "@ + dec(
                            g.limits.max_result_bytes as nat,
                        ) + ")"@,
                        id,
                        chain,
                    ),
                    used,
                )
            } else if p.result_size > room {
                (
                    waiting(
                        "total_expansion"@,
                        room,
                        p.result_size as nat,
                        "delta result needs "@ + dec(p.result_size as nat) + " bytes (total_expansion limit "@
                            + dec(room) + ")"@,
                        id,
                        chain,
                    ),
                    used,
                )
            } else {
                match applied(payload, p, base.data) {
                    Err(e) => (bad("delta_apply"@, e, id, chain), used),
                    Ok((data, _, _)) => {
                        let m = agrees(c.declared_oid_hex, id_of(base.kind, data));
                        (
                            if m == Some(false) {
                                bad(
                                    "oid_mismatch"@,
                                    "recomputed "@ + id_of(base.kind, data) + " != declared "@
                                        + c.declared_oid_hex->0,
                                    id,
                                    chain,
                                )
                            } else {
                                ResModel::Done(
                                    ObjModel {
                                        kind: base.kind,
                                        data,
                                        depth: base.depth + 1,
                                        steps: base.steps.push(
                                            delta_step(id, c, base_id, decl, base, p, data, comp_len, m),
                                        ),
                                    },
                                )
                            },
                            used + data.len(),
                        )
                    },
                }
            }
        },
    }
}

/// How a delta on a reconstructed base ends, and what is then used.
pub open spec fn on_base(
    g: Ground,
    used: nat,
    chain: Seq<i64>,
    id: i64,
    c: CandidateModel,
    base_id: i64,
    decl: Seq<char>,
    base: ObjModel,
) -> (ResModel, nat) {
    match get(g.streams, id) {
        None => (bare("not_found"@, no_stream(id)), used),
        Some(comp) => match expansion(
            comp,
            claim(c),
            left(g.limits.max_total_bytes, used),
            g.limits.max_single_bytes as nat,
        ) {
            Expansion::Broken { code, message } => (bare(code, message), used),
            Expansion::SizeSpoof(detail) => (bad("size_spoof"@, detail, id, chain), used),
            Expansion::Truncated => (bad("truncated"@, "delta zlib stream truncated"@, id, chain), used),
            Expansion::HardCap => (bad("hard_cap"@, "delta exceeds single-object hard cap"@, id, chain), used),
            Expansion::Paused { limit, need } => (
                waiting(
                    "total_expansion"@,
                    limit,
                    need,
                    "delta inflation needs "@ + dec(need) + " bytes (limit "@ + dec(limit) + ")"@,
                    id,
                    chain,
                ),
                used,
            ),
            Expansion::Whole { data, used: comp_len } => made(
                g,
                used + data.len(),
                chain,
                id,
                c,
                base_id,
                decl,
                base,
                data,
                comp_len,
            ),
        },
    }
}

/// How a delta ends when its base has ended so, and what is then used.
pub open spec fn after_base(
    g: Ground,
    used: nat,
    chain: Seq<i64>,
    id: i64,
    c: CandidateModel,
    base_id: i64,
    decl: Seq<char>,
    base: ResModel,
) -> (ResModel, nat) {
    match base {
        ResModel::Cycle { chain } => (base, used),
        ResModel::MissingBase { blockers } => (
            ResModel::MissingBase { blockers: passed_on(blockers, id) },
            used,
        ),
        ResModel::Bad { code, detail, blockers } => (
            ResModel::Bad {
                code: "base_bad:"@ + code,
                detail: "base candidate "@ + dec_int(base_id as int) + " unusable: "@ + detail,
                blockers: passed_on(blockers, id),
            },
            used,
        ),
        ResModel::Paused { kind, limit, used: need, blockers } => (
            ResModel::Paused { kind, limit, used: need, blockers: passed_on(blockers, id) },
            used,
        ),
        ResModel::Done(o) => on_base(g, used, chain, id, c, base_id, decl, o),
    }
}

/// The end, with the candidate added to the way to its blockers.
pub open spec fn noted(r: ResModel, id: i64) -> ResModel {
    match r {
        ResModel::MissingBase { blockers } => ResModel::MissingBase { blockers: passed_on(blockers, id) },
        ResModel::Bad { code, detail, blockers } => ResModel::Bad {
            code,
            detail,
            blockers: passed_on(blockers, id),
        },
        ResModel::Paused { kind, limit, used, blockers } => ResModel::Paused {
            kind,
            limit,
            used,
            blockers: passed_on(blockers, id),
        },
        _ => r,
    }
}

/// Whether a candidate is a delta.
pub open spec fn on_delta(c: CandidateModel) -> bool {
    c.obj_type == "ofs-delta"@ || c.obj_type == "ref-delta"@
}

/// The place of `id` in a chain, from place `n` on.
pub open spec fn chain_place(chain: Seq<i64>, id: i64, n: nat) -> nat
    decreases chain.len() - n,
{
    if n >= chain.len() || chain[n as int] == id {
        n
    } else {
        chain_place(chain, id, n + 1)
    }
}

/// A chain of deltas that is too long.
pub open spec fn too_deep(depth: nat, max: u32, id: i64, chain: Seq<i64>) -> ResModel {
    waiting(
        "max_delta_depth"@,
        max as nat,
        depth + 1,
        "delta chain depth "@ + dec(depth + 1) + " exceeds max "@ + dec(max as nat),
        id,
        chain,
    )
}

/// The number of a CRC, as it is shown.
pub open spec fn crc_text(n: Option<u32>) -> Seq<char> {
    "0x"@ + hex(
        be32_bytes(
            match n {
                Some(c) => c,
                None => 0,
            },
        ),
    )
}

/// The end of a candidate that is not even tried.
pub open spec fn refused(c: CandidateModel, id: i64, chain: Seq<i64>) -> Option<ResModel> {
    if c.parse_status != "ok"@ {
        Some(bad("parse_"@ + c.parse_status, c.parse_detail, id, chain))
    } else if c.crc_ok == Some(false) {
        Some(
            ResModel::Bad {
                code: "crc_mismatch"@,
                detail: "pack entry crc32 "@ + crc_text(c.entry_crc32) + " != index crc32 "@ + crc_text(
                    c.idx_crc32,
                ),
                blockers: blocked("crc_mismatch"@, "index CRC does not match on-disk entry"@, id, chain),
            },
        )
    } else {
        None
    }
}

/// How a delta that is not too deep ends, and what is then used.
pub open spec fn delta_end(g: Ground, used: nat, here: Seq<i64>, id: i64, c: CandidateModel) -> (ResModel, nat)
    decreases g.limits.max_depth - here.len(), 1int,
{
    let n = base_row(g.candidates, c, 0);
    if n >= g.candidates.len() {
        (baseless(c, id, here), used)
    } else {
        let (base_id, row) = g.candidates[n as int];
        let (b, after) = solved(g, used, here, base_id);
        after_base(g, after, here, id, c, base_id, declared_as(row, c), b)
    }
}

/// How the reconstruction of a candidate ends within a chain of others, and what of the budget is
/// used then.
pub open spec fn solved(g: Ground, used: nat, chain: Seq<i64>, id: i64) -> (ResModel, nat)
    decreases g.limits.max_depth - chain.len(), 0int,
{
    match get(g.candidates, id) {
        None => (
            bare("missing_candidate"@, "candidate "@ + dec_int(id as int) + " vanished"@),
            used,
        ),
        Some(c) => if chain.contains(id) {
            (ResModel::Cycle { chain: chain.skip(chain_place(chain, id, 0) as int).push(id) }, used)
        } else if refused(c, id, chain) is Some {
            (refused(c, id, chain)->0, used)
        } else {
            let here = chain.push(id);
            let (r, after) = if !on_delta(c) {
                leaf(g, used, here, id, c)
            } else if here.len() >= g.limits.max_depth {
                (too_deep(here.len(), g.limits.max_depth, id, here), used)
            } else {
                delta_end(g, used, here, id, c)
            };
            (noted(r, id), after)
        },
    }
}


impl App {
    /// What reconstruction reads.
    pub open spec fn ground(self) -> Ground {
        Ground { candidates: self.catalog.candidates@, streams: self.streams@, limits: self.limits }
    }
}

/// What a stream was expanded to.
enum Expanded {
    Whole { data: Vec<u8>, used: usize },
    SizeSpoof(String),
    Truncated,
    HardCap,
    Paused { limit: u64, need: u64 },
    Broken { code: &'static str, message: String },
}

impl View for Expanded {
    type V = Expansion;

    closed spec fn view(&self) -> Expansion {
        match self {
            Expanded::Whole { data, used } => Expansion::Whole { data: data@, used: *used as nat },
            Expanded::SizeSpoof(d) => Expansion::SizeSpoof(d@),
            Expanded::Truncated => Expansion::Truncated,
            Expanded::HardCap => Expansion::HardCap,
            Expanded::Paused { limit, need } => Expansion::Paused { limit: *limit as nat, need: *need as nat },
            Expanded::Broken { code, message } => Expansion::Broken { code: code@, message: message@ },
        }
    }
}

/// Expands a stream within the budget that is left and the cap on one stream.
fn inflate_budgeted(comp: &[u8], claimed: u64, remaining: u64, single: usize) -> (e: Expanded)
    ensures
        e@ == expansion(comp@, claimed as nat, remaining as nat, single as nat),
        e matches Expanded::Whole { data, used } ==> data@.len() <= remaining && used <= comp@.len(),
{
    match inflate_one(comp, claimed, single) {
        Err(t) => if same_text(t.code, "zlib_truncated") {
            Expanded::Truncated
        } else if same_text(t.code, "inflation_cap") {
            Expanded::HardCap
        } else {
            Expanded::Broken { code: t.code, message: t.message }
        },
        Ok(o) => {
            let n: usize = o.data.len();
            if n > single {
                Expanded::HardCap
            } else if n as u64 != claimed {
                let mut m = "declared ".to_owned();
                push_dec(&mut m, claimed);
                m.append(" bytes but the stream holds ");
                push_dec(&mut m, n as u64);
                Expanded::SizeSpoof(m)
            } else if n as u64 > remaining {
                Expanded::Paused { limit: remaining, need: n as u64 }
            } else {
                Expanded::Whole { data: o.data, used: o.consumed }
            }
        },
    }
}

fn text_of(a: &str, b: &str) -> (m: String)
    ensures
        m@ == a@ + b@,
{
    let mut m = a.to_owned();
    m.append(b);
    m
}

fn fault(code: &str, message: &str, id: i64, chain: &Vec<i64>) -> (v: Vec<Blocker>)
    ensures
        views(v@) == blocked(code@, message@, id, chain@),
{
    let b = Blocker {
        code: code.to_owned(),
        message: message.to_owned(),
        candidate_id: Some(id),
        chain: chain.clone(),
    };
    let ghost model = b@;
    let mut v: Vec<Blocker> = Vec::new();
    v.push(b);
    assert(views(v@) =~= seq![model]);
    v
}

fn mark_bad(code: &str, detail: &str, id: i64, chain: &Vec<i64>) -> (r: Res)
    ensures
        r@ == bad(code@, detail@, id, chain@),
{
    Res::Bad { code: code.to_owned(), detail: detail.to_owned(), blockers: fault(code, detail, id, chain) }
}

fn mark_bare(code: &str, detail: String) -> (r: Res)
    ensures
        r@ == bare(code@, detail@),
{
    let blockers: Vec<Blocker> = Vec::new();
    assert(views(blockers@) =~= Seq::empty());
    Res::Bad { code: code.to_owned(), detail, blockers }
}

fn mark_paused(kind: &str, limit: u64, used: u64, message: &str, id: i64, chain: &Vec<i64>) -> (r: Res)
    ensures
        r@ == waiting(kind@, limit as nat, used as nat, message@, id, chain@),
{
    Res::Paused { kind: kind.to_owned(), limit, used, blockers: fault("budget_paused", message, id, chain) }
}

/// The message of a stream or a result that needs more than is left.
fn needs(what: &str, need: u64, note: &str, limit: u64) -> (m: String)
    ensures
        m@ == what@ + dec(need as nat) + note@ + dec(limit as nat) + ")"@,
{
    let mut m = what.to_owned();
    push_dec(&mut m, need);
    m.append(note);
    push_dec(&mut m, limit);
    m.append(")");
    m
}

/// Adds a candidate to the way to the blockers.
fn propagate(blockers: &mut Vec<Blocker>, id: i64)
    ensures
        views(final(blockers)@) == passed_on(views(old(blockers)@), id),
{
    let ghost start = views(blockers@);
    let n: usize = blockers.len();
    let mut i: usize = 0;
    while i < n
        invariant
            i <= n,
            n == blockers@.len(),
            n == start.len(),
            forall|j: int| i <= j < n ==> (#[trigger] blockers@[j])@ == start[j],
            forall|j: int| 0 <= j < i ==> (#[trigger] blockers@[j])@ == passed_on(start, id)[j],
        decreases n - i,
    {
        assert(blockers@[i as int]@ == start[i as int]);
        let b = &mut blockers[i];
        if b.candidate_id.is_none() {
            b.candidate_id = Some(id);
        }
        b.chain.push(id);
        assert(blockers@[i as int]@ == passed_on(start, id)[i as int]);
        i += 1;
    }
    assert(views(blockers@) =~= passed_on(start, id));
}

/// Adds a candidate to the way to the blockers of an end.
fn note(r: Res, id: i64) -> (out: Res)
    ensures
        out@ == noted(r@, id),
{
    match r {
        Res::MissingBase { mut blockers } => {
            propagate(&mut blockers, id);
            Res::MissingBase { blockers }
        },
        Res::Bad { code, detail, mut blockers } => {
            propagate(&mut blockers, id);
            Res::Bad { code, detail, blockers }
        },
        Res::Paused { kind, limit, used, mut blockers } => {
            propagate(&mut blockers, id);
            Res::Paused { kind, limit, used, blockers }
        },
        Res::Done(o) => Res::Done(o),
        Res::Cycle { chain } => Res::Cycle { chain },
    }
}

/// Whether a declared id agrees with a computed one.
pub(crate) fn oid_agrees(declared: &Option<String>, computed: &str) -> (m: Option<bool>)
    ensures
        m == agrees(text_opt(*declared), computed@),
{
    match declared {
        Some(d) => Some(same_lower(d.as_str(), computed)),
        None => None,
    }
}

fn oid_check_label(m: Option<bool>) -> (s: String)
    ensures
        s@ == check_label(m),
{
    match m {
        Some(true) => "oid_match".to_owned(),
        Some(false) => "oid_mismatch".to_owned(),
        None => "oid_computed".to_owned(),
    }
}

/// The claimed size of a candidate.
fn claimed(c: &CandidateRow) -> (n: u64)
    ensures
        n == claim(c.deep_view()),
{
    if c.claimed_size < 0 {
        0
    } else {
        c.claimed_size as u64
    }
}

fn unstreamed(id: i64) -> (r: Res)
    ensures
        r@ == bare("not_found"@, no_stream(id)),
{
    let mut m = "not found: stream of candidate ".to_owned();
    push_int(&mut m, id);
    mark_bare("not_found", m)
}

fn push_crc(m: &mut String, n: Option<u32>)
    ensures
        final(m)@ == old(m)@ + crc_text(n),
{
    let ghost before = m@;
    m.append("0x");
    push_hex32(
        m,
        match n {
            Some(c) => c,
            None => 0,
        },
    );
    assert(m@ =~= before + crc_text(n));
}

fn refuse(c: &CandidateRow, id: i64, chain: &Vec<i64>) -> (r: Option<Res>)
    ensures
        match r {
            Some(x) => refused(c.deep_view(), id, chain@) == Some(x@),
            None => refused(c.deep_view(), id, chain@) is None,
        },
{
    if !same_text(c.parse_status.as_str(), "ok") {
        let code = text_of("parse_", c.parse_status.as_str());
        return Some(mark_bad(code.as_str(), c.parse_detail.as_str(), id, chain));
    }
    match c.crc_ok {
        Some(false) => {
            let mut detail = "pack entry crc32 ".to_owned();
            push_crc(&mut detail, c.entry_crc32);
            detail.append(" != index crc32 ");
            push_crc(&mut detail, c.idx_crc32);
            proof {
                let d = c.deep_view();
                assert(detail@ =~= "pack entry crc32 "@ + crc_text(d.entry_crc32) + " != index crc32 "@ + crc_text(
                    d.idx_crc32,
                ));
            }
            Some(
                Res::Bad {
                    code: "crc_mismatch".to_owned(),
                    detail,
                    blockers: fault("crc_mismatch", "index CRC does not match on-disk entry", id, chain),
                },
            )
        },
        _ => None,
    }
}

impl App {
    /// Charges `n` bytes to the budget, or returns the limit and what would be used.
    pub fn charge(&self, rt: &mut Runtime, n: u64) -> (r: Result<(), (u64, u64)>)
        ensures
            final(rt).chain@ == old(rt).chain@,
            final(rt).touched@ == old(rt).touched@,
            match r {
                Ok(_) => n <= left(self.limits.max_total_bytes, old(rt).used_seed as nat)
                    && final(rt).used_seed == old(rt).used_seed + n,
                Err((limit, used)) => {
                    &&& n > left(self.limits.max_total_bytes, old(rt).used_seed as nat)
                    &&& limit == self.limits.max_total_bytes
                    &&& used == if old(rt).used_seed + n > u64::MAX {
                        u64::MAX as int
                    } else {
                        old(rt).used_seed + n
                    }
                    &&& final(rt).used_seed == old(rt).used_seed
                },
            },
    {
        let room: u64 = self.remaining(rt.used_seed);
        if n > room {
            return Err((self.limits.max_total_bytes, rt.used_seed.saturating_add(n)));
        }
        rt.used_seed = rt.used_seed.saturating_add(n);
        Ok(())
    }

    fn remaining(&self, used: u64) -> (n: u64)
        ensures
            n == left(self.limits.max_total_bytes, used as nat),
    {
        if used < self.limits.max_total_bytes {
            self.limits.max_total_bytes - used
        } else {
            0
        }
    }

    /// Reconstructs a candidate that stands on no base.
    fn resolve_leaf(&self, rt: &mut Runtime, id: i64, c: &CandidateRow) -> (r: Res)
        ensures
            (r@, final(rt).used_seed as nat) == leaf(
                self.ground(),
                old(rt).used_seed as nat,
                old(rt).chain@,
                id,
                c.deep_view(),
            ),
            final(rt).chain@ == old(rt).chain@,
            final(rt).touched@ == old(rt).touched@,
    {
        let kind = match ObjType::from_loose_name(c.obj_type.as_str()) {
            Ok(k) => k,
            Err(_) => {
                let mut m = text_of("object type '", c.obj_type.as_str());
                m.append("' not a leaf");
                return mark_bare("unknown_type", m);
            },
        };
        let comp = match self.streams.get(id) {
            Some(s) => s,
            None => return unstreamed(id),
        };
        assert(comp.deep_view() =~= comp@);
        let room: u64 = self.remaining(rt.used_seed);
        match inflate_budgeted(comp.as_slice(), claimed(c), room, self.limits.max_single_bytes) {
            Expanded::Broken { code, message } => mark_bare(code, message),
            Expanded::SizeSpoof(detail) => mark_bad("size_spoof", detail.as_str(), id, &rt.chain),
            Expanded::Truncated => mark_bad("truncated", "zlib stream truncated", id, &rt.chain),
            Expanded::HardCap => mark_bare(
                "hard_cap",
                "single object exceeds hard expansion cap".to_owned(),
            ),
            Expanded::Paused { limit, need } => {
                let m = needs("leaf inflation needs ", need, " bytes (limit ", limit);
                mark_paused("total_expansion", limit, need, m.as_str(), id, &rt.chain)
            },
            Expanded::Whole { data, used } => {
                match self.charge(rt, data.len() as u64) {
                    Ok(_) => {},
                    Err(_) => vstd::pervasive::unreached(),
                }
                let hash = hash_object(kind, data.as_slice());
                let computed = oid_hex(&hash);
                let m = oid_agrees(&c.declared_oid_hex, computed.as_str());
                if let Some(false) = m {
                    let mut detail = text_of("recomputed object id ", computed.as_str());
                    detail.append(" but index declares ");
                    match &c.declared_oid_hex {
                        Some(d) => detail.append(d.as_str()),
                        None => {},
                    }
                    return Res::Bad {
                        code: "oid_mismatch".to_owned(),
                        detail,
                        blockers: fault(
                            "oid_mismatch",
                            "recomputed Git object id disagrees with declared identity",
                            id,
                            &rt.chain,
                        ),
                    };
                }
                let ok = match m {
                    Some(true) => true,
                    _ => false,
                };
                let mut check_detail = text_of(
                    if ok {
                        "sha1 ok: "
                    } else {
                        "sha1 computed: "
                    },
                    computed.as_str(),
                );
                if !ok {
                    check_detail.append(" (no declared oid)");
                }
                let step = StepJson {
                    step: 0,
                    candidate_id: id,
                    kind: kind.name().to_owned(),
                    base_candidate_id: None,
                    delta_header_len: 0,
                    ops_count: 0,
                    ops_range_start: 0,
                    ops_range_end: 0,
                    input_len: 0,
                    output_len: data.len() as u64,
                    compressed_len: used as u64,
                    check: oid_check_label(m),
                    check_detail,
                };
                let ghost model = step@;
                let mut steps: Vec<StepJson> = Vec::new();
                steps.push(step);
                assert(views(steps@) =~= seq![model]);
                Res::Done(ResolvedObj { kind, data, depth: 0, steps })
            },
        }
    }

    /// The first row that is the base of a delta.
    fn find_base(&self, c: &CandidateRow) -> (n: usize)
        ensures
            n == base_row(self.catalog.candidates@, c.deep_view(), 0),
            n <= self.catalog.candidates@.len(),
    {
        let ghost rows = self.catalog.candidates@;
        let ghost d = c.deep_view();
        let by_offset: bool = same_text(c.obj_type.as_str(), "ofs-delta");
        let oid = ref_name(c);
        let mut n: usize = 0;
        while n < self.catalog.candidates.len()
            invariant
                n <= rows.len(),
                rows == self.catalog.candidates@,
                d == c.deep_view(),
                by_offset == (d.obj_type == "ofs-delta"@),
                oid@ == named_base(d),
                base_row(rows, d, 0) == base_row(rows, d, n as nat),
            decreases rows.len() - n,
        {
            let row = self.catalog.candidates.value_at(n);
            let hit: bool = if by_offset {
                row.source_id == c.source_id && same_offset(row.pack_offset, c.ofs_base_offset)
            } else {
                names(&row.declared_oid_hex, oid.as_str()) || names(&row.computed_oid_hex, oid.as_str())
            };
            assert(hit == is_base(rows[n as int].1, d));
            if hit {
                return n;
            }
            n += 1;
        }
        n
    }

    /// Applies a delta to its reconstructed base. Its stream is already charged.
    fn apply_payload(
        &self,
        rt: &mut Runtime,
        id: i64,
        c: &CandidateRow,
        base_id: i64,
        decl: &str,
        base: ResolvedObj,
        payload: Vec<u8>,
        used: usize,
    ) -> (r: Res)
        requires
            base.depth < u32::MAX,
        ensures
            (r@, final(rt).used_seed as nat) == made(
                self.ground(),
                old(rt).used_seed as nat,
                old(rt).chain@,
                id,
                c.deep_view(),
                base_id,
                decl@,
                base@,
                payload@,
                used as nat,
            ),
            final(rt).chain@ == old(rt).chain@,
            final(rt).touched@ == old(rt).touched@,
    {
        let p = match parse_delta(payload.as_slice()) {
            Ok(p) => p,
            Err(e) => return mark_bad("bad_delta_opcode", e.as_str(), id, &rt.chain),
        };
        if p.base_size != base.data.len() as u64 {
            let mut m = "delta declares base size ".to_owned();
            push_dec(&mut m, p.base_size);
            m.append(" but base is ");
            push_dec(&mut m, base.data.len() as u64);
            m.append(" bytes");
            return mark_bad("delta_base_size", m.as_str(), id, &rt.chain);
        }
        if p.result_size > self.limits.max_result_bytes {
            let m = needs(
                "delta result needs ",
                p.result_size,
                " bytes (result_size limit ",
                self.limits.max_result_bytes,
            );
            return mark_paused(
                "result_size",
                self.limits.max_result_bytes,
                p.result_size,
                m.as_str(),
                id,
                &rt.chain,
            );
        }
        let room: u64 = self.remaining(rt.used_seed);
        if p.result_size > room {
            let m = needs("delta result needs ", p.result_size, " bytes (total_expansion limit ", room);
            return mark_paused("total_expansion", room, p.result_size, m.as_str(), id, &rt.chain);
        }
        assert(payload@.len() == payload.len() && base.data@.len() == base.data.len());
        proof {
            a_parsed_delta_can_be_applied(payload@, base.data@);
        }
        let data = match apply_delta(payload.as_slice(), &p, base.data.as_slice()) {
            Ok(v) => v.0,
            Err(e) => return mark_bad("delta_apply", e.as_str(), id, &rt.chain),
        };
        match self.charge(rt, data.len() as u64) {
            Ok(_) => {},
            Err(_) => vstd::pervasive::unreached(),
        }
        let hash = hash_object(base.kind, data.as_slice());
        let computed = oid_hex(&hash);
        let m = oid_agrees(&c.declared_oid_hex, computed.as_str());
        if let Some(false) = m {
            let mut detail = text_of("recomputed ", computed.as_str());
            detail.append(" != declared ");
            match &c.declared_oid_hex {
                Some(d) => detail.append(d.as_str()),
                None => {},
            }
            return mark_bad("oid_mismatch", detail.as_str(), id, &rt.chain);
        }
        let count: usize = p.ops.len();
        let start: usize = if count == 0 {
            p.instr_offset
        } else {
            p.ops[0].instr_start
        };
        let end: usize = if count == 0 {
            p.instr_offset
        } else {
            p.ops[count - 1].instr_end
        };
        let mut check_detail = "".to_owned();
        push_dec(&mut check_detail, count as u64);
        check_detail.append(" ops; base ");
        push_dec(&mut check_detail, p.base_size);
        check_detail.append("->result ");
        push_dec(&mut check_detail, p.result_size);
        check_detail.append("; ");
        check_detail.append(decl);
        check_detail.append(" ");
        match m {
            Some(true) => check_detail.append("sha1 ok: "),
            _ => check_detail.append("sha1 computed: "),
        }
        check_detail.append(computed.as_str());
        let step = StepJson {
            step: base.steps.len(),
            candidate_id: id,
            kind: c.obj_type.clone(),
            base_candidate_id: Some(base_id),
            delta_header_len: p.instr_offset,
            ops_count: count,
            ops_range_start: start,
            ops_range_end: end,
            input_len: base.data.len() as u64,
            output_len: data.len() as u64,
            compressed_len: used as u64,
            check: oid_check_label(m),
            check_detail,
        };
        proof {
            reveal_strlit("");
            let model = delta_step(id, c.deep_view(), base_id, decl@, base@, p@, data@, used as nat, m);
            assert(step.check_detail@ =~= model.check_detail);
            assert(step@ == model);
        }
        let ghost model = step@;
        let ghost before = views(base.steps@);
        let kind = base.kind;
        let depth: u32 = base.depth + 1;
        let mut steps = base.steps;
        steps.push(step);
        assert(views(steps@) =~= before.push(model));
        Res::Done(ResolvedObj { kind, data, depth, steps })
    }

    /// Expands the stream of a delta and applies it to its reconstructed base.
    fn resolve_on_base(
        &self,
        rt: &mut Runtime,
        id: i64,
        c: &CandidateRow,
        base_id: i64,
        decl: &str,
        base: ResolvedObj,
    ) -> (r: Res)
        requires
            base.depth < u32::MAX,
        ensures
            (r@, final(rt).used_seed as nat) == on_base(
                self.ground(),
                old(rt).used_seed as nat,
                old(rt).chain@,
                id,
                c.deep_view(),
                base_id,
                decl@,
                base@,
            ),
            final(rt).chain@ == old(rt).chain@,
            final(rt).touched@ == old(rt).touched@,
    {
        let comp = match self.streams.get(id) {
            Some(s) => s,
            None => return unstreamed(id),
        };
        assert(comp.deep_view() =~= comp@);
        let room: u64 = self.remaining(rt.used_seed);
        match inflate_budgeted(comp.as_slice(), claimed(c), room, self.limits.max_single_bytes) {
            Expanded::Broken { code, message } => mark_bare(code, message),
            Expanded::SizeSpoof(detail) => mark_bad("size_spoof", detail.as_str(), id, &rt.chain),
            Expanded::Truncated => mark_bad("truncated", "delta zlib stream truncated", id, &rt.chain),
            Expanded::HardCap => mark_bad("hard_cap", "delta exceeds single-object hard cap", id, &rt.chain),
            Expanded::Paused { limit, need } => {
                let m = needs("delta inflation needs ", need, " bytes (limit ", limit);
                mark_paused("total_expansion", limit, need, m.as_str(), id, &rt.chain)
            },
            Expanded::Whole { data, used } => {
                match self.charge(rt, data.len() as u64) {
                    Ok(_) => {},
                    Err(_) => vstd::pervasive::unreached(),
                }
                self.apply_payload(rt, id, c, base_id, decl, base, data, used)
            },
        }
    }

    /// Reconstructs a delta: its base first.
    fn resolve_delta(&self, rt: &mut Runtime, id: i64, c: &CandidateRow) -> (r: Res)
        requires
            0 < old(rt).chain@.len() < self.limits.max_depth,
        ensures
            (r@, final(rt).used_seed as nat) == delta_end(
                self.ground(),
                old(rt).used_seed as nat,
                old(rt).chain@,
                id,
                c.deep_view(),
            ),
            final(rt).chain@ == old(rt).chain@,
            final(rt).touched@ == old(rt).touched@,
            r matches Res::Done(o) ==> old(rt).chain@.len() + o.depth <= self.limits.max_depth,
        decreases self.limits.max_depth - old(rt).chain@.len(), 1int,
    {
        let n: usize = self.find_base(c);
        if n >= self.catalog.candidates.len() {
            return self.lack_base(rt, id, c);
        }
        let base_id: i64 = self.catalog.candidates.key_at(n);
        let decl = declare(self.catalog.candidates.value_at(n), c);
        match self.resolve_candidate(rt, base_id) {
            Res::Cycle { chain } => Res::Cycle { chain },
            Res::MissingBase { mut blockers } => {
                propagate(&mut blockers, id);
                Res::MissingBase { blockers }
            },
            Res::Bad { code, detail, mut blockers } => {
                propagate(&mut blockers, id);
                let mut m = "base candidate ".to_owned();
                push_int(&mut m, base_id);
                m.append(" unusable: ");
                m.append(detail.as_str());
                Res::Bad { code: text_of("base_bad:", code.as_str()), detail: m, blockers }
            },
            Res::Paused { kind, limit, used, mut blockers } => {
                propagate(&mut blockers, id);
                Res::Paused { kind, limit, used, blockers }
            },
            Res::Done(o) => self.resolve_on_base(rt, id, c, base_id, decl.as_str(), o),
        }
    }

    fn over_depth(&self, rt: &Runtime, id: i64) -> (r: Res)
        requires
            rt.chain@.len() <= u32::MAX,
        ensures
            r@ == too_deep(rt.chain@.len(), self.limits.max_depth, id, rt.chain@),
    {
        let depth: u64 = rt.chain.len() as u64 + 1;
        let mut m = "delta chain depth ".to_owned();
        push_dec(&mut m, depth);
        m.append(" exceeds max ");
        push_dec(&mut m, self.limits.max_depth as u64);
        mark_paused("max_delta_depth", self.limits.max_depth as u64, depth, m.as_str(), id, &rt.chain)
    }

    fn lack_base(&self, rt: &Runtime, id: i64, c: &CandidateRow) -> (r: Res)
        ensures
            r@ == baseless(c.deep_view(), id, rt.chain@),
    {
        if same_text(c.obj_type.as_str(), "ofs-delta") {
            let mut m = "ofs-delta references offset ".to_owned();
            push_int(
                &mut m,
                match c.ofs_base_offset {
                    Some(o) => o,
                    None => -1,
                },
            );
            m.append(" which is not a parseable entry");
            Res::MissingBase { blockers: fault("ofs_base_unreachable", m.as_str(), id, &rt.chain) }
        } else {
            let oid = ref_name(c);
            let mut m = text_of("ref-delta base ", oid.as_str());
            m.append(" is not present in any source");
            Res::MissingBase { blockers: fault("external_base_missing", m.as_str(), id, &rt.chain) }
        }
    }

    /// Reconstructs a candidate within the chain of those that wait for it.
    pub fn resolve_candidate(&self, rt: &mut Runtime, id: i64) -> (r: Res)
        requires
            old(rt).chain@.len() < u32::MAX,
        ensures
            (r@, final(rt).used_seed as nat) == solved(
                self.ground(),
                old(rt).used_seed as nat,
                old(rt).chain@,
                id,
            ),
            final(rt).chain@ == old(rt).chain@,
            final(rt).touched@ == old(rt).touched@,
            r matches Res::Done(o) ==> o.depth == 0 || old(rt).chain@.len() + o.depth < self.limits.max_depth,
        decreases self.limits.max_depth - old(rt).chain@.len(), 0int,
    {
        let c = match self.catalog.candidates.get(id) {
            Some(c) => c,
            None => {
                let mut m = "candidate ".to_owned();
                push_int(&mut m, id);
                m.append(" vanished");
                return mark_bare("missing_candidate", m);
            },
        };
        if contains_id(&rt.chain, id) {
            let chain = cycle_of(&rt.chain, id);
            return Res::Cycle { chain };
        }
        if let Some(r) = refuse(c, id, &rt.chain) {
            return r;
        }
        let ghost chain = rt.chain@;
        rt.chain.push(id);
        let delta: bool = same_text(c.obj_type.as_str(), "ofs-delta") || same_text(
            c.obj_type.as_str(),
            "ref-delta",
        );
        let r = if !delta {
            self.resolve_leaf(rt, id, c)
        } else if rt.chain.len() as u64 >= self.limits.max_depth as u64 {
            self.over_depth(rt, id)
        } else {
            self.resolve_delta(rt, id, c)
        };
        let last = rt.chain.pop();
        assert(rt.chain@ =~= chain);
        note(r, id)
    }
}

fn ref_name(c: &CandidateRow) -> (s: String)
    ensures
        s@ == named_base(c.deep_view()),
{
    match &c.ref_base_oid_hex {
        Some(o) => o.clone(),
        None => "".to_owned(),
    }
}

fn same_offset(a: Option<i64>, b: Option<i64>) -> (r: bool)
    ensures
        r == (b is Some && a == b),
{
    match (a, b) {
        (Some(x), Some(y)) => x == y,
        _ => false,
    }
}

fn names(o: &Option<String>, oid: &str) -> (r: bool)
    ensures
        r == (text_opt(*o) == Some(oid@)),
{
    match o {
        Some(s) => same_text(s.as_str(), oid),
        None => false,
    }
}

fn declare(row: &CandidateRow, c: &CandidateRow) -> (s: String)
    ensures
        s@ == declared_as(row.deep_view(), c.deep_view()),
{
    if same_text(c.obj_type.as_str(), "ofs-delta") {
        let mut m = "ofs@".to_owned();
        push_int(
            &mut m,
            match row.pack_offset {
                Some(o) => o,
                None => -1,
            },
        );
        m
    } else {
        let oid = ref_name(c);
        text_of("ref:", oid.as_str())
    }
}

fn cycle_of(chain: &Vec<i64>, id: i64) -> (v: Vec<i64>)
    requires
        chain@.contains(id),
    ensures
        v@ == chain@.skip(chain_place(chain@, id, 0) as int).push(id),
{
    let mut i: usize = 0;
    while i < chain.len() && chain[i] != id
        invariant
            i <= chain@.len(),
            chain_place(chain@, id, 0) == chain_place(chain@, id, i as nat),
        decreases chain@.len() - i,
    {
        i += 1;
    }
    let mut v: Vec<i64> = Vec::new();
    let mut k: usize = i;
    while k < chain.len()
        invariant
            i <= k <= chain@.len(),
            v@ == chain@.subrange(i as int, k as int),
        decreases chain@.len() - k,
    {
        v.push(chain[k]);
        k += 1;
        assert(v@ =~= chain@.subrange(i as int, k as int));
    }
    v.push(id);
    assert(v@ =~= chain@.skip(i as int).push(id));
    v
}

} // verus!
