//! The rows that an entry is reconstructed from and that are kept of it.
use vstd::prelude::*;
use crate::analyze::graph::text_opt;
use crate::model::assoc::IdMap;
use crate::model::text::texts;

verus! {

/// A parsed pack entry or loose object.
#[derive(Debug)]
pub struct EntryRow {
    pub source_id: i64,
    pub offset: u64,
    pub obj_type: String,
    pub declared_size: u64,
    pub data_offset: u64,
    pub ofs_distance: Option<u64>,
    pub ref_base: Option<String>,
    pub crc32: Option<u32>,
    pub idx_crc32: Option<u32>,
    pub raw: Vec<u8>,
}

/// The model of an entry.
pub ghost struct EntryModel {
    pub source_id: i64,
    pub offset: u64,
    pub obj_type: Seq<char>,
    pub declared_size: u64,
    pub data_offset: u64,
    pub ofs_distance: Option<u64>,
    pub ref_base: Option<Seq<char>>,
    pub crc32: Option<u32>,
    pub idx_crc32: Option<u32>,
    pub raw: Seq<u8>,
}

impl DeepView for EntryRow {
    type V = EntryModel;

    open spec fn deep_view(&self) -> EntryModel {
        EntryModel {
            source_id: self.source_id,
            offset: self.offset,
            obj_type: self.obj_type@,
            declared_size: self.declared_size,
            data_offset: self.data_offset,
            ofs_distance: self.ofs_distance,
            ref_base: text_opt(self.ref_base),
            crc32: self.crc32,
            idx_crc32: self.idx_crc32,
            raw: self.raw@,
        }
    }
}

/// A source file.
#[derive(Debug)]
pub struct SourceRow {
    pub kind: String,
    pub digest: String,
}

/// The model of a source file.
pub ghost struct SourceModel {
    pub kind: Seq<char>,
    pub digest: Seq<char>,
}

impl DeepView for SourceRow {
    type V = SourceModel;

    open spec fn deep_view(&self) -> SourceModel {
        SourceModel { kind: self.kind@, digest: self.digest@ }
    }
}

/// One applied delta.
#[derive(Debug)]
pub struct StepRecord {
    pub entry_id: i64,
    pub obj_type: String,
    pub kind: String,
    pub base_ref: String,
    pub instr_start: usize,
    pub instr_end: usize,
    pub input_len: usize,
    pub output_len: usize,
    pub copied: usize,
    pub inserted: usize,
    pub checks: Vec<String>,
}

/// The model of an applied delta.
pub ghost struct StepModel {
    pub entry_id: i64,
    pub obj_type: Seq<char>,
    pub kind: Seq<char>,
    pub base_ref: Seq<char>,
    pub instr_start: nat,
    pub instr_end: nat,
    pub input_len: nat,
    pub output_len: nat,
    pub copied: nat,
    pub inserted: nat,
    pub checks: Seq<Seq<char>>,
}

impl View for StepRecord {
    type V = StepModel;

    open spec fn view(&self) -> StepModel {
        StepModel {
            entry_id: self.entry_id,
            obj_type: self.obj_type@,
            kind: self.kind@,
            base_ref: self.base_ref@,
            instr_start: self.instr_start as nat,
            instr_end: self.instr_end as nat,
            input_len: self.input_len as nat,
            output_len: self.output_len as nat,
            copied: self.copied as nat,
            inserted: self.inserted as nat,
            checks: texts(self.checks@),
        }
    }
}

/// The models of applied deltas.
pub open spec fn step_models(v: Seq<StepRecord>) -> Seq<StepModel> {
    v.map_values(|s: StepRecord| s@)
}

/// The base that an entry refers to.
#[derive(Debug)]
pub struct EdgeRow {
    pub base_entry_id: Option<i64>,
    pub base_kind: String,
    pub base_ref: String,
}

/// The model of an edge.
pub ghost struct EdgeModel {
    pub base_entry_id: Option<i64>,
    pub base_kind: Seq<char>,
    pub base_ref: Seq<char>,
}

impl DeepView for EdgeRow {
    type V = EdgeModel;

    open spec fn deep_view(&self) -> EdgeModel {
        EdgeModel {
            base_entry_id: self.base_entry_id,
            base_kind: self.base_kind@,
            base_ref: self.base_ref@,
        }
    }
}

pub open spec fn edge_opt(e: Option<EdgeRow>) -> Option<EdgeModel> {
    match e {
        Some(x) => Some(x.deep_view()),
        None => None,
    }
}

/// One entry of a chain as it is shown with a failure.
#[derive(Debug)]
pub struct ChainItem {
    pub entry_id: i64,
    pub source_id: i64,
    pub offset: u64,
    pub obj_type: String,
    pub status: String,
    pub oid: String,
    pub edge: Option<EdgeRow>,
}

/// The model of a chain item.
pub ghost struct ItemModel {
    pub entry_id: i64,
    pub source_id: i64,
    pub offset: u64,
    pub obj_type: Seq<char>,
    pub status: Seq<char>,
    pub oid: Seq<char>,
    pub edge: Option<EdgeModel>,
}

impl View for ChainItem {
    type V = ItemModel;

    open spec fn view(&self) -> ItemModel {
        ItemModel {
            entry_id: self.entry_id,
            source_id: self.source_id,
            offset: self.offset,
            obj_type: self.obj_type@,
            status: self.status@,
            oid: self.oid@,
            edge: edge_opt(self.edge),
        }
    }
}

pub open spec fn item_models(v: Seq<ChainItem>) -> Seq<ItemModel> {
    v.map_values(|i: ChainItem| i@)
}

pub open spec fn items_opt(v: Option<Vec<ChainItem>>) -> Option<Seq<ItemModel>> {
    match v {
        Some(x) => Some(item_models(x@)),
        None => None,
    }
}

pub open spec fn ids_opt(v: Option<Vec<i64>>) -> Option<Seq<i64>> {
    match v {
        Some(x) => Some(x@),
        None => None,
    }
}

/// Why an entry could not be reconstructed.
#[derive(Debug)]
pub struct Failure {
    pub reason: String,
    pub detail: Option<String>,
    pub error_kind: Option<String>,
    pub entry_id: Option<i64>,
    pub base_entry_id: Option<i64>,
    pub base_kind: Option<String>,
    pub base_ref: Option<String>,
    pub missing_oid: Option<String>,
    pub cycle: Option<Vec<i64>>,
    pub chain: Option<Vec<ChainItem>>,
}

/// The model of a failure.
pub ghost struct FailModel {
    pub reason: Seq<char>,
    pub detail: Option<Seq<char>>,
    pub error_kind: Option<Seq<char>>,
    pub entry_id: Option<i64>,
    pub base_entry_id: Option<i64>,
    pub base_kind: Option<Seq<char>>,
    pub base_ref: Option<Seq<char>>,
    pub missing_oid: Option<Seq<char>>,
    pub cycle: Option<Seq<i64>>,
    pub chain: Option<Seq<ItemModel>>,
}

impl View for Failure {
    type V = FailModel;

    open spec fn view(&self) -> FailModel {
        FailModel {
            reason: self.reason@,
            detail: text_opt(self.detail),
            error_kind: text_opt(self.error_kind),
            entry_id: self.entry_id,
            base_entry_id: self.base_entry_id,
            base_kind: text_opt(self.base_kind),
            base_ref: text_opt(self.base_ref),
            missing_oid: text_opt(self.missing_oid),
            cycle: ids_opt(self.cycle),
            chain: items_opt(self.chain),
        }
    }
}

/// A failure that only has a reason and a detail.
pub open spec fn plain_failure(reason: Seq<char>, detail: Option<Seq<char>>) -> FailModel {
    FailModel {
        reason,
        detail,
        error_kind: None,
        entry_id: None,
        base_entry_id: None,
        base_kind: None,
        base_ref: None,
        missing_oid: None,
        cycle: None,
        chain: None,
    }
}

pub fn new_failure(reason: &str, detail: Option<String>) -> (f: Failure)
    ensures
        f@ == plain_failure(reason@, text_opt(detail)),
{
    Failure {
        reason: reason.to_owned(),
        detail,
        error_kind: None,
        entry_id: None,
        base_entry_id: None,
        base_kind: None,
        base_ref: None,
        missing_oid: None,
        cycle: None,
        chain: None,
    }
}

pub open spec fn fail_opt(f: Option<Failure>) -> Option<FailModel> {
    match f {
        Some(x) => Some(x@),
        None => None,
    }
}

/// The state of an entry.
#[derive(Debug)]
pub struct Resolution {
    pub status: String,
    pub oid: Option<String>,
    pub depth: u64,
    pub steps: Vec<StepRecord>,
    pub error: Option<Failure>,
    pub attempts: u64,
}

/// The model of the state of an entry.
pub ghost struct ResModel {
    pub status: Seq<char>,
    pub oid: Option<Seq<char>>,
    pub depth: u64,
    pub steps: Seq<StepModel>,
    pub error: Option<FailModel>,
    pub attempts: u64,
}

impl DeepView for Resolution {
    type V = ResModel;

    open spec fn deep_view(&self) -> ResModel {
        ResModel {
            status: self.status@,
            oid: text_opt(self.oid),
            depth: self.depth,
            steps: step_models(self.steps@),
            error: fail_opt(self.error),
            attempts: self.attempts,
        }
    }
}

/// The intermediate state of an entry that a budget stopped.
#[derive(Debug)]
pub struct PartialState {
    pub chain: Vec<i64>,
    pub next_idx: usize,
    pub cur_type: String,
    pub buffer: Vec<u8>,
    pub steps: Vec<StepRecord>,
    pub depth_used: u64,
    pub bytes_used: u64,
}

/// The model of an intermediate state.
pub ghost struct PartModel {
    pub chain: Seq<i64>,
    pub next_idx: nat,
    pub cur_type: Seq<char>,
    pub buffer: Seq<u8>,
    pub steps: Seq<StepModel>,
    pub depth_used: u64,
    pub bytes_used: u64,
}

impl DeepView for PartialState {
    type V = PartModel;

    open spec fn deep_view(&self) -> PartModel {
        PartModel {
            chain: self.chain@,
            next_idx: self.next_idx as nat,
            cur_type: self.cur_type@,
            buffer: self.buffer@,
            steps: step_models(self.steps@),
            depth_used: self.depth_used,
            bytes_used: self.bytes_used,
        }
    }
}

/// A piece of evidence.
#[derive(Debug)]
pub struct EvidenceRow {
    pub source_id: Option<i64>,
    pub entry_id: Option<i64>,
    pub kind: String,
    pub message: String,
}

/// The model of a piece of evidence.
pub ghost struct EvidenceModel {
    pub source_id: Option<i64>,
    pub entry_id: Option<i64>,
    pub kind: Seq<char>,
    pub message: Seq<char>,
}

impl View for EvidenceRow {
    type V = EvidenceModel;

    open spec fn view(&self) -> EvidenceModel {
        EvidenceModel {
            source_id: self.source_id,
            entry_id: self.entry_id,
            kind: self.kind@,
            message: self.message@,
        }
    }
}

pub open spec fn evidence_models(v: Seq<EvidenceRow>) -> Seq<EvidenceModel> {
    v.map_values(|e: EvidenceRow| e@)
}

/// What an index says of an offset.
#[derive(Debug)]
pub struct IdxRow {
    pub oid: String,
    pub source_id: i64,
    pub offset: u64,
}

/// The model of an index row.
pub ghost struct IdxModel {
    pub oid: Seq<char>,
    pub source_id: i64,
    pub offset: u64,
}

impl View for IdxRow {
    type V = IdxModel;

    open spec fn view(&self) -> IdxModel {
        IdxModel { oid: self.oid@, source_id: self.source_id, offset: self.offset }
    }
}

pub open spec fn idx_models(v: Seq<IdxRow>) -> Seq<IdxModel> {
    v.map_values(|e: IdxRow| e@)
}

/// All rows.
pub struct Rows {
    pub entries: IdMap<EntryRow>,
    pub sources: IdMap<SourceRow>,
    pub resolutions: IdMap<Resolution>,
    pub edges: IdMap<EdgeRow>,
    /// The pins, the latest first.
    pub pins: Vec<(String, i64)>,
    pub partials: IdMap<PartialState>,
    pub contents: IdMap<Vec<u8>>,
    pub evidence: Vec<EvidenceRow>,
    pub idx: Vec<IdxRow>,
}

/// The model of all rows.
pub ghost struct RowsModel {
    pub entries: Seq<(i64, EntryModel)>,
    pub sources: Seq<(i64, SourceModel)>,
    pub resolutions: Seq<(i64, ResModel)>,
    pub edges: Seq<(i64, EdgeModel)>,
    pub pins: Seq<(Seq<char>, i64)>,
    pub partials: Seq<(i64, PartModel)>,
    pub contents: Seq<(i64, Seq<u8>)>,
    pub evidence: Seq<EvidenceModel>,
    pub idx: Seq<IdxModel>,
}

pub open spec fn pin_models(v: Seq<(String, i64)>) -> Seq<(Seq<char>, i64)> {
    v.map_values(|p: (String, i64)| (p.0@, p.1))
}

impl View for Rows {
    type V = RowsModel;

    open spec fn view(&self) -> RowsModel {
        RowsModel {
            entries: self.entries@,
            sources: self.sources@,
            resolutions: self.resolutions@,
            edges: self.edges@,
            pins: pin_models(self.pins@),
            partials: self.partials@,
            contents: self.contents@,
            evidence: evidence_models(self.evidence@),
            idx: idx_models(self.idx@),
        }
    }
}

pub fn copy_edge(e: &EdgeRow) -> (c: EdgeRow)
    ensures
        c.deep_view() == e.deep_view(),
{
    EdgeRow {
        base_entry_id: e.base_entry_id,
        base_kind: e.base_kind.clone(),
        base_ref: e.base_ref.clone(),
    }
}

fn copy_texts(v: &Vec<String>) -> (c: Vec<String>)
    ensures
        texts(c@) == texts(v@),
{
    let mut c: Vec<String> = Vec::new();
    let mut i: usize = 0;
    assert(texts(c@) =~= texts(v@).take(0));
    while i < v.len()
        invariant
            i <= v@.len(),
            texts(c@) == texts(v@).take(i as int),
        decreases v@.len() - i,
    {
        crate::model::text::push_part(&mut c, v[i].clone());
        i += 1;
        assert(texts(c@) =~= texts(v@).take(i as int));
    }
    assert(texts(c@) =~= texts(v@));
    c
}

pub fn copy_steps(v: &Vec<StepRecord>) -> (c: Vec<StepRecord>)
    ensures
        step_models(c@) == step_models(v@),
{
    let mut c: Vec<StepRecord> = Vec::new();
    let mut i: usize = 0;
    assert(step_models(c@) =~= step_models(v@).take(0));
    while i < v.len()
        invariant
            i <= v@.len(),
            step_models(c@) == step_models(v@).take(i as int),
        decreases v@.len() - i,
    {
        let s = &v[i];
        let n = StepRecord {
            entry_id: s.entry_id,
            obj_type: s.obj_type.clone(),
            kind: s.kind.clone(),
            base_ref: s.base_ref.clone(),
            instr_start: s.instr_start,
            instr_end: s.instr_end,
            input_len: s.input_len,
            output_len: s.output_len,
            copied: s.copied,
            inserted: s.inserted,
            checks: copy_texts(&s.checks),
        };
        let ghost before = step_models(c@);
        c.push(n);
        i += 1;
        assert(step_models(c@) =~= before.push(n@));
        assert(step_models(c@) =~= step_models(v@).take(i as int));
    }
    assert(step_models(c@) =~= step_models(v@));
    c
}

impl Rows {
    /// Adds a piece of evidence.
    pub fn add_evidence(&mut self, e: EvidenceRow)
        ensures
            final(self)@ == (RowsModel { evidence: old(self)@.evidence.push(e@), ..old(self)@ }),
    {
        let ghost before = self@.evidence;
        self.evidence.push(e);
        assert(self@.evidence =~= before.push(e@));
    }
}

} // verus!
