//! Views of what a store holds: packs, nodes, edges, sources and the budget.
use vstd::prelude::*;
use vstd::pervasive::unreached;
use vstd::string::StrSliceExecFns;
use vstd::utf8::encode_utf8;
use crate::analyze::graph::{copy_opt, text_opt};
use crate::kernel::engine::parsed::idx_file;
use crate::kernel::idx::{parse_idx, v2_magic};
use crate::model::assoc::{
    contains_id, get, has_key, keyed, lemma_keys_fit, lemma_row, lemma_row_is, lemma_row_key, row_of, IdMap,
};
use crate::model::bytes::{be32, copy_range, same_bytes};
use crate::model::order::{insert_ordered, inserted, views, Ordered};
use crate::model::outside::{hex_encode, lossy_text, utf8_lossy};
use crate::model::sort::{bytes_less, less};
use crate::model::text::{
    byte_prefix, dec_int, hex, hex_digit, is_empty, push_byte_prefix, push_hex_digit, push_int, push_part, same_text,
    texts,
};

verus! {

/// A stored source.
#[derive(Debug)]
pub struct SourceRec {
    pub filename: String,
    pub kind: String,
    pub size: i64,
    pub linked_oid: Option<String>,
    pub pack_id: Option<i64>,
}

impl DeepView for SourceRec {
    type V = SourceRec;

    open spec fn deep_view(&self) -> SourceRec {
        *self
    }
}

/// A stored pack.
#[derive(Debug)]
pub struct PackRec {
    pub source_id: i64,
    pub version: i64,
    pub object_count: i64,
    pub trailer_oid: String,
    pub computed_checksum: String,
    pub matched: i64,
    pub idx_source_id: Option<i64>,
    pub idx_checksum_ok: i64,
    pub mismatch_note: Option<String>,
}

impl DeepView for PackRec {
    type V = PackRec;

    open spec fn deep_view(&self) -> PackRec {
        *self
    }
}

/// A stored node.
#[derive(Debug)]
pub struct NodeRec {
    pub oid: String,
    pub kind: String,
    pub final_kind: Option<String>,
    pub status: String,
    pub error_code: Option<String>,
    pub error_note: Option<String>,
    pub source_id: i64,
    pub pack_id: Option<i64>,
    pub pack_offset: Option<i64>,
    pub zlib_start: Option<i64>,
    pub entry_end: Option<i64>,
    pub declared_size: Option<i64>,
    pub base_offset: Option<i64>,
    pub base_oid: Option<String>,
    pub resolve_depth: Option<i64>,
    pub idx_crc: Option<i64>,
    pub computed_crc: Option<i64>,
    pub crc_ok: Option<i64>,
    pub pinned: i64,
}

impl DeepView for NodeRec {
    type V = NodeRec;

    open spec fn deep_view(&self) -> NodeRec {
        *self
    }
}

/// Stored content of a node, with the summary that describes it.
#[derive(Debug)]
pub struct ObjectRec {
    pub node_id: i64,
    pub stage: String,
    pub kind: String,
    pub data: Vec<u8>,
    pub summary: String,
}

/// A stored delta step.
#[derive(Debug)]
pub struct StepRec {
    pub node_id: i64,
    pub seq: i64,
    pub base_node: Option<i64>,
    pub instr_start: i64,
    pub instr_end: i64,
    pub in_len: i64,
    pub out_len: i64,
    pub check_ok: i64,
    pub note: String,
}

/// A stored piece of evidence.
#[derive(Debug)]
pub struct EvidenceRec {
    pub node_id: Option<i64>,
    pub level: String,
    pub code: String,
    pub message: String,
    pub at_offset: Option<i64>,
}

/// A stored edge from a delta to its base.
#[derive(Debug)]
pub struct EdgeRec {
    pub from_node: i64,
    pub to_node: Option<i64>,
    pub to_oid: String,
    pub kind: String,
}

/// The stored limits and what is used of them.
#[derive(Clone, Copy, Debug)]
pub struct Limits {
    pub max_depth: i64,
    pub total_bytes: i64,
    pub single_ratio: i64,
    pub used_total_bytes: i64,
}

/// All that a store holds. The rows of each table come in the order of their ids.
pub struct Tables {
    pub sources: IdMap<SourceRec>,
    pub packs: IdMap<PackRec>,
    pub nodes: IdMap<NodeRec>,
    pub objects: Vec<ObjectRec>,
    pub steps: Vec<StepRec>,
    pub evidence: Vec<EvidenceRec>,
    pub edges: Vec<EdgeRec>,
    /// The bytes of the stored index files, by source.
    pub index_files: IdMap<Vec<u8>>,
    pub limits: Limits,
}

impl Tables {
    /// Every node has its source, every edge that names a node has that node, and no object id
    /// breaks inside a character at its twelfth byte.
    pub open spec fn linked(&self) -> bool {
        &&& forall|i: int|
            0 <= i < self.nodes@.len() ==> has_key(self.sources@, (#[trigger] self.nodes@[i]).1.source_id)
        &&& forall|i: int|
            0 <= i < self.nodes@.len() ==> {
                let oid = (#[trigger] self.nodes@[i]).1.oid@;
                encode_utf8(oid).len() < 12 || byte_prefix(oid, 12) is Some
            }
        &&& forall|i: int|
            0 <= i < self.edges@.len() && (#[trigger] self.edges@[i]).to_node is Some ==> has_key(
                self.nodes@,
                self.edges@[i].to_node->0,
            )
        &&& forall|i: int|
            0 <= i < self.packs@.len() ==> has_key(self.sources@, (#[trigger] self.packs@[i]).1.source_id)
    }
}

#[derive(Debug)]
pub struct SourceView {
    pub id: i64,
    pub filename: String,
    pub kind: String,
    pub size: i64,
    pub linked_oid: Option<String>,
    pub pack_id: Option<i64>,
}

/// The model of a source view.
pub ghost struct SourceModel {
    pub id: i64,
    pub filename: Seq<char>,
    pub kind: Seq<char>,
    pub size: i64,
    pub linked_oid: Option<Seq<char>>,
    pub pack_id: Option<i64>,
}

impl View for SourceView {
    type V = SourceModel;

    open spec fn view(&self) -> SourceModel {
        SourceModel {
            id: self.id,
            filename: self.filename@,
            kind: self.kind@,
            size: self.size,
            linked_oid: text_opt(self.linked_oid),
            pack_id: self.pack_id,
        }
    }
}

/// A file name comes before another, or has the lower number when they are the same.
pub open spec fn name_before(a: Seq<char>, i: i64, b: Seq<char>, j: i64) -> bool {
    if encode_utf8(a) != encode_utf8(b) {
        bytes_less(encode_utf8(a), encode_utf8(b))
    } else {
        i < j
    }
}

fn is_name_before(a: &str, i: i64, b: &str, j: i64) -> (r: bool)
    ensures
        r == name_before(a@, i, b@, j),
{
    if same_bytes(a.as_bytes(), b.as_bytes()) {
        i < j
    } else {
        less(a.as_bytes(), b.as_bytes())
    }
}

impl Ordered for SourceView {
    open spec fn before(a: SourceModel, b: SourceModel) -> bool {
        name_before(a.filename, a.id, b.filename, b.id)
    }

    fn is_before(&self, other: &Self) -> (r: bool) {
        is_name_before(self.filename.as_str(), self.id, other.filename.as_str(), other.id)
    }
}

/// The view of a source.
pub open spec fn source_model(id: i64, s: SourceRec) -> SourceModel {
    SourceModel {
        id,
        filename: s.filename@,
        kind: s.kind@,
        size: s.size,
        linked_oid: text_opt(s.linked_oid),
        pack_id: s.pack_id,
    }
}

/// The first `n` sources, by file name.
pub open spec fn source_list(s: Seq<(i64, SourceRec)>, n: nat) -> Seq<SourceModel>
    decreases n,
{
    if n == 0 {
        Seq::empty()
    } else {
        inserted::<SourceView>(source_list(s, (n - 1) as nat), source_model(s[n - 1].0, s[n - 1].1))
    }
}

#[derive(Debug)]
pub struct CandidateView {
    pub node_id: i64,
    pub source_filename: String,
    pub pack_offset: Option<i64>,
    pub status: String,
    pub pinned: bool,
}

/// The model of a candidate view.
pub ghost struct CandidateModel {
    pub node_id: i64,
    pub source_filename: Seq<char>,
    pub pack_offset: Option<i64>,
    pub status: Seq<char>,
    pub pinned: bool,
}

impl View for CandidateView {
    type V = CandidateModel;

    open spec fn view(&self) -> CandidateModel {
        CandidateModel {
            node_id: self.node_id,
            source_filename: self.source_filename@,
            pack_offset: self.pack_offset,
            status: self.status@,
            pinned: self.pinned,
        }
    }
}

/// A place comes before another; no place comes first.
pub open spec fn place_before(a: Option<i64>, b: Option<i64>) -> bool {
    match (a, b) {
        (None, Some(_)) => true,
        (Some(x), Some(y)) => x < y,
        _ => false,
    }
}

impl Ordered for CandidateView {
    open spec fn before(a: CandidateModel, b: CandidateModel) -> bool {
        if a.pinned != b.pinned {
            a.pinned
        } else if encode_utf8(a.source_filename) != encode_utf8(b.source_filename) {
            bytes_less(encode_utf8(a.source_filename), encode_utf8(b.source_filename))
        } else if a.pack_offset != b.pack_offset {
            place_before(a.pack_offset, b.pack_offset)
        } else {
            a.node_id < b.node_id
        }
    }

    fn is_before(&self, other: &Self) -> (r: bool) {
        let a = self.source_filename.as_str().as_bytes();
        let b = other.source_filename.as_str().as_bytes();
        if self.pinned != other.pinned {
            self.pinned
        } else if !same_bytes(a, b) {
            less(a, b)
        } else {
            match (self.pack_offset, other.pack_offset) {
                (None, None) => self.node_id < other.node_id,
                (None, Some(_)) => true,
                (Some(_), None) => false,
                (Some(x), Some(y)) => if x != y {
                    x < y
                } else {
                    self.node_id < other.node_id
                },
            }
        }
    }
}

/// The candidates for an object among the first `n` nodes: pinned ones first, then by source
/// and place.
pub open spec fn candidate_list(
    nodes: Seq<(i64, NodeRec)>,
    sources: Seq<(i64, SourceRec)>,
    oid: Seq<char>,
    n: nat,
) -> Seq<CandidateModel>
    decreases n,
{
    if n == 0 {
        Seq::empty()
    } else {
        let v = candidate_list(nodes, sources, oid, (n - 1) as nat);
        let x = nodes[n - 1].1;
        if x.oid@ == oid && has_key(sources, x.source_id) {
            inserted::<CandidateView>(
                v,
                CandidateModel {
                    node_id: nodes[n - 1].0,
                    source_filename: (get(sources, x.source_id)->0).filename@,
                    pack_offset: x.pack_offset,
                    status: x.status@,
                    pinned: x.pinned != 0,
                },
            )
        } else {
            v
        }
    }
}

/// A source that holds an object too.
#[derive(Debug)]
pub struct Twin {
    pub filename: String,
    pub node_id: i64,
}

/// The model of a source that holds an object too.
pub ghost struct TwinModel {
    pub filename: Seq<char>,
    pub node_id: i64,
}

impl View for Twin {
    type V = TwinModel;

    open spec fn view(&self) -> TwinModel {
        TwinModel { filename: self.filename@, node_id: self.node_id }
    }
}

impl Ordered for Twin {
    open spec fn before(a: TwinModel, b: TwinModel) -> bool {
        name_before(a.filename, a.node_id, b.filename, b.node_id)
    }

    fn is_before(&self, other: &Self) -> (r: bool) {
        is_name_before(self.filename.as_str(), self.node_id, other.filename.as_str(), other.node_id)
    }
}

/// The other nodes, among the first `n`, with the same object id, by file name.
pub open spec fn twin_list(
    nodes: Seq<(i64, NodeRec)>,
    sources: Seq<(i64, SourceRec)>,
    oid: Seq<char>,
    id: i64,
    n: nat,
) -> Seq<TwinModel>
    decreases n,
{
    if n == 0 {
        Seq::empty()
    } else {
        let v = twin_list(nodes, sources, oid, id, (n - 1) as nat);
        let x = nodes[n - 1].1;
        if x.oid@ == oid && nodes[n - 1].0 != id && has_key(sources, x.source_id) {
            inserted::<Twin>(
                v,
                TwinModel {
                    filename: (get(sources, x.source_id)->0).filename@,
                    node_id: nodes[n - 1].0,
                },
            )
        } else {
            v
        }
    }
}

/// The file names of a list.
pub open spec fn file_names(v: Seq<TwinModel>) -> Seq<Seq<char>> {
    v.map_values(|t: TwinModel| t.filename)
}

#[derive(Debug)]
pub struct StepView {
    pub seq: i64,
    pub base_oid: Option<String>,
    pub instr_start: i64,
    pub instr_end: i64,
    pub in_len: i64,
    pub out_len: i64,
    pub check_ok: bool,
    pub note: String,
}

/// The model of a step view.
pub ghost struct StepModel {
    pub seq: i64,
    pub base_oid: Option<Seq<char>>,
    pub instr_start: i64,
    pub instr_end: i64,
    pub in_len: i64,
    pub out_len: i64,
    pub check_ok: bool,
    pub note: Seq<char>,
}

impl View for StepView {
    type V = StepModel;

    open spec fn view(&self) -> StepModel {
        StepModel {
            seq: self.seq,
            base_oid: text_opt(self.base_oid),
            instr_start: self.instr_start,
            instr_end: self.instr_end,
            in_len: self.in_len,
            out_len: self.out_len,
            check_ok: self.check_ok,
            note: self.note@,
        }
    }
}

impl Ordered for StepView {
    open spec fn before(a: StepModel, b: StepModel) -> bool {
        a.seq < b.seq
    }

    fn is_before(&self, other: &Self) -> (r: bool) {
        self.seq < other.seq
    }
}

/// The object id of a node, if there is one.
pub open spec fn oid_of_node(nodes: Seq<(i64, NodeRec)>, id: Option<i64>) -> Option<Seq<char>> {
    match id {
        Some(i) => match get(nodes, i) {
            Some(n) => Some(n.oid@),
            None => None,
        },
        None => None,
    }
}

/// The steps of a node among the first `n`, in their order.
pub open spec fn step_list(steps: Seq<StepRec>, nodes: Seq<(i64, NodeRec)>, id: i64, n: nat) -> Seq<StepModel>
    decreases n,
{
    if n == 0 {
        Seq::empty()
    } else {
        let v = step_list(steps, nodes, id, (n - 1) as nat);
        let s = steps[n - 1];
        if s.node_id == id {
            inserted::<StepView>(
                v,
                StepModel {
                    seq: s.seq,
                    base_oid: oid_of_node(nodes, s.base_node),
                    instr_start: s.instr_start,
                    instr_end: s.instr_end,
                    in_len: s.in_len,
                    out_len: s.out_len,
                    check_ok: s.check_ok != 0,
                    note: s.note@,
                },
            )
        } else {
            v
        }
    }
}

#[derive(Debug)]
pub struct EvidenceView {
    pub level: String,
    pub code: String,
    pub message: String,
    pub at_offset: Option<i64>,
}

/// The model of an evidence view.
pub ghost struct EvidenceModel {
    pub level: Seq<char>,
    pub code: Seq<char>,
    pub message: Seq<char>,
    pub at_offset: Option<i64>,
}

impl View for EvidenceView {
    type V = EvidenceModel;

    open spec fn view(&self) -> EvidenceModel {
        EvidenceModel {
            level: self.level@,
            code: self.code@,
            message: self.message@,
            at_offset: self.at_offset,
        }
    }
}

/// The evidence on a node among the first `n` pieces.
pub open spec fn evidence_list(v: Seq<EvidenceRec>, id: i64, n: nat) -> Seq<EvidenceModel>
    decreases n,
{
    if n == 0 {
        Seq::empty()
    } else {
        let w = evidence_list(v, id, (n - 1) as nat);
        let e = v[n - 1];
        if e.node_id == Some(id) {
            w.push(
                EvidenceModel {
                    level: e.level@,
                    code: e.code@,
                    message: e.message@,
                    at_offset: e.at_offset,
                },
            )
        } else {
            w
        }
    }
}

#[derive(Debug)]
pub struct ChainLink {
    pub node_id: i64,
    pub oid: String,
    pub kind: String,
    pub status: String,
    pub missing_oid: Option<String>,
}

/// The model of a chain link.
pub ghost struct LinkModel {
    pub node_id: i64,
    pub oid: Seq<char>,
    pub kind: Seq<char>,
    pub status: Seq<char>,
    pub missing_oid: Option<Seq<char>>,
}

impl View for ChainLink {
    type V = LinkModel;

    open spec fn view(&self) -> LinkModel {
        LinkModel {
            node_id: self.node_id,
            oid: self.oid@,
            kind: self.kind@,
            status: self.status@,
            missing_oid: text_opt(self.missing_oid),
        }
    }
}

/// The place of the first edge of a node, or the number of edges.
pub open spec fn first_edge(edges: Seq<EdgeRec>, from: i64, n: nat) -> nat
    decreases edges.len() - n,
{
    if n >= edges.len() || edges[n as int].from_node == from {
        n
    } else {
        first_edge(edges, from, n + 1)
    }
}

/// The name of a node in a list: its object id, or its number.
pub open spec fn node_name(id: i64, oid: Seq<char>) -> Seq<char> {
    if oid.len() == 0 {
        "node#"@ + dec_int(id as int)
    } else {
        oid
    }
}

/// The chain from a node to what blocks it, behind the nodes of `seen`. It ends at a node
/// without an edge, at a base that is missing, or where it comes back to itself.
pub open spec fn chain_from(
    nodes: Seq<(i64, NodeRec)>,
    edges: Seq<EdgeRec>,
    cur: i64,
    seen: Seq<i64>,
) -> Seq<LinkModel>
    decreases nodes.len() + 1 - seen.len(),
{
    if seen.contains(cur) || !has_key(nodes, cur) || seen.len() > nodes.len() {
        Seq::empty()
    } else {
        let n = get(nodes, cur)->0;
        let k = first_edge(edges, cur, 0);
        let next = if k < edges.len() {
            edges[k as int].to_node
        } else {
            None
        };
        let link = LinkModel {
            node_id: cur,
            oid: node_name(cur, n.oid@),
            kind: n.kind@,
            status: n.status@,
            missing_oid: if next is None && k < edges.len() && edges[k as int].to_oid@.len() > 0 {
                Some(edges[k as int].to_oid@)
            } else {
                None
            },
        };
        match next {
            Some(b) => seq![link] + chain_from(nodes, edges, b, seen.push(cur)),
            None => seq![link],
        }
    }
}

#[derive(Debug)]
pub enum Preview {
    Text { text: String },
    Binary { hex: String },
}

/// The model of a preview.
pub ghost enum PreviewModel {
    Text(Seq<char>),
    Binary(Seq<char>),
}

impl View for Preview {
    type V = PreviewModel;

    open spec fn view(&self) -> PreviewModel {
        match self {
            Preview::Text { text } => PreviewModel::Text(text@),
            Preview::Binary { hex } => PreviewModel::Binary(hex@),
        }
    }
}

/// A byte that shows in a text.
pub open spec fn shows(b: u8) -> bool {
    b == 10 || b == 9 || 32 <= b <= 126
}

/// The first bytes, no more than `n`.
pub open spec fn head(data: Seq<u8>, n: nat) -> Seq<u8> {
    if data.len() < n {
        data
    } else {
        data.take(n as int)
    }
}

/// Content is shown as text: commits and tags always, others when their head is plain.
pub open spec fn is_textish(kind: Seq<char>, data: Seq<u8>) -> bool {
    kind == "commit"@ || kind == "tag"@ || forall|i: int|
        0 <= i < head(data, 2048).len() ==> shows(#[trigger] head(data, 2048)[i])
}

/// The preview of content.
pub open spec fn preview_of(kind: Seq<char>, data: Seq<u8>) -> PreviewModel {
    if is_textish(kind, data) {
        PreviewModel::Text(lossy_text(head(data, 4096)))
    } else {
        PreviewModel::Binary(hex(head(data, 128)))
    }
}

fn take_head(data: &[u8], n: usize) -> (r: Vec<u8>)
    ensures
        r@ == head(data@, n as nat),
{
    let k: usize = if data.len() < n {
        data.len()
    } else {
        n
    };
    let r = copy_range(data, 0, k);
    assert(r@ =~= head(data@, n as nat));
    r
}

fn make_preview(kind: &str, data: &[u8]) -> (p: Preview)
    ensures
        p@ == preview_of(kind@, data@),
{
    let mut textish: bool = true;
    if !same_text(kind, "commit") && !same_text(kind, "tag") {
        let h = take_head(data, 2048);
        let mut i: usize = 0;
        while i < h.len() && textish
            invariant
                i <= h@.len(),
                textish ==> forall|j: int| 0 <= j < i ==> shows(#[trigger] h@[j]),
                !textish ==> exists|j: int| 0 <= j < h@.len() && !shows(#[trigger] h@[j]),
            decreases h@.len() - i,
        {
            let b: u8 = h[i];
            if !(b == 10 || b == 9 || (32 <= b && b <= 126)) {
                textish = false;
                assert(!shows(h@[i as int]));
            }
            i += 1;
        }
    }
    if textish {
        Preview::Text { text: utf8_lossy(take_head(data, 4096).as_slice()) }
    } else {
        Preview::Binary { hex: hex_encode(take_head(data, 128).as_slice()) }
    }
}

/// The place of the first content of a node at a stage, or the number of contents.
pub open spec fn content_at(v: Seq<ObjectRec>, id: i64, stage: Seq<char>, n: nat) -> nat
    decreases v.len() - n,
{
    if n >= v.len() || (v[n as int].node_id == id && v[n as int].stage@ == stage) {
        n
    } else {
        content_at(v, id, stage, n + 1)
    }
}

#[derive(Debug)]
pub struct NodeView {
    pub id: i64,
    pub oid: String,
    pub short_oid: String,
    pub kind: String,
    pub final_kind: Option<String>,
    pub status: String,
    pub error_code: Option<String>,
    pub error_note: Option<String>,
    pub source_filename: String,
    pub source_kind: String,
    pub pack_id: Option<i64>,
    pub pack_offset: Option<i64>,
    pub zlib_start: Option<i64>,
    pub entry_end: Option<i64>,
    pub declared_size: Option<i64>,
    pub base_offset: Option<i64>,
    pub base_oid: Option<String>,
    pub depth: Option<i64>,
    pub idx_crc: Option<i64>,
    pub computed_crc: Option<i64>,
    pub crc_ok: Option<bool>,
    pub raw_summary: Option<String>,
    pub resolved_summary: Option<String>,
    pub resolved_preview: Option<Preview>,
    pub duplicate_sources: Vec<String>,
    pub candidates: Vec<CandidateView>,
    pub steps: Vec<StepView>,
    pub evidence: Vec<EvidenceView>,
    pub blocking_chain: Vec<ChainLink>,
}

/// A node that did not come to its end shows what blocks it.
pub open spec fn shows_chain(status: Seq<char>) -> bool {
    status == "blocked"@ || status == "paused"@ || status == "error"@
}

/// The short form of an object id.
pub open spec fn short_of(oid: Seq<char>) -> Seq<char> {
    if encode_utf8(oid).len() >= 12 {
        byte_prefix(oid, 12)->0
    } else {
        oid
    }
}

/// What the view copies from the row of the node and the row of its source.
pub open spec fn copies_row(v: NodeView, id: i64, n: NodeRec, s: SourceRec) -> bool {
    &&& v.id == id
    &&& v.oid@ == n.oid@
    &&& v.short_oid@ == short_of(n.oid@)
    &&& v.kind@ == n.kind@
    &&& text_opt(v.final_kind) == text_opt(n.final_kind)
    &&& v.status@ == n.status@
    &&& text_opt(v.error_code) == text_opt(n.error_code)
    &&& text_opt(v.error_note) == text_opt(n.error_note)
    &&& v.source_filename@ == s.filename@
    &&& v.source_kind@ == s.kind@
    &&& v.pack_id == n.pack_id
    &&& v.pack_offset == n.pack_offset
    &&& v.zlib_start == n.zlib_start
    &&& v.entry_end == n.entry_end
    &&& v.declared_size == n.declared_size
    &&& v.base_offset == n.base_offset
    &&& text_opt(v.base_oid) == text_opt(n.base_oid)
    &&& v.depth == n.resolve_depth
    &&& v.idx_crc == n.idx_crc
    &&& v.computed_crc == n.computed_crc
    &&& v.crc_ok == match n.crc_ok {
        Some(c) => Some(c != 0),
        None => None,
    }
}

/// The summary of the content of a node at a stage.
pub open spec fn summary_at(v: Seq<ObjectRec>, id: i64, stage: Seq<char>) -> Option<Seq<char>> {
    let k = content_at(v, id, stage, 0);
    if k < v.len() {
        Some(v[k as int].summary@)
    } else {
        None
    }
}

/// The preview of the content of a node at a stage.
pub open spec fn preview_at(v: Seq<ObjectRec>, id: i64, stage: Seq<char>) -> Option<PreviewModel> {
    let k = content_at(v, id, stage, 0);
    if k < v.len() {
        Some(preview_of(v[k as int].kind@, v[k as int].data@))
    } else {
        None
    }
}

/// The view of a node.
pub open spec fn is_node_view(v: NodeView, t: Tables, id: i64) -> bool {
    let n = get(t.nodes@, id)->0;
    let s = get(t.sources@, n.source_id)->0;
    &&& copies_row(v, id, n, s)
    &&& text_opt(v.raw_summary) == summary_at(t.objects@, id, "raw"@)
    &&& text_opt(v.resolved_summary) == summary_at(t.objects@, id, "resolved"@)
    &&& match v.resolved_preview {
        Some(p) => preview_at(t.objects@, id, "resolved"@) == Some(p@),
        None => preview_at(t.objects@, id, "resolved"@) is None,
    }
    &&& texts(v.duplicate_sources@) == if n.oid@.len() == 0 {
        Seq::empty()
    } else {
        file_names(twin_list(t.nodes@, t.sources@, n.oid@, id, t.nodes@.len()))
    }
    &&& views(v.candidates@) == if n.oid@.len() == 0 {
        Seq::empty()
    } else {
        candidate_list(t.nodes@, t.sources@, n.oid@, t.nodes@.len())
    }
    &&& views(v.steps@) == step_list(t.steps@, t.nodes@, id, t.steps@.len())
    &&& views(v.evidence@) == evidence_list(t.evidence@, id, t.evidence@.len())
    &&& views(v.blocking_chain@) == if shows_chain(n.status@) {
        chain_from(t.nodes@, t.edges@, id, Seq::empty())
    } else {
        Seq::empty()
    }
}

impl Tables {
    fn stage_data(&self, id: i64, stage: &str) -> (r: Option<&ObjectRec>)
        ensures
            ({
                let k = content_at(self.objects@, id, stage@, 0);
                match r {
                    Some(o) => k < self.objects@.len() && *o == self.objects@[k as int],
                    None => k >= self.objects@.len(),
                }
            }),
    {
        let mut k: usize = 0;
        while k < self.objects.len()
            invariant
                k <= self.objects@.len(),
                content_at(self.objects@, id, stage@, 0) == content_at(
                    self.objects@,
                    id,
                    stage@,
                    k as nat,
                ),
            decreases self.objects@.len() - k,
        {
            let o = &self.objects[k];
            if o.node_id == id && same_text(o.stage.as_str(), stage) {
                return Some(o);
            }
            k += 1;
        }
        None
    }

    fn twins(&self, oid: &str, id: i64) -> (r: Vec<String>)
        ensures
            texts(r@) == file_names(twin_list(self.nodes@, self.sources@, oid@, id, self.nodes@.len())),
    {
        let mut v: Vec<Twin> = Vec::new();
        let mut n: usize = 0;
        assert(views(v@) =~= Seq::empty());
        while n < self.nodes.len()
            invariant
                n <= self.nodes@.len(),
                views(v@) == twin_list(self.nodes@, self.sources@, oid@, id, n as nat),
            decreases self.nodes@.len() - n,
        {
            let x = self.nodes.value_at(n);
            let node_id: i64 = self.nodes.key_at(n);
            if same_text(x.oid.as_str(), oid) && node_id != id {
                if let Some(s) = self.sources.get(x.source_id) {
                    insert_ordered(&mut v, Twin { filename: s.filename.clone(), node_id });
                }
            }
            n += 1;
        }
        let ghost all = file_names(views(v@));
        let mut r: Vec<String> = Vec::new();
        let mut i: usize = 0;
        assert(texts(r@) =~= all.take(0));
        while i < v.len()
            invariant
                i <= v@.len(),
                all == file_names(views(v@)),
                texts(r@) == all.take(i as int),
            decreases v@.len() - i,
        {
            push_part(&mut r, v[i].filename.clone());
            i += 1;
            assert(texts(r@) =~= all.take(i as int));
        }
        assert(texts(r@) =~= all);
        r
    }

    fn candidates_for(&self, oid: &str) -> (v: Vec<CandidateView>)
        ensures
            views(v@) == candidate_list(self.nodes@, self.sources@, oid@, self.nodes@.len()),
    {
        let mut v: Vec<CandidateView> = Vec::new();
        let mut n: usize = 0;
        assert(views(v@) =~= Seq::empty());
        while n < self.nodes.len()
            invariant
                n <= self.nodes@.len(),
                views(v@) == candidate_list(self.nodes@, self.sources@, oid@, n as nat),
            decreases self.nodes@.len() - n,
        {
            let x = self.nodes.value_at(n);
            let node_id: i64 = self.nodes.key_at(n);
            if same_text(x.oid.as_str(), oid) {
                if let Some(s) = self.sources.get(x.source_id) {
                    insert_ordered(
                        &mut v,
                        CandidateView {
                            node_id,
                            source_filename: s.filename.clone(),
                            pack_offset: x.pack_offset,
                            status: x.status.clone(),
                            pinned: x.pinned != 0,
                        },
                    );
                }
            }
            n += 1;
        }
        v
    }

    fn steps_of(&self, id: i64) -> (v: Vec<StepView>)
        ensures
            views(v@) == step_list(self.steps@, self.nodes@, id, self.steps@.len()),
    {
        let mut v: Vec<StepView> = Vec::new();
        let mut n: usize = 0;
        assert(views(v@) =~= Seq::empty());
        while n < self.steps.len()
            invariant
                n <= self.steps@.len(),
                views(v@) == step_list(self.steps@, self.nodes@, id, n as nat),
            decreases self.steps@.len() - n,
        {
            let s = &self.steps[n];
            if s.node_id == id {
                let base_oid = match s.base_node {
                    Some(b) => match self.nodes.get(b) {
                        Some(x) => Some(x.oid.clone()),
                        None => None,
                    },
                    None => None,
                };
                insert_ordered(
                    &mut v,
                    StepView {
                        seq: s.seq,
                        base_oid,
                        instr_start: s.instr_start,
                        instr_end: s.instr_end,
                        in_len: s.in_len,
                        out_len: s.out_len,
                        check_ok: s.check_ok != 0,
                        note: s.note.clone(),
                    },
                );
            }
            n += 1;
        }
        v
    }

    fn evidence_of(&self, id: i64) -> (v: Vec<EvidenceView>)
        ensures
            views(v@) == evidence_list(self.evidence@, id, self.evidence@.len()),
    {
        let mut v: Vec<EvidenceView> = Vec::new();
        let mut n: usize = 0;
        assert(views(v@) =~= Seq::empty());
        while n < self.evidence.len()
            invariant
                n <= self.evidence@.len(),
                views(v@) == evidence_list(self.evidence@, id, n as nat),
            decreases self.evidence@.len() - n,
        {
            let e = &self.evidence[n];
            if e.node_id == Some(id) {
                let ghost before = views(v@);
                let x = EvidenceView {
                    level: e.level.clone(),
                    code: e.code.clone(),
                    message: e.message.clone(),
                    at_offset: e.at_offset,
                };
                v.push(x);
                assert(views(v@) =~= before.push(x@));
            }
            n += 1;
        }
        v
    }

    fn edge_of(&self, from: i64) -> (r: Option<&EdgeRec>)
        ensures
            ({
                let k = first_edge(self.edges@, from, 0);
                match r {
                    Some(e) => k < self.edges@.len() && *e == self.edges@[k as int],
                    None => k >= self.edges@.len(),
                }
            }),
    {
        let mut k: usize = 0;
        while k < self.edges.len()
            invariant
                k <= self.edges@.len(),
                first_edge(self.edges@, from, 0) == first_edge(self.edges@, from, k as nat),
            decreases self.edges@.len() - k,
        {
            if self.edges[k].from_node == from {
                return Some(&self.edges[k]);
            }
            k += 1;
        }
        None
    }

    /// The chain from a node to what blocks it.
    fn build_chain(&self, start: i64) -> (chain: Vec<ChainLink>)
        requires
            self.linked(),
        ensures
            views(chain@) == chain_from(self.nodes@, self.edges@, start, Seq::empty()),
    {
        let mut chain: Vec<ChainLink> = Vec::new();
        let mut seen: Vec<i64> = Vec::new();
        let mut cur: i64 = start;
        let ghost all = chain_from(self.nodes@, self.edges@, start, Seq::empty());
        proof {
            assert(views(chain@) =~= Seq::empty());
            assert(views(chain@) + all =~= all);
        }
        loop
            invariant
                self.linked(),
                all == chain_from(self.nodes@, self.edges@, start, Seq::empty()),
                all == views(chain@) + chain_from(self.nodes@, self.edges@, cur, seen@),
                seen@.no_duplicates(),
                forall|i: int| 0 <= i < seen@.len() ==> has_key(self.nodes@, #[trigger] seen@[i]),
            decreases self.nodes@.len() + 1 - seen@.len(),
        {
            proof {
                lemma_keys_fit(seen@, self.nodes@);
            }
            let ghost rest = chain_from(self.nodes@, self.edges@, cur, seen@);
            if contains_id(&seen, cur) {
                assert(views(chain@) + rest =~= views(chain@));
                return chain;
            }
            let n = match self.nodes.get(cur) {
                Some(n) => n,
                None => {
                    assert(views(chain@) + rest =~= views(chain@));
                    return chain;
                },
            };
            let (missing, next) = match self.edge_of(cur) {
                Some(e) => (
                    if e.to_node.is_none() && !is_empty(e.to_oid.as_str()) {
                        Some(e.to_oid.clone())
                    } else {
                        None
                    },
                    e.to_node,
                ),
                None => (None, None),
            };
            let name = if is_empty(n.oid.as_str()) {
                let mut s = "node#".to_owned();
                push_int(&mut s, cur);
                s
            } else {
                n.oid.clone()
            };
            let link = ChainLink {
                node_id: cur,
                oid: name,
                kind: n.kind.clone(),
                status: n.status.clone(),
                missing_oid: missing,
            };
            let ghost before = views(chain@);
            chain.push(link);
            assert(views(chain@) =~= before.push(link@));
            match next {
                Some(b) => {
                    proof {
                        let tail = chain_from(self.nodes@, self.edges@, b, seen@.push(cur));
                        assert(rest == seq![link@] + tail);
                        assert(before + (seq![link@] + tail) =~= before.push(link@) + tail);
                    }
                    seen.push(cur);
                    cur = b;
                },
                None => {
                    assert(before + seq![link@] =~= before.push(link@));
                    return chain;
                },
            }
        }
    }

    /// The view of one node.
    pub fn build_node(&self, id: i64) -> (v: NodeView)
        requires
            self.linked(),
            has_key(self.nodes@, id),
        ensures
            is_node_view(v, *self, id),
    {
        let n = match self.nodes.get(id) {
            Some(n) => n,
            None => return unreached(),
        };
        let ghost at = row_of(self.nodes@, id);
        proof {
            lemma_row(self.nodes@, id);
            assert(self.nodes@[at as int].1 == *n);
        }
        let s = match self.sources.get(n.source_id) {
            Some(s) => s,
            None => return unreached(),
        };
        let raw_summary = match self.stage_data(id, "raw") {
            Some(o) => Some(o.summary.clone()),
            None => None,
        };
        let (resolved_summary, resolved_preview) = match self.stage_data(id, "resolved") {
            Some(o) => (
                Some(o.summary.clone()),
                Some(make_preview(o.kind.as_str(), o.data.as_slice())),
            ),
            None => (None, None),
        };
        let nameless: bool = is_empty(n.oid.as_str());
        let duplicate_sources: Vec<String> = if nameless {
            Vec::new()
        } else {
            self.twins(n.oid.as_str(), id)
        };
        let candidates: Vec<CandidateView> = if nameless {
            Vec::new()
        } else {
            self.candidates_for(n.oid.as_str())
        };
        let stuck: bool = same_text(n.status.as_str(), "blocked") || same_text(n.status.as_str(), "paused")
            || same_text(n.status.as_str(), "error");
        let blocking_chain: Vec<ChainLink> = if stuck {
            self.build_chain(id)
        } else {
            Vec::new()
        };
        proof {
            if nameless {
                assert(texts(duplicate_sources@) =~= Seq::empty());
                assert(views(candidates@) =~= Seq::empty());
            }
            if !stuck {
                assert(views(blocking_chain@) =~= Seq::empty());
            }
        }
        let mut short_oid = String::new();
        if n.oid.as_str().as_bytes().len() >= 12 {
            push_byte_prefix(&mut short_oid, n.oid.as_str(), 12);
            assert(short_oid@ =~= short_of(n.oid@));
        } else {
            short_oid = n.oid.clone();
        }
        NodeView {
            id,
            oid: n.oid.clone(),
            short_oid,
            kind: n.kind.clone(),
            final_kind: copy_opt(&n.final_kind),
            status: n.status.clone(),
            error_code: copy_opt(&n.error_code),
            error_note: copy_opt(&n.error_note),
            source_filename: s.filename.clone(),
            source_kind: s.kind.clone(),
            pack_id: n.pack_id,
            pack_offset: n.pack_offset,
            zlib_start: n.zlib_start,
            entry_end: n.entry_end,
            declared_size: n.declared_size,
            base_offset: n.base_offset,
            base_oid: copy_opt(&n.base_oid),
            depth: n.resolve_depth,
            idx_crc: n.idx_crc,
            computed_crc: n.computed_crc,
            crc_ok: match n.crc_ok {
                Some(c) => Some(c != 0),
                None => None,
            },
            raw_summary,
            resolved_summary,
            resolved_preview,
            duplicate_sources,
            candidates,
            steps: self.steps_of(id),
            evidence: self.evidence_of(id),
            blocking_chain,
        }
    }
}

#[derive(Debug)]
pub struct FanoutBucket {
    pub prefix: String,
    pub cumulative: i64,
}

/// The model of a fanout bucket.
pub ghost struct BucketModel {
    pub prefix: Seq<char>,
    pub cumulative: i64,
}

impl View for FanoutBucket {
    type V = BucketModel;

    open spec fn view(&self) -> BucketModel {
        BucketModel { prefix: self.prefix@, cumulative: self.cumulative }
    }
}

/// The two hexadecimal digits of a byte.
pub open spec fn two_digits(i: nat) -> Seq<char> {
    seq![hex_digit(i / 16), hex_digit(i % 16)]
}

/// The first `n` buckets of a fanout table that add to the one before them; the first always.
pub open spec fn bucket_list(fanout: Seq<u32>, n: nat) -> Seq<BucketModel>
    decreases n,
{
    if n == 0 {
        Seq::empty()
    } else {
        let v = bucket_list(fanout, (n - 1) as nat);
        if n == 1 || fanout[n - 1] != fanout[n - 2] {
            v.push(BucketModel { prefix: two_digits((n - 1) as nat), cumulative: fanout[n - 1] as i64 })
        } else {
            v
        }
    }
}

fn list_buckets(fanout: &[u32; 256]) -> (v: Vec<FanoutBucket>)
    ensures
        views(v@) == bucket_list(fanout@, 256),
{
    let mut v: Vec<FanoutBucket> = Vec::new();
    let mut n: usize = 0;
    assert(views(v@) =~= Seq::empty());
    while n < 256
        invariant
            n <= 256,
            views(v@) == bucket_list(fanout@, n as nat),
        decreases 256 - n,
    {
        if n == 0 || fanout[n] != fanout[n - 1] {
            let mut prefix = String::new();
            push_hex_digit(&mut prefix, (n / 16) as u8);
            push_hex_digit(&mut prefix, (n % 16) as u8);
            assert(prefix@ =~= two_digits(n as nat));
            let ghost before = views(v@);
            let b = FanoutBucket { prefix, cumulative: fanout[n] as i64 };
            v.push(b);
            assert(views(v@) =~= before.push(b@));
        }
        n += 1;
    }
    v
}

#[derive(Debug)]
pub struct PackView {
    pub pack_id: i64,
    pub filename: String,
    pub version: i64,
    pub object_count: i64,
    pub trailer_oid: String,
    pub computed_checksum: String,
    pub checksum_ok: bool,
    pub matched: bool,
    pub idx_filename: Option<String>,
    pub idx_checksum_ok: bool,
    pub mismatch_note: Option<String>,
    pub fanout: Option<Vec<FanoutBucket>>,
}

/// The file name of a source, if there is one.
pub open spec fn name_of_source(sources: Seq<(i64, SourceRec)>, id: Option<i64>) -> Option<Seq<char>> {
    match id {
        Some(i) => match get(sources, i) {
            Some(s) => Some(s.filename@),
            None => None,
        },
        None => None,
    }
}

/// An index file, if there is one that can be read, lists its buckets.
pub open spec fn shows_fanout(v: Option<Vec<FanoutBucket>>, files: Seq<(i64, Seq<u8>)>, id: Option<i64>) -> bool {
    let data = match id {
        Some(i) => get(files, i),
        None => None,
    };
    match data {
        Some(b) => match idx_file(b) {
            Ok(_) => v is Some && views(v->0@) == bucket_list(fanout_words(b), 256),
            Err(_) => v is None,
        },
        None => v is None,
    }
}

/// The fanout words of an index.
pub open spec fn fanout_words(b: Seq<u8>) -> Seq<u32> {
    let base: int = if v2_magic().is_prefix_of(b) {
        8
    } else {
        0
    };
    Seq::new(256, |i: int| be32(b, base + i * 4))
}

/// The view of a pack.
pub open spec fn is_pack_view(v: PackView, t: Tables, id: i64, p: PackRec) -> bool {
    &&& v.pack_id == id
    &&& v.filename@ == (get(t.sources@, p.source_id)->0).filename@
    &&& v.version == p.version
    &&& v.object_count == p.object_count
    &&& v.trailer_oid@ == p.trailer_oid@
    &&& v.computed_checksum@ == p.computed_checksum@
    &&& v.checksum_ok == (p.trailer_oid@ == p.computed_checksum@)
    &&& v.matched == (p.matched != 0)
    &&& text_opt(v.idx_filename) == name_of_source(t.sources@, p.idx_source_id)
    &&& v.idx_checksum_ok == (p.idx_checksum_ok != 0)
    &&& text_opt(v.mismatch_note) == text_opt(p.mismatch_note)
    &&& shows_fanout(v.fanout, t.index_files@, p.idx_source_id)
}

#[derive(Debug)]
pub struct EdgeView {
    pub from_node: i64,
    pub to_node: Option<i64>,
    pub to_oid: String,
    pub kind: String,
}

/// The model of an edge view.
pub ghost struct EdgeModel {
    pub from_node: i64,
    pub to_node: Option<i64>,
    pub to_oid: Seq<char>,
    pub kind: Seq<char>,
}

impl View for EdgeView {
    type V = EdgeModel;

    open spec fn view(&self) -> EdgeModel {
        EdgeModel {
            from_node: self.from_node,
            to_node: self.to_node,
            to_oid: self.to_oid@,
            kind: self.kind@,
        }
    }
}

impl Ordered for EdgeView {
    open spec fn before(a: EdgeModel, b: EdgeModel) -> bool {
        a.from_node < b.from_node
    }

    fn is_before(&self, other: &Self) -> (r: bool) {
        self.from_node < other.from_node
    }
}

/// The first `n` edges, by the node they start from.
pub open spec fn edge_list(v: Seq<EdgeRec>, n: nat) -> Seq<EdgeModel>
    decreases n,
{
    if n == 0 {
        Seq::empty()
    } else {
        let e = v[n - 1];
        inserted::<EdgeView>(
            edge_list(v, (n - 1) as nat),
            EdgeModel {
                from_node: e.from_node,
                to_node: e.to_node,
                to_oid: e.to_oid@,
                kind: e.kind@,
            },
        )
    }
}

#[derive(Clone, Copy, PartialEq, Eq, Debug, Structural)]
pub struct BudgetView {
    pub max_depth: i64,
    pub total_bytes: i64,
    pub single_ratio: i64,
    pub used_total_bytes: i64,
    pub single_bytes: i64,
}

/// A hundredth, rounded towards zero.
pub open spec fn hundredth(n: int) -> int {
    if n >= 0 {
        n / 100
    } else {
        -((-n) / 100)
    }
}

#[derive(Clone, Copy, PartialEq, Eq, Debug, Structural)]
pub struct StatusCounts {
    pub total: usize,
    pub resolved: usize,
    pub blocked: usize,
    pub error: usize,
    pub paused: usize,
    pub pending: usize,
}

impl Default for StatusCounts {
    fn default() -> (c: Self)
        ensures
            c == (StatusCounts {
                total: 0,
                resolved: 0,
                blocked: 0,
                error: 0,
                paused: 0,
                pending: 0,
            }),
    {
        StatusCounts { total: 0, resolved: 0, blocked: 0, error: 0, paused: 0, pending: 0 }
    }
}

/// How many of the first `n` nodes have a status.
pub open spec fn status_count(nodes: Seq<(i64, NodeRec)>, status: Seq<char>, n: nat) -> nat
    decreases n,
{
    if n == 0 {
        0
    } else {
        status_count(nodes, status, (n - 1) as nat) + if nodes[n - 1].1.status@ == status {
            1nat
        } else {
            0nat
        }
    }
}

#[derive(Debug)]
pub struct Snapshot {
    pub packs: Vec<PackView>,
    pub nodes: Vec<NodeView>,
    pub edges: Vec<EdgeView>,
    pub sources: Vec<SourceView>,
    pub budget: BudgetView,
    pub counts: StatusCounts,
}

/// The numbers of nodes by status; every other status counts as pending.
pub open spec fn are_counts(c: StatusCounts, nodes: Seq<(i64, NodeRec)>) -> bool {
    let n = nodes.len();
    &&& c.total == n
    &&& c.resolved == status_count(nodes, "resolved"@, n)
    &&& c.blocked == status_count(nodes, "blocked"@, n)
    &&& c.error == status_count(nodes, "error"@, n)
    &&& c.paused == status_count(nodes, "paused"@, n)
    &&& c.resolved + c.blocked + c.error + c.paused + c.pending == n
}

proof fn lemma_statuses()
    ensures
        "resolved"@ != "blocked"@,
        "resolved"@ != "error"@,
        "resolved"@ != "paused"@,
        "blocked"@ != "error"@,
        "blocked"@ != "paused"@,
        "error"@ != "paused"@,
{
    reveal_strlit("resolved");
    reveal_strlit("blocked");
    reveal_strlit("error");
    reveal_strlit("paused");
    assert("resolved"@.len() == 8 && "blocked"@.len() == 7 && "error"@.len() == 5 && "paused"@.len() == 6);
}

impl Tables {
    fn buckets_of(&self, id: Option<i64>) -> (v: Option<Vec<FanoutBucket>>)
        ensures
            shows_fanout(v, self.index_files@, id),
    {
        let b = match id {
            Some(i) => match self.index_files.get(i) {
                Some(b) => b,
                None => return None,
            },
            None => return None,
        };
        assert(b.deep_view() =~= b@);
        match parse_idx(b.as_slice()) {
            Ok(p) => {
                assert(p.fanout@ =~= fanout_words(b@));
                Some(list_buckets(&p.fanout))
            },
            Err(_) => None,
        }
    }

    fn pack_view(&self, id: i64, p: &PackRec) -> (v: PackView)
        requires
            has_key(self.sources@, p.source_id),
        ensures
            is_pack_view(v, *self, id, *p),
    {
        let filename = match self.sources.get(p.source_id) {
            Some(s) => s.filename.clone(),
            None => return unreached(),
        };
        let idx_filename = match p.idx_source_id {
            Some(i) => match self.sources.get(i) {
                Some(s) => Some(s.filename.clone()),
                None => None,
            },
            None => None,
        };
        PackView {
            pack_id: id,
            filename,
            version: p.version,
            object_count: p.object_count,
            checksum_ok: same_text(p.trailer_oid.as_str(), p.computed_checksum.as_str()),
            trailer_oid: p.trailer_oid.clone(),
            computed_checksum: p.computed_checksum.clone(),
            matched: p.matched != 0,
            idx_filename,
            idx_checksum_ok: p.idx_checksum_ok != 0,
            mismatch_note: copy_opt(&p.mismatch_note),
            fanout: self.buckets_of(p.idx_source_id),
        }
    }

    fn list_sources(&self) -> (v: Vec<SourceView>)
        ensures
            views(v@) == source_list(self.sources@, self.sources@.len()),
    {
        let mut v: Vec<SourceView> = Vec::new();
        let mut n: usize = 0;
        assert(views(v@) =~= Seq::empty());
        while n < self.sources.len()
            invariant
                n <= self.sources@.len(),
                views(v@) == source_list(self.sources@, n as nat),
            decreases self.sources@.len() - n,
        {
            let s = self.sources.value_at(n);
            insert_ordered(
                &mut v,
                SourceView {
                    id: self.sources.key_at(n),
                    filename: s.filename.clone(),
                    kind: s.kind.clone(),
                    size: s.size,
                    linked_oid: copy_opt(&s.linked_oid),
                    pack_id: s.pack_id,
                },
            );
            n += 1;
        }
        v
    }

    fn list_edges(&self) -> (v: Vec<EdgeView>)
        ensures
            views(v@) == edge_list(self.edges@, self.edges@.len()),
    {
        let mut v: Vec<EdgeView> = Vec::new();
        let mut n: usize = 0;
        assert(views(v@) =~= Seq::empty());
        while n < self.edges.len()
            invariant
                n <= self.edges@.len(),
                views(v@) == edge_list(self.edges@, n as nat),
            decreases self.edges@.len() - n,
        {
            let e = &self.edges[n];
            insert_ordered(
                &mut v,
                EdgeView {
                    from_node: e.from_node,
                    to_node: e.to_node,
                    to_oid: e.to_oid.clone(),
                    kind: e.kind.clone(),
                },
            );
            n += 1;
        }
        v
    }

    fn list_packs(&self) -> (v: Vec<PackView>)
        requires
            self.linked(),
        ensures
            v@.len() == self.packs@.len(),
            forall|i: int|
                0 <= i < v@.len() ==> is_pack_view(
                    #[trigger] v@[i],
                    *self,
                    self.packs@[i].0,
                    self.packs@[i].1,
                ),
    {
        let mut v: Vec<PackView> = Vec::new();
        let mut n: usize = 0;
        while n < self.packs.len()
            invariant
                self.linked(),
                n <= self.packs@.len(),
                v@.len() == n,
                forall|i: int|
                    0 <= i < n ==> is_pack_view(
                        #[trigger] v@[i],
                        *self,
                        self.packs@[i].0,
                        self.packs@[i].1,
                    ),
            decreases self.packs@.len() - n,
        {
            let p = self.packs.value_at(n);
            assert(self.packs@[n as int].1 == *p);
            v.push(self.pack_view(self.packs.key_at(n), p));
            n += 1;
        }
        v
    }

    /// The view of everything: packs with their fanout, nodes with their chains, edges, sources,
    /// the budget and how many nodes have which status.
    pub fn snapshot(&self) -> (s: Snapshot)
        requires
            self.linked(),
            keyed(self.nodes@),
            i64::MIN <= self.limits.total_bytes * self.limits.single_ratio <= i64::MAX,
        ensures
            views(s.sources@) == source_list(self.sources@, self.sources@.len()),
            views(s.edges@) == edge_list(self.edges@, self.edges@.len()),
            s.packs@.len() == self.packs@.len(),
            forall|i: int|
                0 <= i < s.packs@.len() ==> is_pack_view(
                    #[trigger] s.packs@[i],
                    *self,
                    self.packs@[i].0,
                    self.packs@[i].1,
                ),
            s.nodes@.len() == self.nodes@.len(),
            forall|i: int|
                0 <= i < s.nodes@.len() ==> is_node_view(#[trigger] s.nodes@[i], *self, self.nodes@[i].0),
            are_counts(s.counts, self.nodes@),
            s.budget == (BudgetView {
                max_depth: self.limits.max_depth,
                total_bytes: self.limits.total_bytes,
                single_ratio: self.limits.single_ratio,
                used_total_bytes: self.limits.used_total_bytes,
                single_bytes: hundredth(self.limits.total_bytes * self.limits.single_ratio) as i64,
            }),
    {
        let product: i64 = self.limits.total_bytes * self.limits.single_ratio;
        let single_bytes: i64 = if product >= 0 {
            product / 100
        } else {
            let wide: i128 = -(product as i128);
            (-(wide / 100)) as i64
        };
        let budget = BudgetView {
            max_depth: self.limits.max_depth,
            total_bytes: self.limits.total_bytes,
            single_ratio: self.limits.single_ratio,
            used_total_bytes: self.limits.used_total_bytes,
            single_bytes,
        };
        let mut counts = StatusCounts::default();
        let mut nodes: Vec<NodeView> = Vec::new();
        let mut n: usize = 0;
        while n < self.nodes.len()
            invariant
                self.linked(),
                keyed(self.nodes@),
                n <= self.nodes@.len(),
                nodes@.len() == n,
                forall|i: int|
                    0 <= i < n ==> is_node_view(#[trigger] nodes@[i], *self, self.nodes@[i].0),
                counts.total == 0,
                counts.resolved == status_count(self.nodes@, "resolved"@, n as nat),
                counts.blocked == status_count(self.nodes@, "blocked"@, n as nat),
                counts.error == status_count(self.nodes@, "error"@, n as nat),
                counts.paused == status_count(self.nodes@, "paused"@, n as nat),
                counts.resolved + counts.blocked + counts.error + counts.paused + counts.pending == n,
            decreases self.nodes@.len() - n,
        {
            let total: usize = self.nodes.len();
            let id: i64 = self.nodes.key_at(n);
            proof {
                lemma_statuses();
                lemma_row_key(self.nodes@, n as int);
                lemma_row_is(self.nodes@, id, n as nat);
            }
            let v = self.build_node(id);
            assert(v.status@ == self.nodes@[n as int].1.status@);
            let status = v.status.as_str();
            if same_text(status, "resolved") {
                counts.resolved += 1;
            } else if same_text(status, "blocked") {
                counts.blocked += 1;
            } else if same_text(status, "error") {
                counts.error += 1;
            } else if same_text(status, "paused") {
                counts.paused += 1;
            } else {
                counts.pending += 1;
            }
            nodes.push(v);
            n += 1;
        }
        counts.total = nodes.len();
        Snapshot {
            packs: self.list_packs(),
            nodes,
            edges: self.list_edges(),
            sources: self.list_sources(),
            budget,
            counts,
        }
    }
}

} // verus!
