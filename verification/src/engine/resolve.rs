//! Settlement of the nodes of a branch: each is resolved, or it is kept why it is not.
use vstd::prelude::*;
use vstd::string::StringExecFns;
use vstd::utf8::encode_utf8;
use crate::analyze::graph::{copy_opt, text_opt};
use crate::engine::sources::{FanoutRow, SourceModel, SourceRow};
use crate::engine::{candidate_rank_key, kind_of, kind_str, kind_text, parse_kind, rank_text, Budget};
use crate::git::delta::{apply_delta, declared_sizes, result_of, sizes, DeltaInstr};
use crate::git::object_id::hash_object;
use crate::git::types::ObjType;
use crate::model::assoc::{contains_id, dropped, get, has_key, put, reversed, IdMap};
use crate::model::bytes::same_bytes;
use crate::model::num::{push_wide, signed, to_signed};
use crate::model::object::object_frame;
use crate::model::outside::{hex_encode, sha1_of};
use crate::model::sort::{bytes_less, less};
use crate::model::text::{dec, dec_int, hex, push_dec, push_int, same_text};

verus! {

/// A parsed node.
#[derive(Debug)]
pub struct NodeInfo {
    pub id: i64,
    pub source_id: i64,
    pub locator: String,
    pub kind: String,
    pub declared_size: i64,
    pub ofs_base_offset: Option<i64>,
    pub ref_base_oid: Option<Vec<u8>>,
    pub pack_offset: Option<i64>,
    /// Where the header of the entry begins and ends.
    pub header_start: Option<i64>,
    pub header_end: Option<i64>,
    /// Where the compressed data begin and end, and how much they inflate to.
    pub zlib_start: Option<i64>,
    pub zlib_end: Option<i64>,
    pub zlib_out_len: Option<i64>,
    pub raw: Option<Vec<u8>>,
    pub content_size: Option<i64>,
    pub parse_status: String,
    pub parse_error: Option<String>,
    pub crc_ok: Option<i64>,
    pub crc_expected: Option<i64>,
    pub crc_actual: Option<i64>,
}

/// The model of a node.
pub ghost struct NodeModel {
    pub id: i64,
    pub source_id: i64,
    pub locator: Seq<char>,
    pub kind: Seq<char>,
    pub declared_size: i64,
    pub ofs_base_offset: Option<i64>,
    pub ref_base_oid: Option<Seq<u8>>,
    pub pack_offset: Option<i64>,
    pub header_start: Option<i64>,
    pub header_end: Option<i64>,
    pub zlib_start: Option<i64>,
    pub zlib_end: Option<i64>,
    pub zlib_out_len: Option<i64>,
    pub raw: Option<Seq<u8>>,
    pub content_size: Option<i64>,
    pub parse_status: Seq<char>,
    pub parse_error: Option<Seq<char>>,
    pub crc_ok: Option<i64>,
    pub crc_expected: Option<i64>,
    pub crc_actual: Option<i64>,
}

/// The bytes of an optional list of bytes.
pub open spec fn bytes_opt(b: Option<Vec<u8>>) -> Option<Seq<u8>> {
    match b {
        Some(v) => Some(v@),
        None => None,
    }
}

impl DeepView for NodeInfo {
    type V = NodeModel;

    open spec fn deep_view(&self) -> NodeModel {
        NodeModel {
            id: self.id,
            source_id: self.source_id,
            locator: self.locator@,
            kind: self.kind@,
            declared_size: self.declared_size,
            ofs_base_offset: self.ofs_base_offset,
            ref_base_oid: bytes_opt(self.ref_base_oid),
            pack_offset: self.pack_offset,
            header_start: self.header_start,
            header_end: self.header_end,
            zlib_start: self.zlib_start,
            zlib_end: self.zlib_end,
            zlib_out_len: self.zlib_out_len,
            raw: bytes_opt(self.raw),
            content_size: self.content_size,
            parse_status: self.parse_status@,
            parse_error: text_opt(self.parse_error),
            crc_ok: self.crc_ok,
            crc_expected: self.crc_expected,
            crc_actual: self.crc_actual,
        }
    }
}

/// A claim that a node provides an object id.
#[derive(Debug)]
pub struct OidCandidate {
    pub oid: Vec<u8>,
    pub node_id: i64,
    pub origin: String,
    pub idx_present: i64,
    pub crc_ok: Option<i64>,
    /// 0 when the checksum of the file that makes the claim fails.
    pub checksum_ok: i64,
    pub rank_key: String,
}

/// The model of a claim.
pub ghost struct CandModel {
    pub oid: Seq<u8>,
    pub node_id: i64,
    pub origin: Seq<char>,
    pub idx_present: i64,
    pub crc_ok: Option<i64>,
    pub checksum_ok: i64,
    pub rank_key: Seq<char>,
}

impl View for OidCandidate {
    type V = CandModel;

    open spec fn view(&self) -> CandModel {
        CandModel {
            oid: self.oid@,
            node_id: self.node_id,
            origin: self.origin@,
            idx_present: self.idx_present,
            crc_ok: self.crc_ok,
            checksum_ok: self.checksum_ok,
            rank_key: self.rank_key@,
        }
    }
}

/// One node of a chain.
#[derive(Debug)]
pub struct ChainLink {
    pub node_id: i64,
    pub kind: String,
    pub source_id: i64,
    pub offset: Option<i64>,
}

/// The model of a chain link.
pub ghost struct LinkModel {
    pub node_id: i64,
    pub kind: Seq<char>,
    pub source_id: i64,
    pub offset: Option<i64>,
}

impl View for ChainLink {
    type V = LinkModel;

    open spec fn view(&self) -> LinkModel {
        LinkModel {
            node_id: self.node_id,
            kind: self.kind@,
            source_id: self.source_id,
            offset: self.offset,
        }
    }
}

/// The models of chain links.
pub open spec fn link_models(v: Seq<ChainLink>) -> Seq<LinkModel> {
    v.map_values(|l: ChainLink| l@)
}

/// What is kept of the settlement of a node.
#[derive(Debug)]
pub struct StatusRow {
    pub status: String,
    pub error_code: Option<String>,
    pub error_message: Option<String>,
    pub note: Option<String>,
    pub final_type: Option<String>,
    pub final_size: Option<i64>,
    pub final_oid: Option<Vec<u8>>,
    pub oid_ok: Option<bool>,
    pub content: Option<Vec<u8>>,
    pub depth: Option<i64>,
    pub chain: Option<Vec<ChainLink>>,
    pub blocking: Option<Vec<i64>>,
    pub recompute_count: u64,
}

/// The model of a settlement.
pub ghost struct RowModel {
    pub status: Seq<char>,
    pub error_code: Option<Seq<char>>,
    pub error_message: Option<Seq<char>>,
    pub note: Option<Seq<char>>,
    pub final_type: Option<Seq<char>>,
    pub final_size: Option<i64>,
    pub final_oid: Option<Seq<u8>>,
    pub oid_ok: Option<bool>,
    pub content: Option<Seq<u8>>,
    pub depth: Option<i64>,
    pub chain: Option<Seq<LinkModel>>,
    pub blocking: Option<Seq<i64>>,
    pub recompute_count: u64,
}

pub open spec fn chain_opt(c: Option<Vec<ChainLink>>) -> Option<Seq<LinkModel>> {
    match c {
        Some(v) => Some(link_models(v@)),
        None => None,
    }
}

pub open spec fn ids_opt(c: Option<Vec<i64>>) -> Option<Seq<i64>> {
    match c {
        Some(v) => Some(v@),
        None => None,
    }
}

impl DeepView for StatusRow {
    type V = RowModel;

    open spec fn deep_view(&self) -> RowModel {
        RowModel {
            status: self.status@,
            error_code: text_opt(self.error_code),
            error_message: text_opt(self.error_message),
            note: text_opt(self.note),
            final_type: text_opt(self.final_type),
            final_size: self.final_size,
            final_oid: bytes_opt(self.final_oid),
            oid_ok: self.oid_ok,
            content: bytes_opt(self.content),
            depth: self.depth,
            chain: chain_opt(self.chain),
            blocking: ids_opt(self.blocking),
            recompute_count: self.recompute_count,
        }
    }
}

/// The record of one delta that was applied.
#[derive(Debug)]
pub struct StepRow {
    pub node_id: i64,
    pub step: i64,
    pub base_node_id: i64,
    pub base_oid: Option<Vec<u8>>,
    pub input_len: i64,
    pub output_len: i64,
    pub instrs: Vec<DeltaInstr>,
    pub check_ok: bool,
    pub note: String,
}

/// The model of a delta record.
pub ghost struct StepModel {
    pub node_id: i64,
    pub step: i64,
    pub base_node_id: i64,
    pub base_oid: Option<Seq<u8>>,
    pub input_len: i64,
    pub output_len: i64,
    pub instrs: Seq<DeltaInstr>,
    pub check_ok: bool,
    pub note: Seq<char>,
}

impl View for StepRow {
    type V = StepModel;

    open spec fn view(&self) -> StepModel {
        StepModel {
            node_id: self.node_id,
            step: self.step,
            base_node_id: self.base_node_id,
            base_oid: bytes_opt(self.base_oid),
            input_len: self.input_len,
            output_len: self.output_len,
            instrs: self.instrs@,
            check_ok: self.check_ok,
            note: self.note@,
        }
    }
}

/// All that a branch knows.
pub struct World {
    /// The imported files, by id.
    pub sources: IdMap<SourceRow>,
    /// The fanout tables of the indexes.
    pub fanout: Vec<FanoutRow>,
    /// The nodes, by id.
    pub nodes: IdMap<NodeInfo>,
    pub candidates: Vec<OidCandidate>,
    pub pins: Vec<(Vec<u8>, i64)>,
    pub rows: IdMap<StatusRow>,
    pub steps: Vec<StepRow>,
    /// What each resolved node cost.
    pub ledger: IdMap<i64>,
    /// The ids of whole objects: computed, or given by the path of a loose one.
    pub computed: IdMap<Vec<u8>>,
}

/// The model of a branch.
pub ghost struct WorldModel {
    pub sources: Seq<(i64, SourceModel)>,
    pub fanout: Seq<FanoutRow>,
    pub nodes: Seq<(i64, NodeModel)>,
    pub candidates: Seq<CandModel>,
    pub pins: Seq<(Seq<u8>, i64)>,
    pub rows: Seq<(i64, RowModel)>,
    pub steps: Seq<StepModel>,
    pub ledger: Seq<(i64, i64)>,
    pub computed: Seq<(i64, Seq<u8>)>,
}

pub open spec fn cand_models(v: Seq<OidCandidate>) -> Seq<CandModel> {
    v.map_values(|c: OidCandidate| c@)
}

pub open spec fn step_models(v: Seq<StepRow>) -> Seq<StepModel> {
    v.map_values(|c: StepRow| c@)
}

pub open spec fn pin_models(v: Seq<(Vec<u8>, i64)>) -> Seq<(Seq<u8>, i64)> {
    v.map_values(|p: (Vec<u8>, i64)| (p.0@, p.1))
}

impl View for World {
    type V = WorldModel;

    open spec fn view(&self) -> WorldModel {
        WorldModel {
            sources: self.sources@,
            fanout: self.fanout@,
            nodes: self.nodes@,
            candidates: cand_models(self.candidates@),
            pins: pin_models(self.pins@),
            rows: self.rows@,
            steps: step_models(self.steps@),
            ledger: self.ledger@,
            computed: self.computed@,
        }
    }
}

/// The kinds of deltas.
pub open spec fn is_delta_kind(kind: Seq<char>) -> bool {
    kind == "ofs_delta"@ || kind == "ref_delta"@
}

/// `a` comes before `b` in the order of texts.
pub open spec fn key_less(a: Seq<char>, b: Seq<char>) -> bool {
    bytes_less(encode_utf8(a), encode_utf8(b))
}

/// Of two claims the one with the lower key; the first when the keys are equal.
pub open spec fn better(a: Option<CandModel>, b: CandModel) -> CandModel {
    match a {
        Some(c) => if key_less(b.rank_key, c.rank_key) {
            b
        } else {
            c
        },
        None => b,
    }
}

/// The best claim on an object id.
pub open spec fn best_for_oid(cs: Seq<CandModel>, oid: Seq<u8>) -> Option<CandModel>
    decreases cs.len(),
{
    if cs.len() == 0 {
        None
    } else if cs.last().oid == oid {
        Some(better(best_for_oid(cs.drop_last(), oid), cs.last()))
    } else {
        best_for_oid(cs.drop_last(), oid)
    }
}

/// The best claim of an index on a node.
pub open spec fn index_claim(cs: Seq<CandModel>, node: i64) -> Option<CandModel>
    decreases cs.len(),
{
    if cs.len() == 0 {
        None
    } else if cs.last().node_id == node && cs.last().origin == "index"@ {
        Some(better(index_claim(cs.drop_last(), node), cs.last()))
    } else {
        index_claim(cs.drop_last(), node)
    }
}

/// How many claims of indexes a node has.
pub open spec fn index_count(cs: Seq<CandModel>, node: i64) -> nat
    decreases cs.len(),
{
    if cs.len() == 0 {
        0
    } else {
        index_count(cs.drop_last(), node) + if cs.last().node_id == node && cs.last().origin == "index"@ {
            1nat
        } else {
            0nat
        }
    }
}

/// The claim that a node was computed to be an object id is listed.
pub open spec fn has_computed(cs: Seq<CandModel>, node: i64, oid: Seq<u8>) -> bool {
    exists|i: int|
        0 <= i < cs.len() && (#[trigger] cs[i]).node_id == node && cs[i].oid == oid && cs[i].origin
            == "computed"@
}

/// The first node at an offset of a source.
pub open spec fn node_at(nodes: Seq<(i64, NodeModel)>, source: i64, offset: i64) -> Option<i64>
    decreases nodes.len(),
{
    if nodes.len() == 0 {
        None
    } else if nodes[0].1.source_id == source && nodes[0].1.pack_offset == Some(offset) {
        Some(nodes[0].1.id)
    } else {
        node_at(nodes.skip(1), source, offset)
    }
}

/// The base of a node.
pub open spec fn base_of(w: WorldModel, n: NodeModel) -> Option<i64> {
    if n.kind == "ofs_delta"@ {
        node_at(
            w.nodes,
            n.source_id,
            match n.ofs_base_offset {
                Some(o) => o,
                None => -1i64,
            },
        )
    } else if n.kind == "ref_delta"@ {
        match n.ref_base_oid {
            None => None,
            Some(oid) => match get(w.pins, oid) {
                Some(p) => Some(p),
                None => match best_for_oid(w.candidates, oid) {
                    Some(c) => Some(c.node_id),
                    None => None,
                },
            },
        }
    } else {
        None
    }
}

/// The size that a node is expected to produce: a leaf its content, a delta the result size of
/// its header.
pub open spec fn planned_size(n: NodeModel) -> i64 {
    if is_delta_kind(n.kind) {
        match n.raw {
            Some(d) => match sizes(d) {
                Ok((base_size, result_size, start)) => signed(result_size),
                Err(_) => n.declared_size,
            },
            None => n.declared_size,
        }
    } else {
        match n.raw {
            Some(c) => signed(c.len()),
            None => n.declared_size,
        }
    }
}

/// The link of a node.
pub open spec fn link_of(nodes: Seq<(i64, NodeModel)>, id: i64) -> LinkModel {
    match get(nodes, id) {
        Some(n) => LinkModel { node_id: id, kind: n.kind, source_id: n.source_id, offset: n.pack_offset },
        None => LinkModel { node_id: id, kind: ""@, source_id: 0, offset: None },
    }
}

/// The links of a chain.
pub open spec fn links_of(nodes: Seq<(i64, NodeModel)>, chain: Seq<i64>) -> Seq<LinkModel> {
    chain.map_values(|id: i64| link_of(nodes, id))
}

/// The deltas of a chain.
pub open spec fn deltas_of(nodes: Seq<(i64, NodeModel)>, chain: Seq<i64>) -> Seq<i64>
    decreases chain.len(),
{
    if chain.len() == 0 {
        Seq::empty()
    } else {
        let before = deltas_of(nodes, chain.drop_last());
        if is_delta_kind(link_of(nodes, chain.last()).kind) {
            before.push(chain.last())
        } else {
            before
        }
    }
}

/// The list without elements that repeat the one before them.
pub open spec fn deduped(s: Seq<i64>) -> Seq<i64>
    decreases s.len(),
{
    if s.len() == 0 {
        s
    } else {
        let before = deduped(s.drop_last());
        if before.len() > 0 && before.last() == s.last() {
            before
        } else {
            before.push(s.last())
        }
    }
}

/// The nodes that block a chain.
pub open spec fn blockers_of(nodes: Seq<(i64, NodeModel)>, chain: Seq<i64>, terminal: Option<i64>) -> Seq<i64> {
    deduped(
        match terminal {
            Some(t) => deltas_of(nodes, chain).push(t),
            None => deltas_of(nodes, chain),
        },
    )
}

/// A settlement without a result.
pub open spec fn verdict(
    status: Seq<char>,
    code: Seq<char>,
    message: Option<Seq<char>>,
    note: Option<Seq<char>>,
    depth: i64,
    chain: Option<Seq<LinkModel>>,
    blocking: Seq<i64>,
) -> RowModel {
    RowModel {
        status,
        error_code: Some(code),
        error_message: message,
        note,
        final_type: None,
        final_size: None,
        final_oid: None,
        oid_ok: None,
        content: None,
        depth: Some(depth),
        chain,
        blocking: Some(blocking),
        recompute_count: 0,
    }
}

/// One more recomputation than an earlier settlement had.
pub open spec fn recounted(rows: Seq<(i64, RowModel)>, id: i64) -> u64 {
    match get(rows, id) {
        Some(r) => if r.recompute_count < u64::MAX {
            (r.recompute_count + 1) as u64
        } else {
            u64::MAX
        },
        None => 0,
    }
}

/// The settlements with one more; content that was stored earlier stays.
pub open spec fn persisted(rows: Seq<(i64, RowModel)>, id: i64, s: RowModel) -> Seq<(i64, RowModel)> {
    put(
        rows,
        id,
        RowModel {
            content: match get(rows, id) {
                Some(r) => r.content,
                None => None,
            },
            recompute_count: recounted(rows, id),
            ..s
        },
    )
}

/// The branch with a settlement of node `id`.
pub open spec fn with_verdict(w: WorldModel, id: i64, s: RowModel) -> WorldModel {
    WorldModel { rows: persisted(w.rows, id, s), ..w }
}

/// The branch with the trouble of a base passed on to `root`.
pub open spec fn inherited(w: WorldModel, root: i64, base: i64, chain: Seq<i64>) -> WorldModel {
    let b = get(w.rows, base)->0;
    let row = match get(w.rows, root) {
        Some(r) => RowModel {
            status: b.status,
            error_code: b.error_code,
            error_message: b.error_message,
            blocking: Some(blockers_of(w.nodes, chain, Some(base))),
            ..r
        },
        None => RowModel {
            error_code: b.error_code,
            error_message: b.error_message,
            ..verdict(
                b.status,
                ""@,
                None,
                Some("inherited from unresolved base"@),
                signed(chain.len()),
                Some(links_of(w.nodes, chain)),
                blockers_of(w.nodes, chain, Some(base)),
            )
        },
    };
    WorldModel { rows: put(w.rows, root, row), ..w }
}

/// How a chain ends: settled, or to be built.
pub ghost enum Walk {
    Done(WorldModel),
    Build(Seq<i64>),
}

/// The verdict on a base that is missing.
pub open spec fn no_base(w: WorldModel, n: NodeModel, chain: Seq<i64>, cur: i64) -> RowModel {
    let target = match n.ref_base_oid {
        Some(o) => hex(o),
        None => "offset "@ + dec_int(
            match n.ofs_base_offset {
                Some(o) => o as int,
                None => -1,
            },
        ),
    };
    verdict(
        "blocked"@,
        if n.kind == "ref_delta"@ {
            "missing_ref_base"@
        } else {
            "missing_ofs_base"@
        },
        Some("base "@ + target + " cannot be found"@),
        Some("retryable automatically once a matching base is imported"@),
        signed(chain.len()),
        Some(links_of(w.nodes, chain)),
        blockers_of(w.nodes, chain, Some(cur)),
    )
}

/// The walk from `cur` down to a whole object, or to one that is resolved already and whose content
/// is used again, after `chain`.
pub open spec fn walked(w: WorldModel, root: i64, budget: Budget, chain: Seq<i64>, cur: i64) -> Walk
    decreases budget.max_depth - chain.len(),
{
    if chain.contains(cur) {
        Walk::Done(
            with_verdict(
                w,
                root,
                verdict(
                    "error"@,
                    "delta_cycle"@,
                    Some("delta chain cycles back to node "@ + dec_int(cur as int)),
                    Some("cyclic object isolated"@),
                    signed(chain.len()),
                    Some(links_of(w.nodes, chain)),
                    blockers_of(w.nodes, chain, Some(cur)),
                ),
            ),
        )
    } else {
        match get(w.nodes, cur) {
            None => Walk::Done(
                with_verdict(
                    w,
                    root,
                    verdict(
                        "blocked"@,
                        "missing_node"@,
                        Some("node "@ + dec_int(cur as int) + " vanished"@),
                        None,
                        signed(chain.len()),
                        None,
                        seq![cur],
                    ),
                ),
            ),
            Some(n) => if cur != root && has_key(w.rows, cur) {
                if get(w.rows, cur)->0.status != "resolved"@ {
                    Walk::Done(inherited(w, root, cur, chain))
                } else {
                    Walk::Build(chain.push(cur))
                }
            } else if n.kind == "idx_placeholder"@ {
                Walk::Done(
                    with_verdict(
                        w,
                        root,
                        verdict(
                            "blocked"@,
                            "missing_pack"@,
                            Some("index declares the object but no matching pack is imported"@),
                            Some("retryable automatically once the pack arrives"@),
                            signed(chain.len()),
                            Some(links_of(w.nodes, chain)),
                            blockers_of(w.nodes, chain, Some(cur)),
                        ),
                    ),
                )
            } else if chain.len() >= budget.max_depth {
                Walk::Done(
                    with_verdict(
                        w,
                        root,
                        verdict(
                            "paused"@,
                            "depth_limit"@,
                            Some(
                                "delta depth "@ + dec(chain.len()) + " exceeds budget "@ + dec_int(
                                    budget.max_depth as int,
                                ),
                            ),
                            Some("retryable: raise max_depth and retry this object"@),
                            signed(chain.len()),
                            Some(links_of(w.nodes, chain)),
                            blockers_of(w.nodes, chain, None),
                        ),
                    ),
                )
            } else {
                let next = chain.push(cur);
                if is_delta_kind(n.kind) {
                    match base_of(w, n) {
                        Some(b) => walked(w, root, budget, next, b),
                        None => Walk::Done(with_verdict(w, root, no_base(w, n, next, cur))),
                    }
                } else {
                    Walk::Build(next)
                }
            },
        }
    }
}

/// A node is resolved.
pub open spec fn is_resolved(w: WorldModel, id: i64) -> bool {
    get(w.rows, id) matches Some(r) && r.status == "resolved"@
}

/// A node that the ledger does not know and that is not resolved.
pub open spec fn is_new(w: WorldModel, id: i64) -> bool {
    !has_key(w.ledger, id) && !is_resolved(w, id)
}

/// What the new nodes of `order` are expected to cost.
pub open spec fn new_cost(w: WorldModel, order: Seq<i64>) -> int
    decreases order.len(),
{
    if order.len() == 0 {
        0
    } else {
        let id = order.last();
        let before = new_cost(w, order.drop_last());
        if is_new(w, id) && !order.drop_last().contains(id) {
            match get(w.nodes, id) {
                Some(n) => before + planned_size(n),
                None => before,
            }
        } else {
            before
        }
    }
}

/// What a ledger adds up to.
pub open spec fn spent(ledger: Seq<(i64, i64)>) -> int
    decreases ledger.len(),
{
    if ledger.len() == 0 {
        0
    } else {
        spent(ledger.drop_last()) + ledger.last().1
    }
}

/// The ledger with what a node cost, unless it knows the node.
pub open spec fn charged(ledger: Seq<(i64, i64)>, id: i64, cost: i64) -> Seq<(i64, i64)> {
    if has_key(ledger, id) {
        ledger
    } else {
        ledger.push((id, cost))
    }
}

/// The kind of whole object that a name stands for; a blob when it stands for none.
pub open spec fn kind_or_blob(s: Seq<char>) -> ObjType {
    match kind_of(s) {
        Some(t) => if t.delta() {
            ObjType::Blob
        } else {
            t
        },
        None => ObjType::Blob,
    }
}

/// The id of an object.
pub open spec fn id_of(t: ObjType, content: Seq<u8>) -> Seq<u8> {
    sha1_of(object_frame(t.text(), content))
}

/// Where `x` first stands in `s`; zero when it does not.
pub open spec fn place_or_zero(s: Seq<i64>, x: i64) -> nat {
    let p = crate::analyze::graph::place(s, x);
    if p < s.len() {
        p
    } else {
        0
    }
}

/// The settlement of a node that was rebuilt.
pub open spec fn final_row(w: WorldModel, id: i64, t: ObjType, content: Seq<u8>, order: Seq<i64>) -> RowModel {
    RowModel {
        status: "resolved"@,
        error_code: None,
        error_message: None,
        note: None,
        final_type: Some(kind_text(t)),
        final_size: Some(signed(content.len())),
        final_oid: Some(id_of(t, content)),
        oid_ok: Some(true),
        content: Some(content),
        depth: Some(signed(place_or_zero(order, id))),
        chain: Some(links_of(w.nodes, order.reverse())),
        blocking: None,
        recompute_count: recounted(w.rows, id),
    }
}

/// The branch with a node rebuilt.
pub open spec fn finished(w: WorldModel, id: i64, t: ObjType, content: Seq<u8>, order: Seq<i64>) -> WorldModel {
    WorldModel {
        rows: put(w.rows, id, final_row(w, id, t, content, order)),
        ledger: charged(w.ledger, id, signed(content.len())),
        ..w
    }
}

/// A step replaces an earlier one of the same node and number.
pub open spec fn with_step(steps: Seq<StepModel>, s: StepModel) -> Seq<StepModel>
    decreases steps.len(),
{
    if steps.len() == 0 {
        seq![s]
    } else if steps[0].node_id == s.node_id && steps[0].step == s.step {
        seq![s] + steps.skip(1)
    } else {
        seq![steps[0]] + with_step(steps.skip(1), s)
    }
}

/// The number of the last node of a chain.
pub open spec fn depth_of(order: Seq<i64>) -> i64 {
    if order.len() == 0 {
        -1i64
    } else {
        signed((order.len() - 1) as nat)
    }
}

/// The settlement of a node whose result is not what an index claims.
pub open spec fn mismatch(
    t: ObjType,
    content: Seq<u8>,
    message: Seq<char>,
    note: Option<Seq<char>>,
    depth: i64,
    chain: Seq<LinkModel>,
    id: i64,
) -> RowModel {
    RowModel {
        final_type: Some(kind_text(t)),
        final_size: Some(signed(content.len())),
        final_oid: Some(id_of(t, content)),
        oid_ok: Some(false),
        ..verdict("error"@, "oid_mismatch"@, Some(message), note, depth, Some(chain), seq![id])
    }
}

/// The objects that are at hand while a chain is built.
pub ghost struct Bench {
    pub w: WorldModel,
    pub built: Seq<(i64, (ObjType, Seq<u8>))>,
}

/// Building a delta.
pub open spec fn delta_built(b: Bench, order: Seq<i64>, k: int, n: NodeModel) -> Bench {
    let id = order[k];
    let chain = links_of(b.w.nodes, order.reverse());
    match base_of(b.w, n) {
        None => b,
        Some(base_id) => match (get(b.built, base_id), n.raw) {
            (Some((t, base)), Some(d)) => match result_of(base, d) {
                Err(e) => Bench {
                    w: with_verdict(
                        b.w,
                        id,
                        verdict(
                            "error"@,
                            "bad_delta"@,
                            Some(e.message),
                            Some("bad delta instruction; object isolated"@),
                            signed(k as nat),
                            Some(chain),
                            seq![id],
                        ),
                    ),
                    ..b
                },
                Ok((out, instrs)) => {
                    let claim = index_claim(b.w.candidates, id);
                    let check = match claim {
                        Some(c) => c.oid == id_of(t, out),
                        None => true,
                    };
                    let step = StepModel {
                        node_id: id,
                        step: signed(k as nat),
                        base_node_id: base_id,
                        base_oid: n.ref_base_oid,
                        input_len: signed(base.len()),
                        output_len: signed(out.len()),
                        instrs,
                        check_ok: check,
                        note: if check {
                            "oid verified against index"@
                        } else {
                            "oid mismatch"@
                        },
                    };
                    let w = WorldModel { steps: with_step(b.w.steps, step), ..b.w };
                    if check {
                        Bench {
                            w: finished(w, id, t, out, order),
                            built: put(b.built, id, (t, out)),
                        }
                    } else {
                        Bench {
                            w: with_verdict(
                                w,
                                id,
                                mismatch(
                                    t,
                                    out,
                                    "reconstructed oid "@ + hex(id_of(t, out)) + " != index oid "@ + hex(
                                        claim->0.oid,
                                    ),
                                    Some("delta result rejected; partial bytes not stored"@),
                                    depth_of(order),
                                    chain,
                                    id,
                                ),
                            ),
                            ..b
                        }
                    }
                },
            },
            _ => b,
        },
    }
}

/// Building a whole object.
pub open spec fn leaf_built(b: Bench, order: Seq<i64>, k: int, n: NodeModel) -> Bench {
    let id = order[k];
    match n.raw {
        None => b,
        Some(content) => {
            let t = kind_or_blob(n.kind);
            let oid = id_of(t, content);
            let w = WorldModel { computed: put(b.w.computed, id, oid), ..b.w };
            let claim = index_claim(w.candidates, id);
            if claim is Some && claim->0.oid != oid {
                Bench {
                    w: with_verdict(
                        w,
                        id,
                        mismatch(
                            t,
                            content,
                            "parsed oid "@ + hex(oid) + " != index oid "@ + hex(claim->0.oid),
                            None,
                            0,
                            links_of(w.nodes, order.reverse()),
                            id,
                        ),
                    ),
                    ..b
                }
            } else {
                let count = index_count(w.candidates, id);
                let listed = if has_computed(w.candidates, id, oid) {
                    w
                } else {
                    WorldModel {
                        candidates: w.candidates.push(
                            CandModel {
                                oid,
                                node_id: id,
                                origin: "computed"@,
                                idx_present: signed(count),
                                crc_ok: n.crc_ok,
                                checksum_ok: 1,
                                rank_key: rank_text(
                                    "computed"@,
                                    count > 0,
                                    None,
                                    n.source_id,
                                    n.pack_offset,
                                ),
                            },
                        ),
                        ..w
                    }
                };
                Bench {
                    w: finished(listed, id, t, content, order),
                    built: put(b.built, id, (t, content)),
                }
            }
        },
    }
}

/// Building the node with number `k` of a chain.
pub open spec fn node_built(b: Bench, order: Seq<i64>, k: int) -> Bench {
    let id = order[k];
    let chain = links_of(b.w.nodes, order.reverse());
    match get(b.w.nodes, id) {
        None => b,
        Some(n) => if is_resolved(b.w, id) {
            let r = get(b.w.rows, id)->0;
            if has_key(b.built, id) {
                b
            } else {
                Bench {
                    built: put(
                        b.built,
                        id,
                        (
                            kind_or_blob(
                                match r.final_type {
                                    Some(t) => t,
                                    None => ""@,
                                },
                            ),
                            match r.content {
                                Some(c) => c,
                                None => Seq::empty(),
                            },
                        ),
                    ),
                    ..b
                }
            }
        } else if n.parse_status != "ok"@ {
            Bench {
                w: with_verdict(
                    b.w,
                    id,
                    verdict(
                        "error"@,
                        "inflate_failed"@,
                        n.parse_error,
                        Some("object isolated; other objects continue analysis"@),
                        signed(k as nat),
                        Some(chain),
                        seq![id],
                    ),
                ),
                ..b
            }
        } else if n.crc_ok == Some(0i64) {
            Bench {
                w: with_verdict(
                    b.w,
                    id,
                    RowModel {
                        oid_ok: Some(false),
                        ..verdict(
                            "error"@,
                            "crc_mismatch"@,
                            Some(
                                "index CRC32 "@ + dec_int(
                                    match n.crc_expected {
                                        Some(c) => c as int,
                                        None => -1,
                                    },
                                ) + " does not match the compressed bytes in the pack"@,
                            ),
                            Some("corrupt entry isolated; not used as a base"@),
                            signed(k as nat),
                            Some(chain),
                            seq![id],
                        )
                    },
                ),
                ..b
            }
        } else if is_delta_kind(n.kind) {
            delta_built(b, order, k, n)
        } else {
            leaf_built(b, order, k, n)
        },
    }
}

/// Building the nodes of a chain from number `k` on.
pub open spec fn chain_built(b: Bench, order: Seq<i64>, k: int) -> WorldModel
    decreases order.len() - k,
{
    if k >= order.len() {
        b.w
    } else {
        chain_built(node_built(b, order, k), order, k + 1)
    }
}

/// The branch once node `root` has been settled.
pub open spec fn settled(w: WorldModel, root: i64, budget: Budget) -> WorldModel {
    match walked(w, root, budget, Seq::empty(), root) {
        Walk::Done(d) => d,
        Walk::Build(chain) => {
            let order = chain.reverse();
            let cost = new_cost(w, order);
            let cap = budget.max_total_expand * budget.single_object_ratio;
            let depth = depth_of(order);
            let links = Some(links_of(w.nodes, chain));
            let blockers = blockers_of(w.nodes, chain, None);
            if cost > cap {
                with_verdict(
                    w,
                    root,
                    verdict(
                        "paused"@,
                        "single_object_ratio"@,
                        Some(
                            "single object expansion "@ + dec_int(cost) + " exceeds ratio cap "@ + dec_int(cap),
                        ),
                        Some("retryable: raise single_object_ratio"@),
                        depth,
                        links,
                        blockers,
                    ),
                )
            } else if cost > budget.max_total_expand - spent(w.ledger) {
                with_verdict(
                    w,
                    root,
                    verdict(
                        "paused"@,
                        "total_budget_exceeded"@,
                        Some(
                            "object needs "@ + dec_int(cost) + " new bytes; ledger at "@ + dec_int(
                                spent(w.ledger),
                            ) + " of "@ + dec_int(budget.max_total_expand as int),
                        ),
                        Some("retryable: raise max_total_expand or reset the expansion ledger"@),
                        depth,
                        links,
                        blockers,
                    ),
                )
            } else {
                chain_built(Bench { w, built: Seq::empty() }, order, 0)
            }
        },
    }
}


fn is_delta_name(kind: &str) -> (r: bool)
    ensures
        r == is_delta_kind(kind@),
{
    same_text(kind, "ofs_delta") || same_text(kind, "ref_delta")
}

fn copy_bytes_opt(b: &Option<Vec<u8>>) -> (r: Option<Vec<u8>>)
    ensures
        bytes_opt(r) == bytes_opt(*b),
{
    match b {
        Some(v) => Some(v.clone()),
        None => None,
    }
}

/// Expected produced size of one node: leaf = content size, delta = the target
/// size declared in the delta header (read without applying instructions).
fn planned_output_size(n: &NodeInfo) -> (r: i64)
    ensures
        r == planned_size(n.deep_view()),
{
    if is_delta_name(n.kind.as_str()) {
        if let Some(d) = &n.raw {
            if let Ok((_, result_size)) = declared_sizes(d.as_slice()) {
                return to_signed(result_size);
            }
        }
        n.declared_size
    } else {
        match &n.raw {
            Some(c) => to_signed(c.len() as u64),
            None => n.declared_size,
        }
    }
}

pub fn find_node_at(nodes: &IdMap<NodeInfo>, source: i64, offset: i64) -> (r: Option<i64>)
    ensures
        r == node_at(nodes@, source, offset),
{
    let mut i: usize = 0;
    assert(nodes@.skip(0) =~= nodes@);
    while i < nodes.len()
        invariant
            i <= nodes@.len(),
            node_at(nodes@, source, offset) == node_at(nodes@.skip(i as int), source, offset),
        decreases nodes@.len() - i,
    {
        let n = nodes.value_at(i);
        if n.source_id == source {
            if let Some(o) = n.pack_offset {
                if o == offset {
                    return Some(n.id);
                }
            }
        }
        assert(nodes@.skip(i as int).skip(1) =~= nodes@.skip(i + 1));
        i += 1;
    }
    None
}

fn find_pin(pins: &Vec<(Vec<u8>, i64)>, oid: &[u8]) -> (r: Option<i64>)
    ensures
        r == get(pin_models(pins@), oid@),
{
    let ghost m = pin_models(pins@);
    let mut i: usize = 0;
    while i < pins.len() && !same_bytes(pins[i].0.as_slice(), oid)
        invariant
            i <= pins@.len(),
            m == pin_models(pins@),
            forall|j: int| 0 <= j < i ==> (#[trigger] m[j]).0 != oid@,
        decreases pins@.len() - i,
    {
        i += 1;
    }
    proof {
        crate::model::assoc::lemma_row_is(m, oid@, i as nat);
    }
    if i < pins.len() {
        Some(pins[i].1)
    } else {
        None
    }
}

/// The position of the best claim on an object id.
fn best_candidate(cs: &Vec<OidCandidate>, oid: &[u8]) -> (r: Option<usize>)
    ensures
        match r {
            Some(i) => i < cs@.len() && best_for_oid(cand_models(cs@), oid@) == Some(cs@[i as int]@),
            None => best_for_oid(cand_models(cs@), oid@) is None,
        },
{
    let ghost m = cand_models(cs@);
    let mut found: Option<usize> = None;
    let mut i: usize = 0;
    assert(m.take(0) =~= Seq::empty());
    while i < cs.len()
        invariant
            i <= cs@.len(),
            m == cand_models(cs@),
            match found {
                Some(k) => k < i && best_for_oid(m.take(i as int), oid@) == Some(cs@[k as int]@),
                None => best_for_oid(m.take(i as int), oid@) is None,
            },
        decreases cs@.len() - i,
    {
        proof {
            assert(m.take(i + 1).drop_last() =~= m.take(i as int));
            assert(m.take(i + 1).last() == cs@[i as int]@);
        }
        if same_bytes(cs[i].oid.as_slice(), oid) {
            let replace: bool = match found {
                Some(k) => less(cs[i].rank_key.as_str().as_bytes(), cs[k].rank_key.as_str().as_bytes()),
                None => true,
            };
            if replace {
                found = Some(i);
            }
        }
        i += 1;
    }
    assert(m.take(i as int) =~= m);
    found
}

/// The position of the best claim of an index on a node, and how many there are.
fn index_claims(cs: &Vec<OidCandidate>, node: i64) -> (r: (Option<usize>, usize))
    ensures
        match r.0 {
            Some(i) => i < cs@.len() && index_claim(cand_models(cs@), node) == Some(cs@[i as int]@),
            None => index_claim(cand_models(cs@), node) is None,
        },
        r.1 == index_count(cand_models(cs@), node),
{
    let ghost m = cand_models(cs@);
    let mut found: Option<usize> = None;
    let mut count: usize = 0;
    let mut i: usize = 0;
    assert(m.take(0) =~= Seq::empty());
    while i < cs.len()
        invariant
            i <= cs@.len(),
            m == cand_models(cs@),
            count <= i,
            count == index_count(m.take(i as int), node),
            match found {
                Some(k) => k < i && index_claim(m.take(i as int), node) == Some(cs@[k as int]@),
                None => index_claim(m.take(i as int), node) is None,
            },
        decreases cs@.len() - i,
    {
        proof {
            assert(m.take(i + 1).drop_last() =~= m.take(i as int));
            assert(m.take(i + 1).last() == cs@[i as int]@);
        }
        if cs[i].node_id == node && same_text(cs[i].origin.as_str(), "index") {
            let replace: bool = match found {
                Some(k) => less(cs[i].rank_key.as_str().as_bytes(), cs[k].rank_key.as_str().as_bytes()),
                None => true,
            };
            if replace {
                found = Some(i);
            }
            count += 1;
        }
        i += 1;
    }
    assert(m.take(i as int) =~= m);
    (found, count)
}

fn computed_listed(cs: &Vec<OidCandidate>, node: i64, oid: &[u8]) -> (r: bool)
    ensures
        r == has_computed(cand_models(cs@), node, oid@),
{
    let ghost m = cand_models(cs@);
    let mut i: usize = 0;
    while i < cs.len()
        invariant
            i <= cs@.len(),
            m == cand_models(cs@),
            forall|k: int|
                0 <= k < i ==> !((#[trigger] m[k]).node_id == node && m[k].oid == oid@ && m[k].origin
                    == "computed"@),
        decreases cs@.len() - i,
    {
        assert(m[i as int] == cs@[i as int]@);
        if cs[i].node_id == node && same_bytes(cs[i].oid.as_slice(), oid) && same_text(
            cs[i].origin.as_str(),
            "computed",
        ) {
            return true;
        }
        i += 1;
    }
    false
}

impl World {
    fn resolve_base_node(&self, node: &NodeInfo) -> (r: Option<i64>)
        ensures
            r == base_of(self@, node.deep_view()),
    {
        if same_text(node.kind.as_str(), "ofs_delta") {
            let target: i64 = match node.ofs_base_offset {
                Some(o) => o,
                None => -1,
            };
            find_node_at(&self.nodes, node.source_id, target)
        } else if same_text(node.kind.as_str(), "ref_delta") {
            match &node.ref_base_oid {
                None => None,
                Some(oid) => match find_pin(&self.pins, oid.as_slice()) {
                    Some(p) => Some(p),
                    None => match best_candidate(&self.candidates, oid.as_slice()) {
                        Some(i) => Some(self.candidates[i].node_id),
                        None => None,
                    },
                },
            }
        } else {
            None
        }
    }

    fn link(&self, id: i64) -> (l: ChainLink)
        ensures
            l@ == link_of(self@.nodes, id),
    {
        match self.nodes.get(id) {
            Some(n) => ChainLink {
                node_id: id,
                kind: n.kind.clone(),
                source_id: n.source_id,
                offset: n.pack_offset,
            },
            None => ChainLink { node_id: id, kind: "".to_owned(), source_id: 0, offset: None },
        }
    }

    /// The links of a chain, which is kept from the node down to its whole base.
    fn chain_links(&self, chain: &Vec<i64>) -> (v: Vec<ChainLink>)
        ensures
            link_models(v@) == links_of(self@.nodes, chain@),
    {
        let mut v: Vec<ChainLink> = Vec::new();
        let mut i: usize = 0;
        assert(link_models(v@) =~= links_of(self@.nodes, chain@).take(0));
        while i < chain.len()
            invariant
                i <= chain@.len(),
                link_models(v@) == links_of(self@.nodes, chain@).take(i as int),
            decreases chain@.len() - i,
        {
            let ghost before = link_models(v@);
            let l = self.link(chain[i]);
            v.push(l);
            i += 1;
            assert(link_models(v@) =~= before.push(l@));
            assert(link_models(v@) =~= links_of(self@.nodes, chain@).take(i as int));
        }
        assert(link_models(v@) =~= links_of(self@.nodes, chain@));
        v
    }

    fn chain_links_from_order(&self, order: &Vec<i64>) -> (v: Vec<ChainLink>)
        ensures
            link_models(v@) == links_of(self@.nodes, order@.reverse()),
    {
        let chain = reversed(order);
        self.chain_links(&chain)
    }

    /// The deltas of a chain and the node at which it ends, without repetition.
    fn blocking_chain(&self, chain: &Vec<i64>, terminal: Option<i64>) -> (v: Vec<i64>)
        ensures
            v@ == blockers_of(self@.nodes, chain@, terminal),
    {
        let mut all: Vec<i64> = Vec::new();
        let mut i: usize = 0;
        assert(chain@.take(0) =~= Seq::empty());
        assert(all@ =~= deltas_of(self@.nodes, chain@.take(0)));
        while i < chain.len()
            invariant
                i <= chain@.len(),
                all@ == deltas_of(self@.nodes, chain@.take(i as int)),
            decreases chain@.len() - i,
        {
            proof {
                assert(chain@.take(i + 1).drop_last() =~= chain@.take(i as int));
                assert(chain@.take(i + 1).last() == chain@[i as int]);
            }
            let l = self.link(chain[i]);
            if is_delta_name(l.kind.as_str()) {
                all.push(chain[i]);
            }
            i += 1;
        }
        assert(chain@.take(i as int) =~= chain@);
        match terminal {
            Some(t) => {
                all.push(t);
            },
            None => {},
        }
        dedup(&all)
    }
}

fn dedup(v: &Vec<i64>) -> (r: Vec<i64>)
    ensures
        r@ == deduped(v@),
{
    let mut r: Vec<i64> = Vec::new();
    let mut i: usize = 0;
    assert(v@.take(0) =~= Seq::empty());
    assert(r@ =~= deduped(v@.take(0)));
    while i < v.len()
        invariant
            i <= v@.len(),
            r@ == deduped(v@.take(i as int)),
        decreases v@.len() - i,
    {
        proof {
            assert(v@.take(i + 1).drop_last() =~= v@.take(i as int));
            assert(v@.take(i + 1).last() == v@[i as int]);
        }
        let n: usize = r.len();
        if n > 0 && r[n - 1] == v[i] {
        } else {
            r.push(v[i]);
        }
        i += 1;
    }
    assert(v@.take(i as int) =~= v@);
    r
}

/// A settlement without a result.
fn make_verdict(
    status: &str,
    code: &str,
    message: Option<String>,
    note: Option<&str>,
    depth: i64,
    chain: Option<Vec<ChainLink>>,
    blocking: Vec<i64>,
) -> (r: StatusRow)
    ensures
        r.deep_view() == verdict(
            status@,
            code@,
            text_opt(message),
            match note {
                Some(n) => Some(n@),
                None => None,
            },
            depth,
            chain_opt(chain),
            blocking@,
        ),
{
    StatusRow {
        status: status.to_owned(),
        error_code: Some(code.to_owned()),
        error_message: message,
        note: match note {
            Some(n) => Some(n.to_owned()),
            None => None,
        },
        final_type: None,
        final_size: None,
        final_oid: None,
        oid_ok: None,
        content: None,
        depth: Some(depth),
        chain,
        blocking: Some(blocking),
        recompute_count: 0,
    }
}

fn copy_chain(c: &Vec<ChainLink>) -> (r: Vec<ChainLink>)
    ensures
        link_models(r@) == link_models(c@),
{
    let mut v: Vec<ChainLink> = Vec::new();
    let mut i: usize = 0;
    assert(link_models(v@) =~= link_models(c@).take(0));
    while i < c.len()
        invariant
            i <= c@.len(),
            link_models(v@) == link_models(c@).take(i as int),
        decreases c@.len() - i,
    {
        let ghost before = link_models(v@);
        let l = ChainLink {
            node_id: c[i].node_id,
            kind: c[i].kind.clone(),
            source_id: c[i].source_id,
            offset: c[i].offset,
        };
        v.push(l);
        i += 1;
        assert(link_models(v@) =~= before.push(l@));
        assert(link_models(v@) =~= link_models(c@).take(i as int));
    }
    assert(link_models(v@) =~= link_models(c@));
    v
}

fn copy_row(r: &StatusRow) -> (c: StatusRow)
    ensures
        c.deep_view() == r.deep_view(),
{
    StatusRow {
        status: r.status.clone(),
        error_code: copy_opt(&r.error_code),
        error_message: copy_opt(&r.error_message),
        note: copy_opt(&r.note),
        final_type: copy_opt(&r.final_type),
        final_size: r.final_size,
        final_oid: copy_bytes_opt(&r.final_oid),
        oid_ok: r.oid_ok,
        content: copy_bytes_opt(&r.content),
        depth: r.depth,
        chain: match &r.chain {
            Some(c) => Some(copy_chain(c)),
            None => None,
        },
        blocking: match &r.blocking {
            Some(b) => Some(b.clone()),
            None => None,
        },
        recompute_count: r.recompute_count,
    }
}

impl World {
    fn next_count(&self, id: i64) -> (n: u64)
        ensures
            n == recounted(self@.rows, id),
    {
        match self.rows.get(id) {
            Some(r) => if r.recompute_count < u64::MAX {
                r.recompute_count + 1
            } else {
                u64::MAX
            },
            None => 0,
        }
    }

    /// Keeps a settlement; content that was stored earlier stays.
    fn persist_settlement(&mut self, id: i64, s: StatusRow)
        ensures
            final(self)@ == with_verdict(old(self)@, id, s.deep_view()),
    {
        let mut row = s;
        row.recompute_count = self.next_count(id);
        row.content = match self.rows.get(id) {
            Some(r) => copy_bytes_opt(&r.content),
            None => None,
        };
        self.rows.insert(id, row);
    }

    /// Passes the trouble of an unresolved base on to `root`.
    fn propagate_blocker(&mut self, root: i64, base: i64, chain: &Vec<i64>)
        requires
            has_key(old(self)@.rows, base),
        ensures
            final(self)@ == inherited(old(self)@, root, base, chain@),
    {
        let blockers = self.blocking_chain(chain, Some(base));
        let (status, code, message) = match self.rows.get(base) {
            Some(b) => (b.status.clone(), copy_opt(&b.error_code), copy_opt(&b.error_message)),
            None => (String::new(), None, None),
        };
        let links = self.chain_links(chain);
        let mut row = match self.rows.get(root) {
            Some(r) => copy_row(r),
            None => make_verdict(
                "",
                "",
                None,
                Some("inherited from unresolved base"),
                to_signed(chain.len() as u64),
                Some(links),
                Vec::new(),
            ),
        };
        row.status = status;
        row.error_code = code;
        row.error_message = message;
        row.blocking = Some(blockers);
        self.rows.insert(root, row);
    }
}


/// How a walk ended.
enum Stop {
    Done,
    Build(Vec<i64>),
}

impl World {
    /// Walks from `root` down to a whole object. Settles `root` when the walk ends elsewhere.
    fn walk(&mut self, root: i64, budget: &Budget) -> (r: Stop)
        ensures
            match walked(old(self)@, root, *budget, Seq::empty(), root) {
                Walk::Done(d) => r is Done && final(self)@ == d,
                Walk::Build(chain) => r matches Stop::Build(v) && v@ == chain && final(self)@ == old(self)@,
            },
    {
        let ghost start = self@;
        let mut chain: Vec<i64> = Vec::new();
        let mut cur: i64 = root;
        assert(chain@ =~= Seq::empty());
        loop
            invariant
                self@ == start,
                start == old(self)@,
                chain@.len() <= i64::MAX,
                chain@.len() == 0 || chain@.len() <= budget.max_depth,
                walked(start, root, *budget, Seq::empty(), root) == walked(
                    start,
                    root,
                    *budget,
                    chain@,
                    cur,
                ),
            decreases budget.max_depth - chain@.len(),
        {
            let depth: i64 = to_signed(chain.len() as u64);
            if contains_id(&chain, cur) {
                let mut m = "delta chain cycles back to node ".to_owned();
                push_int(&mut m, cur);
                let row = make_verdict(
                    "error",
                    "delta_cycle",
                    Some(m),
                    Some("cyclic object isolated"),
                    depth,
                    Some(self.chain_links(&chain)),
                    self.blocking_chain(&chain, Some(cur)),
                );
                self.persist_settlement(root, row);
                return Stop::Done;
            }
            if !self.nodes.contains(cur) {
                let mut m = "node ".to_owned();
                push_int(&mut m, cur);
                m.append(" vanished");
                let mut only: Vec<i64> = Vec::new();
                only.push(cur);
                assert(only@ =~= seq![cur]);
                let row = make_verdict("blocked", "missing_node", Some(m), None, depth, None, only);
                self.persist_settlement(root, row);
                return Stop::Done;
            }
            if cur != root && self.rows.contains(cur) {
                let resolved: bool = match self.rows.get(cur) {
                    Some(r) => same_text(r.status.as_str(), "resolved"),
                    None => false,
                };
                if !resolved {
                    self.propagate_blocker(root, cur, &chain);
                    return Stop::Done;
                }
                chain.push(cur);
                return Stop::Build(chain);
            }
            let node = match self.nodes.get(cur) {
                Some(n) => n,
                None => return Stop::Done,
            };
            // Index placeholders mean the pack side of an idx is missing.
            if same_text(node.kind.as_str(), "idx_placeholder") {
                let row = make_verdict(
                    "blocked",
                    "missing_pack",
                    Some("index declares the object but no matching pack is imported".to_owned()),
                    Some("retryable automatically once the pack arrives"),
                    depth,
                    Some(self.chain_links(&chain)),
                    self.blocking_chain(&chain, Some(cur)),
                );
                self.persist_settlement(root, row);
                return Stop::Done;
            }
            if depth >= budget.max_depth {
                let mut m = "delta depth ".to_owned();
                push_dec(&mut m, chain.len() as u64);
                m.append(" exceeds budget ");
                push_int(&mut m, budget.max_depth);
                let row = make_verdict(
                    "paused",
                    "depth_limit",
                    Some(m),
                    Some("retryable: raise max_depth and retry this object"),
                    depth,
                    Some(self.chain_links(&chain)),
                    self.blocking_chain(&chain, None),
                );
                self.persist_settlement(root, row);
                return Stop::Done;
            }
            chain.push(cur);
            if !is_delta_name(node.kind.as_str()) {
                return Stop::Build(chain);
            }
            match self.resolve_base_node(node) {
                Some(b) => {
                    cur = b;
                },
                None => {
                    let row = self.missing_base(node, &chain, cur);
                    self.persist_settlement(root, row);
                    return Stop::Done;
                },
            }
        }
    }

    fn missing_base(&self, node: &NodeInfo, chain: &Vec<i64>, cur: i64) -> (r: StatusRow)
        ensures
            r.deep_view() == no_base(self@, node.deep_view(), chain@, cur),
    {
        let mut m = "base ".to_owned();
        match &node.ref_base_oid {
            Some(o) => {
                m.append(hex_encode(o.as_slice()).as_str());
            },
            None => {
                let mut t = "offset ".to_owned();
                push_int(
                    &mut t,
                    match node.ofs_base_offset {
                        Some(o) => o,
                        None => -1,
                    },
                );
                m.append(t.as_str());
            },
        }
        m.append(" cannot be found");
        let code = if same_text(node.kind.as_str(), "ref_delta") {
            "missing_ref_base"
        } else {
            "missing_ofs_base"
        };
        make_verdict(
            "blocked",
            code,
            Some(m),
            Some("retryable automatically once a matching base is imported"),
            to_signed(chain.len() as u64),
            Some(self.chain_links(chain)),
            self.blocking_chain(chain, Some(cur)),
        )
    }

    fn resolved_already(&self, id: i64) -> (r: bool)
        ensures
            r == is_resolved(self@, id),
    {
        match self.rows.get(id) {
            Some(r) => same_text(r.status.as_str(), "resolved"),
            None => false,
        }
    }

    /// What the new nodes of a chain are expected to cost.
    fn expected_cost(&self, order: &Vec<i64>) -> (c: i128)
        ensures
            c == new_cost(self@, order@),
    {
        let mut seen: Vec<i64> = Vec::new();
        let mut c: i128 = 0;
        let mut i: usize = 0;
        assert(order@.take(0) =~= Seq::empty());
        while i < order.len()
            invariant
                i <= order@.len(),
                seen@ == order@.take(i as int),
                c == new_cost(self@, order@.take(i as int)),
                -0x8000_0000_0000_0000 * i <= c <= 0x8000_0000_0000_0000 * i,
            decreases order@.len() - i,
        {
            let id: i64 = order[i];
            proof {
                assert(order@.take(i + 1).drop_last() =~= order@.take(i as int));
                assert(order@.take(i + 1).last() == id);
            }
            if !self.ledger.contains(id) && !self.resolved_already(id) && !contains_id(&seen, id) {
                if let Some(n) = self.nodes.get(id) {
                    c = c + planned_output_size(n) as i128;
                }
            }
            seen.push(id);
            i += 1;
            assert(seen@ =~= order@.take(i as int));
        }
        assert(order@.take(i as int) =~= order@);
        c
    }

    /// What the ledger adds up to.
    fn ledger_used(&self) -> (c: i128)
        ensures
            c == spent(self@.ledger),
    {
        let ghost l = self@.ledger;
        let mut c: i128 = 0;
        let mut i: usize = 0;
        assert(l.take(0) =~= Seq::empty());
        while i < self.ledger.len()
            invariant
                i <= l.len(),
                l == self.ledger@,
                c == spent(l.take(i as int)),
                -0x8000_0000_0000_0000 * i <= c <= 0x8000_0000_0000_0000 * i,
            decreases l.len() - i,
        {
            proof {
                assert(l.take(i + 1).drop_last() =~= l.take(i as int));
                assert(l.take(i + 1).last() == l[i as int]);
            }
            c = c + *self.ledger.value_at(i) as i128;
            i += 1;
        }
        assert(l.take(i as int) =~= l);
        c
    }

    fn add_ledger_cost(&mut self, id: i64, cost: i64)
        ensures
            final(self)@ == (WorldModel { ledger: charged(old(self)@.ledger, id, cost), ..old(self)@ }),
    {
        if !self.ledger.contains(id) {
            self.ledger.insert(id, cost);
        }
    }

    /// Keeps a node that was rebuilt, and what it cost.
    fn write_final(&mut self, id: i64, t: ObjType, content: &Vec<u8>, oid: &[u8; 20], order: &Vec<i64>)
        requires
            oid@ == id_of(t, content@),
        ensures
            final(self)@ == finished(old(self)@, id, t, content@, order@),
    {
        let mut p: usize = crate::analyze::graph::find_id(order, id);
        if p >= order.len() {
            p = 0;
        }
        let id_bytes = crate::model::bytes::copy_range(oid.as_slice(), 0, 20);
        assert(id_bytes@ =~= oid@);
        let row = StatusRow {
            status: "resolved".to_owned(),
            error_code: None,
            error_message: None,
            note: None,
            final_type: Some(kind_str(t).to_owned()),
            final_size: Some(to_signed(content.len() as u64)),
            final_oid: Some(id_bytes),
            oid_ok: Some(true),
            content: Some(content.clone()),
            depth: Some(to_signed(p as u64)),
            chain: Some(self.chain_links_from_order(order)),
            blocking: None,
            recompute_count: self.next_count(id),
        };
        self.rows.insert(id, row);
        self.add_ledger_cost(id, to_signed(content.len() as u64));
    }

    fn put_step(&mut self, s: StepRow)
        ensures
            final(self)@ == (WorldModel { steps: with_step(old(self)@.steps, s@), ..old(self)@ }),
    {
        let ghost before = self@.steps;
        let mut i: usize = 0;
        assert(before.skip(0) =~= before);
        assert(before.take(0) + with_step(before.skip(0), s@) =~= with_step(before, s@));
        while i < self.steps.len() && !(self.steps[i].node_id == s.node_id && self.steps[i].step == s.step)
            invariant
                i <= self.steps@.len(),
                before == step_models(self.steps@),
                with_step(before, s@) == before.take(i as int) + with_step(before.skip(i as int), s@),
            decreases self.steps@.len() - i,
        {
            proof {
                let rest = before.skip(i as int);
                assert(rest[0] == self.steps@[i as int]@);
                assert(rest.skip(1) =~= before.skip(i + 1));
                assert(before.take(i as int) + (seq![rest[0]] + with_step(before.skip(i + 1), s@))
                    =~= before.take(i + 1) + with_step(before.skip(i + 1), s@));
            }
            i += 1;
        }
        if i < self.steps.len() {
            proof {
                let rest = before.skip(i as int);
                assert(rest[0] == self.steps@[i as int]@);
            }
            self.steps.set(i, s);
        } else {
            self.steps.push(s);
        }
        assert(self@.steps =~= with_step(before, s@));
    }
}

/// An object that is at hand while a chain is built.
pub struct Part {
    pub kind: ObjType,
    pub content: Vec<u8>,
}

impl DeepView for Part {
    type V = (ObjType, Seq<u8>);

    open spec fn deep_view(&self) -> (ObjType, Seq<u8>) {
        (self.kind, self.content@)
    }
}

/// All objects at hand are whole.
pub open spec fn whole(built: Seq<(i64, (ObjType, Seq<u8>))>) -> bool {
    forall|i: int| 0 <= i < built.len() ==> !(#[trigger] built[i]).1.0.delta()
}

fn whole_kind(s: &str) -> (t: ObjType)
    ensures
        t == kind_or_blob(s@),
        !t.delta(),
{
    match parse_kind(s) {
        Some(t) => if t.is_delta() {
            ObjType::Blob
        } else {
            t
        },
        None => ObjType::Blob,
    }
}

fn total_depth(order: &Vec<i64>) -> (d: i64)
    ensures
        d == depth_of(order@),
{
    if order.len() == 0 {
        -1
    } else {
        to_signed((order.len() - 1) as u64)
    }
}

fn only(id: i64) -> (v: Vec<i64>)
    ensures
        v@ == seq![id],
{
    let mut v: Vec<i64> = Vec::new();
    v.push(id);
    assert(v@ =~= seq![id]);
    v
}

fn make_mismatch(
    t: ObjType,
    content: &Vec<u8>,
    oid: &[u8; 20],
    message: String,
    note: Option<&str>,
    depth: i64,
    chain: Vec<ChainLink>,
    id: i64,
) -> (r: StatusRow)
    requires
        oid@ == id_of(t, content@),
    ensures
        r.deep_view() == mismatch(
            t,
            content@,
            message@,
            match note {
                Some(n) => Some(n@),
                None => None,
            },
            depth,
            link_models(chain@),
            id,
        ),
{
    let mut row = make_verdict("error", "oid_mismatch", Some(message), note, depth, Some(chain), only(id));
    let id_bytes = crate::model::bytes::copy_range(oid.as_slice(), 0, 20);
    assert(id_bytes@ =~= oid@);
    row.final_type = Some(kind_str(t).to_owned());
    row.final_size = Some(to_signed(content.len() as u64));
    row.final_oid = Some(id_bytes);
    row.oid_ok = Some(false);
    row
}

impl World {
    fn build_delta(&mut self, built: &mut IdMap<Part>, order: &Vec<i64>, k: usize, id: i64)
        requires
            k < order@.len(),
            id == order@[k as int],
            has_key(old(self)@.nodes, id),
            whole(old(built)@),
        ensures
            whole(final(built)@),
            (Bench { w: final(self)@, built: final(built)@ }) == delta_built(
                Bench { w: old(self)@, built: old(built)@ },
                order@,
                k as int,
                get(old(self)@.nodes, id)->0,
            ),
    {
        let node = match self.nodes.get(id) {
            Some(n) => n,
            None => return,
        };
        let base_id: i64 = match self.resolve_base_node(node) {
            Some(b) => b,
            None => return,
        };
        proof {
            crate::model::assoc::lemma_row(built@, base_id);
        }
        let (t, base) = match built.get(base_id) {
            Some(p) => (p.kind, p.content.clone()),
            None => return,
        };
        let d = match &node.raw {
            Some(d) => d,
            None => return,
        };
        match apply_delta(base.as_slice(), d.as_slice()) {
            Err(e) => {
                let row = make_verdict(
                    "error",
                    "bad_delta",
                    Some(e.message),
                    Some("bad delta instruction; object isolated"),
                    to_signed(k as u64),
                    Some(self.chain_links_from_order(order)),
                    only(id),
                );
                self.persist_settlement(id, row);
            },
            Ok(res) => {
                let out = res.output;
                let oid = hash_object(t, out.as_slice());
                let (claim, _) = index_claims(&self.candidates, id);
                let check: bool = match claim {
                    Some(i) => same_bytes(self.candidates[i].oid.as_slice(), oid.as_slice()),
                    None => true,
                };
                let mut m = "reconstructed oid ".to_owned();
                m.append(hex_encode(oid.as_slice()).as_str());
                m.append(" != index oid ");
                if let Some(i) = claim {
                    m.append(hex_encode(self.candidates[i].oid.as_slice()).as_str());
                }
                let note = if check {
                    "oid verified against index".to_owned()
                } else {
                    "oid mismatch".to_owned()
                };
                let step = StepRow {
                    node_id: id,
                    step: to_signed(k as u64),
                    base_node_id: base_id,
                    base_oid: copy_bytes_opt(&node.ref_base_oid),
                    input_len: to_signed(base.len() as u64),
                    output_len: to_signed(out.len() as u64),
                    instrs: res.instrs,
                    check_ok: check,
                    note,
                };
                self.put_step(step);
                if check {
                    self.write_final(id, t, &out, &oid, order);
                    built.insert(id, Part { kind: t, content: out });
                } else {
                    let depth: i64 = total_depth(order);
                    let links = self.chain_links_from_order(order);
                    let row = make_mismatch(
                        t,
                        &out,
                        &oid,
                        m,
                        Some("delta result rejected; partial bytes not stored"),
                        depth,
                        links,
                        id,
                    );
                    self.persist_settlement(id, row);
                }
            },
        }
    }
}


/// A claim on an object id opens a delta that waited for it.
pub open spec fn has_claim(cs: Seq<CandModel>, oid: Seq<u8>) -> bool {
    exists|i: int| 0 <= i < cs.len() && (#[trigger] cs[i]).oid == oid
}

/// Following at most `fuel` bases from node `id` leads to `start`.
pub open spec fn rests_on(w: WorldModel, id: i64, start: i64, fuel: nat) -> bool
    decreases fuel,
{
    if id == start {
        true
    } else if fuel == 0 {
        false
    } else {
        match get(w.nodes, id) {
            None => false,
            Some(n) => match base_of(w, n) {
                None => false,
                Some(b) => rests_on(w, b, start, (fuel - 1) as nat),
            },
        }
    }
}

/// `start` and the nodes among the first `n` that rest on it.
pub open spec fn closure(w: WorldModel, start: i64, n: nat) -> Seq<i64>
    decreases n,
{
    if n == 0 {
        seq![start]
    } else {
        let before = closure(w, start, (n - 1) as nat);
        let id = w.nodes[n - 1].0;
        if rests_on(w, id, start, w.nodes.len()) {
            before.push(id)
        } else {
            before
        }
    }
}

/// The steps of nodes that are not in `gone`.
pub open spec fn steps_kept(steps: Seq<StepModel>, gone: Seq<i64>) -> Seq<StepModel>
    decreases steps.len(),
{
    if steps.len() == 0 {
        Seq::empty()
    } else if gone.contains(steps.last().node_id) {
        steps_kept(steps.drop_last(), gone)
    } else {
        steps_kept(steps.drop_last(), gone).push(steps.last())
    }
}

/// The branch without the settlements of `start` and of all that rests on it.
pub open spec fn cleared(w: WorldModel, start: i64) -> WorldModel {
    let gone = closure(w, start, w.nodes.len());
    WorldModel {
        rows: dropped(w.rows, gone),
        ledger: dropped(w.ledger, gone),
        steps: steps_kept(w.steps, gone),
        ..w
    }
}

/// A settlement waits for a base that has become known.
pub open spec fn can_open(w: WorldModel, row: (i64, RowModel)) -> bool {
    &&& row.1.status == "blocked"@ || row.1.status == "paused"@
    &&& row.1.error_code == Some("missing_ref_base"@)
    &&& get(w.nodes, row.0) matches Some(n) && n.ref_base_oid matches Some(oid) && has_claim(
        w.candidates,
        oid,
    )
}

/// The branch with every settlement among the first `k` of `rows` opened that can be.
pub open spec fn reaped(w: WorldModel, rows: Seq<(i64, RowModel)>, k: nat) -> WorldModel
    decreases k,
{
    if k == 0 {
        w
    } else {
        let before = reaped(w, rows, (k - 1) as nat);
        if can_open(w, rows[k - 1]) {
            cleared(before, rows[k - 1].0)
        } else {
            before
        }
    }
}

/// The nodes without a settlement, among the first `n`.
pub open spec fn unsettled(w: WorldModel, n: nat) -> Seq<i64>
    decreases n,
{
    if n == 0 {
        Seq::empty()
    } else if has_key(w.rows, w.nodes[n - 1].0) {
        unsettled(w, (n - 1) as nat)
    } else {
        unsettled(w, (n - 1) as nat).push(w.nodes[n - 1].0)
    }
}

/// The branch with the first `k` of `roots` settled.
pub open spec fn all_settled(w: WorldModel, roots: Seq<i64>, budget: Budget, k: nat) -> WorldModel
    decreases k,
{
    if k == 0 {
        w
    } else {
        settled(all_settled(w, roots, budget, (k - 1) as nat), roots[k - 1], budget)
    }
}

/// The settled branch.
pub open spec fn branch_settled(w: WorldModel, budget: Budget) -> WorldModel {
    let r = reaped(w, w.rows, w.rows.len());
    let roots = unsettled(r, r.nodes.len());
    all_settled(r, roots, budget, roots.len())
}

/// The paused nodes among the first `k` settlements.
pub open spec fn paused_nodes(rows: Seq<(i64, RowModel)>, k: nat) -> Seq<i64>
    decreases k,
{
    if k == 0 {
        Seq::empty()
    } else if rows[k - 1].1.status == "paused"@ {
        paused_nodes(rows, (k - 1) as nat).push(rows[k - 1].0)
    } else {
        paused_nodes(rows, (k - 1) as nat)
    }
}

/// The branch with the first `k` of `ids` cleared.
pub open spec fn all_cleared(w: WorldModel, ids: Seq<i64>, k: nat) -> WorldModel
    decreases k,
{
    if k == 0 {
        w
    } else {
        cleared(all_cleared(w, ids, (k - 1) as nat), ids[k - 1])
    }
}

fn claimed(cs: &Vec<OidCandidate>, oid: &[u8]) -> (r: bool)
    ensures
        r == has_claim(cand_models(cs@), oid@),
{
    let ghost m = cand_models(cs@);
    let mut i: usize = 0;
    while i < cs.len()
        invariant
            i <= cs@.len(),
            m == cand_models(cs@),
            forall|k: int| 0 <= k < i ==> (#[trigger] m[k]).oid != oid@,
        decreases cs@.len() - i,
    {
        assert(m[i as int] == cs@[i as int]@);
        if same_bytes(cs[i].oid.as_slice(), oid) {
            return true;
        }
        i += 1;
    }
    false
}

/// Whether `cost` is more than what is left of `total` once `used` is spent.
fn over_budget(cost: i128, total: i64, used: i128) -> (r: bool)
    ensures
        r == (cost > total - used),
{
    if used > 0 && cost > i128::MAX - used {
        true
    } else if used < 0 && cost < i128::MIN - used {
        false
    } else {
        cost + used > total as i128
    }
}

proof fn lemma_product(a: int, b: int)
    requires
        i64::MIN <= a <= i64::MAX,
        i64::MIN <= b <= i64::MAX,
    ensures
        i128::MIN <= a * b <= i128::MAX,
{
    assert(-0x8000_0000_0000_0000 * 0x8000_0000_0000_0000 <= a * b <= 0x8000_0000_0000_0000
        * 0x8000_0000_0000_0000) by (nonlinear_arith)
        requires
            -0x8000_0000_0000_0000 <= a <= 0x8000_0000_0000_0000,
            -0x8000_0000_0000_0000 <= b <= 0x8000_0000_0000_0000,
    ;
}

impl World {
    fn build_leaf(&mut self, built: &mut IdMap<Part>, order: &Vec<i64>, k: usize, id: i64)
        requires
            k < order@.len(),
            id == order@[k as int],
            has_key(old(self)@.nodes, id),
            whole(old(built)@),
        ensures
            whole(final(built)@),
            (Bench { w: final(self)@, built: final(built)@ }) == leaf_built(
                Bench { w: old(self)@, built: old(built)@ },
                order@,
                k as int,
                get(old(self)@.nodes, id)->0,
            ),
    {
        let node = match self.nodes.get(id) {
            Some(n) => n,
            None => return,
        };
        let content = match &node.raw {
            Some(c) => c.clone(),
            None => return,
        };
        let source_id: i64 = node.source_id;
        let pack_offset: Option<i64> = node.pack_offset;
        let crc_ok: Option<i64> = node.crc_ok;
        let t = whole_kind(node.kind.as_str());
        let oid = hash_object(t, content.as_slice());
        let id_bytes = crate::model::bytes::copy_range(oid.as_slice(), 0, 20);
        assert(id_bytes@ =~= oid@);
        assert(id_bytes.deep_view() =~= oid@);
        self.computed.insert(id, id_bytes);
        let (claim, count) = index_claims(&self.candidates, id);
        if let Some(i) = claim {
            if !same_bytes(self.candidates[i].oid.as_slice(), oid.as_slice()) {
                let mut m = "parsed oid ".to_owned();
                m.append(hex_encode(oid.as_slice()).as_str());
                m.append(" != index oid ");
                m.append(hex_encode(self.candidates[i].oid.as_slice()).as_str());
                let links = self.chain_links_from_order(order);
                let row = make_mismatch(t, &content, &oid, m, None, 0, links, id);
                self.persist_settlement(id, row);
                return;
            }
        }
        if !computed_listed(&self.candidates, id, oid.as_slice()) {
            let copy = crate::model::bytes::copy_range(oid.as_slice(), 0, 20);
            assert(copy@ =~= oid@);
            let c = OidCandidate {
                oid: copy,
                node_id: id,
                origin: "computed".to_owned(),
                idx_present: to_signed(count as u64),
                crc_ok,
                checksum_ok: 1,
                rank_key: candidate_rank_key("computed", count > 0, None, source_id, pack_offset),
            };
            let ghost before = self@.candidates;
            self.candidates.push(c);
            assert(self@.candidates =~= before.push(c@));
        }
        self.write_final(id, t, &content, &oid, order);
        built.insert(id, Part { kind: t, content });
    }

    fn build_node(&mut self, built: &mut IdMap<Part>, order: &Vec<i64>, k: usize)
        requires
            k < order@.len(),
            whole(old(built)@),
        ensures
            whole(final(built)@),
            (Bench { w: final(self)@, built: final(built)@ }) == node_built(
                Bench { w: old(self)@, built: old(built)@ },
                order@,
                k as int,
            ),
    {
        let id: i64 = order[k];
        let node = match self.nodes.get(id) {
            Some(n) => n,
            None => return,
        };
        // Nodes already materialized are only brought in as bases.
        if self.resolved_already(id) {
            if !built.contains(id) {
                if let Some(r) = self.rows.get(id) {
                    let kind = match &r.final_type {
                        Some(t) => whole_kind(t.as_str()),
                        None => whole_kind(""),
                    };
                    let content: Vec<u8> = match &r.content {
                        Some(c) => c.clone(),
                        None => Vec::new(),
                    };
                    proof {
                        if r.content is None {
                            assert(content@ =~= Seq::<u8>::empty());
                        }
                    }
                    built.insert(id, Part { kind, content });
                }
            }
            return;
        }
        if !same_text(node.parse_status.as_str(), "ok") {
            let row = make_verdict(
                "error",
                "inflate_failed",
                copy_opt(&node.parse_error),
                Some("object isolated; other objects continue analysis"),
                to_signed(k as u64),
                Some(self.chain_links_from_order(order)),
                only(id),
            );
            self.persist_settlement(id, row);
            return;
        }
        let bad_crc: bool = match node.crc_ok {
            Some(c) => c == 0,
            None => false,
        };
        if bad_crc {
            let mut m = "index CRC32 ".to_owned();
            push_int(
                &mut m,
                match node.crc_expected {
                    Some(c) => c,
                    None => -1,
                },
            );
            m.append(" does not match the compressed bytes in the pack");
            let mut row = make_verdict(
                "error",
                "crc_mismatch",
                Some(m),
                Some("corrupt entry isolated; not used as a base"),
                to_signed(k as u64),
                Some(self.chain_links_from_order(order)),
                only(id),
            );
            row.oid_ok = Some(false);
            self.persist_settlement(id, row);
            return;
        }
        if is_delta_name(node.kind.as_str()) {
            self.build_delta(built, order, k, id);
        } else {
            self.build_leaf(built, order, k, id);
        }
    }

    /// Rebuilds the nodes of a chain, the whole base first.
    fn materialize_ordered(&mut self, order: &Vec<i64>)
        ensures
            final(self)@ == chain_built(Bench { w: old(self)@, built: Seq::empty() }, order@, 0),
    {
        let ghost start = Bench { w: self@, built: Seq::empty() };
        let mut built: IdMap<Part> = IdMap::new();
        let mut k: usize = 0;
        while k < order.len()
            invariant
                k <= order@.len(),
                whole(built@),
                chain_built(start, order@, 0) == chain_built(
                    Bench { w: self@, built: built@ },
                    order@,
                    k as int,
                ),
            decreases order@.len() - k,
        {
            self.build_node(&mut built, order, k);
            k += 1;
        }
    }

    /// Settles one node: walks to its whole base, weighs the cost against the budget and
    /// rebuilds the chain.
    pub fn settle_one(&mut self, root: i64, budget: &Budget)
        ensures
            final(self)@ == settled(old(self)@, root, *budget),
    {
        let chain = match self.walk(root, budget) {
            Stop::Done => return,
            Stop::Build(c) => c,
        };
        let order = reversed(&chain);
        let cost: i128 = self.expected_cost(&order);
        proof {
            lemma_product(budget.max_total_expand as int, budget.single_object_ratio as int);
        }
        let cap: i128 = budget.max_total_expand as i128 * budget.single_object_ratio as i128;
        if cost > cap {
            let mut m = "single object expansion ".to_owned();
            push_wide(&mut m, cost);
            m.append(" exceeds ratio cap ");
            push_wide(&mut m, cap);
            let row = make_verdict(
                "paused",
                "single_object_ratio",
                Some(m),
                Some("retryable: raise single_object_ratio"),
                total_depth(&order),
                Some(self.chain_links(&chain)),
                self.blocking_chain(&chain, None),
            );
            self.persist_settlement(root, row);
            return;
        }
        let used: i128 = self.ledger_used();
        if over_budget(cost, budget.max_total_expand, used) {
            let mut m = "object needs ".to_owned();
            push_wide(&mut m, cost);
            m.append(" new bytes; ledger at ");
            push_wide(&mut m, used);
            m.append(" of ");
            push_int(&mut m, budget.max_total_expand);
            let row = make_verdict(
                "paused",
                "total_budget_exceeded",
                Some(m),
                Some("retryable: raise max_total_expand or reset the expansion ledger"),
                total_depth(&order),
                Some(self.chain_links(&chain)),
                self.blocking_chain(&chain, None),
            );
            self.persist_settlement(root, row);
            return;
        }
        self.materialize_ordered(&order);
    }
}


impl World {
    fn depends_on(&self, id: i64, start: i64) -> (r: bool)
        ensures
            r == rests_on(self@, id, start, self@.nodes.len()),
    {
        let mut cur: i64 = id;
        let mut fuel: usize = self.nodes.len();
        loop
            invariant
                rests_on(self@, id, start, self@.nodes.len()) == rests_on(self@, cur, start, fuel as nat),
            decreases fuel,
        {
            if cur == start {
                return true;
            }
            if fuel == 0 {
                return false;
            }
            match self.nodes.get(cur) {
                None => return false,
                Some(n) => match self.resolve_base_node(n) {
                    None => return false,
                    Some(b) => {
                        cur = b;
                    },
                },
            }
            fuel -= 1;
        }
    }

    /// Deletes the settlements of `start` and of its transitive dependents, so that they are
    /// planned anew.
    fn clear_closure(&mut self, start: i64)
        ensures
            final(self)@ == cleared(old(self)@, start),
    {
        let ghost w = self@;
        let mut gone: Vec<i64> = Vec::new();
        gone.push(start);
        let mut n: usize = 0;
        assert(gone@ =~= closure(w, start, 0));
        while n < self.nodes.len()
            invariant
                n <= w.nodes.len(),
                w == self@,
                gone@ == closure(w, start, n as nat),
            decreases w.nodes.len() - n,
        {
            let id: i64 = self.nodes.key_at(n);
            if self.depends_on(id, start) {
                gone.push(id);
            }
            n += 1;
        }
        self.rows.drop_keys(&gone);
        self.ledger.drop_keys(&gone);
        self.drop_steps(&gone);
    }

    fn drop_steps(&mut self, gone: &Vec<i64>)
        ensures
            final(self)@ == (WorldModel { steps: steps_kept(old(self)@.steps, gone@), ..old(self)@ }),
    {
        let ghost start = self@.steps;
        let ghost mut k: int = 0;
        let mut i: usize = 0;
        proof {
            assert(start.take(0) =~= Seq::empty());
            assert(steps_kept(start.take(0), gone@) + start.skip(0) =~= start);
        }
        while i < self.steps.len()
            invariant
                0 <= k <= start.len(),
                i == steps_kept(start.take(k), gone@).len(),
                i <= self.steps@.len(),
                step_models(self.steps@) == steps_kept(start.take(k), gone@) + start.skip(k),
                self.steps@.len() - i == start.len() - k,
                self@ == (WorldModel { steps: step_models(self.steps@), ..old(self)@ }),
            decreases self.steps@.len() - i,
        {
            let ghost before = step_models(self.steps@);
            proof {
                assert(start.take(k + 1).drop_last() =~= start.take(k));
                assert(start.take(k + 1).last() == start[k]);
                assert(before[i as int] == start[k]);
                assert(self.steps@[i as int]@ == before[i as int]);
            }
            if contains_id(gone, self.steps[i].node_id) {
                let out = self.steps.remove(i);
                proof {
                    assert(step_models(self.steps@) =~= before.remove(i as int));
                    assert(step_models(self.steps@) =~= steps_kept(start.take(k + 1), gone@) + start.skip(
                        k + 1,
                    ));
                }
            } else {
                i += 1;
                proof {
                    assert(step_models(self.steps@) =~= steps_kept(start.take(k + 1), gone@) + start.skip(
                        k + 1,
                    ));
                }
            }
            proof {
                k = k + 1;
            }
        }
        proof {
            assert(start.take(k) =~= start);
            assert(step_models(self.steps@) =~= steps_kept(start, gone@));
        }
    }

    fn opens(&self, id: i64, row: &StatusRow) -> (r: bool)
        ensures
            r == can_open(self@, (id, row.deep_view())),
    {
        let waits: bool = same_text(row.status.as_str(), "blocked") || same_text(
            row.status.as_str(),
            "paused",
        );
        let coded: bool = match &row.error_code {
            Some(c) => same_text(c.as_str(), "missing_ref_base"),
            None => false,
        };
        if !waits || !coded {
            return false;
        }
        match self.nodes.get(id) {
            Some(n) => match &n.ref_base_oid {
                Some(oid) => claimed(&self.candidates, oid.as_slice()),
                None => false,
            },
            None => false,
        }
    }

    /// Opens every settlement that waited for a base which has become known. Paused verdicts
    /// stay until an explicit retry or reset.
    fn reap_unblocked(&mut self)
        ensures
            final(self)@ == reaped(old(self)@, old(self)@.rows, old(self)@.rows.len()),
    {
        let ghost w = self@;
        let mut k: usize = 0;
        let n: usize = self.rows.len();
        let mut flags: Vec<bool> = Vec::new();
        let mut ids: Vec<i64> = Vec::new();
        while k < n
            invariant
                k <= n,
                n == w.rows.len(),
                w == self@,
                flags@.len() == k,
                ids@.len() == k,
                forall|i: int| 0 <= i < k ==> (#[trigger] flags@[i]) == can_open(w, w.rows[i]),
                forall|i: int| 0 <= i < k ==> (#[trigger] ids@[i]) == w.rows[i].0,
            decreases n - k,
        {
            let id: i64 = self.rows.key_at(k);
            let flag: bool = self.opens(id, self.rows.value_at(k));
            flags.push(flag);
            ids.push(id);
            k += 1;
        }
        let mut i: usize = 0;
        while i < n
            invariant
                i <= n,
                n == w.rows.len(),
                flags@.len() == n,
                ids@.len() == n,
                forall|j: int| 0 <= j < n ==> (#[trigger] flags@[j]) == can_open(w, w.rows[j]),
                forall|j: int| 0 <= j < n ==> (#[trigger] ids@[j]) == w.rows[j].0,
                self@ == reaped(w, w.rows, i as nat),
            decreases n - i,
        {
            if flags[i] {
                self.clear_closure(ids[i]);
            }
            i += 1;
        }
    }

    /// Settles every node that has no settlement, in the order of the nodes.
    pub fn settle_branch(&mut self, budget: &Budget)
        ensures
            final(self)@ == branch_settled(old(self)@, *budget),
    {
        self.reap_unblocked();
        let ghost w = self@;
        let mut roots: Vec<i64> = Vec::new();
        let mut n: usize = 0;
        assert(roots@ =~= unsettled(w, 0));
        while n < self.nodes.len()
            invariant
                n <= w.nodes.len(),
                w == self@,
                roots@ == unsettled(w, n as nat),
            decreases w.nodes.len() - n,
        {
            let id: i64 = self.nodes.key_at(n);
            if !self.rows.contains(id) {
                roots.push(id);
            }
            n += 1;
        }
        let mut k: usize = 0;
        while k < roots.len()
            invariant
                k <= roots@.len(),
                self@ == all_settled(w, roots@, *budget, k as nat),
            decreases roots@.len() - k,
        {
            self.settle_one(roots[k], budget);
            k += 1;
        }
    }

    /// Opens a paused node and settles the branch again.
    pub fn retry_node(&mut self, node_id: i64, budget: &Budget)
        ensures
            ({
                let w = old(self)@;
                let opened = if get(w.rows, node_id) matches Some(r) && r.status == "paused"@ {
                    WorldModel { rows: dropped(w.rows, seq![node_id]), ..w }
                } else {
                    w
                };
                final(self)@ == branch_settled(opened, *budget)
            }),
    {
        let paused: bool = match self.rows.get(node_id) {
            Some(r) => same_text(r.status.as_str(), "paused"),
            None => false,
        };
        if paused {
            self.rows.drop_keys(&only(node_id));
        }
        self.settle_branch(budget);
    }

    /// Wipes the ledger and re-opens paused subgraphs for re-planning. Returns how many nodes
    /// were paused.
    pub fn reset_budget(&mut self, budget: &Budget) -> (n: usize)
        ensures
            ({
                let w = old(self)@;
                let paused = paused_nodes(w.rows, w.rows.len());
                let open = all_cleared(w, paused, paused.len());
                &&& n == paused.len()
                &&& final(self)@ == branch_settled(WorldModel { ledger: Seq::empty(), ..open }, *budget)
            }),
    {
        let ghost w = self@;
        let mut paused: Vec<i64> = Vec::new();
        let mut k: usize = 0;
        assert(paused@ =~= paused_nodes(w.rows, 0));
        while k < self.rows.len()
            invariant
                k <= w.rows.len(),
                w == self@,
                paused@ == paused_nodes(w.rows, k as nat),
            decreases w.rows.len() - k,
        {
            if same_text(self.rows.value_at(k).status.as_str(), "paused") {
                paused.push(self.rows.key_at(k));
            }
            k += 1;
        }
        let n: usize = paused.len();
        let mut i: usize = 0;
        while i < n
            invariant
                i <= n,
                n == paused@.len(),
                self@ == all_cleared(w, paused@, i as nat),
            decreases n - i,
        {
            self.clear_closure(paused[i]);
            i += 1;
        }
        self.ledger = IdMap::new();
        self.settle_branch(budget);
        n
    }
}


/// A resolved settlement holds an object that hashes to its id.
pub open spec fn honest(r: RowModel) -> bool {
    r.status == "resolved"@ ==> (r.final_type matches Some(t) && r.content matches Some(c) && r.final_oid
        == Some(id_of(kind_or_blob(t), c)))
}

/// Every settlement of a branch is honest.
pub open spec fn all_honest(rows: Seq<(i64, RowModel)>) -> bool {
    forall|i: int| 0 <= i < rows.len() ==> honest((#[trigger] rows[i]).1)
}

proof fn lemma_statuses()
    ensures
        "error"@ != "resolved"@,
        "blocked"@ != "resolved"@,
        "paused"@ != "resolved"@,
{
    reveal_strlit("error");
    reveal_strlit("blocked");
    reveal_strlit("paused");
    reveal_strlit("resolved");
    assert("error"@.len() == 5 && "blocked"@.len() == 7 && "paused"@.len() == 6 && "resolved"@.len() == 8);
}

proof fn lemma_put_honest(rows: Seq<(i64, RowModel)>, id: i64, r: RowModel)
    requires
        all_honest(rows),
        honest(r),
    ensures
        all_honest(put(rows, id, r)),
{
    crate::model::assoc::lemma_row(rows, id);
    let p = put(rows, id, r);
    assert forall|i: int| 0 <= i < p.len() implies honest((#[trigger] p[i]).1) by {
        if i < rows.len() {
            assert(honest(rows[i].1));
        }
    }
}

proof fn lemma_kind_kept(t: ObjType)
    requires
        !t.delta(),
    ensures
        kind_or_blob(kind_text(t)) == t,
{
    crate::engine::kinds_are_read_back(t);
}

/// What holds while a chain is built: the settlements are honest, the objects at hand whole.
pub open spec fn bench_sound(b: Bench) -> bool {
    all_honest(b.w.rows) && whole(b.built)
}

proof fn lemma_put_whole(built: Seq<(i64, (ObjType, Seq<u8>))>, id: i64, p: (ObjType, Seq<u8>))
    requires
        whole(built),
        !p.0.delta(),
    ensures
        whole(put(built, id, p)),
{
    crate::model::assoc::lemma_row(built, id);
    let q = put(built, id, p);
    assert forall|i: int| 0 <= i < q.len() implies !(#[trigger] q[i]).1.0.delta() by {
        if i < built.len() {
            assert(!built[i].1.0.delta());
        }
    }
}

/// What building one node leaves alone: nodes, pins, every other settlement and charge, and the
/// settlement of the node itself when it is resolved. The ledger grows by what the node was
/// expected to cost, or not at all.
pub open spec fn touches_only(b: Bench, c: Bench, order: Seq<i64>, k: int) -> bool {
    let id = order[k];
    &&& c.w.nodes == b.w.nodes
    &&& c.w.pins == b.w.pins
    &&& forall|x: i64| x != id ==> #[trigger] get(c.w.rows, x) == get(b.w.rows, x)
    &&& is_resolved(b.w, id) ==> c.w == b.w
    &&& c.w.ledger == b.w.ledger || (get(b.w.nodes, id) matches Some(n) && is_new(b.w, id) && c.w.ledger
        == b.w.ledger.push((id, planned_size(n))))
}

/// The raw bytes of every node fit in memory.
pub open spec fn nodes_fit(nodes: Seq<(i64, NodeModel)>) -> bool {
    forall|id: i64|
        (#[trigger] get(nodes, id)) matches Some(n) ==> (n.raw matches Some(d) ==> d.len() <= usize::MAX)
}

proof fn lemma_persisted_elsewhere(w: WorldModel, id: i64, r: RowModel)
    requires
        r.status != "resolved"@,
        all_honest(w.rows),
    ensures
        all_honest(with_verdict(w, id, r).rows),
        forall|x: i64| x != id ==> #[trigger] get(with_verdict(w, id, r).rows, x) == get(w.rows, x),
{
    let row = RowModel {
        content: match get(w.rows, id) {
            Some(r) => r.content,
            None => None,
        },
        recompute_count: recounted(w.rows, id),
        ..r
    };
    lemma_put_honest(w.rows, id, row);
    assert forall|x: i64| x != id implies #[trigger] get(with_verdict(w, id, r).rows, x) == get(w.rows, x) by {
        crate::model::assoc::get_of_put(w.rows, id, row, x);
    }
}

proof fn lemma_finished(w: WorldModel, id: i64, t: ObjType, content: Seq<u8>, order: Seq<i64>)
    requires
        !t.delta(),
        all_honest(w.rows),
    ensures
        all_honest(finished(w, id, t, content, order).rows),
        forall|x: i64|
            x != id ==> #[trigger] get(finished(w, id, t, content, order).rows, x) == get(w.rows, x),
{
    let row = final_row(w, id, t, content, order);
    lemma_kind_kept(t);
    lemma_put_honest(w.rows, id, row);
    assert forall|x: i64| x != id implies #[trigger] get(finished(w, id, t, content, order).rows, x) == get(
        w.rows,
        x,
    ) by {
        crate::model::assoc::get_of_put(w.rows, id, row, x);
    }
}

pub proof fn lemma_node_built(b: Bench, order: Seq<i64>, k: int)
    requires
        bench_sound(b),
        0 <= k < order.len(),
        nodes_fit(b.w.nodes),
    ensures
        bench_sound(node_built(b, order, k)),
        touches_only(b, node_built(b, order, k), order, k),
{
    lemma_statuses();
    let id = order[k];
    if let Some(n) = get(b.w.nodes, id) {
        if is_resolved(b.w, id) {
            let r = get(b.w.rows, id)->0;
            lemma_put_whole(
                b.built,
                id,
                (
                    kind_or_blob(
                        match r.final_type {
                            Some(t) => t,
                            None => ""@,
                        },
                    ),
                    match r.content {
                        Some(c) => c,
                        None => Seq::empty(),
                    },
                ),
            );
        } else {
            assert forall|w: WorldModel, r: RowModel|
                w.rows == b.w.rows && r.status != "resolved"@ implies all_honest(
                (#[trigger] with_verdict(w, id, r)).rows,
            ) && forall|x: i64| x != id ==> #[trigger] get(with_verdict(w, id, r).rows, x) == get(b.w.rows, x) by {
                lemma_persisted_elsewhere(w, id, r);
            }
            if n.parse_status == "ok"@ && n.crc_ok != Some(0i64) {
                if is_delta_kind(n.kind) {
                    if let Some(base_id) = base_of(b.w, n) {
                        crate::model::assoc::lemma_row(b.built, base_id);
                        if let (Some((t, base)), Some(d)) = (get(b.built, base_id), n.raw) {
                            if let Ok((out, instrs)) = result_of(base, d) {
                                crate::git::delta::applies_exactly_when_sound(base, d);
                                let w = WorldModel {
                                    steps: node_built(b, order, k).w.steps,
                                    ..b.w
                                };
                                lemma_finished(w, id, t, out, order);
                                lemma_put_whole(b.built, id, (t, out));
                                lemma_charge(b.w.ledger, id, signed(out.len()));
                            }
                        }
                    }
                } else if let Some(content) = n.raw {
                    let t = kind_or_blob(n.kind);
                    let c = node_built(b, order, k);
                    let w = WorldModel {
                        computed: c.w.computed,
                        candidates: c.w.candidates,
                        ..b.w
                    };
                    lemma_finished(w, id, t, content, order);
                    lemma_put_whole(b.built, id, (t, content));
                }
            }
        }
    }
}

proof fn lemma_charge(ledger: Seq<(i64, i64)>, id: i64, cost: i64)
    ensures
        charged(ledger, id, cost) == ledger || charged(ledger, id, cost) == ledger.push((id, cost)),
{
}

proof fn lemma_spent_push(ledger: Seq<(i64, i64)>, e: (i64, i64))
    ensures
        spent(ledger.push(e)) == spent(ledger) + e.1,
{
    assert(ledger.push(e).drop_last() =~= ledger);
}

/// Every node is expected to cost something.
pub open spec fn costs_count(nodes: Seq<(i64, NodeModel)>) -> bool {
    forall|id: i64| (#[trigger] get(nodes, id)) matches Some(n) ==> planned_size(n) >= 0
}

proof fn lemma_charge_elsewhere(ledger: Seq<(i64, i64)>, e: (i64, i64), x: i64)
    requires
        x != e.0,
    ensures
        has_key(ledger.push(e), x) == has_key(ledger, x),
{
    crate::model::assoc::lemma_row(ledger, x);
    let p = ledger.push(e);
    if has_key(ledger, x) {
        crate::model::assoc::lemma_row_is(p, x, crate::model::assoc::row_of(ledger, x));
    } else {
        crate::model::assoc::lemma_row_is(p, x, p.len());
    }
}

pub proof fn lemma_chain_built(w: WorldModel, b: Bench, order: Seq<i64>, k: int)
    requires
        bench_sound(b),
        0 <= k <= order.len(),
        order.no_duplicates(),
        nodes_fit(w.nodes),
        b.w.nodes == w.nodes,
        b.w.pins == w.pins,
        forall|j: int|
            k <= j < order.len() ==> get(b.w.rows, #[trigger] order[j]) == get(w.rows, order[j]) && has_key(
                b.w.ledger,
                order[j],
            ) == has_key(w.ledger, order[j]),
    ensures
        ({
            let c = chain_built(b, order, k);
            &&& all_honest(c.rows)
            &&& c.nodes == w.nodes
            &&& c.pins == w.pins
            &&& forall|x: i64|
                is_resolved(b.w, x) ==> #[trigger] get(c.rows, x) == get(b.w.rows, x)
            &&& forall|x: i64|
                !order.contains(x) ==> #[trigger] get(c.rows, x) == get(b.w.rows, x)
            &&& costs_count(w.nodes) ==> spent(c.ledger) <= spent(b.w.ledger) + new_cost(w, order) - new_cost(
                w,
                order.take(k),
            )
        }),
    decreases order.len() - k,
{
    if k >= order.len() {
        assert(order.take(k) =~= order);
    } else {
        let id = order[k];
        let n = node_built(b, order, k);
        lemma_node_built(b, order, k);
        assert forall|j: int| k + 1 <= j < order.len() implies get(n.w.rows, #[trigger] order[j]) == get(
            w.rows,
            order[j],
        ) && has_key(n.w.ledger, order[j]) == has_key(w.ledger, order[j]) by {
            assert(order[j] != id);
            if n.w.ledger != b.w.ledger {
                lemma_charge_elsewhere(
                    b.w.ledger,
                    (id, planned_size(get(b.w.nodes, id)->0)),
                    order[j],
                );
            }
        }
        lemma_chain_built(w, n, order, k + 1);
        let c = chain_built(b, order, k);
        assert forall|x: i64| is_resolved(b.w, x) implies #[trigger] get(c.rows, x) == get(b.w.rows, x) by {
            assert(get(n.w.rows, x) == get(b.w.rows, x));
        }
        assert forall|x: i64| !order.contains(x) implies #[trigger] get(c.rows, x) == get(b.w.rows, x) by {
            assert(x != id);
            assert(get(n.w.rows, x) == get(b.w.rows, x));
        }
        if costs_count(w.nodes) {
            let before = order.take(k);
            let now = order.take(k + 1);
            assert(now.drop_last() =~= before);
            assert(now.last() == id);
            assert(!before.contains(id)) by {
                if before.contains(id) {
                    let j = choose|j: int| 0 <= j < before.len() && before[j] == id;
                    assert(order[j] == order[k]);
                }
            }
            assert(get(b.w.rows, order[k]) == get(w.rows, order[k]));
            if n.w.ledger != b.w.ledger {
                lemma_spent_push(b.w.ledger, (id, planned_size(get(b.w.nodes, id)->0)));
            }
            if let Some(m) = get(w.nodes, id) {
                assert(planned_size(m) >= 0);
            }
        }
    }
}

pub proof fn lemma_walk(w: WorldModel, root: i64, budget: Budget, chain: Seq<i64>, cur: i64)
    requires
        chain.no_duplicates(),
        all_honest(w.rows),
        !is_resolved(w, root),
    ensures
        walked(w, root, budget, chain, cur) matches Walk::Build(c) ==> c.no_duplicates(),
        walked(w, root, budget, chain, cur) matches Walk::Done(d) ==> {
            &&& all_honest(d.rows)
            &&& d.nodes == w.nodes
            &&& d.pins == w.pins
            &&& d.ledger == w.ledger
            &&& forall|x: i64| x != root ==> #[trigger] get(d.rows, x) == get(w.rows, x)
        },
    decreases budget.max_depth - chain.len(),
{
    lemma_statuses();
    assert forall|r: RowModel| r.status != "resolved"@ implies all_honest(
        (#[trigger] with_verdict(w, root, r)).rows,
    ) && forall|x: i64| x != root ==> #[trigger] get(with_verdict(w, root, r).rows, x) == get(w.rows, x) by {
        lemma_persisted_elsewhere(w, root, r);
    }
    if !chain.contains(cur) {
        if let Some(n) = get(w.nodes, cur) {
            if cur != root && has_key(w.rows, cur) {
                if get(w.rows, cur)->0.status != "resolved"@ {
                    let d = inherited(w, root, cur, chain);
                    crate::model::assoc::get_of_put(w.rows, root, get(w.rows, cur)->0, root);
                    let row = get(d.rows, root)->0;
                    lemma_inherited(w, root, cur, chain);
                }
            } else if chain.len() < budget.max_depth {
                let next = chain.push(cur);
                assert(next.no_duplicates());
                if is_delta_kind(n.kind) {
                    if let Some(b) = base_of(w, n) {
                        lemma_walk(w, root, budget, next, b);
                    }
                }
            }
        }
    }
}

proof fn lemma_inherited(w: WorldModel, root: i64, base: i64, chain: Seq<i64>)
    requires
        all_honest(w.rows),
        get(w.rows, base) matches Some(r) && r.status != "resolved"@,
    ensures
        all_honest(inherited(w, root, base, chain).rows),
        forall|x: i64|
            x != root ==> #[trigger] get(inherited(w, root, base, chain).rows, x) == get(w.rows, x),
{
    let d = inherited(w, root, base, chain);
    let b = get(w.rows, base)->0;
    let row = match get(w.rows, root) {
        Some(r) => RowModel {
            status: b.status,
            error_code: b.error_code,
            error_message: b.error_message,
            blocking: Some(blockers_of(w.nodes, chain, Some(base))),
            ..r
        },
        None => RowModel {
            error_code: b.error_code,
            error_message: b.error_message,
            ..verdict(
                b.status,
                ""@,
                None,
                Some("inherited from unresolved base"@),
                signed(chain.len()),
                Some(links_of(w.nodes, chain)),
                blockers_of(w.nodes, chain, Some(base)),
            )
        },
    };
    lemma_put_honest(w.rows, root, row);
    assert forall|x: i64| x != root implies #[trigger] get(d.rows, x) == get(w.rows, x) by {
        crate::model::assoc::get_of_put(w.rows, root, row, x);
    }
}

/// Settling a node keeps every settlement honest: what is resolved hashes to its id. It leaves
/// the nodes, the pins and every resolved settlement as they are, and the ledger within the
/// budget.
pub proof fn settling_keeps_a_branch_sound(w: WorldModel, root: i64, budget: Budget)
    requires
        all_honest(w.rows),
        !is_resolved(w, root),
        nodes_fit(w.nodes),
    ensures
        ({
            let s = settled(w, root, budget);
            &&& all_honest(s.rows)
            &&& s.nodes == w.nodes
            &&& s.pins == w.pins
            &&& forall|x: i64| is_resolved(w, x) ==> #[trigger] get(s.rows, x) == get(w.rows, x)
            &&& costs_count(w.nodes) ==> spent(s.ledger) <= spent(w.ledger) || spent(s.ledger)
                <= budget.max_total_expand
        }),
{
    lemma_statuses();
    lemma_walk(w, root, budget, Seq::empty(), root);
    if let Walk::Build(chain) = walked(w, root, budget, Seq::empty(), root) {
        let order = chain.reverse();
        assert(order.no_duplicates());
        assert forall|r: RowModel| r.status != "resolved"@ implies all_honest(
            (#[trigger] with_verdict(w, root, r)).rows,
        ) && forall|x: i64| x != root ==> #[trigger] get(with_verdict(w, root, r).rows, x) == get(w.rows, x) by {
            lemma_persisted_elsewhere(w, root, r);
        }
        let b = Bench { w, built: Seq::empty() };
        lemma_chain_built(w, b, order, 0);
        assert(order.take(0) =~= Seq::empty());
    }
}

proof fn lemma_walk_files(w: WorldModel, root: i64, budget: Budget, chain: Seq<i64>, cur: i64)
    ensures
        walked(w, root, budget, chain, cur) matches Walk::Done(d) ==> d.sources == w.sources && d.fanout == w.fanout,
    decreases budget.max_depth - chain.len(),
{
    if !chain.contains(cur) {
        if let Some(n) = get(w.nodes, cur) {
            if !(cur != root && has_key(w.rows, cur)) && chain.len() < budget.max_depth && is_delta_kind(n.kind) {
                if let Some(b) = base_of(w, n) {
                    lemma_walk_files(w, root, budget, chain.push(cur), b);
                }
            }
        }
    }
}

proof fn lemma_chain_files(b: Bench, order: Seq<i64>, k: int)
    ensures
        chain_built(b, order, k).sources == b.w.sources,
        chain_built(b, order, k).fanout == b.w.fanout,
    decreases order.len() - k,
{
    if k < order.len() {
        lemma_chain_files(node_built(b, order, k), order, k + 1);
    }
}

proof fn lemma_settled_files(w: WorldModel, root: i64, budget: Budget)
    ensures
        settled(w, root, budget).sources == w.sources,
        settled(w, root, budget).fanout == w.fanout,
{
    lemma_walk_files(w, root, budget, Seq::empty(), root);
    if let Walk::Build(chain) = walked(w, root, budget, Seq::empty(), root) {
        lemma_chain_files(Bench { w, built: Seq::empty() }, chain.reverse(), 0);
    }
}

proof fn lemma_reaped_files(w: WorldModel, rows: Seq<(i64, RowModel)>, k: nat)
    ensures
        reaped(w, rows, k).sources == w.sources,
        reaped(w, rows, k).fanout == w.fanout,
    decreases k,
{
    if k > 0 {
        lemma_reaped_files(w, rows, (k - 1) as nat);
    }
}

proof fn lemma_all_settled_files(w: WorldModel, roots: Seq<i64>, budget: Budget, k: nat)
    ensures
        all_settled(w, roots, budget, k).sources == w.sources,
        all_settled(w, roots, budget, k).fanout == w.fanout,
    decreases k,
{
    if k > 0 {
        lemma_all_settled_files(w, roots, budget, (k - 1) as nat);
        lemma_settled_files(all_settled(w, roots, budget, (k - 1) as nat), roots[k - 1], budget);
    }
}

/// Settling a branch leaves the imported files and their fanout tables as they are.
pub proof fn settling_keeps_the_files(w: WorldModel, budget: Budget)
    ensures
        branch_settled(w, budget).sources == w.sources,
        branch_settled(w, budget).fanout == w.fanout,
{
    lemma_reaped_files(w, w.rows, w.rows.len());
    let r = reaped(w, w.rows, w.rows.len());
    let roots = unsettled(r, r.nodes.len());
    lemma_all_settled_files(r, roots, budget, roots.len());
}

} // verus!
