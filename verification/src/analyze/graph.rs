//! In-memory graph of candidate objects for one analysis pass.
use vstd::prelude::*;
use vstd::string::StringExecFns;
use vstd::utf8::{decode_utf8, valid_utf8};
use crate::git::pack::PARSE_INFLATE_CAP;
use crate::git::zdec::{capped_run, caps_hold, inflate_unbounded};
use crate::git::{read_ofs_distance, read_pack_entry_header, GitType};
use crate::model::assoc::{get, lemma_row, lemma_row_is, put, row_of, IdMap, TextMap};
use crate::model::bytes::{copy_range, find_byte, first_at};
use crate::model::outside::{utf8_error_text, utf8_text};
use crate::model::rank::{
    lemma_ranked_members, lemma_ranked_sorted, rank, rank_leq, ranked, ranking_ignores_the_order_given,
};
use crate::model::text::{before, dec, dec_int, is_empty, push_dec, push_int, same_text, split_once};
use crate::model::varint::{ends, header_code, touched};

verus! {

/// A candidate location for one oid.
#[derive(Debug)]
pub struct CandidateNode {
    pub id: i64,
    pub oid: String,
    pub source_id: i64,
    pub locator: String,
    pub kind_name: String,
    pub offset: i64,
    pub raw_size: i64,
    pub inflate_size: i64,
    pub crc_ok: Option<bool>,
    pub parse_error: Option<String>,
    pub base_ref: Option<String>,
    pub base_offset: Option<i64>,
    pub stored_path: String,
    pub source_kind: String,
}

/// The model of a candidate.
pub ghost struct NodeModel {
    pub id: i64,
    pub oid: Seq<char>,
    pub source_id: i64,
    pub locator: Seq<char>,
    pub kind_name: Seq<char>,
    pub offset: i64,
    pub raw_size: i64,
    pub inflate_size: i64,
    pub crc_ok: Option<bool>,
    pub parse_error: Option<Seq<char>>,
    pub base_ref: Option<Seq<char>>,
    pub base_offset: Option<i64>,
    pub stored_path: Seq<char>,
    pub source_kind: Seq<char>,
}

/// The text of an optional string.
pub open spec fn text_opt(s: Option<String>) -> Option<Seq<char>> {
    match s {
        Some(t) => Some(t@),
        None => None,
    }
}

/// Copies an optional string.
pub fn copy_opt(s: &Option<String>) -> (r: Option<String>)
    ensures
        text_opt(r) == text_opt(*s),
{
    match s {
        Some(t) => Some(t.clone()),
        None => None,
    }
}

impl DeepView for CandidateNode {
    type V = NodeModel;

    open spec fn deep_view(&self) -> NodeModel {
        NodeModel {
            id: self.id,
            oid: self.oid@,
            source_id: self.source_id,
            locator: self.locator@,
            kind_name: self.kind_name@,
            offset: self.offset,
            raw_size: self.raw_size,
            inflate_size: self.inflate_size,
            crc_ok: self.crc_ok,
            parse_error: text_opt(self.parse_error),
            base_ref: text_opt(self.base_ref),
            base_offset: self.base_offset,
            stored_path: self.stored_path@,
            source_kind: self.source_kind@,
        }
    }
}

impl Clone for CandidateNode {
    fn clone(&self) -> (c: Self)
        ensures
            c.deep_view() == self.deep_view(),
    {
        CandidateNode {
            id: self.id,
            oid: self.oid.clone(),
            source_id: self.source_id,
            locator: self.locator.clone(),
            kind_name: self.kind_name.clone(),
            offset: self.offset,
            raw_size: self.raw_size,
            inflate_size: self.inflate_size,
            crc_ok: self.crc_ok,
            parse_error: copy_opt(&self.parse_error),
            base_ref: copy_opt(&self.base_ref),
            base_offset: self.base_offset,
            stored_path: self.stored_path.clone(),
            source_kind: self.source_kind.clone(),
        }
    }
}

pub struct Graph {
    /// candidate id -> node
    pub nodes: IdMap<CandidateNode>,
    /// oid -> candidate ids, ordered by deterministic rank (pin first).
    pub by_oid: TextMap<Vec<i64>>,
    /// (pack source id, object offset) -> candidate id (ofs-delta targets).
    pub by_pack_offset: Vec<((i64, i64), i64)>,
}

/// The model of a graph.
pub ghost struct GraphModel {
    pub nodes: Seq<(i64, NodeModel)>,
    pub by_oid: Seq<(Seq<char>, Seq<i64>)>,
    pub by_pack_offset: Seq<((i64, i64), i64)>,
}

impl View for Graph {
    type V = GraphModel;

    open spec fn view(&self) -> GraphModel {
        GraphModel {
            nodes: self.nodes@,
            by_oid: self.by_oid@,
            by_pack_offset: self.by_pack_offset@,
        }
    }
}

/// The graph without candidates.
pub open spec fn no_graph() -> GraphModel {
    GraphModel { nodes: Seq::empty(), by_oid: Seq::empty(), by_pack_offset: Seq::empty() }
}

impl Default for Graph {
    fn default() -> (g: Self)
        ensures
            g@ == no_graph(),
    {
        let g = Graph { nodes: IdMap::new(), by_oid: TextMap::new(), by_pack_offset: Vec::new() };
        assert(g@.by_pack_offset =~= no_graph().by_pack_offset);
        g
    }
}

/// Whether a flag is set, as a number.
pub open spec fn flag(b: bool) -> i64 {
    if b {
        1
    } else {
        0
    }
}

/// The rank of candidate `id`.
pub open spec fn rank_of(nodes: Seq<(i64, NodeModel)>, id: i64) -> (i64, i64, i64, i64) {
    match get(nodes, id) {
        Some(n) => (flag(n.parse_error is Some), n.source_id, n.offset, n.id),
        None => (0, 0, 0, id),
    }
}

/// The ranks of candidates.
pub open spec fn ranks_of(nodes: Seq<(i64, NodeModel)>, ids: Seq<i64>) -> Seq<(i64, i64, i64, i64)> {
    ids.map_values(|id: i64| rank_of(nodes, id))
}

/// The candidates from the lowest to the highest rank.
pub open spec fn by_rank(nodes: Seq<(i64, NodeModel)>, ids: Seq<i64>) -> Seq<i64> {
    ranked(ranks_of(nodes, ids)).map_values(|r: (i64, i64, i64, i64)| r.3)
}

/// Where `x` first stands in `s`, or the length of `s`.
pub open spec fn place(s: Seq<i64>, x: i64) -> nat
    decreases s.len(),
{
    if s.len() == 0 || s[0] == x {
        0
    } else {
        1 + place(s.skip(1), x)
    }
}

/// The list with the pinned candidate moved to the front.
pub open spec fn pinned_first(s: Seq<i64>, pin: Option<i64>) -> Seq<i64> {
    match pin {
        Some(p) => if place(s, p) < s.len() {
            seq![p] + s.remove(place(s, p) as int)
        } else {
            s
        },
        None => s,
    }
}

/// The graph with one more candidate.
pub open spec fn added(g: GraphModel, n: NodeModel) -> GraphModel {
    GraphModel {
        nodes: put(g.nodes, n.id, n),
        by_oid: if n.oid.len() == 0 {
            g.by_oid
        } else {
            put(
                g.by_oid,
                n.oid,
                match get(g.by_oid, n.oid) {
                    Some(ids) => ids.push(n.id),
                    None => seq![n.id],
                },
            )
        },
        by_pack_offset: if n.source_kind == "pack"@ {
            put(g.by_pack_offset, (n.source_id, n.offset), n.id)
        } else {
            g.by_pack_offset
        },
    }
}

/// The graph of candidates, with each list in the order in which they came.
pub open spec fn gathered(rows: Seq<NodeModel>) -> GraphModel
    decreases rows.len(),
{
    if rows.len() == 0 {
        no_graph()
    } else {
        added(gathered(rows.drop_last()), rows.last())
    }
}

/// The lists of candidates in their final order.
pub open spec fn arranged(
    nodes: Seq<(i64, NodeModel)>,
    by_oid: Seq<(Seq<char>, Seq<i64>)>,
    pins: Seq<(Seq<char>, i64)>,
) -> Seq<(Seq<char>, Seq<i64>)> {
    Seq::new(
        by_oid.len(),
        |i: int| (by_oid[i].0, pinned_first(by_rank(nodes, by_oid[i].1), get(pins, by_oid[i].0))),
    )
}

/// The graph of candidates under pins.
pub open spec fn graph_of(rows: Seq<NodeModel>, pins: Seq<(Seq<char>, i64)>) -> GraphModel {
    let g = gathered(rows);
    GraphModel {
        nodes: g.nodes,
        by_oid: arranged(g.nodes, g.by_oid, pins),
        by_pack_offset: g.by_pack_offset,
    }
}

/// The models of candidates.
pub open spec fn node_models(rows: Seq<CandidateNode>) -> Seq<NodeModel> {
    rows.map_values(|n: CandidateNode| n.deep_view())
}

/// The best candidate for an oid.
pub open spec fn best(g: GraphModel, oid: Seq<char>) -> Option<NodeModel> {
    match get(g.by_oid, oid) {
        Some(ids) => if ids.len() > 0 {
            get(g.nodes, ids[0])
        } else {
            None
        },
        None => None,
    }
}

fn find_slot(v: &Vec<((i64, i64), i64)>, k: (i64, i64)) -> (p: usize)
    ensures
        p == row_of(v@, k),
        p <= v@.len(),
{
    let mut p: usize = 0;
    while p < v.len() && !(v[p].0.0 == k.0 && v[p].0.1 == k.1)
        invariant
            p <= v@.len(),
            forall|j: int| 0 <= j < p ==> (#[trigger] v@[j]).0 != k,
        decreases v@.len() - p,
    {
        p += 1;
    }
    proof {
        lemma_row_is(v@, k, p as nat);
    }
    p
}

/// Where a number first stands in a list.
pub fn find_id(v: &Vec<i64>, x: i64) -> (p: usize)
    ensures
        p == place(v@, x),
        p <= v@.len(),
{
    let mut p: usize = 0;
    assert(v@.skip(0) =~= v@);
    while p < v.len() && v[p] != x
        invariant
            p <= v@.len(),
            place(v@, x) == p + place(v@.skip(p as int), x),
        decreases v@.len() - p,
    {
        assert(v@.skip(p as int).skip(1) =~= v@.skip(p + 1));
        p += 1;
    }
    p
}

impl Graph {
    /// Deterministic candidate rank: lower wins. Source id, then offset, then
    /// candidate id; parse errors sort last. Independent of import order.
    pub fn rank(node: &CandidateNode) -> (r: (bool, i64, i64, i64))
        ensures
            r == (node.parse_error is Some, node.source_id, node.offset, node.id),
    {
        (node.parse_error.is_some(), node.source_id, node.offset, node.id)
    }

    pub fn best_for(&self, oid: &str) -> (r: Option<&CandidateNode>)
        ensures
            match r {
                Some(n) => best(self@, oid@) == Some(n.deep_view()),
                None => best(self@, oid@) is None,
            },
    {
        match self.by_oid.get(oid) {
            Some(ids) => {
                if ids.len() > 0 {
                    self.nodes.get(ids[0])
                } else {
                    None
                }
            },
            None => None,
        }
    }

    /// The candidate that stands at an offset of a pack.
    pub fn at_pack_offset(&self, source_id: i64, offset: i64) -> (r: Option<i64>)
        ensures
            r == get(self@.by_pack_offset, (source_id, offset)),
    {
        let p: usize = find_slot(&self.by_pack_offset, (source_id, offset));
        if p < self.by_pack_offset.len() {
            Some(self.by_pack_offset[p].1)
        } else {
            None
        }
    }

    fn add_node(&mut self, node: CandidateNode)
        ensures
            final(self)@ == added(old(self)@, node.deep_view()),
    {
        let ghost before = self@;
        let ghost n = node.deep_view();
        if !is_empty(node.oid.as_str()) {
            let mut ids: Vec<i64> = match self.by_oid.get(node.oid.as_str()) {
                Some(v) => v.clone(),
                None => Vec::new(),
            };
            ids.push(node.id);
            let ghost wanted = match get(before.by_oid, n.oid) {
                Some(s) => s.push(n.id),
                None => seq![n.id],
            };
            assert(ids.deep_view() =~= wanted);
            self.by_oid.insert(node.oid.clone(), ids);
        }
        if same_text(node.source_kind.as_str(), "pack") {
            let k: (i64, i64) = (node.source_id, node.offset);
            let p: usize = find_slot(&self.by_pack_offset, k);
            if p < self.by_pack_offset.len() {
                self.by_pack_offset.set(p, (k, node.id));
            } else {
                self.by_pack_offset.push((k, node.id));
            }
        }
        let id: i64 = node.id;
        self.nodes.insert(id, node);
    }
}

/// Brings a list of candidates into its final order.
fn arrange(nodes: &IdMap<CandidateNode>, ids: &Vec<i64>, pin: Option<i64>) -> (out: Vec<i64>)
    ensures
        out@ == pinned_first(by_rank(nodes@, ids@), pin),
{
    let mut keys: Vec<(i64, i64, i64, i64)> = Vec::new();
    let mut i: usize = 0;
    while i < ids.len()
        invariant
            i <= ids@.len(),
            keys@ == ranks_of(nodes@, ids@.take(i as int)),
        decreases ids@.len() - i,
    {
        let id: i64 = ids[i];
        let key: (i64, i64, i64, i64) = match nodes.get(id) {
            Some(n) => {
                let r = Graph::rank(n);
                let broken: i64 = if r.0 {
                    1
                } else {
                    0
                };
                (broken, r.1, r.2, r.3)
            },
            None => (0, 0, 0, id),
        };
        keys.push(key);
        i += 1;
        assert(keys@ =~= ranks_of(nodes@, ids@.take(i as int)));
    }
    assert(ids@.take(i as int) =~= ids@);
    let sorted = rank(&keys);
    let mut out: Vec<i64> = Vec::new();
    let mut j: usize = 0;
    let ghost all = by_rank(nodes@, ids@);
    while j < sorted.len()
        invariant
            j <= sorted@.len(),
            all == sorted@.map_values(|r: (i64, i64, i64, i64)| r.3),
            out@ == all.take(j as int),
        decreases sorted@.len() - j,
    {
        out.push(sorted[j].3);
        j += 1;
        assert(out@ =~= all.take(j as int));
    }
    assert(out@ =~= all);
    match pin {
        Some(p) => {
            let at: usize = find_id(&out, p);
            if at < out.len() {
                let gone: i64 = out.remove(at);
                out.insert(0, p);
                assert(out@ =~= seq![p] + all.remove(at as int));
            }
        },
        None => {},
    }
    out
}

/// Builds the graph of all candidates of a store, applying the pinned overrides of a branch.
pub fn build_graph(rows: &[CandidateNode], pins: &TextMap<i64>) -> (g: Graph)
    ensures
        g@ == graph_of(node_models(rows@), pins@),
{
    let mut graph = Graph::default();
    let ghost models = node_models(rows@);
    let mut i: usize = 0;
    assert(models.take(0) =~= Seq::empty());
    while i < rows.len()
        invariant
            i <= rows@.len(),
            models == node_models(rows@),
            graph@ == gathered(models.take(i as int)),
        decreases rows@.len() - i,
    {
        graph.add_node(rows[i].clone());
        proof {
            assert(models.take(i + 1).drop_last() =~= models.take(i as int));
            assert(models.take(i + 1).last() == rows@[i as int].deep_view());
        }
        i += 1;
    }
    assert(models.take(i as int) =~= models);
    let mut by_oid: TextMap<Vec<i64>> = TextMap::new();
    let ghost g = gathered(models);
    let ghost wanted = arranged(g.nodes, g.by_oid, pins@);
    proof {
        lemma_gathered_keyed(models);
    }
    let mut k: usize = 0;
    while k < graph.by_oid.len()
        invariant
            k <= graph.by_oid@.len(),
            graph@ == g,
            wanted == arranged(g.nodes, g.by_oid, pins@),
            crate::model::assoc::keyed(g.by_oid),
            by_oid@ == wanted.take(k as int),
        decreases graph.by_oid@.len() - k,
    {
        let oid = graph.by_oid.key_at(k);
        let ids = graph.by_oid.value_at(k);
        let pin: Option<i64> = match pins.get(oid.as_str()) {
            Some(p) => Some(*p),
            None => None,
        };
        let list = arrange(&graph.nodes, ids, pin);
        proof {
            assert(ids.deep_view() =~= ids@);
            assert(list.deep_view() =~= list@);
            let t = wanted.take(k as int);
            assert forall|j: int| 0 <= j < t.len() implies (#[trigger] t[j]).0 != oid@ by {
                assert(t[j].0 == g.by_oid[j].0);
                assert(g.by_oid[k as int].0 == oid@);
            }
            lemma_row_is(t, oid@, t.len());
        }
        by_oid.insert(oid.clone(), list);
        k += 1;
        assert(by_oid@ =~= wanted.take(k as int));
    }
    assert(by_oid@ =~= wanted);
    graph.by_oid = by_oid;
    graph
}

proof fn lemma_gathered_keyed(rows: Seq<NodeModel>)
    ensures
        crate::model::assoc::keyed(gathered(rows).by_oid),
        crate::model::assoc::keyed(gathered(rows).nodes),
    decreases rows.len(),
{
    if rows.len() > 0 {
        lemma_gathered_keyed(rows.drop_last());
        let g = gathered(rows.drop_last());
        let n = rows.last();
        crate::model::assoc::put_keeps_keyed(g.nodes, n.id, n);
        if n.oid.len() > 0 {
            crate::model::assoc::put_keeps_keyed(
                g.by_oid,
                n.oid,
                match get(g.by_oid, n.oid) {
                    Some(ids) => ids.push(n.id),
                    None => seq![n.id],
                },
            );
        }
    }
}

/// The bytes of a source file, or the message of the failure to read it.
pub enum FileRead {
    Bytes(Vec<u8>),
    Failed(String),
}

/// The model of a source file.
pub ghost enum FileModel {
    Bytes(Seq<u8>),
    Failed(Seq<char>),
}

impl DeepView for FileRead {
    type V = FileModel;

    open spec fn deep_view(&self) -> FileModel {
        match self {
            FileRead::Bytes(b) => FileModel::Bytes(b@),
            FileRead::Failed(m) => FileModel::Failed(m@),
        }
    }
}

/// The type and content of an inflated loose object.
pub open spec fn loose_parts(raw: Seq<u8>) -> Result<(GitType, Seq<u8>), Seq<char>> {
    let nul = first_at(raw, 0);
    let header = raw.take(nul as int);
    if nul >= raw.len() {
        Err("loose object missing NUL"@)
    } else if !valid_utf8(header) {
        Err("loose header: "@ + utf8_error_text(header))
    } else {
        let name = before(decode_utf8(header), ' ');
        match GitType::of_text(name) {
            Some(kind) => Ok((kind, raw.skip(nul as int + 1))),
            None => Err("unknown loose type "@ + name),
        }
    }
}

/// What a stream that stands at `p` inflates to.
pub open spec fn stream_at(b: Seq<u8>, p: int) -> Result<Seq<u8>, Seq<char>> {
    if !(0 <= p <= b.len()) {
        Err("unexpected EOF inside zlib stream"@)
    } else {
        match capped_run(b.skip(p), PARSE_INFLATE_CAP as nat, " (zip bomb suspected)"@, Seq::empty()) {
            Ok((out, used)) => Ok(out),
            Err(m) => Err(m),
        }
    }
}

/// Where the stream of a pack entry at `start` begins.
pub open spec fn stream_start(b: Seq<u8>, start: int, kind: GitType) -> Result<int, Seq<char>> {
    let s = b.skip(start);
    let p = start + touched(s);
    let t = b.skip(p);
    if !ends(s) {
        Err("truncated pack entry header (continuation)"@)
    } else if kind == GitType::OfsDelta {
        if p >= b.len() {
            Err("truncated ofs-delta header"@)
        } else if !ends(t) {
            Err("truncated ofs-delta offset"@)
        } else {
            Ok(p + touched(t))
        }
    } else if kind == GitType::RefDelta {
        Ok(p + 20)
    } else {
        Ok(p)
    }
}

/// The type and inflated data of the pack entry at `offset`.
pub open spec fn pack_parts(b: Seq<u8>, offset: i64) -> Result<(GitType, Seq<u8>), Seq<char>> {
    if !(0 <= offset < b.len()) {
        Err("pack offset "@ + dec_int(offset as int) + " missing"@)
    } else {
        let code = header_code(b[offset as int]);
        match GitType::of_code(code) {
            None => Err("bad type code "@ + dec(code as nat)),
            Some(kind) => match stream_start(b, offset as int, kind) {
                Err(m) => Err(m),
                Ok(p) => match stream_at(b, p) {
                    Err(m) => Err(m),
                    Ok(out) => Ok((kind, out)),
                },
            },
        }
    }
}

/// The type and raw data of a candidate in a file.
pub open spec fn payload_of(n: NodeModel, file: FileModel) -> Result<(GitType, Seq<u8>), Seq<char>> {
    match file {
        FileModel::Failed(m) => Err(m),
        FileModel::Bytes(b) => if n.source_kind == "loose"@ {
            match stream_at(b, 0) {
                Ok(raw) => loose_parts(raw),
                Err(m) => Err(m),
            }
        } else if n.source_kind == "pack"@ {
            pack_parts(b, n.offset)
        } else {
            Err("unsupported source kind "@ + n.source_kind)
        },
    }
}

/// A payload is never larger than the inflation cap.
pub proof fn payloads_are_capped(n: NodeModel, file: FileModel)
    ensures
        payload_of(n, file) matches Ok((kind, out)) ==> out.len() <= PARSE_INFLATE_CAP,
{
    if let FileModel::Bytes(b) = file {
        let note = " (zip bomb suspected)"@;
        caps_hold(b.skip(0), PARSE_INFLATE_CAP as nat, note, Seq::empty());
        if let Ok((kind, out)) = pack_parts(b, n.offset) {
            let p = stream_start(b, n.offset as int, kind)->Ok_0;
            caps_hold(b.skip(p), PARSE_INFLATE_CAP as nat, note, Seq::empty());
            caps_hold(Seq::empty(), PARSE_INFLATE_CAP as nat, note, Seq::empty());
        }
        if let Ok(raw) = stream_at(b, 0) {
            crate::model::bytes::lemma_first_at(raw, 0);
        }
    }
}

/// The payload of a candidate, as an executable result models it.
pub open spec fn payload_view(r: Result<(GitType, Vec<u8>), String>) -> Result<
    (GitType, Seq<u8>),
    Seq<char>,
> {
    match r {
        Ok((k, v)) => Ok((k, v@)),
        Err(e) => Err(e@),
    }
}

/// The type and content of an inflated loose object.
pub fn split_loose(raw: &[u8]) -> (r: Result<(GitType, Vec<u8>), String>)
    ensures
        payload_view(r) == loose_parts(raw@),
{
    let nul: usize = find_byte(raw, 0);
    if nul >= raw.len() {
        return Err("loose object missing NUL".to_owned());
    }
    let head = vstd::slice::slice_subrange(raw, 0, nul);
    assert(head@ =~= raw@.take(nul as int));
    let header = match utf8_text(head) {
        Ok(h) => h,
        Err(e) => {
            let mut m = "loose header: ".to_owned();
            m.append(e.as_str());
            return Err(m);
        },
    };
    let (name, rest) = split_once(header.as_str(), ' ');
    match GitType::from_name(name.as_str()) {
        Some(kind) => {
            let content = copy_range(raw, nul + 1, raw.len());
            assert(content@ =~= raw@.skip(nul as int + 1));
            Ok((kind, content))
        },
        None => {
            let mut m = "unknown loose type ".to_owned();
            m.append(name.as_str());
            Err(m)
        },
    }
}

fn inflate_from(bytes: &[u8], p: usize) -> (r: Result<Vec<u8>, String>)
    ensures
        match r {
            Ok(v) => stream_at(bytes@, p as int) == Ok::<Seq<u8>, Seq<char>>(v@),
            Err(e) => stream_at(bytes@, p as int) == Err::<Seq<u8>, Seq<char>>(e@),
        },
{
    match inflate_unbounded(bytes, p, PARSE_INFLATE_CAP) {
        Ok((out, _)) => Ok(out),
        Err(e) => Err(e),
    }
}

/// The type and inflated data of a pack entry.
pub fn pack_payload(bytes: &[u8], offset: i64) -> (r: Result<(GitType, Vec<u8>), String>)
    ensures
        payload_view(r) == pack_parts(bytes@, offset),
{
    if offset < 0 || offset as u64 >= bytes.len() as u64 {
        let mut m = "pack offset ".to_owned();
        push_int(&mut m, offset);
        m.append(" missing");
        return Err(m);
    }
    let start: usize = offset as usize;
    let code: u8 = (bytes[start] / 16) % 8;
    let kind = match GitType::from_pack(code) {
        Some(k) => k,
        None => {
            let mut m = "bad type code ".to_owned();
            push_dec(&mut m, code as u64);
            return Err(m);
        },
    };
    let (_, _, n) = match read_pack_entry_header(bytes, start) {
        Ok(v) => v,
        Err(e) => return Err(e),
    };
    proof {
        crate::model::varint::lemma_run_bounds(bytes@.skip(start as int));
    }
    let mut p: usize = start + n;
    if matches!(kind, GitType::OfsDelta) {
        let (_, used) = match read_ofs_distance(bytes, p) {
            Ok(v) => v,
            Err(e) => return Err(e),
        };
        proof {
            crate::model::varint::lemma_run_bounds(bytes@.skip(p as int));
        }
        p = p + used;
    } else if matches!(kind, GitType::RefDelta) {
        if bytes.len() - p < 20 {
            return Err("unexpected EOF inside zlib stream".to_owned());
        }
        p = p + 20;
    }
    match inflate_from(bytes, p) {
        Ok(v) => Ok((kind, v)),
        Err(e) => Err(e),
    }
}

/// Inflates the raw bytes of one candidate out of its source file.
pub fn candidate_payload(node: &CandidateNode, file: &FileRead) -> (r: Result<(GitType, Vec<u8>), String>)
    ensures
        payload_view(r) == payload_of(node.deep_view(), file.deep_view()),
{
    let bytes = match file {
        FileRead::Bytes(b) => b,
        FileRead::Failed(m) => return Err(m.clone()),
    };
    if same_text(node.source_kind.as_str(), "loose") {
        match inflate_from(bytes.as_slice(), 0) {
            Ok(raw) => split_loose(raw.as_slice()),
            Err(e) => Err(e),
        }
    } else if same_text(node.source_kind.as_str(), "pack") {
        pack_payload(bytes.as_slice(), node.offset)
    } else {
        let mut m = "unsupported source kind ".to_owned();
        m.append(node.source_kind.as_str());
        Err(m)
    }
}

/// No two candidates have the same id.
pub open spec fn ids_differ(rows: Seq<NodeModel>) -> bool {
    forall|i: int, j: int| 0 <= i < j < rows.len() ==> (#[trigger] rows[i]).id != (#[trigger] rows[j]).id
}

/// A candidate with id `id` and oid `oid` is among the rows.
pub open spec fn names(rows: Seq<NodeModel>, oid: Seq<char>, id: i64) -> bool {
    exists|i: int| 0 <= i < rows.len() && (#[trigger] rows[i]).oid == oid && rows[i].id == id
}

/// `ids` lists the candidates of an oid, each once.
pub open spec fn lists(rows: Seq<NodeModel>, oid: Seq<char>, ids: Option<Seq<i64>>) -> bool {
    match ids {
        None => forall|id: i64| oid.len() > 0 ==> !names(rows, oid, id),
        Some(s) => s.no_duplicates() && s.len() > 0 && oid.len() > 0 && forall|id: i64| #[trigger]
            s.contains(id) <==> names(rows, oid, id),
    }
}

proof fn lemma_gathered(rows: Seq<NodeModel>, oid: Seq<char>, id: i64)
    requires
        ids_differ(rows),
    ensures
        lists(rows, oid, get(gathered(rows).by_oid, oid)),
        get(gathered(rows).nodes, id) matches Some(n) ==> rows.contains(n) && n.id == id,
        forall|i: int| 0 <= i < rows.len() && rows[i].id == id ==> get(gathered(rows).nodes, id) == Some(
            #[trigger] rows[i],
        ),
    decreases rows.len(),
{
    if rows.len() > 0 {
        let rest = rows.drop_last();
        let n = rows.last();
        assert forall|i: int, j: int| 0 <= i < j < rest.len() implies (#[trigger] rest[i]).id != (
        #[trigger] rest[j]).id by {
            assert(rest[i] == rows[i] && rest[j] == rows[j]);
        }
        lemma_gathered(rest, oid, id);
        let g = gathered(rest);
        crate::model::assoc::get_of_put(g.nodes, n.id, n, id);
        assert(rows[rows.len() - 1] == n);
        assert forall|m: NodeModel| rest.contains(m) implies rows.contains(m) by {
            let k = choose|k: int| 0 <= k < rest.len() && rest[k] == m;
            assert(rows[k] == m);
        }
        assert forall|i: int| 0 <= i < rows.len() && rows[i].id == id implies get(gathered(rows).nodes, id)
            == Some(#[trigger] rows[i]) by {
            if i < rest.len() {
                assert(rest[i] == rows[i]);
                assert(rows[i].id != rows[rows.len() - 1].id);
            }
        }
        let old_ids = get(g.by_oid, n.oid);
        let new_ids = match old_ids {
            Some(ids) => ids.push(n.id),
            None => seq![n.id],
        };
        if n.oid.len() > 0 {
            crate::model::assoc::get_of_put(g.by_oid, n.oid, new_ids, oid);
        }
        assert forall|x: i64| oid.len() > 0 implies (names(rows, oid, x) <==> names(rest, oid, x) || (n.oid
            == oid && n.id == x)) by {
            if names(rest, oid, x) {
                let k = choose|k: int| 0 <= k < rest.len() && (#[trigger] rest[k]).oid == oid && rest[k].id
                    == x;
                assert(rows[k].oid == oid && rows[k].id == x);
            }
            if names(rows, oid, x) {
                let k = choose|k: int| 0 <= k < rows.len() && (#[trigger] rows[k]).oid == oid && rows[k].id
                    == x;
                if k < rest.len() {
                    assert(rest[k].oid == oid && rest[k].id == x);
                }
            }
        }
        if n.oid == oid && oid.len() > 0 {
            assert(!names(rest, oid, n.id)) by {
                if names(rest, oid, n.id) {
                    let k = choose|k: int| 0 <= k < rest.len() && (#[trigger] rest[k]).oid == oid && rest[k].id
                        == n.id;
                    assert(rows[k].id == rows[rows.len() - 1].id);
                }
            }
            assert forall|x: i64| #[trigger] new_ids.contains(x) <==> names(rows, oid, x) by {
                match old_ids {
                    Some(ids) => {
                        assert(ids.contains(x) <==> names(rest, oid, x));
                        if new_ids.contains(x) {
                            let k = choose|k: int| 0 <= k < new_ids.len() && new_ids[k] == x;
                            if k < ids.len() {
                                assert(ids[k] == x);
                            }
                        }
                        if ids.contains(x) {
                            let k = choose|k: int| 0 <= k < ids.len() && ids[k] == x;
                            assert(new_ids[k] == x);
                        }
                        assert(new_ids[ids.len() as int] == n.id);
                    },
                    None => {
                        assert(new_ids[0] == n.id);
                    },
                }
            }
            match old_ids {
                Some(ids) => {
                    assert(!ids.contains(n.id));
                },
                None => {},
            }
            assert(new_ids.no_duplicates());
        } else if let Some(ids) = get(g.by_oid, oid) {
            assert forall|x: i64| #[trigger] ids.contains(x) <==> names(rows, oid, x) by {
                assert(ids.contains(x) <==> names(rest, oid, x));
            }
        }
    }
}

proof fn lemma_arranged(
    nodes: Seq<(i64, NodeModel)>,
    by_oid: Seq<(Seq<char>, Seq<i64>)>,
    pins: Seq<(Seq<char>, i64)>,
    oid: Seq<char>,
)
    ensures
        get(arranged(nodes, by_oid, pins), oid) == match get(by_oid, oid) {
            Some(ids) => Some(pinned_first(by_rank(nodes, ids), get(pins, oid))),
            None => None,
        },
{
    let a = arranged(nodes, by_oid, pins);
    lemma_row(by_oid, oid);
    let p = row_of(by_oid, oid);
    assert forall|i: int| 0 <= i < p implies (#[trigger] a[i]).0 != oid by {
        assert(by_oid[i].0 != oid);
    }
    lemma_row_is(a, oid, p);
}

/// Which candidates an oid has, and in which order, depends on the candidates alone and not on
/// the order in which they were imported.
pub proof fn order_of_import_does_not_matter(
    rows: Seq<NodeModel>,
    others: Seq<NodeModel>,
    pins: Seq<(Seq<char>, i64)>,
    oid: Seq<char>,
    id: i64,
)
    requires
        ids_differ(rows),
        ids_differ(others),
        forall|n: NodeModel| rows.contains(n) <==> others.contains(n),
    ensures
        get(graph_of(rows, pins).by_oid, oid) == get(graph_of(others, pins).by_oid, oid),
        get(graph_of(rows, pins).nodes, id) == get(graph_of(others, pins).nodes, id),
        best(graph_of(rows, pins), oid) == best(graph_of(others, pins), oid),
{
    let g = gathered(rows);
    let h = gathered(others);
    lemma_same_node(rows, others, id);
    lemma_gathered(rows, oid, id);
    lemma_gathered(others, oid, id);
    lemma_arranged(g.nodes, g.by_oid, pins, oid);
    lemma_arranged(h.nodes, h.by_oid, pins, oid);
    assert forall|x: i64| names(rows, oid, x) <==> names(others, oid, x) by {
        lemma_same_names(rows, others, oid, x);
        lemma_same_names(others, rows, oid, x);
    }
    match (get(g.by_oid, oid), get(h.by_oid, oid)) {
        (Some(a), Some(b)) => {
            lemma_same_order(rows, others, a, b);
            let list = pinned_first(by_rank(g.nodes, a), get(pins, oid));
            if list.len() > 0 {
                lemma_same_node(rows, others, list[0]);
            }
        },
        (Some(a), None) => {
            assert(a.contains(a[0]));
        },
        (None, Some(b)) => {
            assert(b.contains(b[0]));
        },
        (None, None) => {},
    }
}

proof fn lemma_same_names(rows: Seq<NodeModel>, others: Seq<NodeModel>, oid: Seq<char>, id: i64)
    requires
        forall|n: NodeModel| rows.contains(n) <==> others.contains(n),
    ensures
        names(rows, oid, id) ==> names(others, oid, id),
{
    if names(rows, oid, id) {
        let k = choose|k: int| 0 <= k < rows.len() && (#[trigger] rows[k]).oid == oid && rows[k].id == id;
        assert(rows.contains(rows[k]));
        let j = choose|j: int| 0 <= j < others.len() && others[j] == rows[k];
        assert(others[j].oid == oid && others[j].id == id);
    }
}

proof fn lemma_same_node(rows: Seq<NodeModel>, others: Seq<NodeModel>, id: i64)
    requires
        ids_differ(rows),
        ids_differ(others),
        forall|n: NodeModel| rows.contains(n) <==> others.contains(n),
    ensures
        get(gathered(rows).nodes, id) == get(gathered(others).nodes, id),
{
    lemma_gathered(rows, Seq::empty(), id);
    lemma_gathered(others, Seq::empty(), id);
    if let Some(n) = get(gathered(rows).nodes, id) {
        assert(others.contains(n));
        let j = choose|j: int| 0 <= j < others.len() && others[j] == n;
        assert(others[j].id == id);
    }
    if let Some(n) = get(gathered(others).nodes, id) {
        assert(rows.contains(n));
        let j = choose|j: int| 0 <= j < rows.len() && rows[j] == n;
        assert(rows[j].id == id);
    }
}

proof fn lemma_same_order(rows: Seq<NodeModel>, others: Seq<NodeModel>, a: Seq<i64>, b: Seq<i64>)
    requires
        ids_differ(rows),
        ids_differ(others),
        forall|n: NodeModel| rows.contains(n) <==> others.contains(n),
        a.no_duplicates(),
        b.no_duplicates(),
        forall|id: i64| a.contains(id) <==> b.contains(id),
    ensures
        by_rank(gathered(rows).nodes, a) == by_rank(gathered(others).nodes, b),
{
    let ra = ranks_of(gathered(rows).nodes, a);
    let rb = ranks_of(gathered(others).nodes, b);
    lemma_rank_ids(rows, a);
    lemma_rank_ids(others, b);
    assert forall|r: (i64, i64, i64, i64)| ra.contains(r) implies rb.contains(r) by {
        let k = choose|k: int| 0 <= k < ra.len() && ra[k] == r;
        assert(a.contains(a[k]));
        let j = choose|j: int| 0 <= j < b.len() && b[j] == a[k];
        lemma_same_node(rows, others, a[k]);
        assert(rb[j] == r);
    }
    assert forall|r: (i64, i64, i64, i64)| rb.contains(r) implies ra.contains(r) by {
        let k = choose|k: int| 0 <= k < rb.len() && rb[k] == r;
        assert(b.contains(b[k]));
        let j = choose|j: int| 0 <= j < a.len() && a[j] == b[k];
        lemma_same_node(rows, others, b[k]);
        assert(ra[j] == r);
    }
    ra.lemma_multiset_has_no_duplicates();
    rb.lemma_multiset_has_no_duplicates();
    assert forall|r: (i64, i64, i64, i64)| ra.to_multiset().count(r) == rb.to_multiset().count(r) by {
        vstd::seq_lib::to_multiset_contains(ra, r);
        vstd::seq_lib::to_multiset_contains(rb, r);
    }
    assert(ra.to_multiset() =~= rb.to_multiset());
    ranking_ignores_the_order_given(ra, rb);
}

proof fn lemma_rank_ids(rows: Seq<NodeModel>, a: Seq<i64>)
    requires
        ids_differ(rows),
        a.no_duplicates(),
    ensures
        ranks_of(gathered(rows).nodes, a).no_duplicates(),
{
    let r = ranks_of(gathered(rows).nodes, a);
    assert forall|i: int, j: int| 0 <= i < r.len() && 0 <= j < r.len() && i != j implies r[i] != r[j] by {
        lemma_gathered(rows, Seq::empty(), a[i]);
        lemma_gathered(rows, Seq::empty(), a[j]);
        assert(a[i] != a[j]);
        assert(r[i].3 == a[i] && r[j].3 == a[j]);
    }
}

/// Every candidate that an oid lists is a candidate of the graph.
pub proof fn listed_candidates_are_nodes(rows: Seq<NodeModel>, pins: Seq<(Seq<char>, i64)>, oid: Seq<char>, k: int)
    requires
        ids_differ(rows),
        get(graph_of(rows, pins).by_oid, oid) is Some,
        0 <= k < get(graph_of(rows, pins).by_oid, oid)->0.len(),
    ensures
        ({
            let id = get(graph_of(rows, pins).by_oid, oid)->0[k];
            get(graph_of(rows, pins).nodes, id) matches Some(n) && n.id == id && n.oid == oid
        }),
{
    let g = gathered(rows);
    lemma_arranged(g.nodes, g.by_oid, pins, oid);
    lemma_gathered(rows, oid, 0);
    let ids = get(g.by_oid, oid)->0;
    let sorted = by_rank(g.nodes, ids);
    let list = pinned_first(sorted, get(pins, oid));
    let id = list[k];
    lemma_place(sorted, match get(pins, oid) {
        Some(p) => p,
        None => 0,
    });
    assert(sorted.contains(id)) by {
        if let Some(p) = get(pins, oid) {
            let at = place(sorted, p) as int;
            if at < sorted.len() {
                if k == 0 {
                    assert(sorted[at] == id);
                } else if k - 1 < at {
                    assert(sorted[k - 1] == id);
                } else {
                    assert(sorted[k] == id);
                }
            } else {
                assert(sorted[k] == id);
            }
        } else {
            assert(sorted[k] == id);
        }
    }
    let m = choose|m: int| 0 <= m < sorted.len() && sorted[m] == id;
    let ranks = ranks_of(g.nodes, ids);
    lemma_ranked_members(ranks, ranked(ranks)[m]);
    assert(ranked(ranks).contains(ranked(ranks)[m]));
    let q = choose|q: int| 0 <= q < ranks.len() && ranks[q] == ranked(ranks)[m];
    lemma_gathered(rows, oid, ids[q]);
    assert(ranks[q].3 == ids[q]);
    assert(ids.contains(id)) by {
        assert(ids[q] == id);
    }
    assert(names(rows, oid, id));
    let i = choose|i: int| 0 <= i < rows.len() && (#[trigger] rows[i]).oid == oid && rows[i].id == id;
    lemma_gathered(rows, oid, id);
    assert(get(g.nodes, id) == Some(rows[i]));
}

/// Lower ranks come first: without a pin, no candidate of an oid has a higher rank than one
/// behind it, and a candidate that could not be parsed stands behind every sound one.
pub proof fn broken_candidates_come_last(
    rows: Seq<NodeModel>,
    pins: Seq<(Seq<char>, i64)>,
    oid: Seq<char>,
    i: int,
    j: int,
)
    requires
        ids_differ(rows),
        get(pins, oid) is None,
        get(graph_of(rows, pins).by_oid, oid) is Some,
        0 <= i < j < get(graph_of(rows, pins).by_oid, oid)->0.len(),
    ensures
        ({
            let g = graph_of(rows, pins);
            let ids = get(g.by_oid, oid)->0;
            &&& rank_leq(rank_of(g.nodes, ids[i]), rank_of(g.nodes, ids[j]))
            &&& get(g.nodes, ids[i]) matches Some(a) && (get(g.nodes, ids[j]) matches Some(b) && (
            a.parse_error is Some ==> b.parse_error is Some))
        }),
{
    let g = gathered(rows);
    lemma_arranged(g.nodes, g.by_oid, pins, oid);
    lemma_gathered(rows, oid, 0);
    let ids = get(g.by_oid, oid)->0;
    let ranks = ranks_of(g.nodes, ids);
    let sorted = ranked(ranks);
    listed_candidates_are_nodes(rows, pins, oid, i);
    listed_candidates_are_nodes(rows, pins, oid, j);
    lemma_ranked_sorted(ranks, i, j);
    assert forall|k: int| 0 <= k < sorted.len() implies rank_of(g.nodes, sorted[k].3) == #[trigger] sorted[k] by {
        lemma_ranked_members(ranks, sorted[k]);
        assert(sorted.contains(sorted[k]));
        let q = choose|q: int| 0 <= q < ranks.len() && ranks[q] == sorted[k];
        lemma_gathered(rows, oid, ids[q]);
    }
    assert(rank_of(g.nodes, sorted[i].3) == sorted[i]);
    assert(rank_of(g.nodes, sorted[j].3) == sorted[j]);
}

/// Without a pin the candidates of an oid stand in one order: what could be parsed before what could
/// not, then by source, by offset, and by their own id.
pub proof fn candidates_are_ranked(
    rows: Seq<NodeModel>,
    pins: Seq<(Seq<char>, i64)>,
    oid: Seq<char>,
    i: int,
    j: int,
)
    requires
        ids_differ(rows),
        get(pins, oid) is None,
        get(graph_of(rows, pins).by_oid, oid) is Some,
        0 <= i < j < get(graph_of(rows, pins).by_oid, oid)->0.len(),
    ensures
        ({
            let g = graph_of(rows, pins);
            let a = get(g.nodes, get(g.by_oid, oid)->0[i])->0;
            let b = get(g.nodes, get(g.by_oid, oid)->0[j])->0;
            &&& rows.contains(a) && rows.contains(b)
            &&& a.oid == oid && b.oid == oid
            &&& a.parse_error is Some ==> b.parse_error is Some
            &&& (a.parse_error is Some <==> b.parse_error is Some) ==> a.source_id <= b.source_id
            &&& (a.parse_error is Some <==> b.parse_error is Some) && a.source_id == b.source_id ==> a.offset
                <= b.offset
            &&& (a.parse_error is Some <==> b.parse_error is Some) && a.source_id == b.source_id && a.offset
                == b.offset ==> a.id <= b.id
        }),
{
    broken_candidates_come_last(rows, pins, oid, i, j);
    listed_candidates_are_nodes(rows, pins, oid, i);
    listed_candidates_are_nodes(rows, pins, oid, j);
    let g = gathered(rows);
    let ids = get(graph_of(rows, pins).by_oid, oid)->0;
    lemma_gathered(rows, oid, ids[i]);
    lemma_gathered(rows, oid, ids[j]);
}

/// The candidate that is pinned to an oid, if it is one of the oid, is the best for it, whatever
/// its rank.
pub proof fn a_pinned_candidate_is_best(rows: Seq<NodeModel>, pins: Seq<(Seq<char>, i64)>, oid: Seq<char>, i: int)
    requires
        ids_differ(rows),
        0 <= i < rows.len(),
        oid.len() > 0,
        rows[i].oid == oid,
        get(pins, oid) == Some(rows[i].id),
    ensures
        best(graph_of(rows, pins), oid) == Some(rows[i]),
{
    let p = rows[i].id;
    let g = gathered(rows);
    lemma_gathered(rows, oid, p);
    lemma_arranged(g.nodes, g.by_oid, pins, oid);
    assert(names(rows, oid, p));
    let ids = get(g.by_oid, oid)->0;
    assert(ids.contains(p));
    let k = choose|k: int| 0 <= k < ids.len() && ids[k] == p;
    let ranks = ranks_of(g.nodes, ids);
    lemma_ranked_members(ranks, ranks[k]);
    assert(ranks.contains(ranks[k]));
    let m = choose|m: int| 0 <= m < ranked(ranks).len() && ranked(ranks)[m] == ranks[k];
    let sorted = by_rank(g.nodes, ids);
    assert(sorted[m] == p);
    lemma_place_found(sorted, p, m);
}

/// A candidate of a pack is found at its offset there.
pub proof fn a_candidate_stands_at_its_offset(rows: Seq<NodeModel>, pins: Seq<(Seq<char>, i64)>, i: int)
    requires
        0 <= i < rows.len(),
        rows[i].source_kind == "pack"@,
        forall|j: int| i < j < rows.len() && (#[trigger] rows[j]).source_kind == "pack"@ ==> rows[j].source_id
            != rows[i].source_id || rows[j].offset != rows[i].offset,
    ensures
        get(graph_of(rows, pins).by_pack_offset, (rows[i].source_id, rows[i].offset)) == Some(rows[i].id),
    decreases rows.len(),
{
    let rest = rows.drop_last();
    let n = rows.last();
    let g = gathered(rest);
    let k = (rows[i].source_id, rows[i].offset);
    if n.source_kind == "pack"@ {
        crate::model::assoc::get_of_put(g.by_pack_offset, (n.source_id, n.offset), n.id, k);
    }
    if i < rest.len() {
        assert(rest[i] == rows[i]);
        assert forall|j: int| i < j < rest.len() && (#[trigger] rest[j]).source_kind == "pack"@ implies rest[j].source_id
            != rest[i].source_id || rest[j].offset != rest[i].offset by {
            assert(rest[j] == rows[j]);
        }
        a_candidate_stands_at_its_offset(rest, pins, i);
        if n.source_kind == "pack"@ {
            assert(rows[rows.len() - 1] == n);
        }
    }
}

proof fn lemma_place_found(s: Seq<i64>, x: i64, m: int)
    requires
        0 <= m < s.len(),
        s[m] == x,
    ensures
        place(s, x) <= m,
    decreases s.len(),
{
    if s[0] != x {
        assert(s.skip(1)[m - 1] == x);
        lemma_place_found(s.skip(1), x, m - 1);
    }
}

proof fn lemma_place(s: Seq<i64>, x: i64)
    ensures
        place(s, x) <= s.len(),
        place(s, x) < s.len() ==> s[place(s, x) as int] == x,
    decreases s.len(),
{
    if s.len() > 0 && s[0] != x {
        lemma_place(s.skip(1), x);
    }
}

} // verus!
