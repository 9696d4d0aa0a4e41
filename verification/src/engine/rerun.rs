//! Runs of reconstructions: what ends how is recorded, and what stands on it is tried again.
use vstd::prelude::*;
use vstd::string::StringExecFns;
use crate::analyze::graph::{copy_opt, text_opt};
use crate::engine::importer::{
    kind_of_file, CandidateModel, CandidateRow, CatalogModel, IdxImage, ImportReport,
};
use crate::engine::pairing::{file_imported, Parsed};
use crate::engine::rebuild::{
    agrees, base_row, blocked, goes_by, id_of, oid_agrees, on_delta, refused, solved, App, Blocker, BlockerModel,
    Ground, Res, ResModel, ResolutionModel, ResolutionRow, Runtime,
};
use crate::git::types::{hash_object, oid_hex};
use crate::model::assoc::{get, has_key, put};
use crate::model::bytes::push_all;
use crate::model::idset::{ascending, id_into, insert_id};
use crate::model::object::object_frame;
use crate::model::order::views;
use crate::model::outside::sha1_of;
use crate::model::text::{dec, dec_int, hex, join, joined, push_dec, push_int, push_part, same_text, texts};

verus! {

/// What a run works on: what it reads, how candidates ended, the candidates it has come to an end
/// with, and what is used of the budget.
pub ghost struct Bench {
    pub ground: Ground,
    pub resolutions: Seq<(i64, ResolutionModel)>,
    pub touched: Seq<i64>,
    pub used: nat,
}

/// The candidates of a chain.
pub open spec fn chain_text(chain: Seq<i64>) -> Seq<char> {
    joined(chain.map_values(|c: i64| dec_int(c as int)), " -> "@)
}

/// The record of a failure.
pub open spec fn failure(
    status: Seq<char>,
    code: Seq<char>,
    detail: Seq<char>,
    blockers: Seq<BlockerModel>,
) -> ResolutionModel {
    ResolutionModel {
        status,
        resolved_type: None,
        content: None,
        oid_hex: None,
        oid_match: None,
        depth: 0,
        error_code: Some(code),
        error_detail: Some(detail),
        blockers,
        steps: None,
    }
}

/// The record of an end.
pub open spec fn record(id: i64, c: Option<CandidateModel>, r: ResModel) -> ResolutionModel {
    match r {
        ResModel::Done(o) => ResolutionModel {
            status: "resolved"@,
            resolved_type: Some(o.kind.text()),
            content: Some(o.data),
            oid_hex: Some(id_of(o.kind, o.data)),
            oid_match: match c {
                Some(row) => agrees(row.declared_oid_hex, id_of(o.kind, o.data)),
                None => None,
            },
            depth: o.depth,
            error_code: None,
            error_detail: None,
            blockers: Seq::empty(),
            steps: Some(o.steps),
        },
        ResModel::Cycle { chain } => failure(
            "cycle"@,
            "delta_cycle"@,
            "delta cycle through "@ + chain_text(chain),
            blocked("delta_cycle"@, "delta cycle: "@ + chain_text(chain), id, chain),
        ),
        ResModel::MissingBase { blockers } => failure(
            "missing_base"@,
            "missing_base"@,
            "base object is unavailable"@,
            blockers,
        ),
        ResModel::Bad { code, detail, blockers } => failure("bad"@, code, detail, blockers),
        ResModel::Paused { kind, limit, used, blockers } => failure(
            "paused"@,
            "budget_paused"@,
            kind + ": used "@ + dec(used) + ", limit "@ + dec(limit),
            if blockers.len() == 0 {
                blocked("budget_paused"@, kind + ": "@ + dec(used) + " > "@ + dec(limit), id, seq![id])
            } else {
                blockers
            },
        ),
    }
}

/// The candidates, where one that was reconstructed has its computed id.
pub open spec fn renamed(rows: Seq<(i64, CandidateModel)>, id: i64, r: ResModel) -> Seq<(i64, CandidateModel)> {
    match (r, get(rows, id)) {
        (ResModel::Done(o), Some(row)) => put(
            rows,
            id,
            CandidateModel { computed_oid_hex: Some(id_of(o.kind, o.data)), ..row },
        ),
        _ => rows,
    }
}

/// The bench after an end was recorded.
pub open spec fn persisted(b: Bench, id: i64, r: ResModel) -> Bench {
    Bench {
        ground: Ground { candidates: renamed(b.ground.candidates, id, r), ..b.ground },
        resolutions: put(b.resolutions, id, record(id, get(b.ground.candidates, id), r)),
        touched: id_into(b.touched, id),
        used: b.used,
    }
}

/// The bench after a candidate was tried and its end recorded.
pub open spec fn tried(b: Bench, id: i64) -> Bench {
    let (r, used) = solved(b.ground, b.used, Seq::empty(), id);
    persisted(Bench { used, ..b }, id, r)
}

/// The bench after the candidates of a list, from place `n` on, were tried in order.
pub open spec fn tried_all(b: Bench, ids: Seq<i64>, n: nat) -> Bench
    decreases ids.len() - n,
{
    if n >= ids.len() {
        b
    } else {
        tried_all(tried(b, ids[n as int]), ids, n + 1)
    }
}

/// Whether a candidate declares another as its base.
pub open spec fn consumes(c: CandidateModel, base: CandidateModel) -> bool {
    if c.obj_type == "ofs-delta"@ {
        base.source_id == c.source_id && c.ofs_base_offset is Some && base.pack_offset == c.ofs_base_offset
    } else {
        c.obj_type == "ref-delta"@ && c.ref_base_oid_hex is Some && goes_by(base, c.ref_base_oid_hex->0)
    }
}

/// The candidates among the first `n` that declare a base, in ascending order.
pub open spec fn consumers(rows: Seq<(i64, CandidateModel)>, base: CandidateModel, n: nat) -> Seq<i64>
    decreases n,
{
    if n == 0 {
        Seq::empty()
    } else {
        let v = consumers(rows, base, (n - 1) as nat);
        if consumes(rows[n - 1].1, base) {
            id_into(v, rows[n - 1].0)
        } else {
            v
        }
    }
}

/// How many rows are not among `done`.
pub open spec fn undone(rows: Seq<(i64, CandidateModel)>, done: Seq<i64>) -> nat
    decreases rows.len(),
{
    if rows.len() == 0 {
        0
    } else {
        undone(rows.drop_last(), done) + if done.contains(rows.last().0) {
            0nat
        } else {
            1nat
        }
    }
}

/// The keys of rows.
pub open spec fn keys(rows: Seq<(i64, CandidateModel)>) -> Seq<i64> {
    rows.map_values(|r: (i64, CandidateModel)| r.0)
}

/// The bench after what stands on the candidates of a queue was tried again, and on that in turn.
/// Each candidate is taken up once.
pub open spec fn recomputed(b: Bench, queue: Seq<i64>, done: Seq<i64>) -> Bench
    decreases undone(b.ground.candidates, done), queue.len(),
    via recomputed_ends
{
    if queue.len() == 0 {
        b
    } else {
        let id = queue[0];
        let rest = queue.skip(1);
        if done.contains(id) {
            recomputed(b, rest, done)
        } else {
            match get(b.ground.candidates, id) {
                None => recomputed(b, rest, id_into(done, id)),
                Some(base) => {
                    let v = consumers(b.ground.candidates, base, b.ground.candidates.len());
                    recomputed(tried_all(b, v, 0), rest + v, id_into(done, id))
                },
            }
        }
    }
}

pub proof fn lemma_into_has(v: Seq<i64>, x: i64, y: i64)
    ensures
        id_into(v, x).contains(y) <==> v.contains(y) || y == x,
    decreases v.len(),
{
    let w = id_into(v, x);
    if v.len() == 0 {
        assert(w[0] == x);
    } else if x < v[0] {
        assert(w[0] == x);
        if v.contains(y) {
            let j = choose|j: int| 0 <= j < v.len() && v[j] == y;
            assert(w[j + 1] == y);
        }
        if w.contains(y) && y != x {
            let j = choose|j: int| 0 <= j < w.len() && w[j] == y;
            assert(v[j - 1] == y);
        }
    } else if x > v[0] {
        let t = v.skip(1);
        lemma_into_has(t, x, y);
        let u = id_into(t, x);
        assert(w[0] == v[0]);
        if w.contains(y) && y != v[0] {
            let k = choose|k: int| 0 <= k < w.len() && w[k] == y;
            assert(u[k - 1] == y);
        }
        if u.contains(y) {
            let k = choose|k: int| 0 <= k < u.len() && u[k] == y;
            assert(w[k + 1] == y);
        }
        if t.contains(y) {
            let k = choose|k: int| 0 <= k < t.len() && t[k] == y;
            assert(v[k + 1] == y);
        }
        if v.contains(y) && y != v[0] {
            let k = choose|k: int| 0 <= k < v.len() && v[k] == y;
            assert(t[k - 1] == y);
        }
    }
}

proof fn lemma_undone(rows: Seq<(i64, CandidateModel)>, done: Seq<i64>, id: i64)
    ensures
        undone(rows, id_into(done, id)) <= undone(rows, done),
        keys(rows).contains(id) && !done.contains(id) ==> undone(rows, id_into(done, id)) < undone(rows, done),
    decreases rows.len(),
{
    if rows.len() > 0 {
        let t = rows.drop_last();
        lemma_undone(t, done, id);
        lemma_into_has(done, id, rows.last().0);
        if keys(rows).contains(id) && rows.last().0 != id {
            let i = choose|i: int| 0 <= i < keys(rows).len() && keys(rows)[i] == id;
            assert(keys(t)[i] == id);
        }
    }
}

proof fn lemma_same_keys(a: Seq<(i64, CandidateModel)>, b: Seq<(i64, CandidateModel)>, done: Seq<i64>)
    requires
        keys(a) == keys(b),
    ensures
        undone(a, done) == undone(b, done),
    decreases a.len(),
{
    assert(keys(a).len() == a.len() && keys(b).len() == b.len());
    if a.len() > 0 {
        assert(keys(a.drop_last()) =~= keys(a).drop_last());
        assert(keys(b.drop_last()) =~= keys(b).drop_last());
        lemma_same_keys(a.drop_last(), b.drop_last(), done);
        assert(keys(a).last() == a.last().0 && keys(b).last() == b.last().0);
    }
}

proof fn lemma_row(rows: Seq<(i64, CandidateModel)>, id: i64)
    requires
        get(rows, id) is Some,
    ensures
        keys(rows).contains(id),
{
    let n = crate::model::assoc::row_of(rows, id);
    crate::model::assoc::lemma_row(rows, id);
    assert(keys(rows)[n as int] == id);
}

proof fn lemma_tried_keys(b: Bench, ids: Seq<i64>, n: nat)
    ensures
        keys(tried_all(b, ids, n).ground.candidates) == keys(b.ground.candidates),
    decreases ids.len() - n,
{
    if n < ids.len() {
        let c = tried(b, ids[n as int]);
        let id = ids[n as int];
        let rows = b.ground.candidates;
        if get(rows, id) is Some {
            crate::model::assoc::lemma_row(rows, id);
        }
        assert(keys(c.ground.candidates) =~= keys(rows));
        lemma_tried_keys(c, ids, n + 1);
    }
}

#[via_fn]
proof fn recomputed_ends(b: Bench, queue: Seq<i64>, done: Seq<i64>) {
    if queue.len() > 0 {
        let id = queue[0];
        let rows = b.ground.candidates;
        lemma_undone(rows, done, id);
        if get(rows, id) is Some {
            let v = consumers(rows, get(rows, id)->0, rows.len());
            lemma_row(rows, id);
            lemma_tried_keys(b, v, 0);
            lemma_same_keys(tried_all(b, v, 0).ground.candidates, rows, id_into(done, id));
        }
    }
}

impl App {
    /// The bench of this state.
    pub open spec fn bench(self, rt: Runtime) -> Bench {
        Bench {
            ground: self.ground(),
            resolutions: self.resolutions@,
            touched: rt.touched@,
            used: rt.used_seed as nat,
        }
    }
}

fn chain_str(chain: &Vec<i64>) -> (s: String)
    ensures
        s@ == chain_text(chain@),
{
    let mut parts: Vec<String> = Vec::new();
    let ghost all = chain@.map_values(|c: i64| dec_int(c as int));
    let mut i: usize = 0;
    assert(texts(parts@) =~= all.take(0));
    while i < chain.len()
        invariant
            i <= chain@.len(),
            all == chain@.map_values(|c: i64| dec_int(c as int)),
            texts(parts@) == all.take(i as int),
        decreases chain@.len() - i,
    {
        let mut m = "".to_owned();
        push_int(&mut m, chain[i]);
        proof {
            reveal_strlit("");
            assert(m@ =~= dec_int(chain@[i as int] as int));
        }
        push_part(&mut parts, m);
        i += 1;
        assert(texts(parts@) =~= all.take(i as int));
    }
    assert(all.take(i as int) =~= all);
    join(&parts, " -> ")
}

fn failed(status: &str, code: &str, detail: String, blockers: Vec<Blocker>) -> (r: ResolutionRow)
    ensures
        r.deep_view() == failure(status@, code@, detail@, views(blockers@)),
{
    ResolutionRow {
        status: status.to_owned(),
        resolved_type: None,
        content: None,
        oid_hex: None,
        oid_match: None,
        depth: 0,
        error_code: Some(code.to_owned()),
        error_detail: Some(detail),
        blockers,
        steps: None,
    }
}

fn one_blocker(code: &str, message: String, id: i64, chain: Vec<i64>) -> (v: Vec<Blocker>)
    ensures
        views(v@) == blocked(code@, message@, id, chain@),
{
    let b = Blocker { code: code.to_owned(), message, candidate_id: Some(id), chain };
    let ghost model = b@;
    let mut v: Vec<Blocker> = Vec::new();
    v.push(b);
    assert(views(v@) =~= seq![model]);
    v
}

fn with_oid(c: &CandidateRow, oid: &str) -> (r: CandidateRow)
    ensures
        r.deep_view() == (CandidateModel { computed_oid_hex: Some(oid@), ..c.deep_view() }),
{
    CandidateRow {
        source_id: c.source_id,
        pack_offset: c.pack_offset,
        declared_oid_hex: copy_opt(&c.declared_oid_hex),
        computed_oid_hex: Some(oid.to_owned()),
        obj_type: c.obj_type.clone(),
        claimed_size: c.claimed_size,
        inflated_size: c.inflated_size,
        compressed_len: c.compressed_len,
        header_len: c.header_len,
        entry_crc32: c.entry_crc32,
        idx_crc32: c.idx_crc32,
        crc_ok: c.crc_ok,
        ofs_base_offset: c.ofs_base_offset,
        ref_base_oid_hex: copy_opt(&c.ref_base_oid_hex),
        parse_status: c.parse_status.clone(),
        parse_detail: c.parse_detail.clone(),
    }
}

impl App {
    /// What stays as it is when ends are recorded.
    pub open spec fn keeps(self, before: App) -> bool {
        &&& self.streams@ == before.streams@
        &&& self.limits == before.limits
        &&& self.used_bytes == before.used_bytes
        &&& self.catalog.sources@ == before.catalog.sources@
        &&& self.catalog.edges@ == before.catalog.edges@
        &&& self.catalog.next_source == before.catalog.next_source
        &&& self.catalog.next_candidate == before.catalog.next_candidate
    }

    /// Records how a candidate ended.
    pub fn persist(&mut self, rt: &mut Runtime, id: i64, res: Res)
        requires
            ascending(old(rt).touched@),
        ensures
            final(self).bench(*final(rt)) == persisted(old(self).bench(*old(rt)), id, res@),
            final(self).keeps(*old(self)),
            final(rt).chain@ == old(rt).chain@,
            ascending(final(rt).touched@),
    {
        let new = insert_id(&mut rt.touched, id);
        let ghost rows = self.catalog.candidates@;
        let ghost model = res@;
        let row = match res {
            Res::Done(obj) => {
                let hash = hash_object(obj.kind, obj.data.as_slice());
                let hex = oid_hex(&hash);
                let mut oid_match: Option<bool> = None;
                let changed = match self.catalog.candidates.get(id) {
                    Some(c) => {
                        oid_match = oid_agrees(&c.declared_oid_hex, hex.as_str());
                        Some(with_oid(c, hex.as_str()))
                    },
                    None => None,
                };
                match changed {
                    Some(c) => self.catalog.candidates.insert(id, c),
                    None => {},
                }
                let blockers: Vec<Blocker> = Vec::new();
                assert(views(blockers@) =~= Seq::empty());
                ResolutionRow {
                    status: "resolved".to_owned(),
                    resolved_type: Some(obj.kind.name().to_owned()),
                    content: Some(obj.data),
                    oid_hex: Some(hex),
                    oid_match,
                    depth: obj.depth,
                    error_code: None,
                    error_detail: None,
                    blockers,
                    steps: Some(obj.steps),
                }
            },
            Res::Cycle { chain } => {
                let text = chain_str(&chain);
                let mut detail = "delta cycle through ".to_owned();
                detail.append(text.as_str());
                let mut message = "delta cycle: ".to_owned();
                message.append(text.as_str());
                failed("cycle", "delta_cycle", detail, one_blocker("delta_cycle", message, id, chain))
            },
            Res::MissingBase { blockers } => failed(
                "missing_base",
                "missing_base",
                "base object is unavailable".to_owned(),
                blockers,
            ),
            Res::Bad { code, detail, blockers } => failed("bad", code.as_str(), detail, blockers),
            Res::Paused { kind, limit, used, blockers } => {
                let mut detail = kind.clone();
                detail.append(": used ");
                push_dec(&mut detail, used);
                detail.append(", limit ");
                push_dec(&mut detail, limit);
                assert(views(blockers@).len() == blockers@.len());
                let shown = if blockers.len() == 0 {
                    let mut message = kind.clone();
                    message.append(": ");
                    push_dec(&mut message, used);
                    message.append(" > ");
                    push_dec(&mut message, limit);
                    let mut chain: Vec<i64> = Vec::new();
                    chain.push(id);
                    assert(chain@ =~= seq![id]);
                    one_blocker("budget_paused", message, id, chain)
                } else {
                    blockers
                };
                failed("paused", "budget_paused", detail, shown)
            },
        };
        assert(row.deep_view() == record(id, get(rows, id), model));
        self.resolutions.insert(id, row);
    }

    /// Tries a candidate and records its end.
    fn attempt(&mut self, rt: &mut Runtime, id: i64)
        requires
            ascending(old(rt).touched@),
            old(rt).chain@ == Seq::<i64>::empty(),
        ensures
            final(self).bench(*final(rt)) == tried(old(self).bench(*old(rt)), id),
            final(self).keeps(*old(self)),
            final(rt).chain@ == old(rt).chain@,
            ascending(final(rt).touched@),
    {
        let res = self.resolve_candidate(rt, id);
        self.persist(rt, id, res);
    }

    fn attempt_all(&mut self, rt: &mut Runtime, ids: &Vec<i64>)
        requires
            ascending(old(rt).touched@),
            old(rt).chain@ == Seq::<i64>::empty(),
        ensures
            final(self).bench(*final(rt)) == tried_all(old(self).bench(*old(rt)), ids@, 0),
            final(self).keeps(*old(self)),
            final(rt).chain@ == old(rt).chain@,
            ascending(final(rt).touched@),
    {
        let ghost start = self.bench(*rt);
        let mut i: usize = 0;
        while i < ids.len()
            invariant
                i <= ids@.len(),
                ascending(rt.touched@),
                rt.chain@ == Seq::<i64>::empty(),
                self.keeps(*old(self)),
                tried_all(start, ids@, 0) == tried_all(self.bench(*rt), ids@, i as nat),
            decreases ids@.len() - i,
        {
            self.attempt(rt, ids[i]);
            i += 1;
        }
    }

    fn declared_consumers(&self, base: &CandidateRow) -> (v: Vec<i64>)
        ensures
            v@ == consumers(self.catalog.candidates@, base.deep_view(), self.catalog.candidates@.len()),
    {
        let ghost rows = self.catalog.candidates@;
        let ghost b = base.deep_view();
        let mut v: Vec<i64> = Vec::new();
        let mut n: usize = 0;
        assert(v@ =~= consumers(rows, b, 0));
        while n < self.catalog.candidates.len()
            invariant
                n <= rows.len(),
                rows == self.catalog.candidates@,
                b == base.deep_view(),
                ascending(v@),
                v@ == consumers(rows, b, n as nat),
            decreases rows.len() - n,
        {
            let c = self.catalog.candidates.value_at(n);
            let hit: bool = if same_text(c.obj_type.as_str(), "ofs-delta") {
                base.source_id == c.source_id && match (base.pack_offset, c.ofs_base_offset) {
                    (Some(x), Some(y)) => x == y,
                    _ => false,
                }
            } else {
                same_text(c.obj_type.as_str(), "ref-delta") && match &c.ref_base_oid_hex {
                    Some(o) => is_named(&base.declared_oid_hex, o.as_str()) || is_named(
                        &base.computed_oid_hex,
                        o.as_str(),
                    ),
                    None => false,
                }
            };
            assert(hit == consumes(rows[n as int].1, b));
            if hit {
                let new = insert_id(&mut v, self.catalog.candidates.key_at(n));
            }
            n += 1;
        }
        v
    }

    /// Tries again what stands on the given candidates, and on that in turn, along declared bases;
    /// this also comes to what could not be linked before.
    pub fn recompute_consumers(&mut self, rt: &mut Runtime, seeds: Vec<i64>)
        requires
            ascending(old(rt).touched@),
            old(rt).chain@ == Seq::<i64>::empty(),
        ensures
            final(self).bench(*final(rt)) == recomputed(
                old(self).bench(*old(rt)),
                seeds@,
                Seq::empty(),
            ),
            final(self).keeps(*old(self)),
            final(rt).chain@ == old(rt).chain@,
            ascending(final(rt).touched@),
    {
        let ghost start = self.bench(*rt);
        let mut queue: Vec<i64> = seeds;
        let mut done: Vec<i64> = Vec::new();
        let mut head: usize = 0;
        assert(queue@.skip(0) =~= queue@);
        assert(done@ =~= Seq::empty());
        while head < queue.len()
            invariant
                head <= queue@.len(),
                ascending(done@),
                ascending(rt.touched@),
                rt.chain@ == Seq::<i64>::empty(),
                self.keeps(*old(self)),
                recomputed(start, seeds@, Seq::empty()) == recomputed(
                    self.bench(*rt),
                    queue@.skip(head as int),
                    done@,
                ),
            decreases undone(self.catalog.candidates@, done@), queue@.len() - head,
        {
            let ghost b = self.bench(*rt);
            let ghost q = queue@.skip(head as int);
            let ghost rows = b.ground.candidates;
            let ghost was = done@;
            let id: i64 = queue[head];
            head += 1;
            assert(q.skip(1) =~= queue@.skip(head as int));
            let new: bool = insert_id(&mut done, id);
            proof {
                lemma_undone(rows, was, id);
            }
            if !new {
                continue;
            }
            let found = match self.catalog.candidates.get(id) {
                Some(base) => Some(self.declared_consumers(base)),
                None => None,
            };
            match found {
                None => {},
                Some(v) => {
                    proof {
                        lemma_row(rows, id);
                        lemma_tried_keys(b, v@, 0);
                        lemma_same_keys(tried_all(b, v@, 0).ground.candidates, rows, done@);
                    }
                    self.attempt_all(rt, &v);
                    let ghost before = queue@;
                    let mut k: usize = 0;
                    while k < v.len()
                        invariant
                            k <= v@.len(),
                            queue@ == before + v@.take(k as int),
                        decreases v@.len() - k,
                    {
                        queue.push(v[k]);
                        k += 1;
                        assert(queue@ =~= before + v@.take(k as int));
                    }
                    assert(v@.take(k as int) =~= v@);
                    assert(queue@.skip(head as int) =~= q.skip(1) + v@);
                },
            }
        }
        assert(queue@.skip(head as int).len() == 0);
    }
}

fn is_named(o: &Option<String>, oid: &str) -> (r: bool)
    ensures
        r == (text_opt(*o) == Some(oid@)),
{
    match o {
        Some(s) => same_text(s.as_str(), oid),
        None => false,
    }
}

/// How many records there are of each kind.
#[derive(Clone, Copy, Debug, PartialEq, Eq, Structural)]
pub struct ResolveReport {
    pub resolved: usize,
    pub missing_base: usize,
    pub cycle: usize,
    pub bad: usize,
    pub paused: usize,
    pub total: usize,
}

/// How many of the first `n` records have a status.
pub open spec fn count_of(rows: Seq<(i64, ResolutionModel)>, status: Seq<char>, n: nat) -> nat
    decreases n,
{
    if n == 0 {
        0
    } else {
        count_of(rows, status, (n - 1) as nat) + if rows[n - 1].1.status == status {
            1nat
        } else {
            0nat
        }
    }
}

/// The counts of records.
pub open spec fn tallied(r: ResolveReport, rows: Seq<(i64, ResolutionModel)>, n: nat) -> bool {
    &&& r.resolved == count_of(rows, "resolved"@, n)
    &&& r.missing_base == count_of(rows, "missing_base"@, n)
    &&& r.cycle == count_of(rows, "cycle"@, n)
    &&& r.bad == count_of(rows, "bad"@, n)
    &&& r.paused == count_of(rows, "paused"@, n)
    &&& r.total == n
}

/// The candidates among the first `n` that have no record, in ascending order.
pub open spec fn unresolved(
    rows: Seq<(i64, CandidateModel)>,
    records: Seq<(i64, ResolutionModel)>,
    n: nat,
) -> Seq<i64>
    decreases n,
{
    if n == 0 {
        Seq::empty()
    } else {
        let v = unresolved(rows, records, (n - 1) as nat);
        if has_key(records, rows[n - 1].0) {
            v
        } else {
            id_into(v, rows[n - 1].0)
        }
    }
}

/// The candidates among the first `n` records that wait for budget or for a base, in ascending
/// order.
pub open spec fn stalled(records: Seq<(i64, ResolutionModel)>, n: nat) -> Seq<i64>
    decreases n,
{
    if n == 0 {
        Seq::empty()
    } else {
        let v = stalled(records, (n - 1) as nat);
        let status = records[n - 1].1.status;
        if status == "paused"@ || status == "missing_base"@ {
            id_into(v, records[n - 1].0)
        } else {
            v
        }
    }
}

/// The streams, with the first `n` of `v` under ids that follow each other from `first`.
pub open spec fn with_streams(streams: Seq<(i64, Seq<u8>)>, first: i64, v: Seq<Vec<u8>>, n: nat) -> Seq<(i64, Seq<u8>)>
    decreases n,
{
    if n == 0 {
        streams
    } else {
        put(with_streams(streams, first, v, (n - 1) as nat), (first + n - 1) as i64, v[n - 1]@)
    }
}

/// The bench that the run after an import starts with.
pub open spec fn imported(a: App, c: CatalogModel, streams: Seq<Vec<u8>>) -> Bench {
    Bench {
        ground: Ground {
            candidates: c.candidates,
            streams: with_streams(a.streams@, a.catalog.next_candidate, streams, streams.len()),
            limits: a.limits,
        },
        ..a.opened()
    }
}

impl App {
    /// The bench that a run starts with.
    pub open spec fn opened(self) -> Bench {
        Bench {
            ground: self.ground(),
            resolutions: self.resolutions@,
            touched: Seq::empty(),
            used: self.used_bytes as nat,
        }
    }

    /// Whether this is the state that a run leaves behind.
    pub open spec fn left_by(self, b: Bench) -> bool {
        &&& self.ground() == b.ground
        &&& self.resolutions@ == b.resolutions
        &&& self.used_bytes == b.used
    }

    /// Whether the sources, the edges and the next ids are those of another state.
    pub open spec fn same_sources(self, before: App) -> bool {
        &&& self.catalog.sources@ == before.catalog.sources@
        &&& self.catalog.edges@ == before.catalog.edges@
        &&& self.catalog.next_source == before.catalog.next_source
        &&& self.catalog.next_candidate == before.catalog.next_candidate
    }

    fn unresolved_candidate_ids(&self) -> (v: Vec<i64>)
        ensures
            v@ == unresolved(self.catalog.candidates@, self.resolutions@, self.catalog.candidates@.len()),
    {
        let ghost rows = self.catalog.candidates@;
        let mut v: Vec<i64> = Vec::new();
        let mut n: usize = 0;
        assert(v@ =~= unresolved(rows, self.resolutions@, 0));
        while n < self.catalog.candidates.len()
            invariant
                n <= rows.len(),
                rows == self.catalog.candidates@,
                ascending(v@),
                v@ == unresolved(rows, self.resolutions@, n as nat),
            decreases rows.len() - n,
        {
            let id: i64 = self.catalog.candidates.key_at(n);
            if !self.resolutions.contains(id) {
                let new = insert_id(&mut v, id);
            }
            n += 1;
        }
        v
    }

    fn stalled_ids(&self) -> (v: Vec<i64>)
        ensures
            v@ == stalled(self.resolutions@, self.resolutions@.len()),
    {
        let ghost rows = self.resolutions@;
        let mut v: Vec<i64> = Vec::new();
        let mut n: usize = 0;
        assert(v@ =~= stalled(rows, 0));
        while n < self.resolutions.len()
            invariant
                n <= rows.len(),
                rows == self.resolutions@,
                ascending(v@),
                v@ == stalled(rows, n as nat),
            decreases rows.len() - n,
        {
            let row = self.resolutions.value_at(n);
            if same_text(row.status.as_str(), "paused") || same_text(row.status.as_str(), "missing_base") {
                let new = insert_id(&mut v, self.resolutions.key_at(n));
            }
            n += 1;
        }
        v
    }

    /// Counts the records.
    pub fn summarize(&self) -> (r: ResolveReport)
        ensures
            tallied(r, self.resolutions@, self.resolutions@.len()),
    {
        let ghost rows = self.resolutions@;
        let mut r = ResolveReport { resolved: 0, missing_base: 0, cycle: 0, bad: 0, paused: 0, total: 0 };
        let mut n: usize = 0;
        while n < self.resolutions.len()
            invariant
                n <= rows.len(),
                rows == self.resolutions@,
                tallied(r, rows, n as nat),
                r.resolved <= n,
                r.missing_base <= n,
                r.cycle <= n,
                r.bad <= n,
                r.paused <= n,
            decreases rows.len() - n,
        {
            let status = self.resolutions.value_at(n).status.as_str();
            proof {
                reveal_strlit("resolved");
                reveal_strlit("missing_base");
                reveal_strlit("cycle");
                reveal_strlit("bad");
                reveal_strlit("paused");
                assert("resolved"@.len() == 8 && "missing_base"@.len() == 12 && "cycle"@.len() == 5
                    && "bad"@.len() == 3 && "paused"@.len() == 6);
            }
            if same_text(status, "resolved") {
                r.resolved = r.resolved + 1;
            } else if same_text(status, "missing_base") {
                r.missing_base = r.missing_base + 1;
            } else if same_text(status, "cycle") {
                r.cycle = r.cycle + 1;
            } else if same_text(status, "bad") {
                r.bad = r.bad + 1;
            } else if same_text(status, "paused") {
                r.paused = r.paused + 1;
            }
            r.total = r.total + 1;
            n += 1;
        }
        r
    }

    /// Reconstructs every candidate that has no record.
    pub fn resolve_all(&mut self) -> (report: ResolveReport)
        ensures
            ({
                let b = old(self).opened();
                final(self).left_by(
                    tried_all(
                        b,
                        unresolved(b.ground.candidates, b.resolutions, b.ground.candidates.len()),
                        0,
                    ),
                )
            }),
            final(self).same_sources(*old(self)),
            tallied(report, final(self).resolutions@, final(self).resolutions@.len()),
    {
        let ids = self.unresolved_candidate_ids();
        let mut rt = Runtime::new();
        rt.used_seed = self.used_bytes;
        assert(self.bench(rt) == old(self).opened());
        self.attempt_all(&mut rt, &ids);
        self.used_bytes = rt.used_seed;
        self.summarize()
    }

    /// Tries again what waits for budget or for a base, and what stands on that.
    pub fn resume(&mut self) -> (report: ResolveReport)
        ensures
            ({
                let b = old(self).opened();
                let c = tried_all(b, stalled(b.resolutions, b.resolutions.len()), 0);
                final(self).left_by(recomputed(c, c.touched, Seq::empty()))
            }),
            final(self).same_sources(*old(self)),
            tallied(report, final(self).resolutions@, final(self).resolutions@.len()),
    {
        let ids = self.stalled_ids();
        let mut rt = Runtime::new();
        rt.used_seed = self.used_bytes;
        assert(self.bench(rt) == old(self).opened());
        self.attempt_all(&mut rt, &ids);
        let seeds = rt.touched.clone();
        self.recompute_consumers(&mut rt, seeds);
        self.used_bytes = rt.used_seed;
        self.summarize()
    }

    /// Reconstructs what has no record yet, and tries again what that may unblock.
    pub fn resolve_new_and_unblocked(&mut self) -> (report: ResolveReport)
        ensures
            ({
                let b = old(self).opened();
                let c = tried_all(
                    b,
                    unresolved(b.ground.candidates, b.resolutions, b.ground.candidates.len()),
                    0,
                );
                final(self).left_by(recomputed(c, c.touched, Seq::empty()))
            }),
            final(self).same_sources(*old(self)),
            tallied(report, final(self).resolutions@, final(self).resolutions@.len()),
    {
        let ids = self.unresolved_candidate_ids();
        let mut rt = Runtime::new();
        rt.used_seed = self.used_bytes;
        assert(self.bench(rt) == old(self).opened());
        self.attempt_all(&mut rt, &ids);
        let seeds = rt.touched.clone();
        self.recompute_consumers(&mut rt, seeds);
        self.used_bytes = rt.used_seed;
        self.summarize()
    }

    /// Keeps the streams of candidates that follow each other by id.
    fn keep_streams(&mut self, first: i64, streams: &Vec<Vec<u8>>)
        requires
            0 <= first,
            first + streams@.len() <= i64::MAX,
        ensures
            final(self).catalog == old(self).catalog,
            final(self).resolutions == old(self).resolutions,
            final(self).limits == old(self).limits,
            final(self).used_bytes == old(self).used_bytes,
            final(self).streams@ == with_streams(old(self).streams@, first, streams@, streams@.len()),
    {
        let mut i: usize = 0;
        while i < streams.len()
            invariant
                i <= streams@.len(),
                0 <= first,
                first + streams@.len() <= i64::MAX,
                self.catalog == old(self).catalog,
                self.resolutions == old(self).resolutions,
                self.limits == old(self).limits,
                self.used_bytes == old(self).used_bytes,
                self.streams@ == with_streams(old(self).streams@, first, streams@, i as nat),
            decreases streams@.len() - i,
        {
            let mut z: Vec<u8> = Vec::new();
            push_all(&mut z, streams[i].as_slice());
            assert(z.deep_view() =~= streams@[i as int]@);
            let id: i64 = first + i as i64;
            self.streams.insert(id, z);
            i += 1;
        }
    }

    /// Imports one file, reconstructs what it brings, and tries again only what that may unblock.
    /// Content that is there already changes nothing. `parsed` is what the parser for its kind,
    /// which `detect_kind` tells, made of it, and `streams` holds the compressed streams of
    /// the candidates of the file, in their order.
    pub fn import_bytes(
        &mut self,
        filename: &str,
        data: &[u8],
        parsed: Parsed,
        images: &Vec<(String, IdxImage)>,
        streams: &Vec<Vec<u8>>,
    ) -> (r: (ImportReport, Option<ResolveReport>))
        requires
            parsed.kind() == kind_of_file(data@, filename@),
            old(self).catalog.next_source < i64::MAX,
            0 <= old(self).catalog.next_candidate < i64::MAX,
            parsed matches Parsed::Pack(Ok(p)) ==> old(self).catalog.next_candidate + p.entries@.len()
                <= i64::MAX,
            old(self).catalog.next_candidate + streams@.len() <= i64::MAX,
        ensures
            ({
                let (c, report) = file_imported(old(self).catalog@, filename@, data@, parsed, images@);
                let b = imported(*old(self), c, streams@);
                &&& r.0@ == report
                &&& if report.duplicate {
                    &&& r.1 is None
                    &&& final(self).left_by(old(self).opened())
                    &&& final(self).catalog@ == old(self).catalog@
                } else {
                    let t = tried_all(
                        b,
                        unresolved(b.ground.candidates, b.resolutions, b.ground.candidates.len()),
                        0,
                    );
                    &&& final(self).left_by(recomputed(t, t.touched, Seq::empty()))
                    &&& final(self).catalog@ == (CatalogModel { candidates: final(self).catalog@.candidates, ..c })
                    &&& r.1 matches Some(tally)
                    &&& tallied(tally, final(self).resolutions@, final(self).resolutions@.len())
                }
            }),
    {
        let first: i64 = self.catalog.next_candidate;
        let report = self.catalog.import_bytes(filename, data, parsed, images);
        if report.duplicate {
            return (report, None);
        }
        self.keep_streams(first, streams);
        let ghost c = self.catalog@;
        assert(self.opened() == imported(*old(self), c, streams@));
        let tally = self.resolve_new_and_unblocked();
        (report, Some(tally))
    }
}

/// Reconstruction only adds to what is used of the budget, and never goes past the budget.
pub proof fn reconstruction_stays_in_budget(g: Ground, used: nat, chain: Seq<i64>, id: i64)
    ensures
        used <= solved(g, used, chain, id).1,
        used <= g.limits.max_total_bytes ==> solved(g, used, chain, id).1 <= g.limits.max_total_bytes,
    decreases g.limits.max_depth - chain.len(),
{
    if let Some(c) = get(g.candidates, id) {
        let here = chain.push(id);
        let n = base_row(g.candidates, c, 0);
        if !chain.contains(id) && refused(c, id, chain) is None && on_delta(c) && here.len()
            < g.limits.max_depth && n < g.candidates.len() {
            let base_id = g.candidates[n as int].0;
            reconstruction_stays_in_budget(g, used, here, base_id);
        }
    }
}

/// What is reconstructed has the id that was declared for it, if one was.
pub proof fn reconstructions_have_their_declared_id(g: Ground, used: nat, chain: Seq<i64>, id: i64)
    ensures
        solved(g, used, chain, id).0 matches ResModel::Done(o) ==> {
            &&& get(g.candidates, id) matches Some(c)
            &&& agrees(c.declared_oid_hex, id_of(o.kind, o.data)) != Some(false)
        },
{
}

/// The records of what was reconstructed hold a content that has the recorded id and does not
/// contradict a declared one; the records of failures hold no content.
pub open spec fn sound(records: Seq<(i64, ResolutionModel)>) -> bool {
    forall|i: int| 0 <= i < records.len() ==> sound_record((#[trigger] records[i]).1)
}

pub open spec fn sound_record(r: ResolutionModel) -> bool {
    if r.status == "resolved"@ {
        &&& r.content is Some
        &&& r.resolved_type is Some
        &&& r.oid_hex == Some(hex(sha1_of(object_frame(r.resolved_type->0, r.content->0))))
        &&& r.oid_match != Some(false)
    } else {
        r.content is None && r.oid_hex is None
    }
}

proof fn lemma_sound_tried(b: Bench, id: i64)
    requires
        sound(b.resolutions),
    ensures
        sound(tried(b, id).resolutions),
{
    let (r, used) = solved(b.ground, b.used, Seq::empty(), id);
    reconstructions_have_their_declared_id(b.ground, b.used, Seq::empty(), id);
    let new = record(id, get(b.ground.candidates, id), r);
    reveal_strlit("resolved");
    reveal_strlit("missing_base");
    reveal_strlit("cycle");
    reveal_strlit("bad");
    reveal_strlit("paused");
    assert("resolved"@.len() == 8 && "missing_base"@.len() == 12 && "cycle"@.len() == 5 && "bad"@.len() == 3
        && "paused"@.len() == 6);
    assert(sound_record(new));
}

proof fn lemma_sound_tried_all(b: Bench, ids: Seq<i64>, n: nat)
    requires
        sound(b.resolutions),
    ensures
        sound(tried_all(b, ids, n).resolutions),
    decreases ids.len() - n,
{
    if n < ids.len() {
        lemma_sound_tried(b, ids[n as int]);
        lemma_sound_tried_all(tried(b, ids[n as int]), ids, n + 1);
    }
}

/// Whatever is tried, and tried again because of it, the records stay sound: no part of a failed
/// reconstruction is ever kept.
pub proof fn records_stay_sound(b: Bench, ids: Seq<i64>, queue: Seq<i64>, done: Seq<i64>)
    requires
        sound(b.resolutions),
    ensures
        sound(tried_all(b, ids, 0).resolutions),
        sound(recomputed(b, queue, done).resolutions),
    decreases undone(b.ground.candidates, done), queue.len(),
{
    lemma_sound_tried_all(b, ids, 0);
    if queue.len() > 0 {
        let id = queue[0];
        let rest = queue.skip(1);
        let rows = b.ground.candidates;
        lemma_undone(rows, done, id);
        if done.contains(id) {
            records_stay_sound(b, ids, rest, done);
        } else if get(rows, id) is None {
            records_stay_sound(b, ids, rest, id_into(done, id));
        } else {
            let v = consumers(rows, get(rows, id)->0, rows.len());
            lemma_row(rows, id);
            lemma_tried_keys(b, v, 0);
            lemma_same_keys(tried_all(b, v, 0).ground.candidates, rows, id_into(done, id));
            lemma_sound_tried_all(b, v, 0);
            records_stay_sound(tried_all(b, v, 0), ids, rest + v, id_into(done, id));
        }
    }
}

/// A record of a status.
pub open spec fn of_status(status: Seq<char>) -> spec_fn((i64, ResolutionModel)) -> bool {
    |r: (i64, ResolutionModel)| r.1.status == status
}

/// How many records have a status is how many are left when the others are taken out.
pub proof fn records_are_counted(rows: Seq<(i64, ResolutionModel)>, status: Seq<char>, n: nat)
    requires
        n <= rows.len(),
    ensures
        count_of(rows, status, n) == rows.take(n as int).filter(of_status(status)).len(),
    decreases n,
{
    reveal(Seq::filter);
    if n > 0 {
        records_are_counted(rows, status, (n - 1) as nat);
        let t = rows.take(n as int);
        assert(t.drop_last() =~= rows.take(n - 1));
        assert(t.last() == rows[n - 1]);
    }
}

/// What is tried again when the budget is raised is what was paused or lacked its base.
pub proof fn what_waits_is_tried_again(records: Seq<(i64, ResolutionModel)>, n: nat, id: i64)
    requires
        n <= records.len(),
    ensures
        stalled(records, n).contains(id) <==> exists|i: int|
            0 <= i < n && (#[trigger] records[i]).0 == id && (records[i].1.status == "paused"@ || records[i].1.status
                == "missing_base"@),
    decreases n,
{
    if n > 0 {
        let p = (n - 1) as nat;
        what_waits_is_tried_again(records, p, id);
        lemma_into_has(stalled(records, p), records[n - 1].0, id);
    }
}

/// What is tried first is what has no record yet.
pub proof fn what_has_no_record_is_tried(
    rows: Seq<(i64, CandidateModel)>,
    records: Seq<(i64, ResolutionModel)>,
    n: nat,
    id: i64,
)
    requires
        n <= rows.len(),
    ensures
        unresolved(rows, records, n).contains(id) <==> !has_key(records, id) && exists|i: int|
            0 <= i < n && (#[trigger] rows[i]).0 == id,
    decreases n,
{
    if n > 0 {
        let p = (n - 1) as nat;
        what_has_no_record_is_tried(rows, records, p, id);
        lemma_into_has(unresolved(rows, records, p), rows[n - 1].0, id);
    }
}

} // verus!
