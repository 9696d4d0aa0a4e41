//! Reconstruction of one entry, with a saved state when a budget stops it.
use vstd::prelude::*;
use vstd::string::StringExecFns;
use crate::delta::{
    a_parsed_delta_can_be_applied, applied, apply_delta, parse_delta, parsed, ParsedDelta, ParsedModel,
};
use crate::entry::chain::{chain_from, chain_view, entry_at, entry_type, provider, with_edge};
use crate::entry::inflate::{
    base_content, inflate_pack_payload, kind_of_trouble, load_base, payload_of, trouble_kind,
};
use crate::entry::rows::{
    copy_steps, new_failure, plain_failure, step_models, EntryModel, EntryRow, EvidenceModel, EvidenceRow,
    FailModel, Failure, PartModel, PartialState, ResModel, Resolution, Rows, RowsModel, StepModel, StepRecord,
};
use crate::gitobj::{oid_hex, ObjType};
use crate::model::assoc::{del, get, get_of_put, has_key, lemma_row, lemma_row_is, put, row_of};
use crate::model::bytes::same_bytes;
use crate::model::object::object_frame;
use crate::model::outside::sha1_of;
use crate::model::text::{dec, dec_int, hex, push_dec, push_int, push_part, same_text, texts};

verus! {

/// The limits of a reconstruction. The ratio of output to input is a fraction.
#[derive(Debug, Clone, Copy)]
pub struct Budget {
    pub max_depth: u64,
    pub max_total_bytes: u64,
    pub ratio_num: u64,
    pub ratio_den: u64,
}

impl Default for Budget {
    fn default() -> (b: Self)
        ensures
            b == (Budget {
                max_depth: 32,
                max_total_bytes: 0x1000_0000,
                ratio_num: 100_000,
                ratio_den: 1,
            }),
    {
        Budget { max_depth: 32, max_total_bytes: 0x1000_0000, ratio_num: 100_000, ratio_den: 1 }
    }
}

/// What an import found.
#[derive(Debug)]
pub struct ImportSummary {
    pub source_id: i64,
    pub kind: String,
    pub digest: String,
    pub entries: usize,
    pub resolved: usize,
    pub paused: usize,
    pub blocked: usize,
    pub errored: usize,
    pub evidence: Vec<String>,
}

impl Default for ImportSummary {
    fn default() -> (s: Self)
        ensures
            s.source_id == 0,
            s.kind@.len() == 0,
            s.digest@.len() == 0,
            s.entries == 0 && s.resolved == 0 && s.paused == 0 && s.blocked == 0 && s.errored == 0,
            s.evidence@.len() == 0,
    {
        ImportSummary {
            source_id: 0,
            kind: String::new(),
            digest: String::new(),
            entries: 0,
            resolved: 0,
            paused: 0,
            blocked: 0,
            errored: 0,
            evidence: Vec::new(),
        }
    }
}

/// A sum of words that stays at the largest word.
pub open spec fn capped(a: int) -> u64 {
    if a > u64::MAX {
        u64::MAX
    } else {
        a as u64
    }
}

/// `result` bytes out of `input` bytes are more than the ratio allows.
pub open spec fn over_ratio(b: Budget, result: nat, input: nat) -> bool {
    if input == 0 {
        result > 0 || b.ratio_den > b.ratio_num
    } else {
        result * b.ratio_den > b.ratio_num * input
    }
}

/// What one delta of a chain leads to.
pub ghost enum Link {
    Fail(RowsModel, FailModel),
    Pause(Seq<char>),
    Next(Seq<u8>, StepModel),
}

/// The failure of one entry of a chain.
pub open spec fn entry_failure(w: RowsModel, target: i64, id: i64, reason: Seq<char>, detail: Seq<char>) -> FailModel {
    FailModel {
        entry_id: Some(id),
        chain: Some(chain_view(w, target)),
        ..plain_failure(reason, Some(detail))
    }
}

/// The rows with a piece of evidence on an entry.
pub open spec fn with_evidence(w: RowsModel, e: EntryModel, id: i64, kind: Seq<char>, message: Seq<char>) -> RowsModel {
    RowsModel {
        evidence: w.evidence.push(
            EvidenceModel { source_id: Some(e.source_id), entry_id: Some(id), kind, message },
        ),
        ..w
    }
}

/// The failure of an entry, with evidence.
pub open spec fn noted_failure(w: RowsModel, target: i64, e: EntryModel, id: i64, kind: Seq<char>, m: Seq<char>) -> Link {
    let v = with_evidence(w, e, id, kind, m);
    Link::Fail(v, entry_failure(v, target, id, kind, m))
}

/// What was checked when a delta was applied.
pub open spec fn checks_of(e: EntryModel, p: ParsedModel) -> Seq<Seq<char>> {
    let base = seq![
        "base size "@ + dec(p.base_size as nat) + " matches input"@,
        dec(p.ops.len()) + " copy/insert ops within bounds"@,
        "result size "@ + dec(p.result_size as nat) + " matches declared"@,
    ];
    match (e.crc32, e.idx_crc32) {
        (Some(c), Some(i)) => if c == i {
            base.push("crc32 matches index"@)
        } else {
            base.push("crc32 MISMATCH with index"@)
        },
        _ => base,
    }
}

/// How an entry names its base.
pub open spec fn base_name(e: EntryModel) -> Seq<char> {
    match e.ofs_distance {
        Some(d) => "ofs-"@ + dec(d as nat),
        None => match e.ref_base {
            Some(o) => o,
            None => ""@,
        },
    }
}

/// The record of a delta that was applied.
pub open spec fn step_of(
    id: i64,
    e: EntryModel,
    cur_type: Seq<char>,
    p: ParsedModel,
    input: nat,
    out: nat,
    copied: nat,
    inserted: nat,
) -> StepModel {
    StepModel {
        entry_id: id,
        obj_type: cur_type,
        kind: e.obj_type,
        base_ref: base_name(e),
        instr_start: p.instr_offset,
        instr_end: if p.ops.len() > 0 {
            p.ops.last().instr_end
        } else {
            p.instr_offset
        },
        input_len: input,
        output_len: out,
        copied,
        inserted,
        checks: checks_of(e, p),
    }
}

/// Applying the delta of entry `id` to `content`.
pub open spec fn linked(
    w: RowsModel,
    target: i64,
    id: i64,
    e: EntryModel,
    cur_type: Seq<char>,
    content: Seq<u8>,
    bytes: u64,
    budget: Budget,
) -> Link {
    match payload_of(e, budget.max_total_bytes) {
        Err(m) => noted_failure(w, target, e, id, trouble_kind(m), m),
        Ok(d) => match parsed(d) {
            Err(m) => Link::Fail(w, entry_failure(w, target, id, "bad_delta"@, m)),
            Ok(p) => if p.result_size != e.declared_size {
                noted_failure(
                    w,
                    target,
                    e,
                    id,
                    "size_fraud"@,
                    "delta header result size "@ + dec(p.result_size as nat)
                        + " disagrees with pack declared size "@ + dec(e.declared_size as nat),
                )
            } else if capped(p.result_size + bytes) > budget.max_total_bytes {
                Link::Pause("max_total_bytes"@)
            } else if over_ratio(budget, p.result_size as nat, content.len()) {
                Link::Pause("max_ratio"@)
            } else {
                match applied(d, p, content) {
                    Err(m) => noted_failure(w, target, e, id, "bad_delta"@, m),
                    Ok((out, copied, inserted)) => Link::Next(
                        out,
                        step_of(id, e, cur_type, p, content.len(), out.len(), copied, inserted),
                    ),
                }
            },
        },
    }
}

/// The state of a reconstruction.
pub ghost struct Work {
    pub idx: nat,
    pub content: Seq<u8>,
    pub steps: Seq<StepModel>,
    pub depth_used: u64,
    pub bytes_used: u64,
}

/// How a reconstruction ends.
pub ghost enum Ended {
    Failed(RowsModel, FailModel),
    Paused(Work, Seq<char>),
    Done(Work),
}

/// The reconstruction from a state on.
pub open spec fn runs(w: RowsModel, target: i64, chain: Seq<i64>, cur_type: Seq<char>, k: Work, budget: Budget) -> Ended
    decreases chain.len() - k.idx,
{
    if k.idx >= chain.len() {
        Ended::Done(k)
    } else {
        let id = chain[k.idx as int];
        let e = get(w.entries, id)->0;
        let depth = capped(k.depth_used + 1);
        let now = Work { depth_used: depth, ..k };
        if depth > budget.max_depth {
            Ended::Paused(now, "max_depth"@)
        } else {
            match linked(w, target, id, e, cur_type, k.content, k.bytes_used, budget) {
                Link::Fail(v, f) => Ended::Failed(v, f),
                Link::Pause(limit) => Ended::Paused(now, limit),
                Link::Next(out, step) => runs(
                    w,
                    target,
                    chain,
                    cur_type,
                    Work {
                        idx: k.idx + 1,
                        content: out,
                        steps: k.steps.push(step),
                        depth_used: depth,
                        bytes_used: capped(k.bytes_used + out.len()),
                    },
                    budget,
                ),
            }
        }
    }
}

/// The rows at the start of a reconstruction of entry `id`.
pub open spec fn opened(w: RowsModel, id: i64) -> RowsModel {
    RowsModel {
        resolutions: put(
            w.resolutions,
            id,
            ResModel {
                status: "paused"@,
                oid: None,
                depth: 0,
                steps: Seq::empty(),
                error: None,
                attempts: match get(w.resolutions, id) {
                    Some(r) => r.attempts,
                    None => 0,
                },
            },
        ),
        ..w
    }
}

/// The status that a failure leads to: a missing base may still come, everything else is an
/// error.
pub open spec fn failed_status(f: FailModel) -> Seq<char> {
    if f.reason == "missing_base"@ {
        "blocked"@
    } else {
        "error"@
    }
}

/// The attempts on an entry, with one more.
pub open spec fn tried_again(w: RowsModel, id: i64) -> u64 {
    match get(w.resolutions, id) {
        Some(r) => capped(r.attempts + 1),
        None => 1,
    }
}

/// The rows with a failure of entry `id`.
pub open spec fn failed(w: RowsModel, id: i64, f: FailModel) -> RowsModel {
    RowsModel {
        resolutions: put(
            w.resolutions,
            id,
            ResModel {
                status: failed_status(f),
                oid: None,
                depth: 0,
                steps: Seq::empty(),
                error: Some(f),
                attempts: tried_again(w, id),
            },
        ),
        ..w
    }
}

/// The rows with the state of a reconstruction that a budget stopped.
pub open spec fn paused(w: RowsModel, id: i64, chain: Seq<i64>, cur_type: Seq<char>, k: Work, limit: Seq<char>) -> RowsModel {
    RowsModel {
        partials: put(
            w.partials,
            id,
            PartModel {
                chain,
                next_idx: k.idx,
                cur_type,
                buffer: k.content,
                steps: k.steps,
                depth_used: k.depth_used,
                bytes_used: k.bytes_used,
            },
        ),
        resolutions: put(
            w.resolutions,
            id,
            ResModel {
                status: "paused"@,
                oid: None,
                depth: 0,
                steps: Seq::empty(),
                error: Some(plain_failure("budget"@, Some(limit))),
                attempts: tried_again(w, id),
            },
        ),
        ..w
    }
}

/// The rows with a piece of evidence, unless they have it.
pub open spec fn noted_once(w: RowsModel, e: EvidenceModel) -> RowsModel {
    if w.evidence.contains(e) {
        w
    } else {
        RowsModel { evidence: w.evidence.push(e), ..w }
    }
}

/// The place of the first index row on an offset, or the number of rows.
pub open spec fn idx_row(w: RowsModel, offset: u64, n: nat) -> nat
    decreases w.idx.len() - n,
{
    if n >= w.idx.len() || w.idx[n as int].offset == offset {
        n
    } else {
        idx_row(w, offset, n + 1)
    }
}

/// The rows with evidence that an index names another object.
pub open spec fn index_checked(w: RowsModel, id: i64, offset: u64, oid: Seq<char>) -> RowsModel {
    let n = idx_row(w, offset, 0);
    if n < w.idx.len() && w.idx[n as int].oid != oid {
        noted_once(
            w,
            EvidenceModel {
                source_id: Some(w.idx[n as int].source_id),
                entry_id: Some(id),
                kind: "idx_oid_mismatch"@,
                message: "index says object at offset "@ + dec(offset as nat) + " is "@ + w.idx[n as int].oid
                    + ", recomputed id is "@ + oid,
            },
        )
    } else {
        w
    }
}

/// What is noted of another entry that gives the same object.
pub open spec fn twin(w: RowsModel, id: i64, other: i64, source: i64, oid: Seq<char>) -> EvidenceModel {
    let same = get(w.contents, other) is Some && get(w.contents, other) == get(w.contents, id);
    EvidenceModel {
        source_id: Some(source),
        entry_id: Some(id),
        kind: if same {
            "duplicate_oid"@
        } else {
            "oid_content_conflict"@
        },
        message: if same {
            "oid "@ + oid + " available from entries "@ + dec_int(other as int) + " and "@ + dec_int(id as int)
        } else {
            "entries "@ + dec_int(other as int) + " and "@ + dec_int(id as int) + " both hash to "@ + oid
                + " but differ in content"@
        },
    }
}

/// The rows with evidence of every other entry, among the first `n`, that gives the same object.
pub open spec fn twins_noted(w: RowsModel, id: i64, oid: Seq<char>, n: nat) -> RowsModel
    decreases n,
{
    if n == 0 {
        w
    } else {
        let v = twins_noted(w, id, oid, (n - 1) as nat);
        let other = w.resolutions[n - 1];
        if other.0 != id && other.1.status == "ok"@ && other.1.oid == Some(oid) && has_key(w.entries, other.0) {
            noted_once(v, twin(w, id, other.0, get(w.entries, other.0)->0.source_id, oid))
        } else {
            v
        }
    }
}

/// The object id of content whose type has a given name.
pub open spec fn oid_of(cur_type: Seq<char>, content: Seq<u8>) -> Seq<char> {
    let t = match ObjType::of_text(cur_type) {
        Some(t) => t,
        None => ObjType::Blob,
    };
    hex(sha1_of(object_frame(t.text(), content)))
}

/// The rows with entry `id` reconstructed.
pub open spec fn completed(w: RowsModel, id: i64, cur_type: Seq<char>, k: Work) -> RowsModel {
    let e = get(w.entries, id)->0;
    let oid = oid_of(cur_type, k.content);
    let v = RowsModel {
        contents: put(w.contents, id, k.content),
        resolutions: put(
            w.resolutions,
            id,
            ResModel {
                status: "ok"@,
                oid: Some(oid),
                depth: k.depth_used,
                steps: k.steps,
                error: None,
                attempts: tried_again(w, id),
            },
        ),
        ..w
    };
    let c = index_checked(v, id, e.offset, oid);
    twins_noted(c, id, oid, c.resolutions.len())
}

/// The end of a reconstruction.
pub open spec fn ended(w: RowsModel, id: i64, chain: Seq<i64>, cur_type: Seq<char>, r: Ended) -> (RowsModel, Seq<char>) {
    let e = get(w.entries, id)->0;
    match r {
        Ended::Failed(v, f) => (failed(v, id, f), failed_status(f)),
        Ended::Paused(k, limit) => (paused(w, id, chain, cur_type, k, limit), "paused"@),
        Ended::Done(k) => {
            let v = RowsModel { partials: del(w.partials, id), ..w };
            if k.content.len() != e.declared_size {
                let f = entry_failure(
                    v,
                    id,
                    id,
                    "size_fraud"@,
                    "final object size "@ + dec(k.content.len()) + " disagrees with declared "@ + dec(
                        e.declared_size as nat,
                    ),
                );
                (failed(v, id, f), failed_status(f))
            } else {
                (completed(v, id, cur_type, k), "ok"@)
            }
        },
    }
}

/// Every entry of a chain is there.
pub open spec fn all_there(w: RowsModel, chain: Seq<i64>) -> bool {
    forall|i: int| 0 <= i < chain.len() ==> has_key(w.entries, #[trigger] chain[i])
}

/// The reconstruction of `id` along `chain`.
pub open spec fn continued(w: RowsModel, id: i64, chain: Seq<i64>, cur_type: Seq<char>, k: Work, budget: Budget) -> (
    RowsModel,
    Seq<char>,
) {
    let start = if k.depth_used == 0 {
        Work { bytes_used: capped(k.bytes_used + k.content.len()), ..k }
    } else {
        k
    };
    if !all_there(w, chain) {
        let f = plain_failure("missing_base"@, Some("chain entry disappeared (source deleted?)"@));
        (failed(w, id, f), failed_status(f))
    } else {
        ended(w, id, chain, cur_type, runs(w, id, chain, cur_type, start, budget))
    }
}

/// The kind of the source of an entry.
pub open spec fn source_kind(w: RowsModel, e: EntryModel) -> Option<Seq<char>> {
    match get(w.sources, e.source_id) {
        Some(s) => Some(s.kind),
        None => None,
    }
}

/// The reconstruction of entry `id`: the rows that it leaves and its status.
pub open spec fn resolved(w: RowsModel, id: i64, budget: Budget) -> (RowsModel, Seq<char>) {
    if !has_key(w.entries, id) {
        (w, "missing"@)
    } else {
        let o = opened(w, id);
        match get(w.partials, id) {
            Some(p) => continued(
                o,
                id,
                p.chain,
                p.cur_type,
                Work {
                    idx: p.next_idx,
                    content: p.buffer,
                    steps: p.steps,
                    depth_used: p.depth_used,
                    bytes_used: p.bytes_used,
                },
                budget,
            ),
            None => {
                let c = chain_from(o, id, id, Seq::empty(), Seq::empty());
                match c.1 {
                    Err(f) => (failed(c.0, id, f), failed_status(f)),
                    Ok(chain) => {
                        let b = get(c.0.entries, chain[0])->0;
                        match base_content(b, source_kind(c.0, b)) {
                            Err((kind, m)) => {
                                let v = with_evidence(c.0, b, chain[0], kind, m);
                                let f = FailModel {
                                    error_kind: Some(kind),
                                    base_entry_id: Some(chain[0]),
                                    chain: Some(chain_view(v, id)),
                                    ..plain_failure("base_error"@, Some(m))
                                };
                                (failed(v, id, f), failed_status(f))
                            },
                            Ok((content, t)) => continued(
                                c.0,
                                id,
                                chain,
                                t.text(),
                                Work {
                                    idx: 1,
                                    content,
                                    steps: Seq::empty(),
                                    depth_used: 0,
                                    bytes_used: 0,
                                },
                                budget,
                            ),
                        }
                    },
                }
            },
        }
    }
}

fn cap_sum(a: u64, b: u64) -> (r: u64)
    ensures
        r == capped(a + b),
{
    if b > u64::MAX - a {
        u64::MAX
    } else {
        a + b
    }
}

fn exceeds_ratio(b: Budget, result: u64, input: u64) -> (r: bool)
    ensures
        r == over_ratio(b, result as nat, input as nat),
{
    if input == 0 {
        result > 0 || b.ratio_den > b.ratio_num
    } else {
        proof {
            lemma_fits(result, b.ratio_den);
            lemma_fits(b.ratio_num, input);
        }
        result as u128 * b.ratio_den as u128 > b.ratio_num as u128 * input as u128
    }
}

proof fn lemma_fits(a: u64, b: u64)
    ensures
        0 <= a * b <= u128::MAX,
{
    assert(0 <= a * b <= 0x1_0000_0000_0000_0000 * 0x1_0000_0000_0000_0000 - 1) by (nonlinear_arith)
        requires
            0 <= a <= 0xffff_ffff_ffff_ffff,
            0 <= b <= 0xffff_ffff_ffff_ffff,
    ;
}

/// What one delta of a chain leads to.
enum Linked {
    Fail(Failure),
    Pause(&'static str),
    Next(Vec<u8>, StepRecord),
}

fn base_ref(e: &EntryRow) -> (s: String)
    ensures
        s@ == base_name(e.deep_view()),
{
    match e.ofs_distance {
        Some(d) => {
            let mut s = "ofs-".to_owned();
            push_dec(&mut s, d);
            s
        },
        None => match &e.ref_base {
            Some(o) => o.clone(),
            None => "".to_owned(),
        },
    }
}

fn make_checks(e: &EntryRow, p: &ParsedDelta) -> (v: Vec<String>)
    ensures
        texts(v@) == checks_of(e.deep_view(), p@),
{
    let mut v: Vec<String> = Vec::new();
    assert(texts(v@) =~= Seq::empty());
    let mut a = "base size ".to_owned();
    push_dec(&mut a, p.base_size);
    a.append(" matches input");
    push_part(&mut v, a);
    let mut b = String::new();
    push_dec(&mut b, p.ops.len() as u64);
    b.append(" copy/insert ops within bounds");
    assert(b@ =~= dec(p.ops@.len()) + " copy/insert ops within bounds"@);
    push_part(&mut v, b);
    let mut c = "result size ".to_owned();
    push_dec(&mut c, p.result_size);
    c.append(" matches declared");
    push_part(&mut v, c);
    if let (Some(x), Some(y)) = (e.crc32, e.idx_crc32) {
        if x == y {
            push_part(&mut v, "crc32 matches index".to_owned());
        } else {
            push_part(&mut v, "crc32 MISMATCH with index".to_owned());
        }
    }
    assert(texts(v@) =~= checks_of(e.deep_view(), p@));
    v
}

impl Rows {
    fn fail_entry(&self, target: i64, id: i64, reason: &str, detail: String) -> (f: Failure)
        ensures
            f@ == entry_failure(self@, target, id, reason@, detail@),
    {
        let mut f = new_failure(reason, Some(detail));
        f.entry_id = Some(id);
        f.chain = Some(self.chain_view(target));
        f
    }

    fn note(&mut self, source_id: i64, id: i64, kind: &str, message: &str)
        ensures
            final(self)@ == (RowsModel {
                evidence: old(self)@.evidence.push(
                    EvidenceModel {
                        source_id: Some(source_id),
                        entry_id: Some(id),
                        kind: kind@,
                        message: message@,
                    },
                ),
                ..old(self)@
            }),
    {
        self.add_evidence(
            EvidenceRow {
                source_id: Some(source_id),
                entry_id: Some(id),
                kind: kind.to_owned(),
                message: message.to_owned(),
            },
        );
    }

    /// Applies the delta of entry `id` to `content`.
    fn link(
        &mut self,
        target: i64,
        id: i64,
        cur_type: &str,
        content: &Vec<u8>,
        bytes: u64,
        budget: Budget,
    ) -> (r: Linked)
        requires
            has_key(old(self)@.entries, id),
        ensures
            match linked(
                old(self)@,
                target,
                id,
                get(old(self)@.entries, id)->0,
                cur_type@,
                content@,
                bytes,
                budget,
            ) {
                Link::Fail(v, f) => r matches Linked::Fail(x) && x@ == f && final(self)@ == v,
                Link::Pause(limit) => {
                    &&& r matches Linked::Pause(x) && x@ == limit
                    &&& final(self)@ == old(self)@
                },
                Link::Next(out, step) => {
                    &&& r matches Linked::Next(o, s) && o@ == out && s@ == step
                    &&& final(self)@ == old(self)@
                },
            },
    {
        let e = match self.entries.get(id) {
            Some(e) => e,
            None => return Linked::Pause(""),
        };
        let source_id: i64 = e.source_id;
        let d = match inflate_pack_payload(e, budget.max_total_bytes) {
            Ok(d) => d,
            Err(m) => {
                let kind = kind_of_trouble(m.as_str());
                self.note(source_id, id, kind, m.as_str());
                return Linked::Fail(self.fail_entry(target, id, kind, m));
            },
        };
        let p = match parse_delta(d.as_slice()) {
            Ok(p) => p,
            Err(m) => {
                return Linked::Fail(self.fail_entry(target, id, "bad_delta", m));
            },
        };
        if p.result_size != e.declared_size {
            let mut m = "delta header result size ".to_owned();
            push_dec(&mut m, p.result_size);
            m.append(" disagrees with pack declared size ");
            push_dec(&mut m, e.declared_size);
            self.note(source_id, id, "size_fraud", m.as_str());
            return Linked::Fail(self.fail_entry(target, id, "size_fraud", m));
        }
        if cap_sum(p.result_size, bytes) > budget.max_total_bytes {
            return Linked::Pause("max_total_bytes");
        }
        let input_len: usize = content.len();
        if exceeds_ratio(budget, p.result_size, input_len as u64) {
            return Linked::Pause("max_ratio");
        }
        proof {
            assert(d@.len() == d.len());
            a_parsed_delta_can_be_applied(d@, content@);
        }
        let (out, copied, inserted) = match apply_delta(d.as_slice(), &p, content.as_slice()) {
            Ok(v) => v,
            Err(m) => {
                self.note(source_id, id, "bad_delta", m.as_str());
                return Linked::Fail(self.fail_entry(target, id, "bad_delta", m));
            },
        };
        let n: usize = p.ops.len();
        let instr_end: usize = if n > 0 {
            p.ops[n - 1].instr_end
        } else {
            p.instr_offset
        };
        let step = StepRecord {
            entry_id: id,
            obj_type: cur_type.to_owned(),
            kind: e.obj_type.clone(),
            base_ref: base_ref(e),
            instr_start: p.instr_offset,
            instr_end,
            input_len,
            output_len: out.len(),
            copied,
            inserted,
            checks: make_checks(e, &p),
        };
        Linked::Next(out, step)
    }

    fn attempts_after(&self, id: i64) -> (n: u64)
        ensures
            n == tried_again(self@, id),
    {
        match self.resolutions.get(id) {
            Some(r) => cap_sum(r.attempts, 1),
            None => 1,
        }
    }

    /// Keeps a failure of entry `id`. Returns the status.
    fn finish_failure(&mut self, id: i64, f: Failure) -> (s: &'static str)
        ensures
            final(self)@ == failed(old(self)@, id, f@),
            s@ == failed_status(f@),
    {
        let status = if same_text(f.reason.as_str(), "missing_base") {
            "blocked"
        } else {
            "error"
        };
        let row = Resolution {
            status: status.to_owned(),
            oid: None,
            depth: 0,
            steps: Vec::new(),
            error: Some(f),
            attempts: self.attempts_after(id),
        };
        assert(step_models(row.steps@) =~= Seq::empty());
        self.resolutions.insert(id, row);
        status
    }

    /// Saves the state of a reconstruction that a budget stopped. Returns the status.
    fn pause_here(&mut self, id: i64, state: PartialState, limit: &str) -> (s: &'static str)
        ensures
            ({
                let p = state.deep_view();
                final(self)@ == paused(
                    old(self)@,
                    id,
                    p.chain,
                    p.cur_type,
                    Work {
                        idx: p.next_idx,
                        content: p.buffer,
                        steps: p.steps,
                        depth_used: p.depth_used,
                        bytes_used: p.bytes_used,
                    },
                    limit@,
                )
            }),
            s@ == "paused"@,
    {
        let row = Resolution {
            status: "paused".to_owned(),
            oid: None,
            depth: 0,
            steps: Vec::new(),
            error: Some(new_failure("budget", Some(limit.to_owned()))),
            attempts: self.attempts_after(id),
        };
        assert(step_models(row.steps@) =~= Seq::empty());
        self.partials.insert(id, state);
        self.resolutions.insert(id, row);
        "paused"
    }

    fn dedupe_evidence(&mut self, e: EvidenceRow)
        ensures
            final(self)@ == noted_once(old(self)@, e@),
    {
        let ghost m = self@.evidence;
        let mut i: usize = 0;
        while i < self.evidence.len()
            invariant
                i <= self.evidence@.len(),
                m == self@.evidence,
                self@ == old(self)@,
                forall|j: int| 0 <= j < i ==> m[j] != e@,
            decreases self.evidence@.len() - i,
        {
            let x = &self.evidence[i];
            assert(m[i as int] == x@);
            if x.source_id == e.source_id && x.entry_id == e.entry_id && same_text(
                x.kind.as_str(),
                e.kind.as_str(),
            ) && same_text(x.message.as_str(), e.message.as_str()) {
                assert(m[i as int] == e@);
                return;
            }
            i += 1;
        }
        assert(!m.contains(e@));
        self.add_evidence(e);
    }

    fn check_index(&mut self, id: i64, offset: u64, oid: &str)
        ensures
            final(self)@ == index_checked(old(self)@, id, offset, oid@),
    {
        let ghost w = self@;
        let mut n: usize = 0;
        while n < self.idx.len() && self.idx[n].offset != offset
            invariant
                n <= self.idx@.len(),
                w == self@,
                idx_row(w, offset, 0) == idx_row(w, offset, n as nat),
            decreases self.idx@.len() - n,
        {
            assert(w.idx[n as int] == self.idx@[n as int]@);
            n += 1;
        }
        if n < self.idx.len() {
            assert(w.idx[n as int] == self.idx@[n as int]@);
            if !same_text(self.idx[n].oid.as_str(), oid) {
                let mut m = "index says object at offset ".to_owned();
                push_dec(&mut m, offset);
                m.append(" is ");
                m.append(self.idx[n].oid.as_str());
                m.append(", recomputed id is ");
                m.append(oid);
                let e = EvidenceRow {
                    source_id: Some(self.idx[n].source_id),
                    entry_id: Some(id),
                    kind: "idx_oid_mismatch".to_owned(),
                    message: m,
                };
                self.dedupe_evidence(e);
            }
        }
    }

    fn same_content(&self, a: i64, b: i64) -> (r: bool)
        ensures
            r == (get(self@.contents, a) is Some && get(self@.contents, a) == get(self@.contents, b)),
    {
        match (self.contents.get(a), self.contents.get(b)) {
            (Some(x), Some(y)) => {
                assert(x.deep_view() =~= x@);
                assert(y.deep_view() =~= y@);
                same_bytes(x.as_slice(), y.as_slice())
            },
            _ => false,
        }
    }

    fn note_twins(&mut self, id: i64, oid: &str)
        ensures
            final(self)@ == twins_noted(old(self)@, id, oid@, old(self)@.resolutions.len()),
    {
        let ghost w = self@;
        let mut n: usize = 0;
        while n < self.resolutions.len()
            invariant
                n <= w.resolutions.len(),
                self@ == twins_noted(w, id, oid@, n as nat),
                self@.resolutions == w.resolutions,
                self@.entries == w.entries,
                self@.contents == w.contents,
            decreases w.resolutions.len() - n,
        {
            let other: i64 = self.resolutions.key_at(n);
            let r = self.resolutions.value_at(n);
            let hit: bool = other != id && same_text(r.status.as_str(), "ok") && match &r.oid {
                Some(o) => same_text(o.as_str(), oid),
                None => false,
            };
            if hit {
                let source: Option<i64> = match self.entries.get(other) {
                    Some(e) => Some(e.source_id),
                    None => None,
                };
                if let Some(s) = source {
                    let mut m = String::new();
                    let kind = if self.same_content(other, id) {
                        m.append("oid ");
                        m.append(oid);
                        m.append(" available from entries ");
                        push_int(&mut m, other);
                        m.append(" and ");
                        push_int(&mut m, id);
                        "duplicate_oid"
                    } else {
                        m.append("entries ");
                        push_int(&mut m, other);
                        m.append(" and ");
                        push_int(&mut m, id);
                        m.append(" both hash to ");
                        m.append(oid);
                        m.append(" but differ in content");
                        "oid_content_conflict"
                    };
                    let e = EvidenceRow {
                        source_id: Some(s),
                        entry_id: Some(id),
                        kind: kind.to_owned(),
                        message: m,
                    };
                    proof {
                        let t = twin(w, id, other, s, oid@);
                        assert(e@.message =~= t.message);
                        assert(e@ == t);
                    }
                    self.dedupe_evidence(e);
                }
            }
            n += 1;
        }
    }

    /// Keeps an entry that was reconstructed.
    fn complete(&mut self, id: i64, cur_type: &str, content: Vec<u8>, steps: Vec<StepRecord>, depth: u64)
        requires
            has_key(old(self)@.entries, id),
        ensures
            forall|k: Work|
                k.content == content@ && k.steps == step_models(steps@) && k.depth_used == depth
                    ==> final(self)@ == #[trigger] completed(old(self)@, id, cur_type@, k),
    {
        let offset: u64 = match self.entries.get(id) {
            Some(e) => e.offset,
            None => 0,
        };
        let t = match ObjType::from_name(cur_type) {
            Some(t) => t,
            None => ObjType::Blob,
        };
        let oid = oid_hex(t.name(), content.as_slice());
        let row = Resolution {
            status: "ok".to_owned(),
            oid: Some(oid.clone()),
            depth,
            steps,
            error: None,
            attempts: self.attempts_after(id),
        };
        assert(content.deep_view() =~= content@);
        self.contents.insert(id, content);
        self.resolutions.insert(id, row);
        self.check_index(id, offset, oid.as_str());
        self.note_twins(id, oid.as_str());
    }

    fn entries_there(&self, chain: &Vec<i64>) -> (r: bool)
        ensures
            r == all_there(self@, chain@),
    {
        let mut i: usize = 0;
        while i < chain.len()
            invariant
                i <= chain@.len(),
                forall|j: int| 0 <= j < i ==> has_key(self@.entries, #[trigger] chain@[j]),
            decreases chain@.len() - i,
        {
            if !self.entries.contains(chain[i]) {
                assert(!has_key(self@.entries, chain@[i as int]));
                return false;
            }
            i += 1;
        }
        true
    }

    /// Goes on with a reconstruction.
    fn go_on(&mut self, id: i64, state: PartialState, budget: Budget) -> (s: &'static str)
        requires
            has_key(old(self)@.entries, id),
        ensures
            ({
                let p = state.deep_view();
                let r = continued(
                    old(self)@,
                    id,
                    p.chain,
                    p.cur_type,
                    Work {
                        idx: p.next_idx,
                        content: p.buffer,
                        steps: p.steps,
                        depth_used: p.depth_used,
                        bytes_used: p.bytes_used,
                    },
                    budget,
                );
                final(self)@ == r.0 && s@ == r.1
            }),
    {
        let ghost w = self@;
        let PartialState { chain, next_idx, cur_type, buffer, steps: past, depth_used, bytes_used } = state;
        let mut content = buffer;
        let mut steps = past;
        let mut depth: u64 = depth_used;
        let mut bytes: u64 = bytes_used;
        if depth == 0 {
            bytes = cap_sum(bytes, content.len() as u64);
        }
        if !self.entries_there(&chain) {
            let f = new_failure(
                "missing_base",
                Some("chain entry disappeared (source deleted?)".to_owned()),
            );
            return self.finish_failure(id, f);
        }
        let ghost start = Work {
            idx: next_idx as nat,
            content: content@,
            steps: step_models(steps@),
            depth_used: depth,
            bytes_used: bytes,
        };
        let ghost all = runs(w, id, chain@, cur_type@, start, budget);
        let mut idx: usize = next_idx;
        while idx < chain.len()
            invariant
                self@ == w,
                w == old(self)@,
                all_there(w, chain@),
                has_key(w.entries, id),
                all == runs(
                    w,
                    id,
                    chain@,
                    cur_type@,
                    Work {
                        idx: idx as nat,
                        content: content@,
                        steps: step_models(steps@),
                        depth_used: depth,
                        bytes_used: bytes,
                    },
                    budget,
                ),
                ({
                    let p = state.deep_view();
                    continued(
                        w,
                        id,
                        p.chain,
                        p.cur_type,
                        Work {
                            idx: p.next_idx,
                            content: p.buffer,
                            steps: p.steps,
                            depth_used: p.depth_used,
                            bytes_used: p.bytes_used,
                        },
                        budget,
                    ) == ended(w, id, chain@, cur_type@, all)
                }),
            decreases chain@.len() - idx,
        {
            depth = cap_sum(depth, 1);
            if depth > budget.max_depth {
                let p = PartialState {
                    chain,
                    next_idx: idx,
                    cur_type,
                    buffer: content,
                    steps,
                    depth_used: depth,
                    bytes_used: bytes,
                };
                return self.pause_here(id, p, "max_depth");
            }
            match self.link(id, chain[idx], cur_type.as_str(), &content, bytes, budget) {
                Linked::Fail(f) => {
                    return self.finish_failure(id, f);
                },
                Linked::Pause(limit) => {
                    let p = PartialState {
                        chain,
                        next_idx: idx,
                        cur_type,
                        buffer: content,
                        steps,
                        depth_used: depth,
                        bytes_used: bytes,
                    };
                    return self.pause_here(id, p, limit);
                },
                Linked::Next(out, step) => {
                    bytes = cap_sum(bytes, out.len() as u64);
                    let ghost before = step_models(steps@);
                    steps.push(step);
                    assert(step_models(steps@) =~= before.push(step@));
                    content = out;
                },
            }
            idx += 1;
        }
        // The chain is complete: the intermediate state was never exposed as an object.
        self.partials.remove(id);
        let declared: u64 = match self.entries.get(id) {
            Some(e) => e.declared_size,
            None => 0,
        };
        if content.len() as u64 != declared {
            let mut m = "final object size ".to_owned();
            push_dec(&mut m, content.len() as u64);
            m.append(" disagrees with declared ");
            push_dec(&mut m, declared);
            let f = self.fail_entry(id, id, "size_fraud", m);
            return self.finish_failure(id, f);
        }
        let ghost k = Work {
            idx: idx as nat,
            content: content@,
            steps: step_models(steps@),
            depth_used: depth,
            bytes_used: bytes,
        };
        let ghost v = self@;
        self.complete(id, cur_type.as_str(), content, steps, depth);
        assert(self@ == completed(v, id, cur_type@, k));
        "ok"
    }

    /// Resolves (or continues resolving) one entry. Bad objects are isolated in a
    /// resolution row; other entries are unaffected.
    pub fn resolve_entry(&mut self, id: i64, budget: Budget) -> (s: &'static str)
        ensures
            final(self)@ == resolved(old(self)@, id, budget).0,
            s@ == resolved(old(self)@, id, budget).1,
    {
        if !self.entries.contains(id) {
            return "missing";
        }
        let ghost w = self@;
        let row = Resolution {
            status: "paused".to_owned(),
            oid: None,
            depth: 0,
            steps: Vec::new(),
            error: None,
            attempts: match self.resolutions.get(id) {
                Some(r) => r.attempts,
                None => 0,
            },
        };
        assert(step_models(row.steps@) =~= Seq::empty());
        self.resolutions.insert(id, row);
        // Resume from a saved budget-paused intermediate state.
        if let Some(p) = self.partials.get(id) {
            let state = PartialState {
                chain: p.chain.clone(),
                next_idx: p.next_idx,
                cur_type: p.cur_type.clone(),
                buffer: p.buffer.clone(),
                steps: copy_steps(&p.steps),
                depth_used: p.depth_used,
                bytes_used: p.bytes_used,
            };
            return self.go_on(id, state, budget);
        }
        let chain = match self.build_chain(id) {
            Ok(c) => c,
            Err(f) => return self.finish_failure(id, f),
        };
        let first: i64 = chain[0];
        assert(has_key(self@.entries, first));
        let (source_id, base) = match self.entries.get(first) {
            Some(b) => {
                let kind = match self.sources.get(b.source_id) {
                    Some(s) => Some(s.kind.as_str()),
                    None => None,
                };
                (b.source_id, load_base(b, kind))
            },
            None => (0, Err(("", String::new()))),
        };
        match base {
            Err((kind, m)) => {
                self.note(source_id, first, kind, m.as_str());
                let mut f = new_failure("base_error", Some(m));
                f.error_kind = Some(kind.to_owned());
                f.base_entry_id = Some(first);
                f.chain = Some(self.chain_view(id));
                self.finish_failure(id, f)
            },
            Ok((content, t)) => {
                let state = PartialState {
                    chain,
                    next_idx: 1,
                    cur_type: t.name().to_owned(),
                    buffer: content,
                    steps: Vec::new(),
                    depth_used: 0,
                    bytes_used: 0,
                };
                assert(step_models(state.steps@) =~= Seq::empty());
                self.go_on(id, state, budget)
            },
        }
    }
}

/// The rows `v` differ from `w` only in what is kept of entry `id`, in edges and in evidence.
pub open spec fn only_entry(w: RowsModel, v: RowsModel, id: i64) -> bool {
    &&& v.entries == w.entries
    &&& v.sources == w.sources
    &&& v.idx == w.idx
    &&& v.pins == w.pins
    &&& forall|other: i64|
        other != id ==> #[trigger] get(v.resolutions, other) == get(w.resolutions, other)
    &&& forall|other: i64| other != id ==> #[trigger] get(v.contents, other) == get(w.contents, other)
    &&& forall|other: i64| other != id ==> #[trigger] get(v.partials, other) == get(w.partials, other)
}

proof fn lemma_put_only<V>(s: Seq<(i64, V)>, id: i64, v: V)
    ensures
        get(put(s, id, v), id) == Some(v),
        forall|other: i64| other != id ==> #[trigger] get(put(s, id, v), other) == get(s, other),
{
    get_of_put(s, id, v, id);
    assert forall|other: i64| other != id implies #[trigger] get(put(s, id, v), other) == get(s, other) by {
        get_of_put(s, id, v, other);
    }
}

proof fn lemma_del_only<V>(s: Seq<(i64, V)>, id: i64)
    ensures
        forall|other: i64| other != id ==> #[trigger] get(del(s, id), other) == get(s, other),
{
    lemma_row(s, id);
    let d = del(s, id);
    assert forall|other: i64| other != id implies #[trigger] get(d, other) == get(s, other) by {
        lemma_row(s, other);
        let at = row_of(s, id);
        let n = row_of(s, other);
        if at < s.len() {
            if n < at {
                lemma_row_is(d, other, n);
            } else {
                assert(n != at);
                assert forall|i: int| 0 <= i < n - 1 implies (#[trigger] d[i]).0 != other by {
                    if i >= at {
                        assert(d[i] == s[i + 1]);
                    } else {
                        assert(d[i] == s[i]);
                    }
                }
                lemma_row_is(d, other, (n - 1) as nat);
            }
        }
    }
}

pub proof fn lemma_chain_only(w: RowsModel, target: i64, cur: i64, seen: Seq<i64>, links: Seq<i64>)
    ensures
        ({
            let v = chain_from(w, target, cur, seen, links).0;
            v == RowsModel { edges: v.edges, ..w }
        }),
    decreases w.entries.len() + 1 - seen.len(),
{
    let e = get(w.entries, cur)->0;
    let t = entry_type(e);
    if t.delta() && !seen.contains(cur) && seen.len() <= w.entries.len() {
        if t == ObjType::OfsDelta {
            let dist = match e.ofs_distance {
                Some(d) => d,
                None => 0,
            };
            if dist <= e.offset {
                let base_offset = (e.offset - dist) as u64;
                let v = with_edge(w, cur, None, "ofs"@, dec(base_offset as nat));
                if let Some(b) = entry_at(w.entries, e.source_id, base_offset) {
                    lemma_chain_only(v, target, b, seen.push(cur), links.push(cur));
                }
            }
        } else {
            let oid = match e.ref_base {
                Some(o) => o,
                None => ""@,
            };
            let p = provider(w, oid);
            if p >= 0 {
                lemma_chain_only(
                    with_edge(w, cur, Some(p), "ref"@, oid),
                    target,
                    p,
                    seen.push(cur),
                    links.push(cur),
                );
            }
        }
    }
}

proof fn lemma_runs_only(w: RowsModel, target: i64, chain: Seq<i64>, cur_type: Seq<char>, k: Work, budget: Budget)
    ensures
        runs(w, target, chain, cur_type, k, budget) matches Ended::Failed(v, f) ==> v == (RowsModel {
            evidence: v.evidence,
            ..w
        }),
    decreases chain.len() - k.idx,
{
    if k.idx < chain.len() {
        let id = chain[k.idx as int];
        let e = get(w.entries, id)->0;
        let depth = capped(k.depth_used + 1);
        if let Link::Next(out, step) = linked(w, target, id, e, cur_type, k.content, k.bytes_used, budget) {
            lemma_runs_only(
                w,
                target,
                chain,
                cur_type,
                Work {
                    idx: k.idx + 1,
                    content: out,
                    steps: k.steps.push(step),
                    depth_used: depth,
                    bytes_used: capped(k.bytes_used + out.len()),
                },
                budget,
            );
        }
    }
}

pub proof fn lemma_twins_only(w: RowsModel, id: i64, oid: Seq<char>, n: nat)
    ensures
        ({
            let v = twins_noted(w, id, oid, n);
            v == RowsModel { evidence: v.evidence, ..w }
        }),
    decreases n,
{
    if n > 0 {
        lemma_twins_only(w, id, oid, (n - 1) as nat);
    }
}

/// What a reconstruction leaves behind for its entry.
pub open spec fn outcome_kept(w: RowsModel, v: RowsModel, id: i64, status: Seq<char>) -> bool {
    &&& get(v.resolutions, id) is Some
    &&& get(v.resolutions, id)->0.status == status
    &&& if status == "ok"@ {
        &&& get(v.contents, id) is Some
        &&& get(v.contents, id)->0.len() == get(w.entries, id)->0.declared_size
        &&& get(v.resolutions, id)->0.oid is Some
        &&& exists|t: Seq<char>|
            get(v.resolutions, id)->0.oid == Some(#[trigger] oid_of(t, get(v.contents, id)->0))
    } else {
        &&& v.contents == w.contents
        &&& get(v.resolutions, id)->0.oid is None
    }
}

proof fn lemma_statuses()
    ensures
        "ok"@ != "paused"@,
        "ok"@ != "blocked"@,
        "ok"@ != "error"@,
        "ok"@ != "missing"@,
{
    reveal_strlit("ok");
    reveal_strlit("paused");
    reveal_strlit("blocked");
    reveal_strlit("error");
    reveal_strlit("missing");
    assert("ok"@.len() == 2);
}

proof fn lemma_failed(w: RowsModel, v: RowsModel, id: i64, f: FailModel)
    requires
        only_entry(w, v, id),
        v.contents == w.contents,
    ensures
        only_entry(w, failed(v, id, f), id),
        outcome_kept(w, failed(v, id, f), id, failed_status(f)),
{
    lemma_statuses();
    let row = ResModel {
        status: failed_status(f),
        oid: None,
        depth: 0,
        steps: Seq::empty(),
        error: Some(f),
        attempts: tried_again(v, id),
    };
    lemma_put_only(v.resolutions, id, row);
}

proof fn lemma_continued(
    w: RowsModel,
    v: RowsModel,
    id: i64,
    chain: Seq<i64>,
    cur_type: Seq<char>,
    k: Work,
    budget: Budget,
)
    requires
        only_entry(w, v, id),
        v.contents == w.contents,
    ensures
        only_entry(w, continued(v, id, chain, cur_type, k, budget).0, id),
        outcome_kept(
            w,
            continued(v, id, chain, cur_type, k, budget).0,
            id,
            continued(v, id, chain, cur_type, k, budget).1,
        ),
{
    lemma_statuses();
    let start = if k.depth_used == 0 {
        Work { bytes_used: capped(k.bytes_used + k.content.len()), ..k }
    } else {
        k
    };
    if !all_there(v, chain) {
        lemma_failed(
            w,
            v,
            id,
            plain_failure("missing_base"@, Some("chain entry disappeared (source deleted?)"@)),
        );
    } else {
        lemma_runs_only(v, id, chain, cur_type, start, budget);
        let e = get(v.entries, id)->0;
        match runs(v, id, chain, cur_type, start, budget) {
            Ended::Failed(x, f) => {
                lemma_failed(w, x, id, f);
            },
            Ended::Paused(p, limit) => {
                let r = paused(v, id, chain, cur_type, p, limit);
                lemma_put_only(
                    v.partials,
                    id,
                    PartModel {
                        chain,
                        next_idx: p.idx,
                        cur_type,
                        buffer: p.content,
                        steps: p.steps,
                        depth_used: p.depth_used,
                        bytes_used: p.bytes_used,
                    },
                );
                lemma_put_only(
                    v.resolutions,
                    id,
                    ResModel {
                        status: "paused"@,
                        oid: None,
                        depth: 0,
                        steps: Seq::empty(),
                        error: Some(plain_failure("budget"@, Some(limit))),
                        attempts: tried_again(v, id),
                    },
                );
            },
            Ended::Done(d) => {
                let x = RowsModel { partials: del(v.partials, id), ..v };
                lemma_del_only(v.partials, id);
                if d.content.len() != e.declared_size {
                    let f = entry_failure(
                        x,
                        id,
                        id,
                        "size_fraud"@,
                        "final object size "@ + dec(d.content.len()) + " disagrees with declared "@ + dec(
                            e.declared_size as nat,
                        ),
                    );
                    lemma_failed(w, x, id, f);
                } else {
                    let oid = oid_of(cur_type, d.content);
                    let row = ResModel {
                        status: "ok"@,
                        oid: Some(oid),
                        depth: d.depth_used,
                        steps: d.steps,
                        error: None,
                        attempts: tried_again(x, id),
                    };
                    let y = RowsModel {
                        contents: put(x.contents, id, d.content),
                        resolutions: put(x.resolutions, id, row),
                        ..x
                    };
                    lemma_put_only(x.contents, id, d.content);
                    lemma_put_only(x.resolutions, id, row);
                    let c = index_checked(y, id, e.offset, oid);
                    lemma_twins_only(c, id, oid, c.resolutions.len());
                }
            },
        }
    }
}

/// A reconstruction is isolated and honest. Nothing that is kept of another entry changes. The
/// status that is returned is the one that is kept. An object is published only with status
/// `ok`; it then has its declared size, and its name is the hash of its framed content. Every
/// other outcome, a pause among them, leaves the published contents as they were.
pub proof fn reconstruction_is_isolated(w: RowsModel, id: i64, budget: Budget)
    ensures
        only_entry(w, resolved(w, id, budget).0, id),
        has_key(w.entries, id) ==> outcome_kept(
            w,
            resolved(w, id, budget).0,
            id,
            resolved(w, id, budget).1,
        ),
        !has_key(w.entries, id) ==> resolved(w, id, budget).0 == w,
{
    if has_key(w.entries, id) {
        let o = opened(w, id);
        lemma_put_only(
            w.resolutions,
            id,
            ResModel {
                status: "paused"@,
                oid: None,
                depth: 0,
                steps: Seq::empty(),
                error: None,
                attempts: match get(w.resolutions, id) {
                    Some(r) => r.attempts,
                    None => 0,
                },
            },
        );
        assert(only_entry(w, o, id));
        match get(w.partials, id) {
            Some(p) => {
                lemma_continued(
                    w,
                    o,
                    id,
                    p.chain,
                    p.cur_type,
                    Work {
                        idx: p.next_idx,
                        content: p.buffer,
                        steps: p.steps,
                        depth_used: p.depth_used,
                        bytes_used: p.bytes_used,
                    },
                    budget,
                );
            },
            None => {
                lemma_chain_only(o, id, id, Seq::empty(), Seq::empty());
                let c = chain_from(o, id, id, Seq::empty(), Seq::empty());
                match c.1 {
                    Err(f) => {
                        lemma_failed(w, c.0, id, f);
                    },
                    Ok(chain) => {
                        let b = get(c.0.entries, chain[0])->0;
                        match base_content(b, source_kind(c.0, b)) {
                            Err((kind, m)) => {
                                let v = with_evidence(c.0, b, chain[0], kind, m);
                                let f = FailModel {
                                    error_kind: Some(kind),
                                    base_entry_id: Some(chain[0]),
                                    chain: Some(chain_view(v, id)),
                                    ..plain_failure("base_error"@, Some(m))
                                };
                                lemma_failed(w, v, id, f);
                            },
                            Ok((content, t)) => {
                                lemma_continued(
                                    w,
                                    c.0,
                                    id,
                                    chain,
                                    t.text(),
                                    Work {
                                        idx: 1,
                                        content,
                                        steps: Seq::empty(),
                                        depth_used: 0,
                                        bytes_used: 0,
                                    },
                                    budget,
                                );
                            },
                        }
                    },
                }
            },
        }
    }
}

} // verus!
