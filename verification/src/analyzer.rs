//! Reconstruction of stored objects under a budget: each queued object is rebuilt from its
//! payload or its delta chain, and every outcome is put on record.
use vstd::prelude::*;
use vstd::string::StringExecFns;
use crate::analyze::graph::{copy_opt, text_opt};
use crate::engine::resolve::bytes_opt;
use crate::git::delta::{apply_delta, no_size, result_of, DeltaInstr};
use crate::git::{git_object_id, kind_names_are_read_back, GitType};
use crate::kernel::engine::candidates::contains_text_in;
use crate::model::assoc::{contains_id, get, get_of_put, put, IdMap, TextMap};
use crate::model::num::{signed, to_signed};
use crate::model::object::object_frame;
use crate::model::order::views;
use crate::model::outside::{hex_encode, sha1_smol_of};
use crate::model::sort::{sort_texts, sorted_texts};
use crate::model::text::{
    dec, dec_int, hex, join, joined, push_dec, push_int, push_part, same_text, starts_with, texts,
};
use crate::model::varint::{le128_scan, scan_le128, word, Scan};

verus! {

/// The limits of a run.
#[derive(Clone, Copy, Debug)]
pub struct Budget {
    pub max_depth: u64,
    pub total_bytes: u64,
    pub single_ratio_num: u64,
    pub single_ratio_den: u64,
}

/// A stored object.
#[derive(Debug)]
pub struct ObjectRow {
    /// The id that an index or a path claims; one that begins with `unknown:` claims nothing.
    pub oid: String,
    pub kind_name: String,
    pub status: String,
    pub actual_oid: Option<String>,
    pub depth: i64,
    pub input_len: i64,
    pub output_len: i64,
    pub raw: Vec<u8>,
    pub delta: Vec<u8>,
    pub payload: Option<Vec<u8>>,
    pub ticket: Option<i64>,
}

/// The model of a stored object.
pub ghost struct ObjectModel {
    pub oid: Seq<char>,
    pub kind_name: Seq<char>,
    pub status: Seq<char>,
    pub actual_oid: Option<Seq<char>>,
    pub depth: i64,
    pub input_len: i64,
    pub output_len: i64,
    pub raw: Seq<u8>,
    pub delta: Seq<u8>,
    pub payload: Option<Seq<u8>>,
    pub ticket: Option<i64>,
}

impl DeepView for ObjectRow {
    type V = ObjectModel;

    open spec fn deep_view(&self) -> ObjectModel {
        ObjectModel {
            oid: self.oid@,
            kind_name: self.kind_name@,
            status: self.status@,
            actual_oid: text_opt(self.actual_oid),
            depth: self.depth,
            input_len: self.input_len,
            output_len: self.output_len,
            raw: self.raw@,
            delta: self.delta@,
            payload: bytes_opt(self.payload),
            ticket: self.ticket,
        }
    }
}

/// The declared base of a stored delta.
#[derive(Debug)]
pub struct BaseEdge {
    pub child: i64,
    pub base_oid: String,
    pub kind: String,
    pub base_offset: Option<i64>,
}

/// The model of a declared base.
pub ghost struct EdgeModel {
    pub child: i64,
    pub base_oid: Seq<char>,
    pub kind: Seq<char>,
    pub base_offset: Option<i64>,
}

impl View for BaseEdge {
    type V = EdgeModel;

    open spec fn view(&self) -> EdgeModel {
        EdgeModel {
            child: self.child,
            base_oid: self.base_oid@,
            kind: self.kind@,
            base_offset: self.base_offset,
        }
    }
}

/// The stored objects, their declared bases, and which object provides each id.
pub struct Store {
    pub objects: IdMap<ObjectRow>,
    pub edges: Vec<BaseEdge>,
    pub active: TextMap<i64>,
}

/// The model of a store.
pub ghost struct StoreModel {
    pub objects: Seq<(i64, ObjectModel)>,
    pub edges: Seq<EdgeModel>,
    pub active: Seq<(Seq<char>, i64)>,
}

impl View for Store {
    type V = StoreModel;

    open spec fn view(&self) -> StoreModel {
        StoreModel { objects: self.objects@, edges: views(self.edges@), active: self.active@ }
    }
}

/// A recorded problem.
#[derive(Debug)]
pub struct ErrorRow {
    pub candidate: i64,
    pub code: String,
    pub message: String,
    pub evidence: String,
}

/// The model of a recorded problem.
pub ghost struct ErrorModel {
    pub candidate: i64,
    pub code: Seq<char>,
    pub message: Seq<char>,
    pub evidence: Seq<char>,
}

impl View for ErrorRow {
    type V = ErrorModel;

    open spec fn view(&self) -> ErrorModel {
        ErrorModel {
            candidate: self.candidate,
            code: self.code@,
            message: self.message@,
            evidence: self.evidence@,
        }
    }
}

/// A recorded charge, or the refusal of one.
#[derive(Debug)]
pub struct BudgetEvent {
    pub ticket: i64,
    pub candidate: i64,
    pub kind: String,
    pub charged: u64,
    pub total_after: u64,
    pub message: String,
}

/// The model of a recorded charge.
pub ghost struct EventModel {
    pub ticket: i64,
    pub candidate: i64,
    pub kind: Seq<char>,
    pub charged: u64,
    pub total_after: u64,
    pub message: Seq<char>,
}

impl View for BudgetEvent {
    type V = EventModel;

    open spec fn view(&self) -> EventModel {
        EventModel {
            ticket: self.ticket,
            candidate: self.candidate,
            kind: self.kind@,
            charged: self.charged,
            total_after: self.total_after,
            message: self.message@,
        }
    }
}

/// A recorded instruction of a delta.
#[derive(Debug)]
pub struct DeltaStepRow {
    pub candidate: i64,
    pub depth: u64,
    pub base_id: i64,
    pub base_oid: String,
    pub index: u64,
    pub instr: DeltaInstr,
    pub input_len: u64,
    pub check_ok: bool,
}

/// The model of a recorded instruction.
pub ghost struct StepModel {
    pub candidate: i64,
    pub depth: u64,
    pub base_id: i64,
    pub base_oid: Seq<char>,
    pub index: u64,
    pub instr: DeltaInstr,
    pub input_len: u64,
    pub check_ok: bool,
}

impl View for DeltaStepRow {
    type V = StepModel;

    open spec fn view(&self) -> StepModel {
        StepModel {
            candidate: self.candidate,
            depth: self.depth,
            base_id: self.base_id,
            base_oid: self.base_oid@,
            index: self.index,
            instr: self.instr,
            input_len: self.input_len,
            check_ok: self.check_ok,
        }
    }
}

/// What a run leaves on record, and how far its budget is used.
#[derive(Debug)]
pub struct Run {
    pub ticket: i64,
    pub used: u64,
    pub touched: Vec<String>,
    pub errors: Vec<ErrorRow>,
    pub events: Vec<BudgetEvent>,
    pub steps: Vec<DeltaStepRow>,
}

/// The model of a run.
pub ghost struct RunModel {
    pub ticket: i64,
    pub used: u64,
    pub touched: Seq<Seq<char>>,
    pub errors: Seq<ErrorModel>,
    pub events: Seq<EventModel>,
    pub steps: Seq<StepModel>,
}

impl View for Run {
    type V = RunModel;

    open spec fn view(&self) -> RunModel {
        RunModel {
            ticket: self.ticket,
            used: self.used,
            touched: texts(self.touched@),
            errors: views(self.errors@),
            events: views(self.events@),
            steps: views(self.steps@),
        }
    }
}

/// How the reconstruction of an object ends.
#[derive(Debug)]
pub enum Outcome {
    Resolved {
        kind: GitType,
        payload: Vec<u8>,
        oid: String,
        depth: i64,
        input_len: i64,
        output_len: i64,
    },
    Blocked(String),
    Bad(String),
    Paused(String),
    Cycle,
}

/// The model of an outcome.
pub ghost enum End {
    Resolved {
        kind: GitType,
        payload: Seq<u8>,
        oid: Seq<char>,
        depth: i64,
        input_len: i64,
        output_len: i64,
    },
    Blocked(Seq<char>),
    Bad(Seq<char>),
    Paused(Seq<char>),
    Cycle,
}

impl View for Outcome {
    type V = End;

    open spec fn view(&self) -> End {
        match *self {
            Outcome::Resolved { kind, payload, oid, depth, input_len, output_len } => End::Resolved {
                kind,
                payload: payload@,
                oid: oid@,
                depth,
                input_len,
                output_len,
            },
            Outcome::Blocked(m) => End::Blocked(m@),
            Outcome::Bad(m) => End::Bad(m@),
            Outcome::Paused(m) => End::Paused(m@),
            Outcome::Cycle => End::Cycle,
        }
    }
}

/// A list of numbers in brackets.
pub open spec fn listed(v: Seq<i64>) -> Seq<char> {
    "["@ + joined(v.map_values(|x: i64| dec_int(x as int)), ", "@) + "]"@
}

/// An optional number.
pub open spec fn maybe(x: Option<i64>) -> Seq<char> {
    match x {
        Some(n) => "Some("@ + dec_int(n as int) + ")"@,
        None => "None"@,
    }
}

/// The complaint about an object that is not stored.
pub open spec fn no_object(id: i64) -> Seq<char> {
    "object "@ + dec_int(id as int) + " not found"@
}

/// A claimed id that claims nothing.
pub open spec fn unnamed(oid: Seq<char>) -> bool {
    "unknown:"@.is_prefix_of(oid)
}

/// The id of an object, as text.
pub open spec fn name_of(kind: GitType, payload: Seq<u8>) -> Seq<char> {
    hex(sha1_smol_of(object_frame(kind.text(), payload)))
}

/// What a single object may take of a budget.
pub open spec fn single_limit(b: Budget) -> nat {
    ((b.total_bytes * b.single_ratio_num) as nat / b.single_ratio_den as nat) % word()
}

/// The least of a sum and the largest 64-bit number.
pub open spec fn sum64(a: u64, b: u64) -> u64 {
    if a + b > u64::MAX {
        u64::MAX
    } else {
        (a + b) as u64
    }
}

/// A run with one more budget event.
pub open spec fn noted_event(r: RunModel, id: i64, kind: Seq<char>, charged: u64, message: Seq<char>) -> RunModel {
    RunModel {
        events: r.events.push(
            EventModel { ticket: r.ticket, candidate: id, kind, charged, total_after: r.used, message },
        ),
        ..r
    }
}

/// A run with one more recorded problem.
pub open spec fn noted_error(
    r: RunModel,
    id: i64,
    code: Seq<char>,
    message: Seq<char>,
    evidence: Seq<char>,
) -> RunModel {
    RunModel { errors: r.errors.push(ErrorModel { candidate: id, code, message, evidence }), ..r }
}

/// What charging `output_len` bytes does: the run after it, and why it was refused.
pub open spec fn charging(
    b: Budget,
    r: RunModel,
    id: i64,
    input_len: u64,
    output_len: u64,
    label: Seq<char>,
) -> (RunModel, Option<Seq<char>>) {
    if output_len > single_limit(b) {
        let m = "single object requests "@ + dec(output_len as nat) + " bytes, limit is "@ + dec(
            single_limit(b),
        ) + " ("@ + dec(b.single_ratio_num as nat) + "/"@ + dec(b.single_ratio_den as nat) + ")"@;
        (noted_event(r, id, "single_object_limit"@, 0, m), Some(m))
    } else if sum64(r.used, output_len) > b.total_bytes {
        let m = label + ": total expansion would be "@ + dec(sum64(r.used, output_len) as nat)
            + ", limit is "@ + dec(b.total_bytes as nat);
        (noted_event(r, id, "total_budget"@, 0, m), Some(m))
    } else {
        let u = RunModel { used: sum64(r.used, output_len), ..r };
        (
            noted_event(u, id, "charge"@, output_len, label + "; input="@ + dec(input_len as nat)),
            None,
        )
    }
}

/// An outcome whose id was checked against the one that was claimed.
pub open spec fn id_checked(e: End, id: i64, expected: Seq<char>, ok: bool) -> End {
    if ok {
        e
    } else {
        End::Bad(
            "recomputed object id for candidate "@ + dec_int(id as int) + " does not match "@ + expected,
        )
    }
}

/// How an object that is stored whole ends.
pub open spec fn plain_end(b: Budget, r: RunModel, id: i64, x: ObjectModel) -> (RunModel, End) {
    match GitType::of_text(x.kind_name) {
        None => (r, End::Bad("plain candidate has non-object type "@ + x.kind_name)),
        Some(kind) => if signed(x.raw.len()) != x.input_len {
            (
                r,
                End::Bad(
                    "stored raw length "@ + dec(x.raw.len()) + " disagrees with input length "@ + dec_int(
                        x.input_len as int,
                    ),
                ),
            )
        } else {
            let c = charging(b, r, id, x.raw.len() as u64, x.raw.len() as u64, "plain object expansion"@);
            match c.1 {
                Some(m) => (c.0, End::Paused(m)),
                None => (
                    c.0,
                    id_checked(
                        End::Resolved {
                            kind,
                            payload: x.raw,
                            oid: name_of(kind, x.raw),
                            depth: 0,
                            input_len: signed(x.raw.len()),
                            output_len: signed(x.raw.len()),
                        },
                        id,
                        x.oid,
                        name_of(kind, x.raw) == x.oid || unnamed(x.oid),
                    ),
                ),
            }
        },
    }
}

/// Whether an instruction stays inside the base, the delta and the output.
pub open spec fn instr_ok(i: DeltaInstr, base_len: nat, output_len: nat) -> bool {
    match i {
        DeltaInstr::Copy { src_pos, src_len, out_pos, len, .. } => src_pos + src_len <= base_len && out_pos
            + len <= output_len,
        DeltaInstr::Insert { range, out_pos, len, .. } => range.0 + 1 + len <= range.1 && out_pos + len
            <= output_len,
    }
}

/// The rows of other objects among the first `n` recorded instructions.
pub open spec fn without(v: Seq<StepModel>, id: i64, n: nat) -> Seq<StepModel>
    decreases n,
{
    if n == 0 {
        Seq::empty()
    } else {
        let w = without(v, id, (n - 1) as nat);
        if v[n - 1].candidate == id {
            w
        } else {
            w.push(v[n - 1])
        }
    }
}

/// What a delta is applied to.
pub ghost struct Ground {
    pub kind: GitType,
    pub payload: Seq<u8>,
    pub oid: Seq<char>,
    pub id: i64,
}

/// The recorded rows of the first `n` instructions.
pub open spec fn step_rows(
    id: i64,
    depth: u64,
    g: Ground,
    v: Seq<DeltaInstr>,
    output_len: nat,
    n: nat,
) -> Seq<StepModel> {
    Seq::new(
        n,
        |i: int|
            StepModel {
                candidate: id,
                depth,
                base_id: g.id,
                base_oid: g.oid,
                index: i as u64,
                instr: v[i],
                input_len: g.payload.len() as u64,
                check_ok: instr_ok(v[i], g.payload.len(), output_len),
            },
    )
}

/// Every instruction stays inside what it reads and writes.
pub open spec fn all_ok(v: Seq<DeltaInstr>, base_len: nat, output_len: nat, n: nat) -> bool {
    forall|i: int| 0 <= i < n ==> instr_ok(#[trigger] v[i], base_len, output_len)
}

/// How a stored delta ends on a base that was reconstructed.
pub open spec fn delta_end(
    b: Budget,
    r: RunModel,
    id: i64,
    x: ObjectModel,
    depth: u64,
    g: Ground,
    base_kind: Seq<char>,
) -> (RunModel, End) {
    if x.delta.len() == 0 {
        (r, End::Bad(base_kind + " delta payload is missing"@))
    } else {
        match le128_scan(x.delta) {
            Scan::Value { value, len } => if value != g.payload.len() {
                (
                    r,
                    End::Bad(
                        "delta source length "@ + dec(value as nat) + " does not equal base length "@ + dec(
                            g.payload.len(),
                        ),
                    ),
                )
            } else {
                match le128_scan(x.delta.skip(len as int)) {
                    Scan::Value { value: target, .. } => {
                        let c = charging(
                            b,
                            r,
                            id,
                            g.payload.len() as u64,
                            target,
                            "delta output reservation"@,
                        );
                        match c.1 {
                            Some(m) => (c.0, End::Paused(m)),
                            None => match result_of(g.payload, x.delta) {
                                Err(t) => (c.0, End::Bad(t.message)),
                                Ok((out, instrs)) => {
                                    let u = RunModel {
                                        steps: without(c.0.steps, id, c.0.steps.len()) + step_rows(
                                            id,
                                            depth,
                                            g,
                                            instrs,
                                            out.len(),
                                            instrs.len(),
                                        ),
                                        ..c.0
                                    };
                                    if !all_ok(instrs, g.payload.len(), out.len(), instrs.len()) {
                                        (
                                            u,
                                            End::Bad(
                                                "one or more delta instructions failed range checks"@,
                                            ),
                                        )
                                    } else {
                                        (
                                            u,
                                            id_checked(
                                                End::Resolved {
                                                    kind: g.kind,
                                                    payload: out,
                                                    oid: name_of(g.kind, out),
                                                    depth: signed(depth as nat + 1),
                                                    input_len: signed(x.delta.len()),
                                                    output_len: signed(target as nat),
                                                },
                                                id,
                                                x.oid,
                                                name_of(g.kind, out) == x.oid || unnamed(x.oid),
                                            ),
                                        )
                                    }
                                },
                            },
                        }
                    },
                    _ => (r, End::Bad(no_size(2).message)),
                }
            },
            _ => (r, End::Bad(no_size(1).message)),
        }
    }
}

/// The place of the first declared base of an object, from row `n` on.
pub open spec fn edge_of(v: Seq<EdgeModel>, id: i64, n: nat) -> nat
    decreases v.len() - n,
{
    if n >= v.len() || v[n as int].child == id {
        n
    } else {
        edge_of(v, id, n + 1)
    }
}

/// How an object that was reconstructed before ends.
pub open spec fn known_end(x: ObjectModel) -> End {
    End::Resolved {
        kind: match GitType::of_text(x.kind_name) {
            Some(k) => k,
            None => GitType::Blob,
        },
        payload: match x.payload {
            Some(p) => p,
            None => Seq::empty(),
        },
        oid: match x.actual_oid {
            Some(o) => o,
            None => x.oid,
        },
        depth: x.depth,
        input_len: x.input_len,
        output_len: x.output_len,
    }
}

/// A list with `x` in it, once.
pub open spec fn touched_with(v: Seq<Seq<char>>, x: Seq<char>) -> Seq<Seq<char>> {
    if v.contains(x) {
        v
    } else {
        v.push(x)
    }
}

/// What reconstructing object `id` does to a run, and how it ends. `stack` holds the objects
/// that are waiting for it.
pub open spec fn visit(s: StoreModel, b: Budget, r: RunModel, id: i64, depth: u64, stack: Seq<i64>) -> (
    RunModel,
    End,
)
    decreases b.max_depth - depth,
{
    match get(s.objects, id) {
        None => (r, End::Bad(no_object(id))),
        Some(x) => {
            let t = RunModel { touched: touched_with(r.touched, x.oid), ..r };
            let e = edge_of(s.edges, id, 0);
            if x.status == "resolved"@ {
                (t, known_end(x))
            } else if stack.contains(id) {
                (
                    noted_error(t, id, "cycle"@, "delta chain forms a cycle"@, "stack="@ + listed(stack)),
                    End::Cycle,
                )
            } else if depth >= b.max_depth {
                let m = "delta depth "@ + dec(depth as nat) + " exceeds limit "@ + dec(b.max_depth as nat);
                (
                    noted_error(t, id, "depth"@, m, "retry with a larger depth budget"@),
                    End::Paused(m),
                )
            } else if e >= s.edges.len() {
                plain_end(b, t, id, x)
            } else {
                let edge = s.edges[e as int];
                match get(s.active, edge.base_oid) {
                    None => {
                        let m = "missing external base "@ + edge.base_oid + " for "@ + edge.kind + " delta"@;
                        (
                            noted_error(
                                t,
                                id,
                                "missing_base"@,
                                m,
                                "base_offset="@ + maybe(edge.base_offset) + " child="@ + dec_int(id as int),
                            ),
                            End::Blocked(m),
                        )
                    },
                    Some(base) => {
                        let v = visit(s, b, t, base, (depth + 1) as u64, stack.push(id));
                        match v.1 {
                            End::Resolved { kind, payload, oid, .. } => delta_end(
                                b,
                                v.0,
                                id,
                                x,
                                depth,
                                Ground { kind, payload, oid, id: base },
                                edge.kind,
                            ),
                            End::Cycle => (v.0, End::Cycle),
                            End::Blocked(m) => (v.0, End::Blocked("base blocked: "@ + m)),
                            End::Bad(m) => (v.0, End::Bad("bad base: "@ + m)),
                            End::Paused(m) => (v.0, End::Paused("base paused: "@ + m)),
                        }
                    },
                }
            }
        },
    }
}

fn listed_text(v: &Vec<i64>) -> (s: String)
    ensures
        s@ == listed(v@),
{
    let mut parts: Vec<String> = Vec::new();
    let ghost names = v@.map_values(|x: i64| dec_int(x as int));
    let mut i: usize = 0;
    while i < v.len()
        invariant
            i <= v@.len(),
            names == v@.map_values(|x: i64| dec_int(x as int)),
            texts(parts@) == names.take(i as int),
        decreases v@.len() - i,
    {
        let mut t = String::new();
        push_int(&mut t, v[i]);
        assert(t@ =~= dec_int(v@[i as int] as int));
        push_part(&mut parts, t);
        i += 1;
        assert(texts(parts@) =~= names.take(i as int));
    }
    assert(names.take(i as int) =~= names);
    let inner = join(&parts, ", ");
    let mut s = "[".to_owned();
    s.append(inner.as_str());
    s.append("]");
    s
}

fn maybe_text(x: Option<i64>) -> (s: String)
    ensures
        s@ == maybe(x),
{
    match x {
        Some(n) => {
            let mut s = "Some(".to_owned();
            push_int(&mut s, n);
            s.append(")");
            s
        },
        None => "None".to_owned(),
    }
}

fn missing_text(id: i64) -> (s: String)
    ensures
        s@ == no_object(id),
{
    let mut s = "object ".to_owned();
    push_int(&mut s, id);
    s.append(" not found");
    s
}

/// The id of an object, as text.
fn object_name(kind: GitType, payload: &[u8]) -> (s: String)
    ensures
        s@ == name_of(kind, payload@),
{
    let id = git_object_id(kind.name(), payload);
    hex_encode(id.as_slice())
}

impl Outcome {
    fn with_id_check(self, id: i64, expected_oid: &str, check_ok: bool) -> (r: Outcome)
        ensures
            r@ == id_checked(self@, id, expected_oid@, check_ok),
    {
        if check_ok {
            return self;
        }
        let mut m = "recomputed object id for candidate ".to_owned();
        push_int(&mut m, id);
        m.append(" does not match ");
        m.append(expected_oid);
        Outcome::Bad(m)
    }
}

impl Run {
    fn touch(&mut self, oid: &str)
        ensures
            final(self)@ == (RunModel { touched: touched_with(old(self)@.touched, oid@), ..old(self)@ }),
    {
        if !contains_text_in(&self.touched, oid) {
            push_part(&mut self.touched, oid.to_owned());
        }
    }

    fn record_budget(&mut self, id: i64, bytes: u64, kind: &str, message: String)
        ensures
            final(self)@ == noted_event(old(self)@, id, kind@, bytes, message@),
    {
        let ghost before = self.events@;
        self.events.push(
            BudgetEvent {
                ticket: self.ticket,
                candidate: id,
                kind: kind.to_owned(),
                charged: bytes,
                total_after: self.used,
                message,
            },
        );
        assert(views(self.events@) =~= views(before).push(self.events@.last()@));
    }

    fn add_error(&mut self, id: i64, code: &str, message: String, evidence: String)
        ensures
            final(self)@ == noted_error(old(self)@, id, code@, message@, evidence@),
    {
        let ghost before = self.errors@;
        self.errors.push(ErrorRow { candidate: id, code: code.to_owned(), message, evidence });
        assert(views(self.errors@) =~= views(before).push(self.errors@.last()@));
    }

    /// Charges what an object expands to. Returns why it may not.
    pub fn charge(&mut self, b: &Budget, id: i64, input_len: u64, output_len: u64, label: &str) -> (r: Option<
        String,
    >)
        requires
            b.single_ratio_den > 0,
        ensures
            (final(self)@, text_opt(r)) == charging(*b, old(self)@, id, input_len, output_len, label@),
    {
        let product: u128 = {
            assert(b.total_bytes * b.single_ratio_num <= u64::MAX * u64::MAX) by (nonlinear_arith)
                requires
                    b.total_bytes <= u64::MAX,
                    b.single_ratio_num <= u64::MAX,
            ;
            assert(b.total_bytes * b.single_ratio_num >= 0) by (nonlinear_arith);
            b.total_bytes as u128 * b.single_ratio_num as u128
        };
        let limit: u64 = ((product / b.single_ratio_den as u128) % 0x1_0000_0000_0000_0000) as u64;
        assert(limit == single_limit(*b));
        if output_len > limit {
            let mut m = "single object requests ".to_owned();
            push_dec(&mut m, output_len);
            m.append(" bytes, limit is ");
            push_dec(&mut m, limit);
            m.append(" (");
            push_dec(&mut m, b.single_ratio_num);
            m.append("/");
            push_dec(&mut m, b.single_ratio_den);
            m.append(")");
            self.record_budget(id, 0, "single_object_limit", m.clone());
            return Some(m);
        }
        let sum: u64 = self.used.saturating_add(output_len);
        if sum > b.total_bytes {
            let mut m = label.to_owned();
            m.append(": total expansion would be ");
            push_dec(&mut m, sum);
            m.append(", limit is ");
            push_dec(&mut m, b.total_bytes);
            self.record_budget(id, 0, "total_budget", m.clone());
            return Some(m);
        }
        self.used = sum;
        let mut m = label.to_owned();
        m.append("; input=");
        push_dec(&mut m, input_len);
        self.record_budget(id, output_len, "charge", m);
        None
    }

    /// Reconstructs an object that is stored whole.
    pub fn resolve_plain(&mut self, b: &Budget, id: i64, x: &ObjectRow) -> (r: Outcome)
        requires
            b.single_ratio_den > 0,
        ensures
            (final(self)@, r@) == plain_end(*b, old(self)@, id, x.deep_view()),
    {
        let kind = match GitType::from_name(x.kind_name.as_str()) {
            Some(k) => k,
            None => {
                let mut m = "plain candidate has non-object type ".to_owned();
                m.append(x.kind_name.as_str());
                return Outcome::Bad(m);
            },
        };
        let n: u64 = x.raw.len() as u64;
        assert(x.raw@.len() == x.raw.len());
        if to_signed(n) != x.input_len {
            let mut m = "stored raw length ".to_owned();
            push_dec(&mut m, n);
            m.append(" disagrees with input length ");
            push_int(&mut m, x.input_len);
            return Outcome::Bad(m);
        }
        match self.charge(b, id, n, n, "plain object expansion") {
            Some(m) => Outcome::Paused(m),
            None => {
                let oid = object_name(kind, x.raw.as_slice());
                let ok: bool = same_text(oid.as_str(), x.oid.as_str()) || starts_with(
                    x.oid.as_str(),
                    "unknown:",
                );
                let done = Outcome::Resolved {
                    kind,
                    payload: x.raw.clone(),
                    oid,
                    depth: 0,
                    input_len: to_signed(n),
                    output_len: to_signed(n),
                };
                done.with_id_check(id, x.oid.as_str(), ok)
            },
        }
    }

    fn clear_candidate_steps(&mut self, id: i64)
        ensures
            final(self)@ == (RunModel {
                steps: without(old(self)@.steps, id, old(self)@.steps.len()),
                ..old(self)@
            }),
    {
        let mut kept: Vec<DeltaStepRow> = Vec::new();
        let ghost start = self@;
        let ghost rows = self.steps@;
        let mut i: usize = 0;
        assert(views(kept@) =~= without(start.steps, id, 0));
        while i < self.steps.len()
            invariant
                i <= self.steps@.len(),
                self.steps@ == rows,
                self@ == start,
                start.steps == views(rows),
                views(kept@) == without(start.steps, id, i as nat),
            decreases self.steps@.len() - i,
        {
            let x = &self.steps[i];
            if x.candidate != id {
                let ghost before = kept@;
                let row = DeltaStepRow {
                    candidate: x.candidate,
                    depth: x.depth,
                    base_id: x.base_id,
                    base_oid: x.base_oid.clone(),
                    index: x.index,
                    instr: x.instr,
                    input_len: x.input_len,
                    check_ok: x.check_ok,
                };
                assert(row@ == start.steps[i as int]);
                kept.push(row);
                assert(views(kept@) =~= views(before).push(row@));
            }
            i += 1;
        }
        self.steps = kept;
    }

    /// Applies a stored delta to a base that was reconstructed.
    pub fn apply_delta_candidate(
        &mut self,
        b: &Budget,
        id: i64,
        x: &ObjectRow,
        depth: u64,
        base: (GitType, Vec<u8>, String, i64),
        base_kind: &str,
    ) -> (r: Outcome)
        requires
            b.single_ratio_den > 0,
        ensures
            (final(self)@, r@) == delta_end(
                *b,
                old(self)@,
                id,
                x.deep_view(),
                depth,
                Ground { kind: base.0, payload: base.1@, oid: base.2@, id: base.3 },
                base_kind@,
            ),
    {
        let ghost g = Ground { kind: base.0, payload: base.1@, oid: base.2@, id: base.3 };
        let (kind, payload, base_oid, base_id) = base;
        let delta = x.delta.as_slice();
        let base_len: u64 = payload.len() as u64;
        assert(payload@.len() == payload.len());
        if delta.len() == 0 {
            let mut m = base_kind.to_owned();
            m.append(" delta payload is missing");
            return Outcome::Bad(m);
        }
        assert(delta@.skip(0) =~= delta@);
        let n: usize = match scan_le128(delta, 0) {
            Scan::Value { value, len } => {
                if value != base_len {
                    let mut m = "delta source length ".to_owned();
                    push_dec(&mut m, value);
                    m.append(" does not equal base length ");
                    push_dec(&mut m, base_len);
                    return Outcome::Bad(m);
                }
                len
            },
            _ => return Outcome::Bad("missing base size varint".to_owned()),
        };
        let target: u64 = match scan_le128(delta, n) {
            Scan::Value { value, .. } => value,
            _ => return Outcome::Bad("missing result size varint".to_owned()),
        };
        if let Some(m) = self.charge(b, id, base_len, target, "delta output reservation") {
            return Outcome::Paused(m);
        }
        let result = match apply_delta(payload.as_slice(), delta) {
            Ok(v) => v,
            Err(e) => return Outcome::Bad(e.message),
        };
        self.clear_candidate_steps(id);
        let ghost start = self@;
        let ghost out_len = result.output@.len();
        let made: usize = result.output.len();
        let mut all_checks: bool = true;
        let mut i: usize = 0;
        assert(start.steps + step_rows(id, depth, g, result.instrs@, out_len, 0) =~= start.steps);
        while i < result.instrs.len()
            invariant
                i <= result.instrs@.len(),
                made == out_len,
                out_len == result.output@.len(),
                base_len == payload@.len(),
                g == (Ground { kind, payload: payload@, oid: base_oid@, id: base_id }),
                all_checks == all_ok(result.instrs@, payload@.len(), out_len, i as nat),
                self@ == (RunModel {
                    steps: start.steps + step_rows(id, depth, g, result.instrs@, out_len, i as nat),
                    ..start
                }),
            decreases result.instrs@.len() - i,
        {
            let op = result.instrs[i];
            let check_ok: bool = check_instr(&op, base_len, made as u64);
            if !check_ok {
                all_checks = false;
            }
            assert(instr_ok(result.instrs@[i as int], payload@.len(), out_len) == check_ok);
            let ghost before = self.steps@;
            let row = DeltaStepRow {
                candidate: id,
                depth,
                base_id,
                base_oid: base_oid.clone(),
                index: i as u64,
                instr: op,
                input_len: base_len,
                check_ok,
            };
            self.steps.push(row);
            assert(views(self.steps@) =~= views(before).push(row@));
            i += 1;
            assert(start.steps + step_rows(id, depth, g, result.instrs@, out_len, i as nat) =~= (start.steps
                + step_rows(id, depth, g, result.instrs@, out_len, (i - 1) as nat)).push(row@));
        }
        if !all_checks {
            return Outcome::Bad("one or more delta instructions failed range checks".to_owned());
        }
        let oid = object_name(kind, result.output.as_slice());
        let ok: bool = same_text(oid.as_str(), x.oid.as_str()) || starts_with(x.oid.as_str(), "unknown:");
        assert(x.delta@.len() == x.delta.len());
        let done = Outcome::Resolved {
            kind,
            payload: result.output,
            oid,
            depth: next_depth(depth),
            input_len: to_signed(delta.len() as u64),
            output_len: to_signed(target),
        };
        done.with_id_check(id, x.oid.as_str(), ok)
    }

    /// Reconstructs object `id`. `stack` holds the objects that are waiting for it.
    pub fn resolve_id(&mut self, store: &Store, b: &Budget, id: i64, depth: u64, stack: &mut Vec<i64>) -> (r:
        Outcome)
        requires
            b.single_ratio_den > 0,
        ensures
            (final(self)@, r@) == visit(store@, *b, old(self)@, id, depth, old(stack)@),
            final(stack)@ == old(stack)@,
        decreases b.max_depth - depth,
    {
        let x = match store.objects.get(id) {
            Some(x) => x,
            None => return Outcome::Bad(missing_text(id)),
        };
        self.touch(x.oid.as_str());
        if same_text(x.status.as_str(), "resolved") {
            return Outcome::Resolved {
                kind: match GitType::from_name(x.kind_name.as_str()) {
                    Some(k) => k,
                    None => GitType::Blob,
                },
                payload: match &x.payload {
                    Some(p) => p.clone(),
                    None => Vec::new(),
                },
                oid: match &x.actual_oid {
                    Some(o) => o.clone(),
                    None => x.oid.clone(),
                },
                depth: x.depth,
                input_len: x.input_len,
                output_len: x.output_len,
            };
        }
        if contains_id(stack, id) {
            let mut evidence = "stack=".to_owned();
            let names = listed_text(stack);
            evidence.append(names.as_str());
            self.add_error(id, "cycle", "delta chain forms a cycle".to_owned(), evidence);
            return Outcome::Cycle;
        }
        if depth >= b.max_depth {
            let mut m = "delta depth ".to_owned();
            push_dec(&mut m, depth);
            m.append(" exceeds limit ");
            push_dec(&mut m, b.max_depth);
            self.add_error(id, "depth", m.clone(), "retry with a larger depth budget".to_owned());
            return Outcome::Paused(m);
        }
        let e: usize = find_edge(&store.edges, id);
        if e >= store.edges.len() {
            return self.resolve_plain(b, id, x);
        }
        let edge = &store.edges[e];
        assert(store@.edges[e as int] == edge@);
        let base_id: i64 = match store.active.get(edge.base_oid.as_str()) {
            Some(i) => *i,
            None => {
                let mut m = "missing external base ".to_owned();
                m.append(edge.base_oid.as_str());
                m.append(" for ");
                m.append(edge.kind.as_str());
                m.append(" delta");
                let mut evidence = "base_offset=".to_owned();
                let offset = maybe_text(edge.base_offset);
                evidence.append(offset.as_str());
                evidence.append(" child=");
                push_int(&mut evidence, id);
                self.add_error(id, "missing_base", m.clone(), evidence);
                return Outcome::Blocked(m);
            },
        };
        let ghost waiting = stack@;
        stack.push(id);
        let outcome = self.resolve_id(store, b, base_id, depth + 1, stack);
        let last = stack.pop();
        assert(stack@ =~= waiting);
        match outcome {
            Outcome::Resolved { kind, payload, oid, .. } => self.apply_delta_candidate(
                b,
                id,
                x,
                depth,
                (kind, payload, oid, base_id),
                edge.kind.as_str(),
            ),
            Outcome::Cycle => Outcome::Cycle,
            Outcome::Blocked(m) => Outcome::Blocked(prefixed("base blocked: ", m)),
            Outcome::Bad(m) => Outcome::Bad(prefixed("bad base: ", m)),
            Outcome::Paused(m) => Outcome::Paused(prefixed("base paused: ", m)),
        }
    }
}

fn prefixed(head: &str, m: String) -> (s: String)
    ensures
        s@ == head@ + m@,
{
    let mut s = head.to_owned();
    s.append(m.as_str());
    s
}

fn find_edge(v: &Vec<BaseEdge>, id: i64) -> (n: usize)
    ensures
        n == edge_of(views(v@), id, 0),
        n <= v@.len(),
{
    let mut n: usize = 0;
    while n < v.len() && v[n].child != id
        invariant
            n <= v@.len(),
            edge_of(views(v@), id, 0) == edge_of(views(v@), id, n as nat),
        decreases v@.len() - n,
    {
        n += 1;
    }
    n
}

fn next_depth(depth: u64) -> (d: i64)
    ensures
        d == signed(depth as nat + 1),
{
    if depth == u64::MAX {
        0
    } else {
        to_signed(depth + 1)
    }
}

fn check_instr(i: &DeltaInstr, base_len: u64, output_len: u64) -> (r: bool)
    ensures
        r == instr_ok(*i, base_len as nat, output_len as nat),
{
    match *i {
        DeltaInstr::Copy { src_pos, src_len, out_pos, len, .. } => src_pos as u128 + src_len as u128
            <= base_len as u128 && out_pos as u128 + len as u128 <= output_len as u128,
        DeltaInstr::Insert { range, out_pos, len, .. } => range.0 as u128 + 1 + len as u128 <= range.1 as u128
            && out_pos as u128 + len as u128 <= output_len as u128,
    }
}

/// How many objects ended in each way.
#[derive(Clone, Copy, Debug)]
pub struct Counts {
    pub resolved: u64,
    pub blocked: u64,
    pub bad: u64,
    pub paused: u64,
}

/// What a run over the queued objects did.
#[derive(Debug)]
pub struct ResolveSummary {
    pub counts: Counts,
    pub touched_oids: Vec<String>,
}

/// An object whose reconstruction failed: nothing of it is accepted.
pub open spec fn failed_row(x: ObjectModel, status: Seq<char>, ticket: Option<i64>) -> ObjectModel {
    ObjectModel { status, ticket, ..x }
}

/// The row of an object after an outcome.
pub open spec fn row_after(x: ObjectModel, e: End, ticket: i64) -> ObjectModel {
    match e {
        End::Resolved { kind, payload, oid, depth, input_len, output_len } => if oid == x.oid || unnamed(
            x.oid,
        ) {
            ObjectModel {
                oid,
                kind_name: kind.text(),
                status: "resolved"@,
                actual_oid: Some(oid),
                depth,
                input_len,
                output_len,
                payload: Some(payload),
                ticket: None,
                ..x
            }
        } else {
            failed_row(x, "bad"@, None)
        },
        End::Blocked(m) => failed_row(x, "blocked"@, None),
        End::Bad(m) => failed_row(x, "bad"@, None),
        End::Paused(m) => failed_row(x, "paused"@, Some(ticket)),
        End::Cycle => failed_row(x, "bad"@, None),
    }
}

/// The run after an outcome.
pub open spec fn run_after(r: RunModel, id: i64, x: ObjectModel, e: End) -> RunModel {
    match e {
        End::Resolved { oid, .. } => if unnamed(x.oid) {
            RunModel { touched: touched_with(r.touched, oid), ..r }
        } else if oid == x.oid {
            r
        } else {
            noted_error(
                r,
                id,
                "oid_mismatch"@,
                "recomputed id "@ + oid + " does not match indexed/supplied id "@ + x.oid,
                "object isolated"@,
            )
        },
        End::Blocked(m) => noted_error(r, id, "blocked"@, m, "retry after supplying base"@),
        End::Bad(m) => noted_error(r, id, "bad"@, m, "object isolated"@),
        End::Paused(m) => noted_error(
            r,
            id,
            "budget_paused"@,
            m,
            "retry with a larger budget; no partial object was accepted"@,
        ),
        End::Cycle => r,
    }
}

/// The counts after an outcome.
pub open spec fn counts_after(c: Counts, x: ObjectModel, e: End) -> Counts {
    match e {
        End::Resolved { oid, .. } => if oid == x.oid || unnamed(x.oid) {
            Counts { resolved: (c.resolved + 1) as u64, ..c }
        } else {
            Counts { bad: (c.bad + 1) as u64, ..c }
        },
        End::Blocked(m) => Counts { blocked: (c.blocked + 1) as u64, ..c },
        End::Paused(m) => Counts { paused: (c.paused + 1) as u64, ..c },
        _ => Counts { bad: (c.bad + 1) as u64, ..c },
    }
}

/// What is recorded of an outcome: the store, the run and the counts after it.
pub open spec fn classed(s: StoreModel, r: RunModel, c: Counts, id: i64, x: ObjectModel, e: End) -> (
    StoreModel,
    RunModel,
    Counts,
) {
    (
        StoreModel { objects: put(s.objects, id, row_after(x, e, r.ticket)), ..s },
        run_after(r, id, x, e),
        counts_after(c, x, e),
    )
}

/// What the first `n` queued objects did: the store, the run, the counts, and why it stopped.
pub open spec fn rounds(
    s: StoreModel,
    b: Budget,
    r: RunModel,
    roots: Seq<i64>,
    n: nat,
) -> (StoreModel, RunModel, Counts, Option<Seq<char>>)
    decreases n,
{
    if n == 0 {
        (s, r, Counts { resolved: 0, blocked: 0, bad: 0, paused: 0 }, None)
    } else {
        let u = rounds(s, b, r, roots, (n - 1) as nat);
        let id = roots[n - 1];
        if u.3 is Some {
            u
        } else {
            match get(u.0.objects, id) {
                None => (u.0, u.1, u.2, Some(no_object(id))),
                Some(x) => if x.status == "resolved"@ {
                    (u.0, RunModel { touched: touched_with(u.1.touched, x.oid), ..u.1 }, u.2, None)
                } else {
                    let v = visit(u.0, b, u.1, id, 0, Seq::empty());
                    let w = classed(u.0, v.0, u.2, id, x, v.1);
                    (w.0, w.1, w.2, None)
                },
            }
        }
    }
}

/// The objects among the first `n` that are still to be reconstructed.
pub open spec fn queued(v: Seq<(i64, ObjectModel)>, n: nat) -> Seq<i64>
    decreases n,
{
    if n == 0 {
        Seq::empty()
    } else {
        let w = queued(v, (n - 1) as nat);
        if v[n - 1].1.status == "resolved"@ {
            w
        } else {
            w.push(v[n - 1].0)
        }
    }
}

fn copy_row(x: &ObjectRow) -> (r: ObjectRow)
    ensures
        r.deep_view() == x.deep_view(),
{
    ObjectRow {
        oid: x.oid.clone(),
        kind_name: x.kind_name.clone(),
        status: x.status.clone(),
        actual_oid: copy_opt(&x.actual_oid),
        depth: x.depth,
        input_len: x.input_len,
        output_len: x.output_len,
        raw: x.raw.clone(),
        delta: x.delta.clone(),
        payload: x.payload.clone(),
        ticket: x.ticket,
    }
}

impl Store {
    fn set_failure(&mut self, id: i64, row: ObjectRow, status: &str, ticket: Option<i64>)
        ensures
            final(self)@ == (StoreModel {
                objects: put(old(self)@.objects, id, failed_row(row.deep_view(), status@, ticket)),
                ..old(self)@
            }),
    {
        let mut x = row;
        x.status = status.to_owned();
        x.ticket = ticket;
        self.objects.insert(id, x);
    }

    /// Puts an outcome on record.
    pub fn classify(&mut self, run: &mut Run, counts: &mut Counts, id: i64, outcome: Outcome) -> (r: Result<
        (),
        String,
    >)
        requires
            old(counts).resolved < u64::MAX,
            old(counts).blocked < u64::MAX,
            old(counts).bad < u64::MAX,
            old(counts).paused < u64::MAX,
        ensures
            match get(old(self)@.objects, id) {
                Some(x) => r is Ok && (final(self)@, final(run)@, *final(counts)) == classed(
                    old(self)@,
                    old(run)@,
                    *old(counts),
                    id,
                    x,
                    outcome@,
                ),
                None => {
                    &&& r matches Err(m) && m@ == no_object(id)
                    &&& final(self)@ == old(self)@
                    &&& final(run)@ == old(run)@
                    &&& *final(counts) == *old(counts)
                },
            },
    {
        let row = match self.objects.get(id) {
            Some(x) => copy_row(x),
            None => return Err(missing_text(id)),
        };
        match outcome {
            Outcome::Resolved { kind, payload, oid, depth, input_len, output_len } => {
                let free: bool = starts_with(row.oid.as_str(), "unknown:");
                let id_ok: bool = same_text(oid.as_str(), row.oid.as_str()) || free;
                if !id_ok {
                    let mut m = "recomputed id ".to_owned();
                    m.append(oid.as_str());
                    m.append(" does not match indexed/supplied id ");
                    m.append(row.oid.as_str());
                    run.add_error(id, "oid_mismatch", m, "object isolated".to_owned());
                    self.set_failure(id, row, "bad", None);
                    counts.bad = counts.bad + 1;
                } else {
                    let mut x = row;
                    if free {
                        x.oid = oid.clone();
                        run.touch(oid.as_str());
                    }
                    x.kind_name = kind.name().to_owned();
                    x.status = "resolved".to_owned();
                    x.actual_oid = Some(oid);
                    x.depth = depth;
                    x.input_len = input_len;
                    x.output_len = output_len;
                    x.payload = Some(payload);
                    x.ticket = None;
                    self.objects.insert(id, x);
                    counts.resolved = counts.resolved + 1;
                }
            },
            Outcome::Blocked(m) => {
                self.set_failure(id, row, "blocked", None);
                counts.blocked = counts.blocked + 1;
                run.add_error(id, "blocked", m, "retry after supplying base".to_owned());
            },
            Outcome::Bad(m) => {
                self.set_failure(id, row, "bad", None);
                counts.bad = counts.bad + 1;
                run.add_error(id, "bad", m, "object isolated".to_owned());
            },
            Outcome::Paused(m) => {
                self.set_failure(id, row, "paused", Some(run.ticket));
                counts.paused = counts.paused + 1;
                run.add_error(
                    id,
                    "budget_paused",
                    m,
                    "retry with a larger budget; no partial object was accepted".to_owned(),
                );
            },
            Outcome::Cycle => {
                self.set_failure(id, row, "bad", None);
                counts.bad = counts.bad + 1;
            },
        }
        Ok(())
    }

    /// The objects that are still to be reconstructed, in the order of the rows.
    pub fn queue(&self) -> (v: Vec<i64>)
        ensures
            v@ == queued(self@.objects, self@.objects.len()),
    {
        let mut v: Vec<i64> = Vec::new();
        let mut i: usize = 0;
        while i < self.objects.len()
            invariant
                i <= self@.objects.len(),
                v@ == queued(self@.objects, i as nat),
            decreases self@.objects.len() - i,
        {
            if !same_text(self.objects.value_at(i).status.as_str(), "resolved") {
                v.push(self.objects.key_at(i));
            }
            i += 1;
        }
        v
    }
}

/// Reconstructs the queued objects: those asked for, or all that are not reconstructed yet.
pub fn resolve(store: &mut Store, run: &mut Run, budget: Budget, roots: Option<Vec<i64>>) -> (r: Result<
    ResolveSummary,
    String,
>)
    requires
        budget.single_ratio_den > 0,
        old(run)@.touched.no_duplicates(),
    ensures
        ({
            let ids = match roots {
                Some(v) => v@,
                None => queued(old(store)@.objects, old(store)@.objects.len()),
            };
            let d = rounds(old(store)@, budget, old(run)@, ids, ids.len());
            &&& final(store)@ == d.0
            &&& final(run)@ == d.1
            &&& match r {
                Ok(x) => d.3 is None && x.counts == d.2 && texts(x.touched_oids@) == sorted_texts(
                    d.1.touched,
                ),
                Err(m) => d.3 == Some(m@),
            }
        }),
{
    let ids: Vec<i64> = match roots {
        Some(v) => v,
        None => store.queue(),
    };
    let ghost s = store@;
    let ghost start = run@;
    let mut counts = Counts { resolved: 0, blocked: 0, bad: 0, paused: 0 };
    let mut n: usize = 0;
    let mut stop: Option<String> = None;
    while n < ids.len()
        invariant
            n <= ids@.len(),
            ids@.len() == ids.len(),
            budget.single_ratio_den > 0,
            (store@, run@, counts, text_opt(stop)) == rounds(s, budget, start, ids@, n as nat),
            counts.resolved + counts.blocked + counts.bad + counts.paused <= n,
        decreases ids@.len() - n,
    {
        if stop.is_none() {
            let id: i64 = ids[n];
            let known: Option<bool> = match store.objects.get(id) {
                None => None,
                Some(x) => {
                    let done: bool = same_text(x.status.as_str(), "resolved");
                    if done {
                        run.touch(x.oid.as_str());
                    }
                    Some(done)
                },
            };
            match known {
                None => {
                    stop = Some(missing_text(id));
                },
                Some(true) => {},
                Some(false) => {
                    let mut stack: Vec<i64> = Vec::new();
                    let outcome = run.resolve_id(store, &budget, id, 0, &mut stack);
                    let noted = store.classify(run, &mut counts, id, outcome);
                },
            }
        }
        n += 1;
    }
    match stop {
        Some(m) => Err(m),
        None => Ok(ResolveSummary { counts, touched_oids: sort_texts(&run.touched) }),
    }
}

/// Charges never take a run past the whole of its budget.
pub proof fn charges_stay_in_budget(
    s: StoreModel,
    b: Budget,
    r: RunModel,
    id: i64,
    depth: u64,
    stack: Seq<i64>,
)
    requires
        r.used <= b.total_bytes,
    ensures
        visit(s, b, r, id, depth, stack).0.used <= b.total_bytes,
        r.used <= visit(s, b, r, id, depth, stack).0.used,
    decreases b.max_depth - depth,
{
    let e = edge_of(s.edges, id, 0);
    if get(s.objects, id) is Some && depth < b.max_depth && !stack.contains(id) && e < s.edges.len() {
        let x = get(s.objects, id)->0;
        let t = RunModel { touched: touched_with(r.touched, x.oid), ..r };
        let base = get(s.active, s.edges[e as int].base_oid);
        if base is Some && x.status != "resolved"@ {
            charges_stay_in_budget(s, b, t, base->0, (depth + 1) as u64, stack.push(id));
        }
    }
}

/// An outcome whose id is that of its content.
pub open spec fn sound(e: End) -> bool {
    e matches End::Resolved { kind, payload, oid, .. } ==> !kind.delta() && oid == name_of(kind, payload)
}

/// An object that was reconstructed before, under the id of its content.
pub open spec fn kept_sound(x: ObjectModel) -> bool {
    x.status == "resolved"@ ==> sound(known_end(x))
}

/// What is reconstructed carries the id of its content, when that holds of what was stored as
/// reconstructed.
pub proof fn reconstructions_are_named_by_content(
    s: StoreModel,
    b: Budget,
    r: RunModel,
    id: i64,
    depth: u64,
    stack: Seq<i64>,
)
    requires
        forall|i: i64| #[trigger] get(s.objects, i) matches Some(x) ==> kept_sound(x),
    ensures
        sound(visit(s, b, r, id, depth, stack).1),
    decreases b.max_depth - depth,
{
    let e = edge_of(s.edges, id, 0);
    if get(s.objects, id) is Some && depth < b.max_depth && !stack.contains(id) && e < s.edges.len() {
        let x = get(s.objects, id)->0;
        let t = RunModel { touched: touched_with(r.touched, x.oid), ..r };
        let base = get(s.active, s.edges[e as int].base_oid);
        if base is Some && x.status != "resolved"@ {
            reconstructions_are_named_by_content(s, b, t, base->0, (depth + 1) as u64, stack.push(id));
        }
    }
}

/// Putting an outcome on record keeps what is stored as reconstructed under the id of its
/// content.
pub proof fn records_stay_sound(s: StoreModel, r: RunModel, c: Counts, id: i64, x: ObjectModel, e: End)
    requires
        get(s.objects, id) == Some(x),
        x.status != "resolved"@,
        sound(e),
        forall|i: i64| #[trigger] get(s.objects, i) matches Some(y) ==> kept_sound(y),
    ensures
        forall|i: i64| #[trigger]
            get(classed(s, r, c, id, x, e).0.objects, i) matches Some(y) ==> kept_sound(y),
{
    let done = classed(s, r, c, id, x, e).0.objects;
    lemma_statuses();
    assert forall|i: i64| #[trigger] get(done, i) is Some implies kept_sound(get(done, i)->0) by {
        let row = row_after(x, e, r.ticket);
        get_of_put(s.objects, id, row, i);
        get_of_put(s.objects, id, row, id);
        match e {
            End::Resolved { kind, .. } => {
                kind_names_are_read_back(kind);
            },
            _ => {},
        }
    }
}

/// A whole run keeps what is stored as reconstructed under the id of its content.
pub proof fn runs_keep_records_sound(s: StoreModel, b: Budget, r: RunModel, roots: Seq<i64>, n: nat)
    requires
        n <= roots.len(),
        forall|i: i64| #[trigger] get(s.objects, i) matches Some(y) ==> kept_sound(y),
    ensures
        forall|i: i64| #[trigger] get(rounds(s, b, r, roots, n).0.objects, i) matches Some(y) ==> kept_sound(y),
    decreases n,
{
    if n > 0 {
        runs_keep_records_sound(s, b, r, roots, (n - 1) as nat);
        let u = rounds(s, b, r, roots, (n - 1) as nat);
        let id = roots[n - 1];
        let x = get(u.0.objects, id);
        if u.3 is None && x is Some && x->0.status != "resolved"@ {
            let v = visit(u.0, b, u.1, id, 0, Seq::empty());
            reconstructions_are_named_by_content(u.0, b, u.1, id, 0, Seq::empty());
            records_stay_sound(u.0, v.0, u.2, id, x->0, v.1);
        }
    }
}

proof fn lemma_edge(v: Seq<EdgeModel>, id: i64, n: nat)
    requires
        n <= v.len(),
    ensures
        n <= edge_of(v, id, n) <= v.len(),
        forall|i: int| n <= i < edge_of(v, id, n) ==> (#[trigger] v[i]).child != id,
        edge_of(v, id, n) < v.len() ==> v[edge_of(v, id, n) as int].child == id,
    decreases v.len() - n,
{
    if n < v.len() && v[n as int].child != id {
        lemma_edge(v, id, n + 1);
    }
}

/// Row `i` is the first that declares a base of object `id`.
pub open spec fn is_edge(s: StoreModel, id: i64, i: int) -> bool {
    &&& 0 <= i < s.edges.len()
    &&& s.edges[i].child == id
    &&& forall|j: int| 0 <= j < i ==> (#[trigger] s.edges[j]).child != id
}

/// The object is what its delta makes of the outcome of the object that provides its declared base.
pub open spec fn made_from_base(
    s: StoreModel,
    b: Budget,
    id: i64,
    depth: u64,
    stack: Seq<i64>,
    kind: GitType,
    payload: Seq<u8>,
    i: int,
    t: RunModel,
) -> bool {
    let base = get(s.active, s.edges[i].base_oid);
    &&& is_edge(s, id, i)
    &&& base is Some
    &&& (visit(s, b, t, base->0, (depth + 1) as u64, stack.push(id)).1 matches End::Resolved {
        kind: k,
        payload: p,
        ..
    } && k == kind && (result_of(p, (get(s.objects, id)->0).delta) matches Ok((out, v)) && out == payload))
}

/// What is reconstructed of an object: it carries the hash of its framed content, which is the id
/// that was claimed, if one was; it is what is stored, under the type that is stored, or what its
/// delta makes of the object that provides its declared base, whose type it takes; and it fits the
/// budget.
pub proof fn a_reconstruction_is_well_made(
    s: StoreModel,
    b: Budget,
    r: RunModel,
    id: i64,
    depth: u64,
    stack: Seq<i64>,
)
    requires
        get(s.objects, id) is Some,
        (get(s.objects, id)->0).status != "resolved"@,
        visit(s, b, r, id, depth, stack).1 is Resolved,
    ensures
        ({
            let x = get(s.objects, id)->0;
            let v = visit(s, b, r, id, depth, stack);
            let kind = v.1->kind;
            let payload = v.1->payload;
            &&& v.1->oid == hex(sha1_smol_of(object_frame(kind.text(), payload)))
            &&& v.1->oid == x.oid || "unknown:"@.is_prefix_of(x.oid)
            &&& !stack.contains(id)
            &&& depth < b.max_depth
            &&& if forall|i: int| 0 <= i < s.edges.len() ==> (#[trigger] s.edges[i]).child != id {
                &&& payload == x.raw
                &&& kind.text() == x.kind_name
                &&& v.1->depth == 0
                &&& v.0.used <= b.total_bytes
                &&& b.total_bytes < u64::MAX ==> v.0.used == r.used + payload.len() as u64
            } else {
                exists|i: int, t: RunModel| #[trigger] made_from_base(s, b, id, depth, stack, kind, payload, i, t)
            }
        }),
{
    let x = get(s.objects, id)->0;
    let t = RunModel { touched: touched_with(r.touched, x.oid), ..r };
    let e = edge_of(s.edges, id, 0);
    lemma_edge(s.edges, id, 0);
    let v = visit(s, b, r, id, depth, stack);
    if e < s.edges.len() {
        assert(s.edges[e as int].child == id);
        assert(made_from_base(s, b, id, depth, stack, v.1->kind, v.1->payload, e as int, t));
    }
}

/// An object that is reached again while it is waited for closes a cycle; a chain that is longer
/// than the budget allows is paused; a declared base that nothing provides blocks. Each is put on
/// record, and nothing is charged.
pub proof fn what_stops_a_chain(s: StoreModel, b: Budget, r: RunModel, id: i64, depth: u64, stack: Seq<i64>, i: int)
    requires
        get(s.objects, id) is Some,
        (get(s.objects, id)->0).status != "resolved"@,
        stack.contains(id) || depth >= b.max_depth || (is_edge(s, id, i) && get(s.active, s.edges[i].base_oid) is None),
    ensures
        ({
            let v = visit(s, b, r, id, depth, stack);
            &&& v.1 == End::Cycle <==> stack.contains(id)
            &&& v.1 is Paused <==> !stack.contains(id) && depth >= b.max_depth
            &&& v.1 is Blocked <==> !stack.contains(id) && depth < b.max_depth
            &&& v.0.used == r.used
            &&& v.0.errors.len() == r.errors.len() + 1
            &&& v.0.errors.last().candidate == id
            &&& v.0.events == r.events && v.0.steps == r.steps
        }),
{
    lemma_edge(s.edges, id, 0);
    let e = edge_of(s.edges, id, 0);
    if is_edge(s, id, i) {
        if e < i {
            assert(s.edges[e as int].child != id);
        }
    }
}

/// A charge is refused exactly where the object is larger than its share of the budget, or where the
/// total would be passed; a refusal uses nothing, and a charge uses what it says. Each is an event.
pub proof fn a_charge_is_what_is_used(
    b: Budget,
    r: RunModel,
    id: i64,
    input_len: u64,
    output_len: u64,
    label: Seq<char>,
)
    requires
        b.single_ratio_den > 0,
        (b.total_bytes * b.single_ratio_num) as nat / b.single_ratio_den as nat <= u64::MAX,
        r.used <= b.total_bytes,
        b.total_bytes < u64::MAX,
    ensures
        ({
            let c = charging(b, r, id, input_len, output_len, label);
            let share = (b.total_bytes * b.single_ratio_num) as nat / b.single_ratio_den as nat;
            &&& c.1 is Some <==> output_len > share || r.used + output_len > b.total_bytes
            &&& c.1 is Some ==> c.0.used == r.used
            &&& c.1 is None ==> c.0.used == r.used + output_len
            &&& c.0.events.len() == r.events.len() + 1
            &&& c.0.events.last().candidate == id
            &&& c.0.events.last().total_after == c.0.used
            &&& c.0.events.last().charged == c.0.used - r.used
            &&& c.0.errors == r.errors && c.0.steps == r.steps && c.0.touched == r.touched
        }),
{
    let q = (b.total_bytes * b.single_ratio_num) as nat / b.single_ratio_den as nat;
    assert(q < 0x1_0000_0000_0000_0000);
    vstd::arithmetic::div_mod::lemma_small_mod(q, word());
}

/// An outcome is kept as it is: a reconstruction with its content under its id, unless the id that
/// was claimed is another one; nothing is accepted of any other outcome, and no other object
/// changes.
pub proof fn outcomes_are_kept_as_they_are(s: StoreModel, r: RunModel, c: Counts, id: i64, x: ObjectModel, e: End, other: i64)
    requires
        get(s.objects, id) == Some(x),
        x.status != "resolved"@,
    ensures
        ({
            let (s2, r2, c2) = classed(s, r, c, id, x, e);
            let y = get(s2.objects, id)->0;
            &&& get(s2.objects, id) is Some
            &&& other != id ==> get(s2.objects, other) == get(s.objects, other)
            &&& s2.edges == s.edges && s2.active == s.active
            &&& y.raw == x.raw && y.delta == x.delta
            &&& y.status == "resolved"@ <==> e is Resolved && (e->oid == x.oid || "unknown:"@.is_prefix_of(x.oid))
            &&& y.status == "resolved"@ ==> y.payload == Some(e->payload) && y.actual_oid == Some(e->oid) && y.oid
                == e->oid && y.kind_name == e->kind.text() && y.depth == e->depth && y.ticket is None
            &&& y.status != "resolved"@ ==> y.payload == x.payload && y.oid == x.oid && y.actual_oid == x.actual_oid
            &&& y.status == "paused"@ <==> e is Paused
            &&& e is Paused ==> y.ticket == Some(r.ticket)
            &&& y.status == "blocked"@ <==> e is Blocked
            &&& e is Bad || e is Cycle ==> y.status == "bad"@
            &&& e is Resolved && y.status != "resolved"@ ==> y.status == "bad"@ && r2.errors.len() == r.errors.len() + 1
        }),
{
    lemma_statuses();
    reveal_strlit("bad");
    reveal_strlit("blocked");
    reveal_strlit("paused");
    assert("bad"@.len() == 3 && "blocked"@.len() == 7 && "paused"@.len() == 6);
    get_of_put(s.objects, id, row_after(x, e, r.ticket), other);
}

/// The names of the statuses differ.
proof fn lemma_statuses()
    ensures
        "bad"@ != "resolved"@,
        "blocked"@ != "resolved"@,
        "paused"@ != "resolved"@,
{
    reveal_strlit("bad");
    reveal_strlit("blocked");
    reveal_strlit("paused");
    reveal_strlit("resolved");
    assert("bad"@.len() == 3 && "blocked"@.len() == 7 && "paused"@.len() == 6 && "resolved"@.len() == 8);
}

/// What is queued is exactly what is not resolved.
pub proof fn what_is_not_resolved_is_queued(v: Seq<(i64, ObjectModel)>, n: nat, id: i64)
    requires
        n <= v.len(),
    ensures
        queued(v, n).contains(id) <==> exists|i: int|
            0 <= i < n && (#[trigger] v[i]).0 == id && v[i].1.status != "resolved"@,
    decreases n,
{
    if n > 0 {
        let p = (n - 1) as nat;
        what_is_not_resolved_is_queued(v, p, id);
        let w = queued(v, p);
        let r = v[n - 1];
        if r.1.status != "resolved"@ {
            let q = w.push(r.0);
            assert(q.contains(id) <==> w.contains(id) || id == r.0) by {
                if w.contains(id) {
                    let i = choose|i: int| 0 <= i < w.len() && w[i] == id;
                    assert(q[i] == id);
                }
                if q.contains(id) && id != r.0 {
                    let i = choose|i: int| 0 <= i < q.len() && q[i] == id;
                    assert(w[i] == id);
                }
                assert(q[w.len() as int] == r.0);
            }
        }
    }
}

/// Every outcome counts once: a reconstruction under its own name as resolved, one under another name as
/// bad, and what waits, is paused or is broken as such.
pub proof fn an_outcome_is_counted_once(c: Counts, x: ObjectModel, e: End)
    requires
        c.resolved < u64::MAX,
        c.blocked < u64::MAX,
        c.bad < u64::MAX,
        c.paused < u64::MAX,
    ensures
        ({
            let d = counts_after(c, x, e);
            &&& d.resolved + d.blocked + d.bad + d.paused == c.resolved + c.blocked + c.bad + c.paused + 1
            &&& e is Blocked <==> d.blocked == c.blocked + 1
            &&& e is Paused <==> d.paused == c.paused + 1
            &&& e is Resolved && e->Resolved_oid == x.oid ==> d.resolved == c.resolved + 1
            &&& e is Resolved && e->Resolved_oid != x.oid && !unnamed(x.oid) ==> d.bad == c.bad + 1
            &&& !(e is Resolved) ==> d.resolved == c.resolved
        }),
{
}

} // verus!
