//! Delta instruction parsing and application.
use vstd::prelude::*;
use vstd::string::StringExecFns;
use crate::model::bytes::push_range;
use crate::model::delta::{instr_at, lemma_instr, played, read_instr, Instr};
use crate::model::text::{dec, push_dec, same_text};
use crate::model::varint::{le128_scan, scan_le128, Scan};

verus! {

#[derive(Debug)]
pub struct DeltaOp {
    /// Byte range of this instruction inside the delta stream: [start, end).
    pub instr_start: usize,
    pub instr_end: usize,
    /// "copy" or "insert".
    pub kind: &'static str,
    /// For copy: offset/len into the base. For insert: len of literal data.
    pub base_offset: usize,
    pub len: usize,
}

/// The model of an instruction.
pub ghost struct OpModel {
    pub instr_start: nat,
    pub instr_end: nat,
    pub kind: Seq<char>,
    pub base_offset: nat,
    pub len: nat,
}

impl View for DeltaOp {
    type V = OpModel;

    open spec fn view(&self) -> OpModel {
        OpModel {
            instr_start: self.instr_start as nat,
            instr_end: self.instr_end as nat,
            kind: self.kind@,
            base_offset: self.base_offset as nat,
            len: self.len as nat,
        }
    }
}

/// The models of instructions.
pub open spec fn op_models(v: Seq<DeltaOp>) -> Seq<OpModel> {
    v.map_values(|o: DeltaOp| o@)
}

#[derive(Debug)]
pub struct ParsedDelta {
    pub base_size: u64,
    pub result_size: u64,
    /// Offset inside the delta stream where instructions begin.
    pub instr_offset: usize,
    pub ops: Vec<DeltaOp>,
}

/// The model of a parsed delta.
pub ghost struct ParsedModel {
    pub base_size: u64,
    pub result_size: u64,
    pub instr_offset: nat,
    pub ops: Seq<OpModel>,
}

impl View for ParsedDelta {
    type V = ParsedModel;

    open spec fn view(&self) -> ParsedModel {
        ParsedModel {
            base_size: self.base_size,
            result_size: self.result_size,
            instr_offset: self.instr_offset as nat,
            ops: op_models(self.ops@),
        }
    }
}

/// The error of a number that cannot be read.
pub open spec fn varint_error(s: Scan) -> Seq<char> {
    match s {
        Scan::TooLong => "delta varint overflow"@,
        _ => "truncated delta varint"@,
    }
}

/// The instruction at `pos` and where it ends, or what is wrong with it.
pub open spec fn op_at(d: Seq<u8>, pos: int) -> Result<OpModel, Seq<char>> {
    match instr_at(d, pos) {
        Instr::Copy { offset, size, next } => Ok(
            OpModel {
                instr_start: pos as nat,
                instr_end: next as nat,
                kind: "copy"@,
                base_offset: offset as nat,
                len: size as nat,
            },
        ),
        Instr::Insert { from, len, next } => Ok(
            OpModel {
                instr_start: pos as nat,
                instr_end: next as nat,
                kind: "insert"@,
                base_offset: 0,
                len: len as nat,
            },
        ),
        Instr::Reserved => Err("delta opcode 0 is reserved"@),
        Instr::CutOffset => Err("truncated copy offset"@),
        Instr::CutLength => Err("truncated copy size"@),
        Instr::CutInsert { len } => Err(
            "insert of "@ + dec(len as nat) + " bytes overruns delta stream ("@ + dec(
                (d.len() - pos - 1) as nat,
            ) + " left)"@,
        ),
    }
}

/// The instructions from `pos` on, behind `ops`.
pub open spec fn ops_from(d: Seq<u8>, pos: int, ops: Seq<OpModel>) -> Result<Seq<OpModel>, Seq<char>>
    decreases d.len() - pos,
{
    if pos >= d.len() {
        Ok(ops)
    } else {
        match op_at(d, pos) {
            Err(m) => Err(m),
            Ok(o) => if pos < o.instr_end <= d.len() {
                ops_from(d, o.instr_end as int, ops.push(o))
            } else {
                Ok(ops)
            },
        }
    }
}

/// What a delta says.
pub open spec fn parsed(d: Seq<u8>) -> Result<ParsedModel, Seq<char>> {
    match le128_scan(d) {
        Scan::Value { value: base_size, len: n1 } => match le128_scan(d.skip(n1 as int)) {
            Scan::Value { value: result_size, len: n2 } => match ops_from(d, n1 + n2, Seq::empty()) {
                Ok(ops) => Ok(ParsedModel { base_size, result_size, instr_offset: (n1 + n2) as nat, ops }),
                Err(m) => Err(m),
            },
            s => Err(varint_error(s)),
        },
        s => Err(varint_error(s)),
    }
}

fn read_varint(data: &[u8], pos: usize) -> (r: Result<(u64, usize), String>)
    requires
        pos <= data@.len(),
    ensures
        match le128_scan(data@.skip(pos as int)) {
            Scan::Value { value, len } => r matches Ok(v) && v.0 == value && v.1 == pos + len && v.1
                <= data@.len() && len > 0,
            s => r matches Err(e) && e@ == varint_error(s),
        },
{
    match scan_le128(data, pos) {
        Scan::Value { value, len } => {
            assert(pos + len <= data.len());
            Ok((value, pos + len))
        },
        Scan::TooLong => Err("delta varint overflow".to_owned()),
        Scan::Truncated => Err("truncated delta varint".to_owned()),
    }
}

pub fn parse_delta(data: &[u8]) -> (r: Result<ParsedDelta, String>)
    ensures
        match r {
            Ok(p) => parsed(data@) == Ok::<ParsedModel, Seq<char>>(p@),
            Err(e) => parsed(data@) == Err::<ParsedModel, Seq<char>>(e@),
        },
{
    assert(data@.skip(0) =~= data@);
    let (base_size, p1) = match read_varint(data, 0) {
        Ok(v) => v,
        Err(e) => return Err(e),
    };
    let (result_size, p2) = match read_varint(data, p1) {
        Ok(v) => v,
        Err(e) => return Err(e),
    };
    let instr_offset: usize = p2;
    let mut ops: Vec<DeltaOp> = Vec::new();
    let mut pos: usize = p2;
    assert(op_models(ops@) =~= Seq::empty());
    while pos < data.len()
        invariant
            pos <= data@.len(),
            ops_from(data@, instr_offset as int, Seq::empty()) == ops_from(
                data@,
                pos as int,
                op_models(ops@),
            ),
            match ops_from(data@, instr_offset as int, Seq::empty()) {
                Ok(o) => parsed(data@) == Ok::<ParsedModel, Seq<char>>(
                    ParsedModel { base_size, result_size, instr_offset: instr_offset as nat, ops: o },
                ),
                Err(m) => parsed(data@) == Err::<ParsedModel, Seq<char>>(m),
            },
        decreases data@.len() - pos,
    {
        let total: usize = data.len();
        let ghost before = op_models(ops@);
        proof {
            lemma_instr(data@, pos as int);
        }
        match read_instr(data, pos) {
            Instr::Copy { offset, size, next } => {
                let op = DeltaOp {
                    instr_start: pos,
                    instr_end: next,
                    kind: "copy",
                    base_offset: offset as usize,
                    len: size as usize,
                };
                ops.push(op);
                assert(op_models(ops@) =~= before.push(op@));
                pos = next;
            },
            Instr::Insert { from, len, next } => {
                let op = DeltaOp {
                    instr_start: pos,
                    instr_end: next,
                    kind: "insert",
                    base_offset: 0,
                    len,
                };
                ops.push(op);
                assert(op_models(ops@) =~= before.push(op@));
                pos = next;
            },
            Instr::Reserved => {
                return Err("delta opcode 0 is reserved".to_owned());
            },
            Instr::CutOffset => {
                return Err("truncated copy offset".to_owned());
            },
            Instr::CutLength => {
                return Err("truncated copy size".to_owned());
            },
            Instr::CutInsert { len } => {
                let mut m = "insert of ".to_owned();
                push_dec(&mut m, len as u64);
                m.append(" bytes overruns delta stream (");
                push_dec(&mut m, (total - pos - 1) as u64);
                m.append(" left)");
                return Err(m);
            },
        }
    }
    Ok(ParsedDelta { base_size, result_size, instr_offset, ops })
}

/// The literal bytes of every insert stand in the delta.
pub open spec fn literals_inside(ops: Seq<OpModel>, d: Seq<u8>) -> bool {
    forall|i: int|
        0 <= i < ops.len() && (#[trigger] ops[i]).kind != "copy"@ ==> ops[i].instr_start + 1 + ops[i].len
            <= d.len()
}

/// What the instructions from number `k` on build, and how many bytes were copied and inserted.
pub open spec fn built(
    base: Seq<u8>,
    d: Seq<u8>,
    ops: Seq<OpModel>,
    k: int,
    out: Seq<u8>,
    copied: nat,
    inserted: nat,
) -> Result<(Seq<u8>, nat, nat), Seq<char>>
    decreases ops.len() - k,
{
    if k >= ops.len() {
        Ok((out, copied, inserted))
    } else {
        let o = ops[k];
        let end = o.base_offset + o.len;
        if o.kind == "copy"@ {
            if end > usize::MAX {
                Err("copy range overflow"@)
            } else if end > base.len() {
                Err(
                    "copy ["@ + dec(o.base_offset) + ", "@ + dec(end) + ") exceeds base length "@ + dec(
                        base.len(),
                    ),
                )
            } else {
                built(
                    base,
                    d,
                    ops,
                    k + 1,
                    out + base.subrange(o.base_offset as int, end as int),
                    copied + o.len,
                    inserted,
                )
            }
        } else {
            let from = o.instr_start + 1;
            built(
                base,
                d,
                ops,
                k + 1,
                out + d.subrange(from as int, (from + o.len) as int),
                copied,
                inserted + o.len,
            )
        }
    }
}

/// What applying a parsed delta gives.
pub open spec fn applied(d: Seq<u8>, p: ParsedModel, base: Seq<u8>) -> Result<(Seq<u8>, nat, nat), Seq<char>> {
    if p.base_size != base.len() {
        Err(
            "delta base size mismatch: delta expects "@ + dec(p.base_size as nat) + ", base is "@ + dec(
                base.len(),
            ),
        )
    } else {
        match built(base, d, p.ops, 0, Seq::empty(), 0, 0) {
            Err(m) => Err(m),
            Ok((out, copied, inserted)) => if out.len() != p.result_size {
                Err(
                    "delta result size mismatch: header says "@ + dec(p.result_size as nat) + ", produced "@
                        + dec(out.len()),
                )
            } else {
                Ok((out, copied, inserted))
            },
        }
    }
}

/// Applies a parsed delta to `base`, verifying every check a forensic tool
/// should verify. Returns (output, total copied bytes, total inserted bytes).
pub fn apply_delta(delta_data: &[u8], parsed: &ParsedDelta, base: &[u8]) -> (r: Result<
    (Vec<u8>, usize, usize),
    String,
>)
    requires
        literals_inside(parsed@.ops, delta_data@),
    ensures
        match r {
            Ok((out, copied, inserted)) => applied(delta_data@, parsed@, base@) == Ok::<
                (Seq<u8>, nat, nat),
                Seq<char>,
            >((out@, copied as nat, inserted as nat)),
            Err(e) => applied(delta_data@, parsed@, base@) == Err::<(Seq<u8>, nat, nat), Seq<char>>(e@),
        },
{
    if parsed.base_size != base.len() as u64 {
        let mut m = "delta base size mismatch: delta expects ".to_owned();
        push_dec(&mut m, parsed.base_size);
        m.append(", base is ");
        push_dec(&mut m, base.len() as u64);
        return Err(m);
    }
    let mut out: Vec<u8> = Vec::new();
    let mut copied: usize = 0;
    let mut inserted: usize = 0;
    let mut k: usize = 0;
    let ghost ops = parsed@.ops;
    while k < parsed.ops.len()
        invariant
            k <= parsed.ops@.len(),
            ops == op_models(parsed.ops@),
            literals_inside(ops, delta_data@),
            parsed.base_size == base@.len(),
            out@.len() == copied + inserted,
            built(base@, delta_data@, ops, 0, Seq::empty(), 0, 0) == built(
                base@,
                delta_data@,
                ops,
                k as int,
                out@,
                copied as nat,
                inserted as nat,
            ),
        decreases parsed.ops@.len() - k,
    {
        let op = &parsed.ops[k];
        let len: usize = op.len;
        assert(ops[k as int] == op@);
        if same_text(op.kind, "copy") {
            let end: usize = match op.base_offset.checked_add(op.len) {
                Some(e) => e,
                None => return Err("copy range overflow".to_owned()),
            };
            if end > base.len() {
                let mut m = "copy [".to_owned();
                push_dec(&mut m, op.base_offset as u64);
                m.append(", ");
                push_dec(&mut m, end as u64);
                m.append(") exceeds base length ");
                push_dec(&mut m, base.len() as u64);
                return Err(m);
            }
            push_range(&mut out, base, op.base_offset, end);
            assert(out@.len() == out.len());
            copied += len;
        } else {
            let total: usize = delta_data.len();
            let lit_start: usize = op.instr_start + 1;
            push_range(&mut out, delta_data, lit_start, lit_start + len);
            assert(out@.len() == out.len());
            inserted += len;
        }
        k += 1;
    }
    if out.len() as u64 != parsed.result_size {
        let mut m = "delta result size mismatch: header says ".to_owned();
        push_dec(&mut m, parsed.result_size);
        m.append(", produced ");
        push_dec(&mut m, out.len() as u64);
        return Err(m);
    }
    Ok((out, copied, inserted))
}

proof fn lemma_built_prefix(
    base: Seq<u8>,
    d: Seq<u8>,
    ops: Seq<OpModel>,
    more: Seq<OpModel>,
    k: int,
    out: Seq<u8>,
    c: nat,
    i: nat,
)
    requires
        0 <= k <= ops.len(),
    ensures
        built(base, d, ops + more, k, out, c, i) == match built(base, d, ops, k, out, c, i) {
            Ok((o, cc, ii)) => built(base, d, ops + more, ops.len() as int, o, cc, ii),
            Err(m) => Err(m),
        },
    decreases ops.len() - k,
{
    if k < ops.len() {
        let o = ops[k];
        assert((ops + more)[k] == o);
        let end = o.base_offset + o.len;
        if o.kind == "copy"@ {
            if end <= usize::MAX && end <= base.len() {
                lemma_built_prefix(
                    base,
                    d,
                    ops,
                    more,
                    k + 1,
                    out + base.subrange(o.base_offset as int, end as int),
                    c + o.len,
                    i,
                );
            }
        } else {
            let from = o.instr_start + 1;
            lemma_built_prefix(
                base,
                d,
                ops,
                more,
                k + 1,
                out + d.subrange(from as int, (from + o.len) as int),
                c,
                i + o.len,
            );
        }
    }
}

proof fn lemma_kinds()
    ensures
        "copy"@ != "insert"@,
{
    reveal_strlit("copy");
    reveal_strlit("insert");
    assert("copy"@.len() == 4 && "insert"@.len() == 6);
}

proof fn lemma_ops(base: Seq<u8>, d: Seq<u8>, pos: int, ops: Seq<OpModel>, out: Seq<u8>, c: nat, i: nat)
    requires
        0 <= pos <= d.len() <= usize::MAX,
        base.len() <= usize::MAX,
        literals_inside(ops, d),
        built(base, d, ops, 0, Seq::empty(), 0, 0) == Ok::<(Seq<u8>, nat, nat), Seq<char>>((out, c, i)),
    ensures
        ops_from(d, pos, ops) matches Ok(all) ==> {
            &&& literals_inside(all, d)
            &&& match built(base, d, all, 0, Seq::empty(), 0, 0) {
                Ok((o, cc, ii)) => played(base, d, pos, out) == Some(o),
                Err(_) => played(base, d, pos, out) is None,
            }
        },
        ops_from(d, pos, ops) is Err ==> played(base, d, pos, out) is None,
    decreases d.len() - pos,
{
    lemma_kinds();
    if pos < d.len() {
        lemma_instr(d, pos);
        if let Ok(o) = op_at(d, pos) {
            let next = ops.push(o);
            assert(next =~= ops + seq![o]);
            lemma_built_prefix(base, d, ops, seq![o], 0, Seq::empty(), 0, 0);
            reveal_with_fuel(built, 2);
            assert(literals_inside(next, d)) by {
                assert forall|j: int| 0 <= j < next.len() && (#[trigger] next[j]).kind != "copy"@ implies next[j].instr_start
                    + 1 + next[j].len <= d.len() by {
                    if j < ops.len() {
                        assert(next[j] == ops[j]);
                    }
                }
            }
            match built(base, d, next, 0, Seq::empty(), 0, 0) {
                Ok((oo, cc, ii)) => {
                    lemma_ops(base, d, o.instr_end as int, next, oo, cc, ii);
                },
                Err(m) => {
                    lemma_ops_fail(base, d, o.instr_end as int, next);
                },
            }
        }
    }
}

proof fn lemma_ops_fail(base: Seq<u8>, d: Seq<u8>, pos: int, ops: Seq<OpModel>)
    requires
        0 <= pos <= d.len() <= usize::MAX,
        literals_inside(ops, d),
        built(base, d, ops, 0, Seq::empty(), 0, 0) is Err,
    ensures
        ops_from(d, pos, ops) matches Ok(all) ==> literals_inside(all, d) && built(
            base,
            d,
            all,
            0,
            Seq::empty(),
            0,
            0,
        ) is Err,
    decreases d.len() - pos,
{
    lemma_kinds();
    if pos < d.len() {
        lemma_instr(d, pos);
        if let Ok(o) = op_at(d, pos) {
            let next = ops.push(o);
            assert(next =~= ops + seq![o]);
            lemma_built_prefix(base, d, ops, seq![o], 0, Seq::empty(), 0, 0);
            assert(literals_inside(next, d)) by {
                assert forall|j: int| 0 <= j < next.len() && (#[trigger] next[j]).kind != "copy"@ implies next[j].instr_start
                    + 1 + next[j].len <= d.len() by {
                    if j < ops.len() {
                        assert(next[j] == ops[j]);
                    }
                }
            }
            lemma_ops_fail(base, d, o.instr_end as int, next);
        }
    }
}

/// A delta that parses can be applied, and applying it gives what its instructions build:
/// it succeeds exactly when the delta names the base's length and the instructions build the
/// promised number of bytes.
pub proof fn a_parsed_delta_can_be_applied(d: Seq<u8>, base: Seq<u8>)
    requires
        d.len() <= usize::MAX,
        base.len() <= usize::MAX,
        parsed(d) is Ok,
    ensures
        literals_inside(parsed(d)->Ok_0.ops, d),
        ({
            let p = parsed(d)->Ok_0;
            let o = played(base, d, p.instr_offset as int, Seq::empty());
            &&& applied(d, p, base) is Ok <==> p.base_size == base.len() && o is Some && o->0.len()
                == p.result_size
            &&& applied(d, p, base) matches Ok(v) ==> o == Some(v.0)
        }),
{
    crate::model::varint::lemma_run_bounds(d);
    if let Scan::Value { value, len } = le128_scan(d) {
        crate::model::varint::lemma_run_bounds(d.skip(len as int));
        if let Scan::Value { value: v2, len: n2 } = le128_scan(d.skip(len as int)) {
            lemma_ops(base, d, len + n2, Seq::empty(), Seq::empty(), 0, 0);
        }
    }
}

} // verus!
