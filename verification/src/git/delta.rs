//! Delta instruction streams (insert / copy), with forensic tracing.
use vstd::prelude::*;
use vstd::string::StringExecFns;
use crate::model::bytes::push_range;
use crate::model::delta::{instr_at, lemma_instr, played, read_instr, Instr};
use crate::model::text::{dec, push_dec};
use crate::model::varint::{
    le128_bytes, le128_roundtrip, le128_scan, lemma_head_of_number, push_le128, scan_le128, word, Scan,
};

verus! {

/// One decoded delta instruction, with its raw byte range in the delta body
/// and the buffer offsets it touched.
#[derive(Debug, Clone, Copy, PartialEq, Eq)]
pub enum DeltaInstr {
    Insert {
        /// byte range of the instruction (including opcode/length) in delta
        range: (usize, usize),
        /// inserted byte range in the delta payload
        data_range: (usize, usize),
        /// output offset / length produced
        out_pos: usize,
        len: usize,
    },
    Copy {
        range: (usize, usize),
        /// source offset/length this instruction reads
        src_pos: usize,
        src_len: usize,
        out_pos: usize,
        len: usize,
    },
}

#[derive(Debug)]
pub struct DeltaError {
    pub code: &'static str,
    pub message: String,
    /// Instruction index that failed, if instruction-level.
    pub instr: Option<usize>,
    /// Byte range in the delta payload associated with the failure.
    pub at: Option<(usize, usize)>,
}

/// The model of a delta error.
pub ghost struct DeltaTrouble {
    pub code: Seq<char>,
    pub message: Seq<char>,
    pub instr: Option<usize>,
    pub at: Option<(usize, usize)>,
}

impl View for DeltaError {
    type V = DeltaTrouble;

    open spec fn view(&self) -> DeltaTrouble {
        DeltaTrouble { code: self.code@, message: self.message@, instr: self.instr, at: self.at }
    }
}

impl DeltaError {
    fn new(code: &'static str, message: String) -> (e: Self)
        ensures
            e@ == plain(code@, message@),
    {
        DeltaError { code, message, instr: None, at: None }
    }
}

/// An error of the delta as a whole.
pub open spec fn plain(code: Seq<char>, message: Seq<char>) -> DeltaTrouble {
    DeltaTrouble { code, message, instr: None, at: None }
}

/// An error of one instruction.
pub open spec fn located(
    code: Seq<char>,
    message: Seq<char>,
    index: nat,
    from: int,
    to: int,
) -> DeltaTrouble {
    DeltaTrouble {
        code,
        message,
        instr: Some(index as usize),
        at: Some((from as usize, to as usize)),
    }
}

#[derive(Debug)]
pub struct DeltaResult {
    pub output: Vec<u8>,
    pub instrs: Vec<DeltaInstr>,
}

/// What stops the instruction at `pos` when `out` has been built.
pub open spec fn blocked(base: Seq<u8>, d: Seq<u8>, promised: nat, pos: int, index: nat, made: nat) -> Option<
    DeltaTrouble,
> {
    match instr_at(d, pos) {
        Instr::CutOffset => Some(
            located("delta_truncated"@, "instruction runs past delta body"@, index, pos, d.len() as int),
        ),
        Instr::CutLength => Some(
            located("delta_truncated"@, "instruction runs past delta body"@, index, pos, d.len() as int),
        ),
        Instr::Reserved => Some(
            located("reserved_opcode"@, "delta opcode 0x00 is reserved"@, index, pos, pos + 1),
        ),
        Instr::CutInsert { len } => Some(
            located(
                "insert_truncated"@,
                "insert of "@ + dec(len as nat) + " bytes truncated in delta"@,
                index,
                pos,
                d.len() as int,
            ),
        ),
        Instr::Copy { offset, size, next } => if offset + size > base.len() {
            Some(
                located(
                    "copy_out_of_base"@,
                    "copy ["@ + dec(offset as nat) + ", "@ + dec((offset + size) as nat)
                        + ") runs past base of "@ + dec(base.len()) + " bytes"@,
                    index,
                    pos,
                    next as int,
                ),
            )
        } else {
            too_much(promised, (made + size) as nat, index, pos, next as int)
        },
        Instr::Insert { len, next, .. } => too_much(promised, (made + len) as nat, index, pos, next as int),
    }
}

/// The error of an output that has more bytes than promised.
pub open spec fn too_much(promised: nat, made: nat, index: nat, from: int, to: int) -> Option<DeltaTrouble> {
    if made > promised {
        Some(
            located(
                "result_size_exceeded"@,
                "instructions produced "@ + dec(made) + " bytes, header promised "@ + dec(promised),
                index,
                from,
                to,
            ),
        )
    } else {
        None
    }
}

/// Where the instruction at `pos` ends, what it appends and how it is recorded.
pub open spec fn traced(base: Seq<u8>, d: Seq<u8>, pos: int, made: nat) -> (int, Seq<u8>, DeltaInstr) {
    match instr_at(d, pos) {
        Instr::Copy { offset, size, next } => (
            next as int,
            base.subrange(offset as int, offset + size),
            DeltaInstr::Copy {
                range: (pos as usize, next),
                src_pos: offset as usize,
                src_len: size as usize,
                out_pos: made as usize,
                len: size as usize,
            },
        ),
        Instr::Insert { from, len, next } => (
            next as int,
            d.subrange(from as int, next as int),
            DeltaInstr::Insert {
                range: (pos as usize, next),
                data_range: (from, next),
                out_pos: made as usize,
                len,
            },
        ),
        _ => (
            pos,
            Seq::empty(),
            DeltaInstr::Insert {
                range: (pos as usize, pos as usize),
                data_range: (pos as usize, pos as usize),
                out_pos: made as usize,
                len: 0,
            },
        ),
    }
}

/// What the instructions from `pos` on give.
pub open spec fn trace(
    base: Seq<u8>,
    d: Seq<u8>,
    promised: nat,
    pos: int,
    out: Seq<u8>,
    instrs: Seq<DeltaInstr>,
) -> Result<(Seq<u8>, Seq<DeltaInstr>), DeltaTrouble>
    decreases d.len() - pos,
{
    if pos >= d.len() {
        if out.len() != promised {
            Err(
                plain(
                    "result_size_mismatch"@,
                    "output is "@ + dec(out.len()) + " bytes but delta header declared "@ + dec(promised),
                ),
            )
        } else {
            Ok((out, instrs))
        }
    } else {
        match blocked(base, d, promised, pos, instrs.len(), out.len()) {
            Some(t) => Err(t),
            None => {
                let e = traced(base, d, pos, out.len());
                if pos < e.0 <= d.len() {
                    trace(base, d, promised, e.0, out + e.1, instrs.push(e.2))
                } else {
                    Ok((out, instrs))
                }
            },
        }
    }
}

/// The two sizes at the head of a delta and where its instructions begin; the number of the
/// size that is missing when there is one.
pub open spec fn sizes(d: Seq<u8>) -> Result<(nat, nat, int), nat> {
    match le128_scan(d) {
        Scan::Value { value: v1, len: n1 } => match le128_scan(d.skip(n1 as int)) {
            Scan::Value { value: v2, len: n2 } => Ok((v1 as nat, v2 as nat, n1 + n2)),
            _ => Err(2),
        },
        _ => Err(1),
    }
}

/// What applying a delta to a base gives.
pub open spec fn result_of(base: Seq<u8>, d: Seq<u8>) -> Result<(Seq<u8>, Seq<DeltaInstr>), DeltaTrouble> {
    match sizes(d) {
        Err(n) => Err(no_size(n)),
        Ok((base_size, result_size, start)) => if base_size != base.len() {
            Err(
                plain(
                    "delta_base_size_mismatch"@,
                    "delta claims base size "@ + dec(base_size) + " but actual base is "@ + dec(base.len())
                        + " bytes"@,
                ),
            )
        } else {
            trace(base, d, result_size, start, Seq::empty(), Seq::empty())
        },
    }
}

fn fail_at(code: &'static str, message: String, index: usize, from: usize, to: usize) -> (e: DeltaError)
    ensures
        e@ == located(code@, message@, index as nat, from as int, to as int),
{
    DeltaError { code, message, instr: Some(index), at: Some((from, to)) }
}

/// Reads the two sizes at the head of a delta.
fn read_sizes(d: &[u8]) -> (r: Result<(u64, u64, usize), u8>)
    ensures
        match r {
            Ok((a, b, p)) => sizes(d@) == Ok::<(nat, nat, int), nat>((a as nat, b as nat, p as int)) && p
                <= d@.len(),
            Err(n) => sizes(d@) == Err::<(nat, nat, int), nat>(n as nat),
        },
{
    assert(d@.skip(0) =~= d@);
    match scan_le128(d, 0) {
        Scan::Value { value: v1, len: n1 } => match scan_le128(d, n1) {
            Scan::Value { value: v2, len: n2 } => Ok((v1, v2, n1 + n2)),
            _ => Err(2),
        },
        _ => Err(1),
    }
}

/// The error of a delta whose size number `n` is missing.
pub open spec fn no_size(n: nat) -> DeltaTrouble {
    plain(
        "delta_header"@,
        if n == 1 {
            "missing base size varint"@
        } else {
            "missing result size varint"@
        },
    )
}

fn size_error(n: u8) -> (e: DeltaError)
    ensures
        e@ == no_size(n as nat),
{
    let m = if n == 1 {
        "missing base size varint".to_owned()
    } else {
        "missing result size varint".to_owned()
    };
    DeltaError::new("delta_header", m)
}

/// The base size and the result size that a delta declares.
pub fn declared_sizes(delta: &[u8]) -> (r: Result<(u64, u64), DeltaError>)
    ensures
        match sizes(delta@) {
            Ok((b, n, start)) => r matches Ok(v) && v.0 == b && v.1 == n,
            Err(n) => r matches Err(e) && e@ == no_size(n),
        },
{
    match read_sizes(delta) {
        Ok((base_size, result_size, _)) => Ok((base_size, result_size)),
        Err(n) => Err(size_error(n)),
    }
}

/// Applies a delta against `base`. Every instruction is recorded with its
/// raw range and input/output footprint. No partial output is returned on
/// failure.
pub fn apply_delta(base: &[u8], delta: &[u8]) -> (r: Result<DeltaResult, DeltaError>)
    ensures
        match r {
            Ok(v) => result_of(base@, delta@) == Ok::<(Seq<u8>, Seq<DeltaInstr>), DeltaTrouble>(
                (v.output@, v.instrs@),
            ),
            Err(e) => result_of(base@, delta@) == Err::<(Seq<u8>, Seq<DeltaInstr>), DeltaTrouble>(e@),
        },
{
    let (base_size, result_size, start) = match read_sizes(delta) {
        Ok(v) => v,
        Err(n) => return Err(size_error(n)),
    };
    if base_size != base.len() as u64 {
        let mut m = "delta claims base size ".to_owned();
        push_dec(&mut m, base_size);
        m.append(" but actual base is ");
        push_dec(&mut m, base.len() as u64);
        m.append(" bytes");
        return Err(DeltaError::new("delta_base_size_mismatch", m));
    }
    let mut out: Vec<u8> = Vec::new();
    let mut instrs: Vec<DeltaInstr> = Vec::new();
    let mut pos: usize = start;
    while pos < delta.len()
        invariant
            pos <= delta@.len(),
            instrs@.len() <= pos,
            out@.len() <= result_size,
            base_size == base@.len(),
            sizes(delta@) == Ok::<(nat, nat, int), nat>((base_size as nat, result_size as nat, start as int)),
            trace(base@, delta@, result_size as nat, start as int, Seq::empty(), Seq::empty()) == trace(
                base@,
                delta@,
                result_size as nat,
                pos as int,
                out@,
                instrs@,
            ),
        decreases delta@.len() - pos,
    {
        let index: usize = instrs.len();
        let made: usize = out.len();
        let total: usize = delta.len();
        proof {
            lemma_instr(delta@, pos as int);
        }
        match read_instr(delta, pos) {
            Instr::CutOffset => {
                return Err(
                    fail_at(
                        "delta_truncated",
                        "instruction runs past delta body".to_owned(),
                        index,
                        pos,
                        total,
                    ),
                );
            },
            Instr::CutLength => {
                return Err(
                    fail_at(
                        "delta_truncated",
                        "instruction runs past delta body".to_owned(),
                        index,
                        pos,
                        total,
                    ),
                );
            },
            Instr::Reserved => {
                return Err(
                    fail_at(
                        "reserved_opcode",
                        "delta opcode 0x00 is reserved".to_owned(),
                        index,
                        pos,
                        pos + 1,
                    ),
                );
            },
            Instr::CutInsert { len } => {
                let mut m = "insert of ".to_owned();
                push_dec(&mut m, len as u64);
                m.append(" bytes truncated in delta");
                return Err(fail_at("insert_truncated", m, index, pos, total));
            },
            Instr::Copy { offset, size, next } => {
                if offset + size > base.len() as u64 {
                    let mut m = "copy [".to_owned();
                    push_dec(&mut m, offset);
                    m.append(", ");
                    push_dec(&mut m, offset + size);
                    m.append(") runs past base of ");
                    push_dec(&mut m, base.len() as u64);
                    m.append(" bytes");
                    return Err(fail_at("copy_out_of_base", m, index, pos, next));
                }
                push_range(&mut out, base, offset as usize, (offset + size) as usize);
                instrs.push(
                    DeltaInstr::Copy {
                        range: (pos, next),
                        src_pos: offset as usize,
                        src_len: size as usize,
                        out_pos: made,
                        len: size as usize,
                    },
                );
                if out.len() as u64 > result_size {
                    return Err(exceeded(out.len(), result_size, index, pos, next));
                }
                pos = next;
            },
            Instr::Insert { from, len, next } => {
                push_range(&mut out, delta, from, next);
                instrs.push(
                    DeltaInstr::Insert {
                        range: (pos, next),
                        data_range: (from, next),
                        out_pos: made,
                        len,
                    },
                );
                if out.len() as u64 > result_size {
                    return Err(exceeded(out.len(), result_size, index, pos, next));
                }
                pos = next;
            },
        }
    }
    if out.len() as u64 != result_size {
        let mut m = "output is ".to_owned();
        push_dec(&mut m, out.len() as u64);
        m.append(" bytes but delta header declared ");
        push_dec(&mut m, result_size);
        return Err(DeltaError::new("result_size_mismatch", m));
    }
    Ok(DeltaResult { output: out, instrs })
}

fn exceeded(made: usize, promised: u64, index: usize, from: usize, to: usize) -> (e: DeltaError)
    requires
        made > promised,
    ensures
        too_much(promised as nat, made as nat, index as nat, from as int, to as int) == Some(e@),
{
    let mut m = "instructions produced ".to_owned();
    push_dec(&mut m, made as u64);
    m.append(" bytes, header promised ");
    push_dec(&mut m, promised);
    fail_at("result_size_exceeded", m, index, from, to)
}

/// The byte ranges of traced instructions.
pub open spec fn ranges_of(instrs: Seq<DeltaInstr>) -> Seq<(usize, usize)> {
    instrs.map_values(
        |i: DeltaInstr|
            match i {
                DeltaInstr::Insert { range, .. } => range,
                DeltaInstr::Copy { range, .. } => range,
            },
    )
}

/// Applies a delta whose output may have at most `max_output` bytes, and exactly `expected`
/// bytes when that is given. Returns the output and the byte ranges of the instructions.
pub fn parse_delta(delta: &[u8], base: &[u8], max_output: usize, expected: Option<usize>) -> (r: Result<
    (Vec<u8>, Vec<(usize, usize)>),
    DeltaError,
>)
    ensures
        match result_of(base@, delta@) {
            Err(t) => r matches Err(e) && e@ == t,
            Ok((out, instrs)) => if out.len() > max_output {
                r matches Err(e) && e@ == plain(
                    "result_size_limit"@,
                    "output of "@ + dec(out.len()) + " bytes exceeds the limit of "@ + dec(max_output as nat),
                )
            } else if expected is Some && expected->0 != out.len() {
                r matches Err(e) && e@ == plain(
                    "result_size_mismatch"@,
                    "output is "@ + dec(out.len()) + " bytes but "@ + dec(expected->0 as nat)
                        + " were expected"@,
                )
            } else {
                r matches Ok(v) && v.0@ == out && v.1@ == ranges_of(instrs)
            },
        },
{
    let v = match apply_delta(base, delta) {
        Ok(v) => v,
        Err(e) => return Err(e),
    };
    let n: usize = v.output.len();
    if n > max_output {
        let mut m = "output of ".to_owned();
        push_dec(&mut m, n as u64);
        m.append(" bytes exceeds the limit of ");
        push_dec(&mut m, max_output as u64);
        return Err(DeltaError::new("result_size_limit", m));
    }
    match expected {
        Some(want) => {
            if want != n {
                let mut m = "output is ".to_owned();
                push_dec(&mut m, n as u64);
                m.append(" bytes but ");
                push_dec(&mut m, want as u64);
                m.append(" were expected");
                return Err(DeltaError::new("result_size_mismatch", m));
            }
        },
        None => {},
    }
    let mut ranges: Vec<(usize, usize)> = Vec::new();
    let mut i: usize = 0;
    while i < v.instrs.len()
        invariant
            i <= v.instrs@.len(),
            ranges@ == ranges_of(v.instrs@).take(i as int),
        decreases v.instrs@.len() - i,
    {
        let range = match v.instrs[i] {
            DeltaInstr::Insert { range, .. } => range,
            DeltaInstr::Copy { range, .. } => range,
        };
        ranges.push(range);
        i += 1;
        assert(ranges@ =~= ranges_of(v.instrs@).take(i as int));
    }
    assert(ranges@ =~= ranges_of(v.instrs@));
    Ok((v.output, ranges))
}

/// The inserts that spell `data`, each of at most 127 bytes.
pub open spec fn inserts(data: Seq<u8>) -> Seq<u8>
    decreases data.len(),
{
    if data.len() == 0 {
        Seq::empty()
    } else if data.len() <= 127 {
        seq![data.len() as u8] + data
    } else {
        seq![127u8] + data.take(127) + inserts(data.skip(127))
    }
}

/// Appends the inserts that spell the bytes of `data` from `from` on.
pub fn push_inserts(out: &mut Vec<u8>, data: &[u8], from: usize)
    requires
        from <= data@.len(),
    ensures
        final(out)@ == old(out)@ + inserts(data@.skip(from as int)),
{
    let ghost start = out@;
    let ghost all = inserts(data@.skip(from as int));
    let mut p: usize = from;
    while data.len() - p > 127
        invariant
            p <= data@.len(),
            start + all == out@ + inserts(data@.skip(p as int)),
        decreases data@.len() - p,
    {
        let ghost before = out@;
        let ghost rest = data@.skip(p as int);
        out.push(127);
        push_range(out, data, p, p + 127);
        p += 127;
        proof {
            assert(rest.take(127) =~= data@.subrange(p - 127, p as int));
            assert(rest.skip(127) =~= data@.skip(p as int));
            assert(before + inserts(rest) =~= out@ + inserts(data@.skip(p as int)));
        }
    }
    let left: usize = data.len() - p;
    let ghost before = out@;
    let ghost rest = data@.skip(p as int);
    if left > 0 {
        out.push(left as u8);
        push_range(out, data, p, data.len());
        assert(rest =~= data@.subrange(p as int, data@.len() as int));
    }
    proof {
        assert(out@ =~= before + inserts(rest));
        assert(out@ =~= start + all);
    }
}

/// A delta that ignores its base and inserts `data`.
pub open spec fn insert_delta(base_len: u64, data: Seq<u8>) -> Seq<u8> {
    le128_bytes(base_len as nat) + le128_bytes(data.len()) + inserts(data)
}

/// Encodes a delta that ignores a base of `base_len` bytes and inserts `data`.
pub fn encode_insert_delta(base_len: u64, data: &[u8]) -> (out: Vec<u8>)
    ensures
        out@ == insert_delta(base_len, data@),
{
    let mut out: Vec<u8> = Vec::new();
    push_le128(&mut out, base_len);
    push_le128(&mut out, data.len() as u64);
    push_inserts(&mut out, data, 0);
    proof {
        assert(data@.skip(0) =~= data@);
        assert(out@ =~= insert_delta(base_len, data@));
    }
    out
}

/// The sizes that stand at the head of a delta are read back.
pub proof fn lemma_sizes(a: nat, b: nat, rest: Seq<u8>)
    requires
        a < word(),
        b < word(),
    ensures
        sizes(le128_bytes(a) + le128_bytes(b) + rest) == Ok::<(nat, nat, int), nat>(
            (a, b, (le128_bytes(a).len() + le128_bytes(b).len()) as int),
        ),
{
    let s1 = le128_bytes(a);
    let s2 = le128_bytes(b);
    let d = s1 + s2 + rest;
    le128_roundtrip(a);
    le128_roundtrip(b);
    assert(d =~= s1 + (s2 + rest));
    lemma_head_of_number(s1, s2 + rest);
    assert(d.skip(s1.len() as int) =~= s2 + rest);
    lemma_head_of_number(s2, rest);
    vstd::arithmetic::div_mod::lemma_small_mod(a, word());
    vstd::arithmetic::div_mod::lemma_small_mod(b, word());
}

/// Running the inserts that spell `data`, from the place where they stand, appends `data`.
pub proof fn lemma_inserts_play(base: Seq<u8>, d: Seq<u8>, pos: int, data: Seq<u8>, out: Seq<u8>)
    requires
        0 <= pos <= d.len() <= usize::MAX,
        d.skip(pos) == inserts(data),
    ensures
        played(base, d, pos, out) == Some(out + data),
    decreases data.len(),
{
    if data.len() == 0 {
        assert(d.skip(pos).len() == d.len() - pos);
        assert(out + data =~= out);
    } else {
        let n: int = if data.len() <= 127 {
            data.len() as int
        } else {
            127
        };
        let tail = d.skip(pos);
        lemma_inserts_len(data);
        lemma_inserts_len(data.skip(n));
        assert(tail.len() >= 1 + n);
        assert(tail.len() == d.len() - pos);
        assert(tail[0] == n);
        assert(d[pos] == tail[0]);
        assert(tail.subrange(1, 1 + n) =~= data.take(n));
        assert(d.subrange(pos + 1, pos + 1 + n) =~= tail.subrange(1, 1 + n));
        assert(d.skip(pos + 1 + n) =~= tail.skip(1 + n));
        assert(tail.skip(1 + n) =~= inserts(data.skip(n)));
        lemma_inserts_play(base, d, pos + 1 + n, data.skip(n), out + data.take(n));
        assert(out + data.take(n) + data.skip(n) =~= out + data);
    }
}

proof fn lemma_inserts_len(data: Seq<u8>)
    ensures
        inserts(data).len() >= data.len(),
    decreases data.len(),
{
    if data.len() > 127 {
        lemma_inserts_len(data.skip(127));
    }
}

/// The trace of a delta succeeds exactly when its instructions build the promised bytes.
pub proof fn lemma_trace_plays(
    base: Seq<u8>,
    d: Seq<u8>,
    promised: nat,
    pos: int,
    out: Seq<u8>,
    instrs: Seq<DeltaInstr>,
)
    requires
        0 <= pos <= d.len() <= usize::MAX,
    ensures
        trace(base, d, promised, pos, out, instrs) matches Ok((o, i)) ==> played(base, d, pos, out) == Some(o)
            && o.len() == promised && i.len() >= instrs.len(),
        out.len() <= promised ==> (played(base, d, pos, out) matches Some(o) && o.len() == promised ==> trace(
            base,
            d,
            promised,
            pos,
            out,
            instrs,
        ) is Ok),
        played(base, d, pos, out) matches Some(o) ==> out.len() <= o.len(),
    decreases d.len() - pos,
{
    if pos < d.len() {
        lemma_instr(d, pos);
        let e = traced(base, d, pos, out.len());
        if pos < e.0 <= d.len() {
            lemma_trace_plays(base, d, promised, e.0, out + e.1, instrs.push(e.2));
        }
    }
}

/// A delta is applied exactly when its sizes are there, it names the base's length and its
/// instructions build as many bytes as it promises; the output is then what they build.
pub proof fn applies_exactly_when_sound(base: Seq<u8>, d: Seq<u8>)
    requires
        d.len() <= usize::MAX,
    ensures
        result_of(base, d) is Ok <==> (sizes(d) matches Ok((b, n, start)) && b == base.len() && (played(
            base,
            d,
            start,
            Seq::empty(),
        ) matches Some(o) && o.len() == n)),
        result_of(base, d) matches Ok((out, instrs)) ==> (sizes(d) matches Ok((b, n, start)) && played(
            base,
            d,
            start,
            Seq::empty(),
        ) == Some(out) && out.len() == n),
{
    if let Ok((b, n, start)) = sizes(d) {
        crate::model::varint::lemma_run_bounds(d);
        if let Scan::Value { value, len } = le128_scan(d) {
            crate::model::varint::lemma_run_bounds(d.skip(len as int));
        }
        lemma_trace_plays(base, d, n, start, Seq::empty(), Seq::empty());
    }
}

/// Applying a delta that inserts `data` gives `data`.
pub proof fn insert_delta_gives_data(base: Seq<u8>, data: Seq<u8>)
    requires
        base.len() <= u64::MAX,
        insert_delta(base.len() as u64, data).len() <= usize::MAX,
    ensures
        result_of(base, insert_delta(base.len() as u64, data)) matches Ok((out, instrs)) && out == data,
{
    let d = insert_delta(base.len() as u64, data);
    let start = (le128_bytes(base.len()).len() + le128_bytes(data.len()).len()) as int;
    lemma_inserts_len(data);
    lemma_sizes(base.len(), data.len(), inserts(data));
    assert(d.skip(start) =~= inserts(data));
    lemma_inserts_play(base, d, start, data, Seq::empty());
    assert(Seq::<u8>::empty() + data =~= data);
    applies_exactly_when_sound(base, d);
}

} // verus!
