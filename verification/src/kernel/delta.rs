//! The command sequence of a delta payload and its application to a base.
use vstd::prelude::*;
use vstd::string::StringExecFns;
use crate::kernel::git::{from_pos, read_delta_varint, ParseError};
use crate::model::bytes::push_range;
use crate::model::delta::{instr_at, lemma_instr, played, read_instr, Instr};
use crate::model::text::{dec, push_dec};
use crate::model::varint::{le128_scan, Scan};

verus! {

#[derive(Clone, Copy, PartialEq, Eq, Debug, Structural)]
pub enum CmdKind {
    Copy { offset: usize, len: usize },
    Insert { len: usize },
}

#[derive(Clone, Copy, Debug)]
pub struct DeltaCmd {
    pub index: usize,
    /// Half-open byte range of this command inside the (inflated) delta payload.
    pub range: (usize, usize),
    pub kind: CmdKind,
}

#[derive(Clone, Copy, Debug)]
pub struct DeltaHeader {
    pub base_size: u64,
    pub target_size: u64,
    /// Byte offset where the command section starts.
    pub instr_start: usize,
}

#[derive(Debug)]
pub enum DeltaError {
    Parse(ParseError),
    BadCommand(String),
    OutputSizeMismatch { declared: u64, actual: usize },
    /// Reconstruction aborted before completion because a resource budget
    /// would be crossed. No output from this attempt is published.
    BudgetPaused { target_size: u64, reason: PauseReason },
}

#[derive(Clone, Copy, PartialEq, Eq, Debug, Structural)]
pub enum PauseReason {
    /// Output would cross the per-object expansion allowance.
    SingleObject,
    /// Output would cross the global total-expansion allowance.
    TotalBytes,
}

impl PauseReason {
    pub open spec fn text(self) -> Seq<char> {
        match self {
            PauseReason::SingleObject => "SingleObject"@,
            PauseReason::TotalBytes => "TotalBytes"@,
        }
    }

    pub fn label(self) -> (s: &'static str)
        ensures
            s@ == self.text(),
    {
        match self {
            PauseReason::SingleObject => "SingleObject",
            PauseReason::TotalBytes => "TotalBytes",
        }
    }
}

/// The model of a delta error.
pub ghost enum Trouble {
    Truncated(Seq<char>),
    BadEncoding(Seq<char>),
    BadCommand(Seq<char>),
    SizeMismatch { declared: nat, actual: nat },
    Paused { target_size: nat, reason: PauseReason },
}

impl View for DeltaError {
    type V = Trouble;

    open spec fn view(&self) -> Trouble {
        match self {
            DeltaError::Parse(ParseError::Truncated(m)) => Trouble::Truncated(m@),
            DeltaError::Parse(ParseError::BadEncoding(m)) => Trouble::BadEncoding(m@),
            DeltaError::BadCommand(m) => Trouble::BadCommand(m@),
            DeltaError::OutputSizeMismatch { declared, actual } => Trouble::SizeMismatch {
                declared: *declared as nat,
                actual: *actual as nat,
            },
            DeltaError::BudgetPaused { target_size, reason } => Trouble::Paused {
                target_size: *target_size as nat,
                reason: *reason,
            },
        }
    }
}

impl DeltaError {
    /// The message of the error.
    pub open spec fn text(self) -> Seq<char> {
        match self@ {
            Trouble::Truncated(m) => m,
            Trouble::BadEncoding(m) => m,
            Trouble::BadCommand(m) => "bad delta command: "@ + m,
            Trouble::SizeMismatch { declared, actual } => "delta declared target size "@ + dec(declared)
                + " but commands emitted "@ + dec(actual) + " bytes"@,
            Trouble::Paused { target_size, reason } => "reconstruction paused at "@ + dec(target_size)
                + " target bytes ("@ + reason.text() + " budget)"@,
        }
    }

    pub fn message(&self) -> (s: String)
        ensures
            s@ == self.text(),
    {
        match self {
            DeltaError::Parse(p) => p.message(),
            DeltaError::BadCommand(m) => {
                let mut s = "bad delta command: ".to_owned();
                s.append(m.as_str());
                s
            },
            DeltaError::OutputSizeMismatch { declared, actual } => {
                let mut s = "delta declared target size ".to_owned();
                push_dec(&mut s, *declared);
                s.append(" but commands emitted ");
                push_dec(&mut s, *actual as u64);
                s.append(" bytes");
                s
            },
            DeltaError::BudgetPaused { target_size, reason } => {
                let mut s = "reconstruction paused at ".to_owned();
                push_dec(&mut s, *target_size);
                s.append(" target bytes (");
                s.append(reason.label());
                s.append(" budget)");
                s
            },
        }
    }
}

/// The two sizes and the start of the commands, or what is wrong with the header.
pub open spec fn header_of(d: Seq<u8>) -> Result<DeltaHeader, Trouble> {
    match le128_scan(d) {
        Scan::Truncated => Err(Trouble::Truncated("delta varint truncated"@)),
        Scan::TooLong => Err(Trouble::BadEncoding("delta varint too long"@)),
        Scan::Value { value: base_size, len: n1 } => match le128_scan(d.skip(n1 as int)) {
            Scan::Truncated => Err(Trouble::Truncated("delta varint truncated"@)),
            Scan::TooLong => Err(Trouble::BadEncoding("delta varint too long"@)),
            Scan::Value { value: target_size, len: n2 } => Ok(
                DeltaHeader { base_size, target_size, instr_start: (n1 + n2) as usize },
            ),
        },
    }
}

pub fn parse_header(delta: &[u8]) -> (r: Result<DeltaHeader, DeltaError>)
    ensures
        match r {
            Ok(h) => header_of(delta@) == Ok::<DeltaHeader, Trouble>(h) && h.instr_start <= delta@.len(),
            Err(e) => header_of(delta@) == Err::<DeltaHeader, Trouble>(e@),
        },
{
    assert(from_pos(delta@, 0) =~= delta@);
    let (base_size, p1) = match read_delta_varint(delta, 0) {
        Ok(v) => v,
        Err(e) => return Err(DeltaError::Parse(e)),
    };
    assert(from_pos(delta@, p1) == delta@.skip(p1 as int));
    let (target_size, p2) = match read_delta_varint(delta, p1) {
        Ok(v) => v,
        Err(e) => return Err(DeltaError::Parse(e)),
    };
    Ok(DeltaHeader { base_size, target_size, instr_start: p2 })
}

/// What is fixed while the commands run.
pub ghost struct Job {
    pub base: Seq<u8>,
    pub delta: Seq<u8>,
    pub target: nat,
    pub single_allow: nat,
    pub total_allow: nat,
}

impl Job {
    /// The pause that an output of `n` bytes causes, if any.
    pub open spec fn pause(self, n: nat) -> Option<Trouble> {
        if n > self.single_allow {
            Some(Trouble::Paused { target_size: self.target, reason: PauseReason::SingleObject })
        } else if n > self.total_allow {
            Some(Trouble::Paused { target_size: self.target, reason: PauseReason::TotalBytes })
        } else {
            None
        }
    }
}

/// What stops the command at `pos` when `made` bytes have been built; nothing when it runs.
pub open spec fn obstacle(job: Job, pos: int, made: nat) -> Option<Trouble> {
    match instr_at(job.delta, pos) {
        Instr::CutOffset => Some(Trouble::Truncated("copy operand truncated"@)),
        Instr::CutLength => Some(Trouble::Truncated("copy operand truncated"@)),
        Instr::CutInsert { .. } => Some(Trouble::Truncated("insert literals truncated"@)),
        Instr::Reserved => Some(Trouble::BadCommand("opcode 0 is reserved"@)),
        Instr::Copy { offset, size, .. } => if offset + size > job.base.len() {
            Some(
                Trouble::BadCommand(
                    "copy range ["@ + dec(offset as nat) + ".."@ + dec((offset + size) as nat)
                        + ") exceeds base of "@ + dec(job.base.len()) + " bytes"@,
                ),
            )
        } else if made + size > job.target {
            Some(
                Trouble::BadCommand(
                    "copy of "@ + dec(size as nat) + " bytes overshoots declared target size "@ + dec(
                        job.target,
                    ),
                ),
            )
        } else {
            job.pause((made + size) as nat)
        },
        Instr::Insert { len, .. } => if made + len > job.target {
            Some(
                Trouble::BadCommand(
                    "insert of "@ + dec(len as nat) + " bytes overshoots declared target size "@ + dec(
                        job.target,
                    ),
                ),
            )
        } else {
            job.pause((made + len) as nat)
        },
    }
}

/// Where the command at `pos` ends, what it appends and how it is recorded.
pub open spec fn effect(job: Job, pos: int, index: nat) -> (int, Seq<u8>, DeltaCmd) {
    match instr_at(job.delta, pos) {
        Instr::Copy { offset, size, next } => (
            next as int,
            job.base.subrange(offset as int, offset + size),
            DeltaCmd {
                index: index as usize,
                range: (pos as usize, next),
                kind: CmdKind::Copy { offset: offset as usize, len: size as usize },
            },
        ),
        Instr::Insert { from, len, next } => (
            next as int,
            job.delta.subrange(from as int, next as int),
            DeltaCmd { index: index as usize, range: (pos as usize, next), kind: CmdKind::Insert { len } },
        ),
        _ => (
            pos,
            Seq::empty(),
            DeltaCmd {
                index: index as usize,
                range: (pos as usize, pos as usize),
                kind: CmdKind::Insert { len: 0 },
            },
        ),
    }
}

/// What running the commands from `pos` on gives.
pub open spec fn ran(job: Job, pos: int, out: Seq<u8>, cmds: Seq<DeltaCmd>) -> Result<
    (Seq<u8>, Seq<DeltaCmd>),
    Trouble,
>
    decreases job.delta.len() - pos,
{
    if pos >= job.delta.len() {
        if out.len() != job.target {
            Err(Trouble::SizeMismatch { declared: job.target, actual: out.len() })
        } else {
            Ok((out, cmds))
        }
    } else {
        match obstacle(job, pos, out.len()) {
            Some(t) => Err(t),
            None => {
                let e = effect(job, pos, cmds.len());
                if pos < e.0 <= job.delta.len() {
                    ran(job, e.0, out + e.1, cmds.push(e.2))
                } else {
                    Err(Trouble::SizeMismatch { declared: job.target, actual: out.len() })
                }
            },
        }
    }
}

/// What applying `delta` to `base` under two allowances gives.
pub open spec fn applied(base: Seq<u8>, delta: Seq<u8>, single_allow: nat, total_allow: nat) -> Result<
    (Seq<u8>, Seq<DeltaCmd>, DeltaHeader),
    Trouble,
> {
    match header_of(delta) {
        Err(t) => Err(t),
        Ok(h) => {
            let job = Job { base, delta, target: h.target_size as nat, single_allow, total_allow };
            if h.base_size != base.len() {
                Err(
                    Trouble::BadCommand(
                        "delta wants base of "@ + dec(h.base_size as nat) + " bytes but base is "@ + dec(
                            base.len(),
                        ) + " bytes"@,
                    ),
                )
            } else {
                match job.pause(job.target) {
                    Some(t) => Err(t),
                    None => match ran(job, h.instr_start as int, Seq::empty(), Seq::empty()) {
                        Err(t) => Err(t),
                        Ok((out, cmds)) => Ok((out, cmds, h)),
                    },
                }
            }
        },
    }
}

fn paused(target_size: u64, n: u64, single_allow: usize) -> (e: DeltaError)
    ensures
        e@ == (Trouble::Paused {
            target_size: target_size as nat,
            reason: if n > single_allow {
                PauseReason::SingleObject
            } else {
                PauseReason::TotalBytes
            },
        }),
{
    let reason = if n > single_allow as u64 {
        PauseReason::SingleObject
    } else {
        PauseReason::TotalBytes
    };
    DeltaError::BudgetPaused { target_size, reason }
}

fn overshoot(what: &str, n: u64, target: u64) -> (e: DeltaError)
    ensures
        e@ == Trouble::BadCommand(
            what@ + dec(n as nat) + " bytes overshoots declared target size "@ + dec(target as nat),
        ),
{
    let mut m = what.to_owned();
    push_dec(&mut m, n);
    m.append(" bytes overshoots declared target size ");
    push_dec(&mut m, target);
    DeltaError::BadCommand(m)
}

/// Applies `delta` onto `base`.
///
/// `single_allow` / `total_allow` are the maximum output bytes this
/// reconstruction may emit under the per-object limit and the remaining
/// global expansion budget. Exceeding either aborts with `BudgetPaused`.
pub fn apply_delta(base: &[u8], delta: &[u8], single_allow: usize, total_allow: usize) -> (r: Result<
    (Vec<u8>, Vec<DeltaCmd>, DeltaHeader),
    DeltaError,
>)
    ensures
        match r {
            Ok((out, cmds, header)) => applied(base@, delta@, single_allow as nat, total_allow as nat) == Ok::<
                (Seq<u8>, Seq<DeltaCmd>, DeltaHeader),
                Trouble,
            >((out@, cmds@, header)),
            Err(e) => applied(base@, delta@, single_allow as nat, total_allow as nat) == Err::<
                (Seq<u8>, Seq<DeltaCmd>, DeltaHeader),
                Trouble,
            >(e@),
        },
{
    let header = match parse_header(delta) {
        Ok(h) => h,
        Err(e) => return Err(e),
    };
    if header.base_size != base.len() as u64 {
        let mut m = "delta wants base of ".to_owned();
        push_dec(&mut m, header.base_size);
        m.append(" bytes but base is ");
        push_dec(&mut m, base.len() as u64);
        m.append(" bytes");
        return Err(DeltaError::BadCommand(m));
    }
    let target: u64 = header.target_size;
    let allow: u64 = if single_allow < total_allow {
        single_allow as u64
    } else {
        total_allow as u64
    };
    if target > allow {
        return Err(paused(target, target, single_allow));
    }
    let ghost job = Job {
        base: base@,
        delta: delta@,
        target: target as nat,
        single_allow: single_allow as nat,
        total_allow: total_allow as nat,
    };
    let mut out: Vec<u8> = Vec::new();
    let mut cmds: Vec<DeltaCmd> = Vec::new();
    let mut p: usize = header.instr_start;
    while p < delta.len()
        invariant
            p <= delta@.len(),
            job == (Job {
                base: base@,
                delta: delta@,
                target: target as nat,
                single_allow: single_allow as nat,
                total_allow: total_allow as nat,
            }),
            allow == if single_allow < total_allow { single_allow } else { total_allow },
            target <= allow,
            header_of(delta@) == Ok::<DeltaHeader, Trouble>(header),
            header.base_size == base@.len(),
            header.target_size == target,
            out@.len() <= target,
            cmds@.len() <= p,
            ran(job, header.instr_start as int, Seq::empty(), Seq::empty()) == ran(
                job,
                p as int,
                out@,
                cmds@,
            ),
        decreases delta@.len() - p,
    {
        let ghost before = out@;
        let ghost listed = cmds@;
        let made: u64 = out.len() as u64;
        let total: usize = delta.len();
        proof {
            lemma_instr(delta@, p as int);
        }
        match read_instr(delta, p) {
            Instr::CutOffset => {
                return Err(DeltaError::Parse(ParseError::Truncated("copy operand truncated".to_owned())));
            },
            Instr::CutLength => {
                return Err(DeltaError::Parse(ParseError::Truncated("copy operand truncated".to_owned())));
            },
            Instr::CutInsert { .. } => {
                return Err(DeltaError::Parse(ParseError::Truncated("insert literals truncated".to_owned())));
            },
            Instr::Reserved => {
                return Err(DeltaError::BadCommand("opcode 0 is reserved".to_owned()));
            },
            Instr::Copy { offset, size, next } => {
                if offset + size > base.len() as u64 {
                    let mut m = "copy range [".to_owned();
                    push_dec(&mut m, offset);
                    m.append("..");
                    push_dec(&mut m, offset + size);
                    m.append(") exceeds base of ");
                    push_dec(&mut m, base.len() as u64);
                    m.append(" bytes");
                    return Err(DeltaError::BadCommand(m));
                }
                if size > target - made {
                    return Err(overshoot("copy of ", size, target));
                }
                if made + size > allow {
                    return Err(paused(target, made + size, single_allow));
                }
                push_range(&mut out, base, offset as usize, (offset + size) as usize);
                cmds.push(
                    DeltaCmd {
                        index: cmds.len(),
                        range: (p, next),
                        kind: CmdKind::Copy { offset: offset as usize, len: size as usize },
                    },
                );
                p = next;
            },
            Instr::Insert { from, len, next } => {
                if len as u64 > target - made {
                    return Err(overshoot("insert of ", len as u64, target));
                }
                if made + len as u64 > allow {
                    return Err(paused(target, made + len as u64, single_allow));
                }
                push_range(&mut out, delta, from, next);
                cmds.push(DeltaCmd { index: cmds.len(), range: (p, next), kind: CmdKind::Insert { len } });
                p = next;
            },
        }
    }
    if out.len() as u64 != target {
        return Err(DeltaError::OutputSizeMismatch { declared: header.target_size, actual: out.len() });
    }
    Ok((out, cmds, header))
}

proof fn lemma_ran_plays(job: Job, pos: int, out: Seq<u8>, cmds: Seq<DeltaCmd>)
    requires
        0 <= pos <= job.delta.len() <= usize::MAX,
    ensures
        ran(job, pos, out, cmds) matches Ok((o, c)) ==> {
            &&& played(job.base, job.delta, pos, out) == Some(o)
            &&& o.len() == job.target
            &&& out.is_prefix_of(o)
        },
        out.len() <= job.target && job.target <= job.single_allow && job.target <= job.total_allow
            ==> (played(job.base, job.delta, pos, out) matches Some(o) && o.len() == job.target
            ==> ran(job, pos, out, cmds) is Ok),
        played(job.base, job.delta, pos, out) matches Some(o) ==> out.len() <= o.len(),
    decreases job.delta.len() - pos,
{
    if pos < job.delta.len() {
        lemma_instr(job.delta, pos);
        let e = effect(job, pos, cmds.len());
        if pos < e.0 <= job.delta.len() {
            lemma_ran_plays(job, e.0, out + e.1, cmds.push(e.2));
        }
    }
}

/// A delta applies exactly when its header is sound, it names the base's length, the declared
/// target is within both allowances, and its commands build the declared number of bytes; what
/// it gives is then what the commands build.
pub proof fn applies_exactly_when_sound(
    base: Seq<u8>,
    delta: Seq<u8>,
    single_allow: nat,
    total_allow: nat,
)
    requires
        delta.len() <= usize::MAX,
    ensures
        applied(base, delta, single_allow, total_allow) is Ok <==> (header_of(delta) matches Ok(h) && {
            &&& h.base_size == base.len()
            &&& h.target_size <= single_allow
            &&& h.target_size <= total_allow
            &&& played(base, delta, h.instr_start as int, Seq::empty()) matches Some(o) && o.len()
                == h.target_size
        }),
        applied(base, delta, single_allow, total_allow) matches Ok((out, cmds, h)) ==> played(
            base,
            delta,
            h.instr_start as int,
            Seq::empty(),
        ) == Some(out) && out.len() == h.target_size && out.len() <= single_allow && out.len() <= total_allow,
{
    if let Ok(h) = header_of(delta) {
        let job = Job { base, delta, target: h.target_size as nat, single_allow, total_allow };
        lemma_scan_in(delta);
        lemma_ran_plays(job, h.instr_start as int, Seq::empty(), Seq::empty());
    }
}

proof fn lemma_scan_in(d: Seq<u8>)
    requires
        d.len() <= usize::MAX,
    ensures
        header_of(d) matches Ok(h) ==> h.instr_start <= d.len(),
{
    crate::model::varint::lemma_run_bounds(d);
    if let Scan::Value { value, len } = le128_scan(d) {
        crate::model::varint::lemma_run_bounds(d.skip(len as int));
    }
}

} // verus!
