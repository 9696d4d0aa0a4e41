//! The instruction stream of a delta: what each instruction says and what a stream builds.
use vstd::prelude::*;

verus! {

/// An instruction as it stands in a delta.
pub enum Instr {
    /// Copy `size` bytes of the base from `offset`; the next instruction is at `next`.
    Copy { offset: u64, size: u64, next: usize },
    /// Insert the `len` literal bytes at `from`.
    Insert { from: usize, len: usize, next: usize },
    /// Opcode zero.
    Reserved,
    /// The delta ends inside the offset of a copy.
    CutOffset,
    /// The delta ends inside the length of a copy.
    CutLength,
    /// The delta ends inside the literal bytes of an insert.
    CutInsert { len: usize },
}

/// The operand whose bytes the low `n` bits of `bits` select, and where it ends.
pub open spec fn operand(d: Seq<u8>, pos: int, bits: nat, n: nat) -> (nat, int)
    decreases n,
{
    if n == 0 {
        (0, pos)
    } else if bits % 2 == 1 {
        let r = operand(d, pos + 1, bits / 2, (n - 1) as nat);
        (d[pos] as nat + 256 * r.0, r.1)
    } else {
        let r = operand(d, pos, bits / 2, (n - 1) as nat);
        (256 * r.0, r.1)
    }
}

/// The length of a copy: zero stands for 65536.
pub open spec fn copy_len(raw: nat) -> nat {
    if raw == 0 {
        0x10000
    } else {
        raw
    }
}

/// The instruction at `pos`.
pub open spec fn instr_at(d: Seq<u8>, pos: int) -> Instr {
    let op = d[pos] as nat;
    if op >= 128 {
        let off = operand(d, pos + 1, op % 16, 4);
        let len = operand(d, off.1, (op / 16) % 8, 3);
        if off.1 > d.len() {
            Instr::CutOffset
        } else if len.1 > d.len() {
            Instr::CutLength
        } else {
            Instr::Copy { offset: off.0 as u64, size: copy_len(len.0) as u64, next: len.1 as usize }
        }
    } else if op == 0 {
        Instr::Reserved
    } else if pos + 1 + op > d.len() {
        Instr::CutInsert { len: op as usize }
    } else {
        Instr::Insert { from: (pos + 1) as usize, len: op as usize, next: (pos + 1 + op) as usize }
    }
}

/// What the instructions from `pos` on append to `out`; nothing when one of them is bad.
pub open spec fn played(base: Seq<u8>, d: Seq<u8>, pos: int, out: Seq<u8>) -> Option<Seq<u8>>
    decreases d.len() - pos,
{
    if pos >= d.len() {
        Some(out)
    } else {
        match instr_at(d, pos) {
            Instr::Copy { offset, size, next } => if offset + size <= base.len() && pos < next <= d.len() {
                played(base, d, next as int, out + base.subrange(offset as int, offset + size))
            } else {
                None
            },
            Instr::Insert { from, len, next } => if pos < next <= d.len() {
                played(base, d, next as int, out + d.subrange(from as int, next as int))
            } else {
                None
            },
            _ => None,
        }
    }
}

pub proof fn lemma_operand(d: Seq<u8>, pos: int, bits: nat, n: nat)
    requires
        n <= 4,
    ensures
        pos <= operand(d, pos, bits, n).1 <= pos + n,
        n == 0 ==> operand(d, pos, bits, n).0 == 0,
        n == 1 ==> operand(d, pos, bits, n).0 < 0x100,
        n == 2 ==> operand(d, pos, bits, n).0 < 0x1_0000,
        n == 3 ==> operand(d, pos, bits, n).0 < 0x100_0000,
        n == 4 ==> operand(d, pos, bits, n).0 < 0x1_0000_0000,
    decreases n,
{
    if n > 0 {
        lemma_operand(d, pos + 1, bits / 2, (n - 1) as nat);
        lemma_operand(d, pos, bits / 2, (n - 1) as nat);
    }
}

/// An instruction ends inside the delta and its fields are in range.
pub proof fn lemma_instr(d: Seq<u8>, pos: int)
    requires
        0 <= pos < d.len() <= usize::MAX,
    ensures
        instr_at(d, pos) matches Instr::Copy { offset, size, next } ==> {
            &&& pos < next <= d.len()
            &&& offset < 0x1_0000_0000
            &&& 0 < size < 0x100_0000
        },
        instr_at(d, pos) matches Instr::Insert { from, len, next } ==> {
            &&& pos < from <= next <= d.len()
            &&& from == pos + 1
            &&& next == from + len
            &&& 0 < len < 128
        },
        instr_at(d, pos) matches Instr::CutInsert { len } ==> 0 < len < 128 && pos + 1 + len > d.len(),
{
    let op = d[pos] as nat;
    lemma_operand(d, pos + 1, op % 16, 4);
    let off = operand(d, pos + 1, op % 16, 4);
    lemma_operand(d, off.1, (op / 16) % 8, 3);
}

/// Reads an operand; nothing when the delta ends inside it.
fn read_operand(d: &[u8], pos: usize, bits: u8, n: u8) -> (r: Option<(u64, usize)>)
    requires
        n <= 4,
        pos <= d@.len(),
    ensures
        r is Some <==> operand(d@, pos as int, bits as nat, n as nat).1 <= d@.len(),
        r matches Some(v) ==> v.0 == operand(d@, pos as int, bits as nat, n as nat).0 && v.1
            == operand(d@, pos as int, bits as nat, n as nat).1,
    decreases n,
{
    proof {
        lemma_operand(d@, pos as int, bits as nat, n as nat);
    }
    if n == 0 {
        return Some((0, pos));
    }
    proof {
        lemma_operand(d@, pos + 1, (bits / 2) as nat, (n - 1) as nat);
        lemma_operand(d@, pos as int, (bits / 2) as nat, (n - 1) as nat);
    }
    if bits % 2 == 1 {
        if pos >= d.len() {
            return None;
        }
        match read_operand(d, pos + 1, bits / 2, n - 1) {
            None => None,
            Some((v, next)) => Some((d[pos] as u64 + 256 * v, next)),
        }
    } else {
        match read_operand(d, pos, bits / 2, n - 1) {
            None => None,
            Some((v, next)) => Some((256 * v, next)),
        }
    }
}

/// Reads the instruction at `pos`.
pub fn read_instr(d: &[u8], pos: usize) -> (r: Instr)
    requires
        pos < d@.len(),
    ensures
        r == instr_at(d@, pos as int),
{
    let op: u8 = d[pos];
    let total: usize = d.len();
    proof {
        lemma_operand(d@, pos + 1, (op % 16) as nat, 4);
    }
    if op >= 128 {
        match read_operand(d, pos + 1, op % 16, 4) {
            None => Instr::CutOffset,
            Some((offset, p)) => {
                proof {
                    lemma_operand(d@, p as int, ((op / 16) % 8) as nat, 3);
                }
                match read_operand(d, p, (op / 16) % 8, 3) {
                    None => Instr::CutLength,
                    Some((raw, next)) => {
                        let size: u64 = if raw == 0 {
                            0x10000
                        } else {
                            raw
                        };
                        Instr::Copy { offset, size, next }
                    },
                }
            },
        }
    } else if op == 0 {
        Instr::Reserved
    } else if op as usize > total - (pos + 1) {
        Instr::CutInsert { len: op as usize }
    } else {
        Instr::Insert { from: pos + 1, len: op as usize, next: pos + 1 + op as usize }
    }
}

/// A byte of an operand counts where the opcode marks it, and is skipped where not.
pub open spec fn marked(d: Seq<u8>, at: int, mark: nat) -> nat {
    if mark == 1 {
        d[at] as nat
    } else {
        0
    }
}

proof fn lemma_step(d: Seq<u8>, pos: int, bits: nat, n: nat)
    requires
        n > 0,
    ensures
        operand(d, pos, bits, n) == (
            marked(d, pos, bits % 2) + 256 * operand(d, pos + bits % 2, bits / 2, (n - 1) as nat).0,
            operand(d, pos + bits % 2, bits / 2, (n - 1) as nat).1,
        ),
{
}

proof fn lemma_four(d: Seq<u8>, p: int, m: nat)
    ensures
        ({
            let (a, b, c, e) = (m % 2, (m / 2) % 2, (m / 2 / 2) % 2, (m / 2 / 2 / 2) % 2);
            operand(d, p, m, 4) == (
                marked(d, p, a) + 0x100 * marked(d, p + a, b) + 0x1_0000 * marked(d, p + a + b, c) + 0x100_0000
                    * marked(d, p + a + b + c, e),
                p + a + b + c + e,
            )
        }),
{
    lemma_step(d, p, m, 4);
    lemma_three(d, p + m % 2, m / 2);
}

proof fn lemma_three(d: Seq<u8>, p: int, m: nat)
    ensures
        ({
            let (a, b, c) = (m % 2, (m / 2) % 2, (m / 2 / 2) % 2);
            operand(d, p, m, 3) == (
                marked(d, p, a) + 0x100 * marked(d, p + a, b) + 0x1_0000 * marked(d, p + a + b, c),
                p + a + b + c,
            )
        }),
{
    lemma_step(d, p, m, 3);
    lemma_step(d, p + m % 2, m / 2, 2);
    lemma_step(d, p + m % 2 + (m / 2) % 2, m / 2 / 2, 1);
}

proof fn lemma_marks(op: u8)
    by (bit_vector)
    ensures
        (op % 16) % 2 == op % 2 && (op % 16 / 2) % 2 == (op / 2) % 2 && (op % 16 / 2 / 2) % 2 == (op / 4) % 2 && (op % 16
            / 2 / 2 / 2) % 2 == (op / 8) % 2,
        ((op / 16) % 8) % 2 == (op / 16) % 2 && ((op / 16) % 8 / 2) % 2 == (op / 32) % 2 && ((op / 16) % 8 / 2 / 2) % 2
            == (op / 64) % 2,
{
}

/// A copy is read as it stands: each mark of the opcode, from the lowest, says whether the next byte of
/// the offset, then of the length, is there. The lowest byte comes first, and no length means 65536.
pub proof fn copies_are_read_as_they_stand(d: Seq<u8>, pos: int)
    requires
        0 <= pos < d.len() <= usize::MAX,
        d[pos] >= 128,
    ensures
        ({
            let op = d[pos] as nat;
            let o0 = op % 2;
            let o1 = (op / 2) % 2;
            let o2 = (op / 4) % 2;
            let o3 = (op / 8) % 2;
            let l0 = (op / 16) % 2;
            let l1 = (op / 32) % 2;
            let l2 = (op / 64) % 2;
            let p = pos + 1;
            let q = p + o0 + o1 + o2 + o3;
            let end = q + l0 + l1 + l2;
            let offset = marked(d, p, o0) + 0x100 * marked(d, p + o0, o1) + 0x1_0000 * marked(d, p + o0 + o1, o2)
                + 0x100_0000 * marked(d, p + o0 + o1 + o2, o3);
            let len = marked(d, q, l0) + 0x100 * marked(d, q + l0, l1) + 0x1_0000 * marked(d, q + l0 + l1, l2);
            &&& end <= d.len() <==> instr_at(d, pos) is Copy
            &&& q > d.len() ==> instr_at(d, pos) is CutOffset
            &&& q <= d.len() < end ==> instr_at(d, pos) is CutLength
            &&& (instr_at(d, pos) matches Instr::Copy { offset: o, size, next } ==> o == offset && next == end && size
                == if len == 0 {
                0x1_0000
            } else {
                len as int
            })
        }),
{
    let op = d[pos] as nat;
    let m = op % 16;
    let k = (op / 16) % 8;
    let p = pos + 1;
    lemma_marks(d[pos]);
    lemma_four(d, p, m);
    let off = operand(d, p, m, 4);
    lemma_three(d, off.1, k);
    lemma_operand(d, p, m, 4);
    lemma_operand(d, off.1, k, 3);
}

/// An insert is read as it stands: the opcode is how many literal bytes follow, and zero is no insert.
pub proof fn inserts_are_read_as_they_stand(d: Seq<u8>, pos: int)
    requires
        0 <= pos < d.len() <= usize::MAX,
        d[pos] < 128,
    ensures
        d[pos] == 0 <==> instr_at(d, pos) is Reserved,
        d[pos] > 0 && pos + 1 + d[pos] <= d.len() <==> instr_at(d, pos) is Insert,
        instr_at(d, pos) matches Instr::Insert { from, len, next } ==> from == pos + 1 && len == d[pos] && next == pos
            + 1 + d[pos],
{
}

/// The output grows by exactly what each instruction says: a range of the base, or literal bytes.
pub proof fn playing_appends_what_is_said(base: Seq<u8>, d: Seq<u8>, pos: int, out: Seq<u8>)
    requires
        0 <= pos < d.len() <= usize::MAX,
    ensures
        instr_at(d, pos) matches Instr::Copy { offset, size, next } ==> {
            &&& offset + size > base.len() ==> played(base, d, pos, out) is None
            &&& offset + size <= base.len() ==> played(base, d, pos, out) == played(
                base,
                d,
                next as int,
                out + base.subrange(offset as int, offset + size),
            )
        },
        instr_at(d, pos) matches Instr::Insert { from, len, next } ==> played(base, d, pos, out) == played(
            base,
            d,
            next as int,
            out + d.subrange(pos + 1, pos + 1 + len),
        ),
        !(instr_at(d, pos) is Copy || instr_at(d, pos) is Insert) ==> played(base, d, pos, out) is None,
        played(base, d, d.len() as int, out) == Some(out),
{
    lemma_instr(d, pos);
}

} // verus!
