//! Big-endian base-128 numbers used by pack headers and delta sizes.
use vstd::prelude::*;
use crate::model::varint::{
    be128, be128_bytes, ends, head_bytes, ofs128, ofs128_at, push_be128, run, run_at, touched, word,
};

verus! {

/// What stands at the head of `s`: a big-endian number of at most ten bytes.
pub open spec fn be_head(s: Seq<u8>) -> Option<(nat, nat)> {
    if ends(s) && touched(s) <= 10 {
        Some((be128(head_bytes(s)) % word(), touched(s)))
    } else {
        None
    }
}

/// Reads one number with continuation bits, most significant group first.
/// Returns `(value, bytes consumed)`.
pub fn read(data: &[u8]) -> (r: Option<(u64, usize)>)
    ensures
        match r {
            Some((v, n)) => be_head(data@) == Some((v as nat, n as nat)),
            None => be_head(data@) is None,
        },
{
    let k: usize = run_at(data, 0);
    assert(data@.skip(0) =~= data@);
    if k >= data.len() || k >= 10 {
        return None;
    }
    let ghost h = head_bytes(data@);
    let mut v: u64 = 0;
    let mut i: usize = 0;
    assert(h.take(0).len() == 0);
    while i <= k
        invariant
            i <= k + 1,
            k < 10,
            k + 1 <= data@.len(),
            h == data@.take(k + 1),
            v as nat == be128(h.take(i as int)) % word(),
        decreases k + 1 - i,
    {
        let x: u64 = (data[i] % 128) as u64;
        proof {
            assert(h.take(i + 1).drop_last() =~= h.take(i as int));
            assert(h.take(i + 1).last() == data@[i as int]);
            crate::model::varint::lemma_horner(be128(h.take(i as int)), x as nat);
        }
        v = v.wrapping_mul(128).wrapping_add(x);
        i += 1;
    }
    assert(h.take(k + 1) =~= h);
    Some((v, k + 1))
}

/// Encodes a value as the same form.
pub fn write(value: u64, out: &mut Vec<u8>)
    ensures
        final(out)@ == old(out)@ + be128_bytes(value as nat),
{
    push_be128(out, value);
}

/// What stands at the head of `s`: an offset.
pub open spec fn ofs_head(s: Seq<u8>) -> Option<(nat, nat)> {
    if ends(s) && (forall|j: int|
        1 <= j < touched(s) ==> (#[trigger] ofs128(s.take(j))) % word() + 1 < word()) {
        Some((ofs128(head_bytes(s)) % word(), touched(s)))
    } else {
        None
    }
}

/// Decodes the negative offset of an offset delta: every byte after the first shifts the
/// running value, plus one, up and adds seven more bits. Counting past the largest word fails.
pub fn read_ofs(data: &[u8]) -> (r: Option<(u64, usize)>)
    ensures
        match r {
            Some((v, n)) => ofs_head(data@) == Some((v as nat, n as nat)),
            None => ofs_head(data@) is None,
        },
{
    let k: usize = run_at(data, 0);
    assert(data@.skip(0) =~= data@);
    if k >= data.len() {
        return None;
    }
    let mut j: usize = 1;
    while j <= k
        invariant
            1 <= j <= k + 1,
            k + 1 <= data.len(),
            k == run(data@),
            forall|i: int| 1 <= i < j ==> (#[trigger] ofs128(data@.take(i))) % word() + 1 < word(),
        decreases k + 1 - j,
    {
        let part: u64 = ofs128_at(data, 0, j);
        assert(data@.subrange(0, j as int) =~= data@.take(j as int));
        if part == u64::MAX {
            assert(ofs128(data@.take(j as int)) % word() + 1 == word());
            return None;
        }
        j += 1;
    }
    assert(data@.subrange(0, k + 1) =~= head_bytes(data@));
    Some((ofs128_at(data, 0, k + 1), k + 1))
}

/// Reading what was written gives the value and the whole length.
pub proof fn read_gives_back_what_write_wrote(value: u64)
    ensures
        be_head(be128_bytes(value as nat)) == Some((value as nat, be128_bytes(value as nat).len())),
{
    let n = be128_bytes(value as nat);
    crate::model::varint::be128_roundtrip(value as nat);
    assert(n + Seq::<u8>::empty() =~= n);
    crate::model::varint::lemma_head_of_number(n, Seq::empty());
    vstd::arithmetic::div_mod::lemma_small_mod(value as nat, word());
}

} // verus!
