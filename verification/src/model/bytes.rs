//! Fixed-width big-endian words and simple scans over byte sequences.
use vstd::prelude::*;

verus! {

/// The big-endian 32-bit word at `i`.
pub open spec fn be32(s: Seq<u8>, i: int) -> u32 {
    (s[i] * 0x100_0000 + s[i + 1] * 0x1_0000 + s[i + 2] * 0x100 + s[i + 3]) as u32
}

/// The big-endian 64-bit word at `i`.
pub open spec fn be64(s: Seq<u8>, i: int) -> u64 {
    (be32(s, i) * 0x1_0000_0000 + be32(s, i + 4)) as u64
}

/// The four bytes of a 32-bit word, most significant first.
pub open spec fn be32_bytes(n: u32) -> Seq<u8> {
    seq![
        (n / 0x100_0000) as u8,
        (n / 0x1_0000 % 0x100) as u8,
        (n / 0x100 % 0x100) as u8,
        (n % 0x100) as u8,
    ]
}

/// The eight bytes of a 64-bit word, most significant first.
pub open spec fn be64_bytes(n: u64) -> Seq<u8> {
    be32_bytes((n / 0x1_0000_0000) as u32) + be32_bytes((n % 0x1_0000_0000) as u32)
}

/// A word written big-endian is read back unchanged.
pub proof fn be32_roundtrip(n: u32, before: Seq<u8>, after: Seq<u8>)
    ensures
        be32(before + be32_bytes(n) + after, before.len() as int) == n,
{
    let s = before + be32_bytes(n) + after;
    let i = before.len() as int;
    let w = be32_bytes(n);
    assert(s[i] == w[0] && s[i + 1] == w[1] && s[i + 2] == w[2] && s[i + 3] == w[3]);
}

/// The big-endian word at `pos`.
pub fn read_be32(data: &[u8], pos: usize) -> (n: u32)
    requires
        pos + 4 <= data@.len(),
    ensures
        n == be32(data@, pos as int),
{
    assert(pos + 4 <= data.len());
    (data[pos] as u32) * 0x100_0000 + (data[pos + 1] as u32) * 0x1_0000 + (data[pos + 2] as u32)
        * 0x100 + data[pos + 3] as u32
}

/// The big-endian 64-bit word at `pos`.
pub fn read_be64(data: &[u8], pos: usize) -> (n: u64)
    requires
        pos + 8 <= data@.len(),
    ensures
        n == be64(data@, pos as int),
{
    assert(pos + 8 <= data.len());
    (read_be32(data, pos) as u64) * 0x1_0000_0000 + read_be32(data, pos + 4) as u64
}

/// Appends a 32-bit word, most significant byte first.
pub fn push_be32(out: &mut Vec<u8>, n: u32)
    ensures
        final(out)@ == old(out)@ + be32_bytes(n),
{
    out.push((n / 0x100_0000) as u8);
    out.push((n / 0x1_0000 % 0x100) as u8);
    out.push((n / 0x100 % 0x100) as u8);
    out.push((n % 0x100) as u8);
    proof {
        assert(out@ =~= old(out)@ + be32_bytes(n));
    }
}

/// Appends a 64-bit word, most significant byte first.
pub fn push_be64(out: &mut Vec<u8>, n: u64)
    ensures
        final(out)@ == old(out)@ + be64_bytes(n),
{
    push_be32(out, (n / 0x1_0000_0000) as u32);
    push_be32(out, (n % 0x1_0000_0000) as u32);
    proof {
        assert(out@ =~= old(out)@ + be64_bytes(n));
    }
}

/// Where `b` first stands in `s`, or the length of `s` when it does not.
pub open spec fn first_at(s: Seq<u8>, b: u8) -> nat
    decreases s.len(),
{
    if s.len() == 0 || s[0] == b {
        0
    } else {
        1 + first_at(s.skip(1), b)
    }
}

pub proof fn lemma_first_at_is(s: Seq<u8>, b: u8, k: nat)
    requires
        k <= s.len(),
        forall|i: int| 0 <= i < k ==> s[i] != b,
        k == s.len() || s[k as int] == b,
    ensures
        first_at(s, b) == k,
    decreases s.len(),
{
    if k > 0 {
        let t = s.skip(1);
        assert forall|i: int| 0 <= i < k - 1 implies t[i] != b by {
            assert(t[i] == s[i + 1]);
        }
        lemma_first_at_is(t, b, (k - 1) as nat);
    }
}

pub proof fn lemma_first_at(s: Seq<u8>, b: u8)
    ensures
        first_at(s, b) <= s.len(),
        forall|i: int| 0 <= i < first_at(s, b) ==> s[i] != b,
        first_at(s, b) < s.len() ==> s[first_at(s, b) as int] == b,
    decreases s.len(),
{
    if s.len() > 0 && s[0] != b {
        lemma_first_at(s.skip(1), b);
        let k = first_at(s.skip(1), b);
        assert forall|i: int| 0 <= i < first_at(s, b) implies s[i] != b by {
            if i > 0 {
                assert(s.skip(1)[i - 1] == s[i]);
            }
        }
        if first_at(s, b) < s.len() {
            assert(s.skip(1)[k as int] == s[k as int + 1]);
        }
    }
}

/// Looks for `b` from the front.
pub fn find_byte(data: &[u8], b: u8) -> (k: usize)
    ensures
        k == first_at(data@, b),
        k <= data@.len(),
{
    let mut i: usize = 0;
    while i < data.len() && data[i] != b
        invariant
            i <= data@.len(),
            forall|j: int| 0 <= j < i ==> data@[j] != b,
        decreases data@.len() - i,
    {
        i += 1;
    }
    proof {
        lemma_first_at_is(data@, b, i as nat);
    }
    i
}

/// Whether two byte sequences are the same.
pub fn same_bytes(a: &[u8], b: &[u8]) -> (r: bool)
    ensures
        r == (a@ == b@),
{
    if a.len() != b.len() {
        return false;
    }
    let mut i: usize = 0;
    while i < a.len()
        invariant
            i <= a@.len(),
            a@.len() == b@.len(),
            forall|j: int| 0 <= j < i ==> a@[j] == b@[j],
        decreases a@.len() - i,
    {
        if a[i] != b[i] {
            return false;
        }
        i += 1;
    }
    assert(a@ =~= b@);
    true
}

/// A copy of the bytes from `from` up to `to`.
pub fn copy_range(data: &[u8], from: usize, to: usize) -> (out: Vec<u8>)
    requires
        from <= to <= data@.len(),
    ensures
        out@ == data@.subrange(from as int, to as int),
{
    let mut out: Vec<u8> = Vec::new();
    push_range(&mut out, data, from, to);
    assert(out@ =~= data@.subrange(from as int, to as int));
    out
}

/// Appends the bytes of `data` from `from` up to `to`.
pub fn push_range(out: &mut Vec<u8>, data: &[u8], from: usize, to: usize)
    requires
        from <= to <= data@.len(),
    ensures
        final(out)@ == old(out)@ + data@.subrange(from as int, to as int),
{
    let part = vstd::slice::slice_subrange(data, from, to);
    push_all(out, part);
}

/// Appends all of `data`.
pub fn push_all(out: &mut Vec<u8>, data: &[u8])
    ensures
        final(out)@ == old(out)@ + data@,
{
    let ghost before = out@;
    out.extend_from_slice(data);
    proof {
        assert(out@ =~= before + data@);
    }
}

/// Whether `data` begins with `head`.
pub fn begins_with(data: &[u8], head: &[u8]) -> (r: bool)
    ensures
        r == head@.is_prefix_of(data@),
{
    if data.len() < head.len() {
        return false;
    }
    let part = vstd::slice::slice_subrange(data, 0, head.len());
    same_bytes(part, head)
}

/// A 20-byte copy of the bytes at `pos`.
pub fn oid_at(data: &[u8], pos: usize) -> (id: [u8; 20])
    requires
        pos + 20 <= data@.len(),
    ensures
        id@ == data@.subrange(pos as int, pos + 20),
{
    assert(pos + 20 <= data.len());
    let mut id: [u8; 20] = [0u8; 20];
    let mut i: usize = 0;
    while i < 20
        invariant
            i <= 20,
            pos + 20 <= data.len(),
            id@.len() == 20,
            forall|j: int| 0 <= j < i ==> id@[j] == data@[pos + j],
        decreases 20 - i,
    {
        id[i] = data[pos + i];
        i += 1;
    }
    assert(id@ =~= data@.subrange(pos as int, pos + 20));
    id
}

} // verus!
