//! Base-128 numbers: the continuation-bit encodings of pack headers, offsets and delta sizes.
use vstd::prelude::*;

verus! {

/// One more than the largest value of a 64-bit word.
pub open spec fn word() -> nat {
    0x1_0000_0000_0000_0000
}

/// The number of leading bytes that announce a further byte.
pub open spec fn run(s: Seq<u8>) -> nat
    decreases s.len(),
{
    if s.len() == 0 || s[0] < 128 {
        0
    } else {
        1 + run(s.skip(1))
    }
}

/// The number at the head of `s` ends inside `s`.
pub open spec fn ends(s: Seq<u8>) -> bool {
    run(s) < s.len()
}

/// How many bytes a reader looks at: the whole number, or all of `s` when it does not end.
pub open spec fn touched(s: Seq<u8>) -> nat {
    if ends(s) {
        run(s) + 1
    } else {
        s.len()
    }
}

/// The bytes of the number at the head of `s`.
pub open spec fn head_bytes(s: Seq<u8>) -> Seq<u8> {
    s.take(touched(s) as int)
}

/// Groups of seven bits, least significant group first.
pub open spec fn le128(s: Seq<u8>) -> nat
    decreases s.len(),
{
    if s.len() == 0 {
        0
    } else {
        (s[0] % 128) as nat + 128 * le128(s.skip(1))
    }
}

/// Groups of seven bits, most significant group first.
pub open spec fn be128(s: Seq<u8>) -> nat
    decreases s.len(),
{
    if s.len() == 0 {
        0
    } else {
        128 * be128(s.drop_last()) + (s.last() % 128) as nat
    }
}

/// Groups of seven bits, most significant group first, each continuation counting one extra.
pub open spec fn ofs128(s: Seq<u8>) -> nat
    decreases s.len(),
{
    if s.len() == 0 {
        0
    } else if s.len() == 1 {
        (s[0] % 128) as nat
    } else {
        128 * (ofs128(s.drop_last()) + 1) + (s.last() % 128) as nat
    }
}

/// A pack entry header: three type bits and four size bits, then little-endian groups.
pub open spec fn header_size(s: Seq<u8>) -> nat {
    (s[0] % 16) as nat + 16 * le128(s.skip(1))
}

/// The three type bits of a pack entry header.
pub open spec fn header_code(first: u8) -> u8 {
    ((first / 16) % 8) as u8
}

/// The little-endian encoding of `v`.
pub open spec fn le128_bytes(v: nat) -> Seq<u8>
    decreases v,
{
    if v < 128 {
        seq![v as u8]
    } else {
        seq![(v % 128 + 128) as u8] + le128_bytes(v / 128)
    }
}

/// The groups of `v`, most significant first, all of them continuing.
pub open spec fn be128_groups(v: nat) -> Seq<u8>
    decreases v,
{
    if v == 0 {
        Seq::empty()
    } else {
        be128_groups(v / 128).push((v % 128 + 128) as u8)
    }
}

/// The big-endian encoding of `v`.
pub open spec fn be128_bytes(v: nat) -> Seq<u8> {
    be128_groups(v / 128).push((v % 128) as u8)
}

/// The continuing groups of an offset encoding.
pub open spec fn ofs128_groups(v: nat) -> Seq<u8>
    decreases v,
{
    if v == 0 {
        Seq::empty()
    } else {
        ofs128_groups(((v - 1) / 128) as nat).push(((v - 1) % 128 + 128) as u8)
    }
}

/// The offset encoding of `v`.
pub open spec fn ofs128_bytes(v: nat) -> Seq<u8> {
    ofs128_groups(v / 128).push((v % 128) as u8)
}

/// A pack entry header with type bits `code` and size `size`.
pub open spec fn header_bytes(code: nat, size: nat) -> Seq<u8> {
    if size < 16 {
        seq![(code * 16 + size) as u8]
    } else {
        seq![(code * 16 + size % 16 + 128) as u8] + le128_bytes(size / 16)
    }
}

/// Every byte of `s` but the last announces a further one.
pub open spec fn one_number(s: Seq<u8>) -> bool {
    &&& s.len() > 0
    &&& s.last() < 128
    &&& forall|i: int| 0 <= i < s.len() - 1 ==> s[i] >= 128
}

pub proof fn lemma_run_bounds(s: Seq<u8>)
    ensures
        run(s) <= s.len(),
        forall|i: int| 0 <= i < run(s) ==> s[i] >= 128,
        run(s) < s.len() ==> s[run(s) as int] < 128,
    decreases s.len(),
{
    if s.len() > 0 && s[0] >= 128 {
        lemma_run_bounds(s.skip(1));
        let k = run(s.skip(1));
        assert forall|i: int| 0 <= i < run(s) implies s[i] >= 128 by {
            if i > 0 {
                assert(s.skip(1)[i - 1] == s[i]);
            }
        }
        if run(s) < s.len() {
            assert(s.skip(1)[k as int] == s[k as int + 1]);
        }
    }
}

/// The run is found by looking for the first byte that does not continue.
pub proof fn lemma_run_is(s: Seq<u8>, k: nat)
    requires
        k <= s.len(),
        forall|i: int| 0 <= i < k ==> s[i] >= 128,
        k == s.len() || s[k as int] < 128,
    ensures
        run(s) == k,
    decreases s.len(),
{
    if k > 0 {
        let t = s.skip(1);
        assert forall|i: int| 0 <= i < k - 1 implies t[i] >= 128 by {
            assert(t[i] == s[i + 1]);
        }
        lemma_run_is(t, (k - 1) as nat);
    }
}

/// A number followed by anything is read back as that number.
pub proof fn lemma_head_of_number(n: Seq<u8>, rest: Seq<u8>)
    requires
        one_number(n),
    ensures
        ends(n + rest),
        run(n + rest) == n.len() - 1,
        touched(n + rest) == n.len(),
        head_bytes(n + rest) == n,
{
    let s = n + rest;
    lemma_run_is(s, (n.len() - 1) as nat);
    assert(head_bytes(s) =~= n);
}

/// Reading back a little-endian encoding gives the value that was written.
pub proof fn le128_roundtrip(v: nat)
    ensures
        one_number(le128_bytes(v)),
        le128(le128_bytes(v)) == v,
        v < word() ==> le128_bytes(v).len() <= 10,
    decreases v,
{
    lemma_le128_len(v, 10);
    if v < 128 {
        let s = le128_bytes(v);
        assert(s.skip(1).len() == 0);
        assert(le128(s.skip(1)) == 0);
        assert(s[0] % 128 == v);
    } else {
        le128_roundtrip(v / 128);
        let s = le128_bytes(v);
        let t = le128_bytes(v / 128);
        assert(s.skip(1) =~= t);
        assert(s.last() == t.last());
        assert forall|i: int| 0 <= i < s.len() - 1 implies s[i] >= 128 by {
            if i > 0 {
                assert(s[i] == t[i - 1]);
            }
        }
        assert(s[0] % 128 == v % 128);
    }
}

pub open spec fn pow128(n: nat) -> nat
    decreases n,
{
    if n == 0 {
        1
    } else {
        128 * pow128((n - 1) as nat)
    }
}

pub proof fn lemma_le128_len(v: nat, n: nat)
    requires
        n > 0,
    ensures
        v < pow128(n) ==> le128_bytes(v).len() <= n,
        n == 10 ==> word() <= pow128(n),
    decreases v,
{
    reveal_with_fuel(pow128, 11);
    if v >= 128 && v < pow128(n) {
        if n > 1 {
            lemma_le128_len(v / 128, (n - 1) as nat);
        }
    }
}

/// Reading back a big-endian encoding gives the value that was written.
pub proof fn be128_roundtrip(v: nat)
    ensures
        one_number(be128_bytes(v)),
        be128(be128_bytes(v)) == v,
        v < word() ==> be128_bytes(v).len() <= 10,
{
    lemma_be128_groups(v / 128);
    let s = be128_bytes(v);
    assert(s.drop_last() =~= be128_groups(v / 128));
    lemma_be128_len(v / 128, 9);
}

pub proof fn lemma_be128_groups(v: nat)
    ensures
        be128(be128_groups(v)) == v,
        forall|i: int| 0 <= i < be128_groups(v).len() ==> be128_groups(v)[i] >= 128,
    decreases v,
{
    if v > 0 {
        lemma_be128_groups(v / 128);
        let s = be128_groups(v);
        assert(s.drop_last() =~= be128_groups(v / 128));
        assert(s.last() % 128 == v % 128);
    }
}

proof fn lemma_be128_len(v: nat, n: nat)
    ensures
        v < pow128(n) ==> be128_groups(v).len() <= n,
        n == 9 && v < word() / 128 ==> v < pow128(n),
    decreases v,
{
    reveal_with_fuel(pow128, 11);
    if v > 0 && v < pow128(n) {
        if n > 0 {
            lemma_be128_len(v / 128, (n - 1) as nat);
        }
    }
}

/// Reading back an offset encoding gives the value that was written.
pub proof fn ofs128_roundtrip(v: nat)
    ensures
        one_number(ofs128_bytes(v)),
        ofs128(ofs128_bytes(v)) == v,
        v < word() ==> ofs128_bytes(v).len() <= 10,
{
    lemma_ofs128_groups(v / 128);
    let s = ofs128_bytes(v);
    assert(s.drop_last() =~= ofs128_groups(v / 128));
    lemma_ofs128_len(v / 128, 9);
}

pub proof fn lemma_ofs128_groups(v: nat)
    ensures
        v > 0 ==> ofs128_groups(v).len() > 0 && ofs128(ofs128_groups(v)) == v - 1,
        v == 0 ==> ofs128_groups(v).len() == 0,
        forall|i: int| 0 <= i < ofs128_groups(v).len() ==> ofs128_groups(v)[i] >= 128,
    decreases v,
{
    if v > 0 {
        let w = ((v - 1) / 128) as nat;
        lemma_ofs128_groups(w);
        let s = ofs128_groups(v);
        assert(s.drop_last() =~= ofs128_groups(w));
        assert(s.last() % 128 == (v - 1) % 128);
    }
}

proof fn lemma_ofs128_len(v: nat, n: nat)
    ensures
        v < pow128(n) ==> ofs128_groups(v).len() <= n,
        n == 9 && v < word() / 128 ==> v < pow128(n),
    decreases v,
{
    reveal_with_fuel(pow128, 11);
    if v > 0 && v < pow128(n) {
        if n > 0 {
            lemma_ofs128_len(((v - 1) / 128) as nat, (n - 1) as nat);
        }
    }
}

/// Reading back an entry header gives the type bits and the size that were written.
pub proof fn header_roundtrip(code: nat, size: nat)
    requires
        code < 8,
    ensures
        one_number(header_bytes(code, size)),
        header_code(header_bytes(code, size)[0]) == code,
        header_size(header_bytes(code, size)) == size,
        size < word() ==> header_bytes(code, size).len() <= 10,
{
    let s = header_bytes(code, size);
    if size < 16 {
        assert(s.skip(1).len() == 0);
        assert(le128(s.skip(1)) == 0);
        assert(s[0] == code * 16 + size);
    } else {
        le128_roundtrip(size / 16);
        let t = le128_bytes(size / 16);
        assert(s.skip(1) =~= t);
        assert(s.last() == t.last());
        assert forall|i: int| 0 <= i < s.len() - 1 implies s[i] >= 128 by {
            if i > 0 {
                assert(s[i] == t[i - 1]);
            }
        }
        assert(s[0] == code * 16 + size % 16 + 128);
        lemma_le128_len(size / 16, 9);
        assert(size < word() ==> size / 16 < pow128(9)) by {
            reveal_with_fuel(pow128, 10);
        }
    }
}

/// How many bytes from `pos` on announce a further byte.
pub fn run_at(data: &[u8], pos: usize) -> (k: usize)
    requires
        pos <= data@.len(),
    ensures
        k == run(data@.skip(pos as int)),
        pos + k <= data@.len(),
{
    let ghost s = data@.skip(pos as int);
    let mut i: usize = pos;
    while i < data.len() && data[i] >= 128
        invariant
            pos <= i <= data@.len(),
            s == data@.skip(pos as int),
            forall|j: int| 0 <= j < i - pos ==> s[j] >= 128,
        decreases data@.len() - i,
    {
        i += 1;
    }
    proof {
        lemma_run_is(s, (i - pos) as nat);
    }
    i - pos
}

/// The value of `n` little-endian groups, cut to 64 bits.
pub fn le128_at(data: &[u8], pos: usize, n: usize) -> (v: u64)
    requires
        pos + n <= data@.len(),
    ensures
        v as nat == le128(data@.subrange(pos as int, pos + n)) % word(),
{
    let mut v: u64 = 0;
    let mut i: usize = n;
    proof {
        assert(data@.subrange(pos + n, pos + n).len() == 0);
    }
    while i > 0
        invariant
            i <= n,
            pos + n <= data.len(),
            v as nat == le128(data@.subrange(pos + i, pos + n)) % word(),
        decreases i,
    {
        i -= 1;
        let x: u64 = (data[pos + i] % 128) as u64;
        let ghost tail = data@.subrange(pos + i + 1, pos + n);
        let ghost cur = data@.subrange(pos + i, pos + n);
        proof {
            assert(cur.skip(1) =~= tail);
            assert(cur[0] == data@[pos + i]);
            lemma_horner(le128(tail), x as nat);
        }
        v = v.wrapping_mul(128).wrapping_add(x);
    }
    v
}

pub proof fn lemma_horner(l: nat, x: nat)
    requires
        x < 128,
    ensures
        ((l % word()) * 128 % word() + x) % word() == (x + 128 * l) % word(),
{
    let m = word() as int;
    let li = l as int;
    let q = li / m;
    let r = li % m;
    let r2 = r * 128 % m;
    let q2 = r * 128 / m;
    assert(128 * li + x == (128 * q + q2) * m + (r2 + x));
    vstd::arithmetic::div_mod::lemma_mod_multiples_vanish(128 * q + q2, r2 + x, m);
    assert(m * (128 * q + q2) == (128 * q + q2) * m) by (nonlinear_arith);
}

proof fn lemma_ofs_step(l: nat, x: nat)
    requires
        x < 128,
    ensures
        ((((l % word()) + 1) % word()) * 128 % word() + x) % word() == (128 * (l + 1) + x) % word(),
{
    lemma_horner(l + 1, x);
    vstd::arithmetic::div_mod::lemma_add_mod_noop(l as int, 1, word() as int);
    assert((l + 1) % word() == ((l % word()) + 1) % word());
}

/// The value of `n` offset groups, cut to 64 bits.
pub fn ofs128_at(data: &[u8], pos: usize, n: usize) -> (v: u64)
    requires
        pos + n <= data@.len(),
        n > 0,
    ensures
        v as nat == ofs128(data@.subrange(pos as int, pos + n)) % word(),
{
    let mut v: u64 = (data[pos] % 128) as u64;
    let mut i: usize = 1;
    proof {
        assert(data@.subrange(pos as int, pos + 1).len() == 1);
        assert(data@.subrange(pos as int, pos + 1)[0] == data@[pos as int]);
        assert(ofs128(data@.subrange(pos as int, pos + 1)) == v);
        vstd::arithmetic::div_mod::lemma_small_mod(v as nat, word());
    }
    while i < n
        invariant
            1 <= i <= n,
            pos + n <= data.len(),
            v as nat == ofs128(data@.subrange(pos as int, pos + i)) % word(),
        decreases n - i,
    {
        let x: u64 = (data[pos + i] % 128) as u64;
        let ghost prev = data@.subrange(pos as int, pos + i);
        let ghost cur = data@.subrange(pos as int, pos + i + 1);
        proof {
            assert(cur.drop_last() =~= prev);
            assert(cur.last() == data@[pos + i]);
            lemma_ofs_step(ofs128(prev), x as nat);
        }
        v = v.wrapping_add(1).wrapping_mul(128).wrapping_add(x);
        i += 1;
    }
    v
}

/// Appends the little-endian encoding of `v`.
pub fn push_le128(out: &mut Vec<u8>, v: u64)
    ensures
        final(out)@ == old(out)@ + le128_bytes(v as nat),
{
    let mut rest: u64 = v;
    let ghost start = out@;
    while rest >= 128
        invariant
            start + le128_bytes(v as nat) == out@ + le128_bytes(rest as nat),
        decreases rest,
    {
        let ghost before = out@;
        let ghost r = rest as nat;
        let b: u8 = (rest % 128) as u8 + 128;
        out.push(b);
        rest = rest / 128;
        proof {
            assert(before + le128_bytes(r) =~= out@ + le128_bytes(rest as nat));
        }
    }
    out.push(rest as u8);
    proof {
        assert(out@ =~= start + le128_bytes(v as nat));
    }
}

/// Appends the groups of `v` that precede a final big-endian group.
pub fn push_be128_groups(out: &mut Vec<u8>, v: u64)
    ensures
        final(out)@ == old(out)@ + be128_groups(v as nat),
    decreases v,
{
    if v > 0 {
        push_be128_groups(out, v / 128);
        out.push((v % 128) as u8 + 128);
    }
    proof {
        assert(out@ =~= old(out)@ + be128_groups(v as nat));
    }
}

/// Appends the big-endian encoding of `v`.
pub fn push_be128(out: &mut Vec<u8>, v: u64)
    ensures
        final(out)@ == old(out)@ + be128_bytes(v as nat),
{
    push_be128_groups(out, v / 128);
    out.push((v % 128) as u8);
    proof {
        assert(out@ =~= old(out)@ + be128_bytes(v as nat));
    }
}

/// Appends the continuing groups of an offset encoding.
pub fn push_ofs128_groups(out: &mut Vec<u8>, v: u64)
    ensures
        final(out)@ == old(out)@ + ofs128_groups(v as nat),
    decreases v,
{
    if v > 0 {
        push_ofs128_groups(out, (v - 1) / 128);
        out.push(((v - 1) % 128) as u8 + 128);
    }
    proof {
        assert(out@ =~= old(out)@ + ofs128_groups(v as nat));
    }
}

/// Appends the offset encoding of `v`.
pub fn push_ofs128(out: &mut Vec<u8>, v: u64)
    ensures
        final(out)@ == old(out)@ + ofs128_bytes(v as nat),
{
    push_ofs128_groups(out, v / 128);
    out.push((v % 128) as u8);
    proof {
        assert(out@ =~= old(out)@ + ofs128_bytes(v as nat));
    }
}

/// Appends a pack entry header.
pub fn push_header(out: &mut Vec<u8>, code: u8, size: u64)
    requires
        code < 8,
    ensures
        final(out)@ == old(out)@ + header_bytes(code as nat, size as nat),
{
    if size < 16 {
        out.push(code * 16 + size as u8);
    } else {
        out.push(code * 16 + (size % 16) as u8 + 128);
        push_le128(out, size / 16);
    }
    proof {
        assert(out@ =~= old(out)@ + header_bytes(code as nat, size as nat));
    }
}

/// What a reader finds at the head of a byte sequence.
#[derive(Debug, Clone, Copy, PartialEq, Eq, Structural)]
pub enum Scan {
    /// A number, cut to 64 bits, and how many bytes it takes.
    Value { value: u64, len: usize },
    /// The bytes end before the number does.
    Truncated,
    /// The number takes more bytes than a 64-bit word needs.
    TooLong,
}

/// A little-endian number of at most ten bytes; a tenth byte that continues is too long.
pub open spec fn le128_scan(s: Seq<u8>) -> Scan {
    if run(s) >= 10 {
        Scan::TooLong
    } else if !ends(s) {
        Scan::Truncated
    } else {
        Scan::Value { value: (le128(head_bytes(s)) % word()) as u64, len: touched(s) as usize }
    }
}

/// A little-endian number of at most ten bytes; an eleventh byte is too long.
pub open spec fn le128_scan_late(s: Seq<u8>) -> Scan {
    if run(s) >= 10 && s.len() > 10 {
        Scan::TooLong
    } else if !ends(s) {
        Scan::Truncated
    } else {
        Scan::Value { value: (le128(head_bytes(s)) % word()) as u64, len: touched(s) as usize }
    }
}

/// Reads the little-endian number at `pos`.
pub fn scan_le128(data: &[u8], pos: usize) -> (r: Scan)
    requires
        pos <= data@.len(),
    ensures
        r == le128_scan(data@.skip(pos as int)),
        r matches Scan::Value { len, .. } ==> len > 0 && pos + len <= data@.len(),
{
    let k: usize = run_at(data, pos);
    let ghost s = data@.skip(pos as int);
    if k >= 10 {
        Scan::TooLong
    } else if k >= data.len() - pos {
        Scan::Truncated
    } else {
        assert(head_bytes(s) =~= data@.subrange(pos as int, pos + k + 1));
        Scan::Value { value: le128_at(data, pos, k + 1), len: k + 1 }
    }
}

/// Reads the little-endian number at `pos`, noticing an excess only at the eleventh byte.
pub fn scan_le128_late(data: &[u8], pos: usize) -> (r: Scan)
    requires
        pos <= data@.len(),
    ensures
        r == le128_scan_late(data@.skip(pos as int)),
        r matches Scan::Value { len, .. } ==> len > 0 && pos + len <= data@.len(),
{
    let k: usize = run_at(data, pos);
    let ghost s = data@.skip(pos as int);
    if k >= 10 && data.len() - pos > 10 {
        Scan::TooLong
    } else if k >= data.len() - pos {
        Scan::Truncated
    } else {
        assert(head_bytes(s) =~= data@.subrange(pos as int, pos + k + 1));
        Scan::Value { value: le128_at(data, pos, k + 1), len: k + 1 }
    }
}

/// The size of the pack entry header at `pos`, cut to 64 bits, given its length.
pub fn header_size_at(data: &[u8], pos: usize, n: usize) -> (v: u64)
    requires
        pos + n <= data@.len(),
        n > 0,
    ensures
        v as nat == header_size(data@.subrange(pos as int, pos + n)) % word(),
{
    let low: u64 = (data[pos] % 16) as u64;
    let rest: u64 = le128_at(data, pos + 1, n - 1);
    proof {
        let h = data@.subrange(pos as int, pos + n);
        assert(h.skip(1) =~= data@.subrange(pos + 1, pos + n));
        lemma_horner16(le128(h.skip(1)), low as nat);
    }
    rest.wrapping_mul(16).wrapping_add(low)
}

proof fn lemma_horner16(l: nat, x: nat)
    requires
        x < 16,
    ensures
        ((l % word()) * 16 % word() + x) % word() == (x + 16 * l) % word(),
{
    let m = word() as int;
    let li = l as int;
    let q = li / m;
    let r = li % m;
    let r2 = r * 16 % m;
    let q2 = r * 16 / m;
    assert(16 * li + x == (16 * q + q2) * m + (r2 + x));
    vstd::arithmetic::div_mod::lemma_mod_multiples_vanish(16 * q + q2, r2 + x, m);
    assert(m * (16 * q + q2) == (16 * q + q2) * m) by (nonlinear_arith);
}

} // verus!
