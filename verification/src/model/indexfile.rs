//! The bytes of a version 2 pack index.
use vstd::prelude::*;
use crate::model::bytes::{be32, be32_bytes, push_all, push_be32};
use crate::model::outside::{sha1, sha1_of};
use crate::model::sort::{id_keys, ints, is_order, order, order_ids};

verus! {

/// Words, one after another.
pub open spec fn word_bytes(ws: Seq<u32>) -> Seq<u8>
    decreases ws.len(),
{
    if ws.len() == 0 {
        Seq::empty()
    } else {
        word_bytes(ws.drop_last()) + be32_bytes(ws.last())
    }
}

/// Byte strings, one after another.
pub open spec fn joined_bytes(parts: Seq<Seq<u8>>) -> Seq<u8>
    decreases parts.len(),
{
    if parts.len() == 0 {
        Seq::empty()
    } else {
        joined_bytes(parts.drop_last()) + parts.last()
    }
}

/// How many of the ids begin with a byte that is at most `b`.
pub open spec fn count_upto(ids: Seq<Seq<u8>>, b: nat) -> nat
    decreases ids.len(),
{
    if ids.len() == 0 {
        0
    } else {
        count_upto(ids.drop_last(), b) + if ids.last()[0] <= b {
            1nat
        } else {
            0nat
        }
    }
}

/// The fanout table of the ids.
pub open spec fn fanout_words(ids: Seq<Seq<u8>>) -> Seq<u32> {
    Seq::new(256, |b: int| count_upto(ids, b as nat) as u32)
}

/// The values at the places that `o` lists.
pub open spec fn picked<T>(v: Seq<T>, o: Seq<int>) -> Seq<T> {
    Seq::new(o.len(), |i: int| v[o[i]])
}

/// The magic number and the version of an index.
pub open spec fn index_head() -> Seq<u8> {
    seq![255u8, 116, 79, 99, 0, 0, 0, 2]
}

/// An index without its own checksum.
pub open spec fn index_body(
    ids: Seq<Seq<u8>>,
    crcs: Seq<u32>,
    offs: Seq<u32>,
    pack_sum: Seq<u8>,
) -> Seq<u8> {
    let o = order(ids, ids.len());
    index_head() + word_bytes(fanout_words(ids)) + joined_bytes(picked(ids, o)) + word_bytes(
        picked(crcs, o),
    ) + word_bytes(picked(offs, o)) + pack_sum
}

/// An index: its ids sorted, with the CRC and the offset of each, and two checksums.
pub open spec fn index_file(
    ids: Seq<Seq<u8>>,
    crcs: Seq<u32>,
    offs: Seq<u32>,
    pack_sum: Seq<u8>,
) -> Seq<u8> {
    let b = index_body(ids, crcs, offs, pack_sum);
    b + sha1_of(b)
}

proof fn lemma_count_bound(ids: Seq<Seq<u8>>, b: nat)
    ensures
        count_upto(ids, b) <= ids.len(),
    decreases ids.len(),
{
    if ids.len() > 0 {
        lemma_count_bound(ids.drop_last(), b);
    }
}

fn fan_count(ids: &Vec<[u8; 20]>, b: usize) -> (k: u32)
    requires
        ids@.len() <= u32::MAX,
        b < 256,
    ensures
        k == count_upto(id_keys(ids@), b as nat),
{
    let ghost keys = id_keys(ids@);
    let mut k: u32 = 0;
    let mut i: usize = 0;
    assert(keys.take(0).len() == 0);
    while i < ids.len()
        invariant
            i <= ids@.len(),
            ids@.len() <= u32::MAX,
            keys == id_keys(ids@),
            b < 256,
            k <= i,
            k == count_upto(keys.take(i as int), b as nat),
        decreases ids@.len() - i,
    {
        proof {
            assert(keys.take(i + 1).drop_last() =~= keys.take(i as int));
        }
        if ids[i][0] as usize <= b {
            k += 1;
        }
        i += 1;
    }
    assert(keys.take(i as int) =~= keys);
    k
}

/// Writes an index.
pub fn write_index(ids: &Vec<[u8; 20]>, crcs: &Vec<u32>, offs: &Vec<u32>, pack_sum: &[u8]) -> (out: Vec<u8>)
    requires
        ids@.len() <= u32::MAX,
        crcs@.len() == ids@.len(),
        offs@.len() == ids@.len(),
    ensures
        out@ == index_file(id_keys(ids@), crcs@, offs@, pack_sum@),
{
    let ghost keys = id_keys(ids@);
    let o = order_ids(ids);
    let ghost oi = ints(o@);
    let n: usize = ids.len();
    let mut out: Vec<u8> = Vec::new();
    out.push(255);
    out.push(116);
    out.push(79);
    out.push(99);
    push_be32(&mut out, 2);
    assert(out@ =~= index_head());
    let ghost s0 = out@;
    let mut b: usize = 0;
    assert(s0 + word_bytes(fanout_words(keys).take(0)) =~= s0);
    while b < 256
        invariant
            b <= 256,
            ids@.len() <= u32::MAX,
            keys == id_keys(ids@),
            out@ == s0 + word_bytes(fanout_words(keys).take(b as int)),
        decreases 256 - b,
    {
        push_be32(&mut out, fan_count(ids, b));
        proof {
            let t = fanout_words(keys).take(b + 1);
            assert(t.drop_last() =~= fanout_words(keys).take(b as int));
            assert(out@ =~= s0 + word_bytes(t));
        }
        b += 1;
    }
    assert(fanout_words(keys).take(256) =~= fanout_words(keys));
    let ghost s1 = out@;
    let mut i: usize = 0;
    assert(s1 + joined_bytes(picked(keys, oi).take(0)) =~= s1);
    while i < n
        invariant
            i <= n,
            n == ids@.len(),
            keys == id_keys(ids@),
            oi == ints(o@),
            is_order(oi, keys, n as nat),
            out@ == s1 + joined_bytes(picked(keys, oi).take(i as int)),
        decreases n - i,
    {
        assert(0 <= oi[i as int] < n);
        push_all(&mut out, ids[o[i]].as_slice());
        proof {
            let t = picked(keys, oi).take(i + 1);
            assert(t.drop_last() =~= picked(keys, oi).take(i as int));
            assert(out@ =~= s1 + joined_bytes(t));
        }
        i += 1;
    }
    assert(picked(keys, oi).take(n as int) =~= picked(keys, oi));
    push_words(&mut out, crcs, &o);
    push_words(&mut out, offs, &o);
    push_all(&mut out, pack_sum);
    assert(out@ =~= index_body(keys, crcs@, offs@, pack_sum@));
    let sum = sha1(out.as_slice());
    push_all(&mut out, sum.as_slice());
    out
}

fn push_words(out: &mut Vec<u8>, ws: &Vec<u32>, o: &Vec<usize>)
    requires
        o@.len() == ws@.len(),
        forall|i: int| 0 <= i < o@.len() ==> (#[trigger] ints(o@)[i]) < ws@.len(),
    ensures
        final(out)@ == old(out)@ + word_bytes(picked(ws@, ints(o@))),
{
    let ghost start = out@;
    let ghost all = picked(ws@, ints(o@));
    let mut i: usize = 0;
    assert(start + word_bytes(all.take(0)) =~= start);
    while i < o.len()
        invariant
            i <= o@.len(),
            o@.len() == ws@.len(),
            all == picked(ws@, ints(o@)),
            forall|i: int| 0 <= i < o@.len() ==> (#[trigger] ints(o@)[i]) < ws@.len(),
            out@ == start + word_bytes(all.take(i as int)),
        decreases o@.len() - i,
    {
        assert(ints(o@)[i as int] < ws@.len());
        push_be32(out, ws[o[i]]);
        proof {
            let t = all.take(i + 1);
            assert(t.drop_last() =~= all.take(i as int));
            assert(out@ =~= start + word_bytes(t));
        }
        i += 1;
    }
    assert(all.take(i as int) =~= all);
}

pub proof fn lemma_words(ws: Seq<u32>, i: int)
    requires
        0 <= i < ws.len(),
    ensures
        word_bytes(ws).len() == 4 * ws.len(),
        word_bytes(ws).subrange(4 * i, 4 * i + 4) == be32_bytes(ws[i]),
    decreases ws.len(),
{
    let t = ws.drop_last();
    lemma_words_len(ws);
    lemma_words_len(t);
    if i < ws.len() - 1 {
        lemma_words(t, i);
        assert(word_bytes(ws).subrange(4 * i, 4 * i + 4) =~= word_bytes(t).subrange(4 * i, 4 * i + 4));
    } else {
        assert(word_bytes(ws).subrange(4 * i, 4 * i + 4) =~= be32_bytes(ws.last()));
    }
}

pub proof fn lemma_words_len(ws: Seq<u32>)
    ensures
        word_bytes(ws).len() == 4 * ws.len(),
    decreases ws.len(),
{
    if ws.len() > 0 {
        lemma_words_len(ws.drop_last());
    }
}

pub proof fn lemma_parts_len(parts: Seq<Seq<u8>>)
    requires
        forall|i: int| 0 <= i < parts.len() ==> (#[trigger] parts[i]).len() == 20,
    ensures
        joined_bytes(parts).len() == 20 * parts.len(),
    decreases parts.len(),
{
    if parts.len() > 0 {
        let t = parts.drop_last();
        assert forall|i: int| 0 <= i < t.len() implies (#[trigger] t[i]).len() == 20 by {
            assert(t[i] == parts[i]);
        }
        lemma_parts_len(t);
        assert(parts[parts.len() - 1].len() == 20);
    }
}

pub proof fn lemma_parts(parts: Seq<Seq<u8>>, i: int)
    requires
        0 <= i < parts.len(),
        forall|i: int| 0 <= i < parts.len() ==> (#[trigger] parts[i]).len() == 20,
    ensures
        joined_bytes(parts).subrange(20 * i, 20 * i + 20) == parts[i],
    decreases parts.len(),
{
    let t = parts.drop_last();
    assert forall|i: int| 0 <= i < t.len() implies (#[trigger] t[i]).len() == 20 by {
        assert(t[i] == parts[i]);
    }
    lemma_parts_len(parts);
    lemma_parts_len(t);
    assert(parts[parts.len() - 1].len() == 20);
    if i < parts.len() - 1 {
        lemma_parts(t, i);
        assert(joined_bytes(parts).subrange(20 * i, 20 * i + 20) =~= joined_bytes(t).subrange(
            20 * i,
            20 * i + 20,
        ));
    } else {
        assert(joined_bytes(parts).subrange(20 * i, 20 * i + 20) =~= parts[i]);
    }
}

pub proof fn lemma_word_in(s: Seq<u8>, at: int, w: u32)
    requires
        0 <= at,
        at + 4 <= s.len(),
        s.subrange(at, at + 4) == be32_bytes(w),
    ensures
        be32(s, at) == w,
{
    let b = be32_bytes(w);
    assert(s[at] == s.subrange(at, at + 4)[0]);
    assert(s[at + 1] == s.subrange(at, at + 4)[1]);
    assert(s[at + 2] == s.subrange(at, at + 4)[2]);
    assert(s[at + 3] == s.subrange(at, at + 4)[3]);
}

/// Where everything stands in an index that was written: the count, and for each place in the
/// sorted order the id, the CRC and the offset word of the entry that belongs there.
#[verifier::rlimit(60)]
#[verifier::spinoff_prover]
pub proof fn index_file_layout(
    ids: Seq<Seq<u8>>,
    crcs: Seq<u32>,
    offs: Seq<u32>,
    pack_sum: Seq<u8>,
    i: int,
)
    requires
        ids.len() <= u32::MAX,
        crcs.len() == ids.len(),
        offs.len() == ids.len(),
        pack_sum.len() == 20,
        forall|j: int| 0 <= j < ids.len() ==> (#[trigger] ids[j]).len() == 20,
        0 <= i < ids.len(),
    ensures
        ({
            let f = index_file(ids, crcs, offs, pack_sum);
            let n = ids.len() as int;
            let o = order(ids, ids.len());
            &&& index_body(ids, crcs, offs, pack_sum).len() == 1052 + n * 28
            &&& be32(f, 4) == 2
            &&& be32(f, 1028) == n
            &&& f.subrange(1032 + i * 20, 1032 + i * 20 + 20) == ids[o[i]]
            &&& be32(f, 1032 + n * 20 + i * 4) == crcs[o[i]]
            &&& be32(f, 1032 + n * 24 + i * 4) == offs[o[i]]
            &&& f.subrange(1032 + n * 28, 1052 + n * 28) == pack_sum
        }),
{
    let f = index_file(ids, crcs, offs, pack_sum);
    let n = ids.len() as int;
    let o = order(ids, ids.len());
    crate::model::sort::order_is_sorted(ids, ids.len());
    let p1 = word_bytes(fanout_words(ids));
    let p2 = joined_bytes(picked(ids, o));
    let p3 = word_bytes(picked(crcs, o));
    let p4 = word_bytes(picked(offs, o));
    assert forall|j: int| 0 <= j < picked(ids, o).len() implies (#[trigger] picked(ids, o)[j]).len() == 20 by {
        assert(0 <= o[j] < n);
    }
    lemma_words_len(fanout_words(ids));
    lemma_parts_len(picked(ids, o));
    lemma_words_len(picked(crcs, o));
    lemma_words_len(picked(offs, o));
    let h = index_head();
    let a2 = h + p1;
    let a3 = a2 + p2;
    let a4 = a3 + p3;
    let a5 = a4 + p4;
    let a6 = a5 + pack_sum;
    lemma_prefix(a6, sha1_of(a6), f);
    lemma_prefix(a5, pack_sum, a6);
    lemma_prefix(a4, p4, a5);
    lemma_prefix(a3, p3, a4);
    lemma_prefix(a2, p2, a3);
    lemma_prefix(h, p1, a2);
    assert(Seq::<u8>::empty() + h =~= h);
    lemma_inside(f, Seq::empty(), h, 4, 8);
    assert(h.subrange(4, 8) =~= be32_bytes(2));
    lemma_word_in(f, 4, 2);
    lemma_words(fanout_words(ids), 255);
    lemma_inside(f, h, p1, 1020, 1024);
    lemma_count_all(ids);
    lemma_word_in(f, 1028, n as u32);
    lemma_parts(picked(ids, o), i);
    lemma_inside(f, a2, p2, 20 * i, 20 * i + 20);
    lemma_words(picked(crcs, o), i);
    lemma_inside(f, a3, p3, 4 * i, 4 * i + 4);
    lemma_word_in(f, 1032 + n * 20 + i * 4, crcs[o[i]]);
    lemma_words(picked(offs, o), i);
    lemma_inside(f, a4, p4, 4 * i, 4 * i + 4);
    lemma_word_in(f, 1032 + n * 24 + i * 4, offs[o[i]]);
    lemma_inside(f, a5, pack_sum, 0, 20);
    assert(pack_sum.subrange(0, 20) =~= pack_sum);
}

/// `a`, the head of `b`, is a head of whatever `b` is a head of.
pub proof fn lemma_prefix(a: Seq<u8>, m: Seq<u8>, b: Seq<u8>)
    requires
        b == a + m,
    ensures
        a.is_prefix_of(b),
        forall|f: Seq<u8>| b.is_prefix_of(f) ==> #[trigger] a.is_prefix_of(f),
{
    assert(a =~= b.subrange(0, a.len() as int));
    assert forall|f: Seq<u8>| b.is_prefix_of(f) implies #[trigger] a.is_prefix_of(f) by {
        assert(a =~= f.subrange(0, a.len() as int)) by {
            assert(b == f.subrange(0, b.len() as int));
        }
    }
}

/// What stands in `m` stands in `f` behind `a`, when `f` begins with `a` and `m`.
pub proof fn lemma_inside(f: Seq<u8>, a: Seq<u8>, m: Seq<u8>, x: int, y: int)
    requires
        (a + m).is_prefix_of(f),
        0 <= x <= y <= m.len(),
    ensures
        f.subrange(a.len() + x, a.len() + y) == m.subrange(x, y),
{
    let b = a + m;
    assert(b == f.subrange(0, b.len() as int));
    let s = f.subrange(a.len() + x, a.len() + y);
    let t = m.subrange(x, y);
    assert forall|k: int| 0 <= k < y - x implies #[trigger] s[k] == t[k] by {
        assert(b[a.len() + x + k] == f[a.len() + x + k]);
    }
    assert(s =~= t);
}

proof fn lemma_count_all(ids: Seq<Seq<u8>>)
    ensures
        count_upto(ids, 255) == ids.len(),
    decreases ids.len(),
{
    if ids.len() > 0 {
        lemma_count_all(ids.drop_last());
    }
}

} // verus!
