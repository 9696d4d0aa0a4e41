//! Pack indexes as lists of rows: the bytes that stand for them in either version of the format,
//! offsets beyond 31 bits included, and where each row stands.
use vstd::prelude::*;
use crate::model::bytes::{be32, be32_bytes, be64, be64_bytes};
use crate::model::indexfile::{
    joined_bytes, lemma_inside, lemma_parts, lemma_parts_len, lemma_prefix, lemma_word_in, lemma_words,
    lemma_words_len, word_bytes,
};

verus! {

/// A row of an index.
pub ghost struct Row {
    pub oid: Seq<u8>,
    pub crc: u32,
    pub offset: u64,
}

/// How many of the first `n` rows have an offset that does not fit 31 bits.
pub open spec fn far(rows: Seq<Row>, n: nat) -> nat
    decreases n,
{
    if n == 0 {
        0
    } else {
        far(rows, (n - 1) as nat) + if rows[n - 1].offset >= 0x8000_0000 {
            1nat
        } else {
            0nat
        }
    }
}

/// The offsets among the first `n` rows that do not fit 31 bits.
pub open spec fn far_offsets(rows: Seq<Row>, n: nat) -> Seq<u64>
    decreases n,
{
    if n == 0 {
        Seq::empty()
    } else if rows[n - 1].offset >= 0x8000_0000 {
        far_offsets(rows, (n - 1) as nat).push(rows[n - 1].offset)
    } else {
        far_offsets(rows, (n - 1) as nat)
    }
}

/// The offset word of row `i`: its offset, or the place of its offset among the long ones, with the
/// top bit set.
pub open spec fn word_of(rows: Seq<Row>, i: int) -> u32 {
    if rows[i].offset >= 0x8000_0000 {
        (0x8000_0000 + far(rows, i as nat)) as u32
    } else {
        rows[i].offset as u32
    }
}

/// Long words, one after another.
pub open spec fn long_bytes(v: Seq<u64>) -> Seq<u8>
    decreases v.len(),
{
    if v.len() == 0 {
        Seq::empty()
    } else {
        long_bytes(v.drop_last()) + be64_bytes(v.last())
    }
}

/// The ids of rows.
pub open spec fn ids_of(rows: Seq<Row>) -> Seq<Seq<u8>> {
    rows.map_values(|r: Row| r.oid)
}

/// The checksums of rows.
pub open spec fn crcs_of(rows: Seq<Row>) -> Seq<u32> {
    rows.map_values(|r: Row| r.crc)
}

/// The offset words of rows.
pub open spec fn words_of(rows: Seq<Row>) -> Seq<u32> {
    Seq::new(rows.len(), |i: int| word_of(rows, i))
}

/// The bytes of a version 2 index with these rows.
pub open spec fn new_index(rows: Seq<Row>, fan: Seq<u32>, pack_sum: Seq<u8>, sum: Seq<u8>) -> Seq<u8> {
    seq![255u8, 116, 79, 99, 0, 0, 0, 2] + word_bytes(fan) + joined_bytes(ids_of(rows)) + word_bytes(crcs_of(rows))
        + word_bytes(words_of(rows)) + long_bytes(far_offsets(rows, rows.len())) + pack_sum + sum
}

/// The bytes of the rows of a version 1 index: offset and id, by turns.
pub open spec fn old_rows(rows: Seq<Row>) -> Seq<u8>
    decreases rows.len(),
{
    if rows.len() == 0 {
        Seq::empty()
    } else {
        old_rows(rows.drop_last()) + (be32_bytes(rows.last().offset as u32) + rows.last().oid)
    }
}

/// The bytes of a version 1 index with these rows.
pub open spec fn old_index(rows: Seq<Row>, fan: Seq<u32>, pack_sum: Seq<u8>, sum: Seq<u8>) -> Seq<u8> {
    word_bytes(fan) + old_rows(rows) + pack_sum + sum
}

/// Rows, a fanout table and two checksums that make an index.
pub open spec fn make_index(rows: Seq<Row>, fan: Seq<u32>, pack_sum: Seq<u8>, sum: Seq<u8>) -> bool {
    &&& fan.len() == 256
    &&& fan[255] == rows.len()
    &&& far(rows, rows.len()) < 0x8000_0000
    &&& forall|i: int| 0 <= i < rows.len() ==> (#[trigger] rows[i]).oid.len() == 20
    &&& pack_sum.len() == 20
    &&& sum.len() == 20
}

/// The bytes are those of a version 2 index with these rows.
pub open spec fn is_new_index(b: Seq<u8>, rows: Seq<Row>, fan: Seq<u32>, pack_sum: Seq<u8>, sum: Seq<u8>) -> bool {
    make_index(rows, fan, pack_sum, sum) && b == new_index(rows, fan, pack_sum, sum)
}

/// The bytes are those of a version 1 index with these rows. Its fanout table does not begin as a
/// later version does.
pub open spec fn is_old_index(b: Seq<u8>, rows: Seq<Row>, fan: Seq<u32>, pack_sum: Seq<u8>, sum: Seq<u8>) -> bool {
    &&& make_index(rows, fan, pack_sum, sum)
    &&& fan[0] != 0xff74_4f63
    &&& forall|i: int| 0 <= i < rows.len() ==> (#[trigger] rows[i]).offset <= u32::MAX
    &&& b == old_index(rows, fan, pack_sum, sum)
}

proof fn lemma_far(rows: Seq<Row>, n: nat, i: int)
    requires
        n <= rows.len(),
        0 <= i < rows.len(),
    ensures
        far_offsets(rows, n).len() == far(rows, n),
        i < n ==> far(rows, i as nat) <= far(rows, n),
        i < n && rows[i].offset >= 0x8000_0000 ==> far(rows, i as nat) < far(rows, n) && far_offsets(rows, n)[far(
            rows,
            i as nat,
        ) as int] == rows[i].offset,
    decreases n,
{
    if n > 0 {
        lemma_far(rows, (n - 1) as nat, i);
    }
}

proof fn lemma_long_len(v: Seq<u64>)
    ensures
        long_bytes(v).len() == 8 * v.len(),
    decreases v.len(),
{
    if v.len() > 0 {
        lemma_long_len(v.drop_last());
    }
}

proof fn lemma_long(v: Seq<u64>, i: int)
    requires
        0 <= i < v.len(),
    ensures
        long_bytes(v).subrange(8 * i, 8 * i + 8) == be64_bytes(v[i]),
    decreases v.len(),
{
    let t = v.drop_last();
    lemma_long_len(v);
    lemma_long_len(t);
    if i < v.len() - 1 {
        lemma_long(t, i);
        assert(long_bytes(v).subrange(8 * i, 8 * i + 8) =~= long_bytes(t).subrange(8 * i, 8 * i + 8));
    } else {
        assert(long_bytes(v).subrange(8 * i, 8 * i + 8) =~= be64_bytes(v.last()));
    }
}

proof fn lemma_halves(s: Seq<u8>, at: int, h: Seq<u8>, l: Seq<u8>)
    requires
        0 <= at,
        at + 8 <= s.len(),
        h.len() == 4,
        l.len() == 4,
        s.subrange(at, at + 8) == h + l,
    ensures
        s.subrange(at, at + 4) == h,
        s.subrange(at + 4, at + 4 + 4) == l,
{
    let b = s.subrange(at, at + 8);
    assert(b.subrange(0, 4) =~= h);
    assert(b.subrange(4, 8) =~= l);
    assert(s.subrange(at, at + 4) =~= b.subrange(0, 4));
    assert(s.subrange(at + 4, at + 4 + 4) =~= b.subrange(4, 8));
}

proof fn lemma_long_in(s: Seq<u8>, at: int, w: u64)
    requires
        0 <= at,
        at + 8 <= s.len(),
        s.subrange(at, at + 8) == be64_bytes(w),
    ensures
        be64(s, at) == w,
{
    let h = (w / 0x1_0000_0000) as u32;
    let l = (w % 0x1_0000_0000) as u32;
    let b = s.subrange(at, at + 8);
    lemma_halves(s, at, be32_bytes(h), be32_bytes(l));
    lemma_word_in(s, at, h);
    lemma_word_in(s, at + 4, l);
}

/// Where everything stands in a version 2 index: the fanout table, the id, the checksum and the
/// offset word of each row, the long offsets, and the checksums at the end.
#[verifier::rlimit(60)]
#[verifier::spinoff_prover]
pub proof fn new_index_layout(rows: Seq<Row>, fan: Seq<u32>, pack_sum: Seq<u8>, sum: Seq<u8>)
    requires
        make_index(rows, fan, pack_sum, sum),
    ensures
        ({
            let f = new_index(rows, fan, pack_sum, sum);
            let n = rows.len() as int;
            let end = 1032 + n * 28 + far(rows, rows.len()) * 8;
            &&& f.len() == end + 40
            &&& seq![255u8, 116, 79, 99].is_prefix_of(f)
            &&& be32(f, 4) == 2
            &&& f.subrange(end, end + 20) == pack_sum
            &&& f.subrange(end + 20, end + 40) == sum
        }),
        forall|j: int| 0 <= j < 256 ==> be32(new_index(rows, fan, pack_sum, sum), 8 + j * 4) == #[trigger] fan[j],
        be32(new_index(rows, fan, pack_sum, sum), 1028) == rows.len(),
{
    let f = new_index(rows, fan, pack_sum, sum);
    let n = rows.len() as int;
    let h = seq![255u8, 116, 79, 99, 0, 0, 0, 2];
    let p1 = word_bytes(fan);
    let p2 = joined_bytes(ids_of(rows));
    let p3 = word_bytes(crcs_of(rows));
    let p4 = word_bytes(words_of(rows));
    let p5 = long_bytes(far_offsets(rows, rows.len()));
    lemma_words_len(fan);
    assert forall|i: int| 0 <= i < ids_of(rows).len() implies (#[trigger] ids_of(rows)[i]).len() == 20 by {
        assert(rows[i].oid.len() == 20);
    }
    lemma_parts_len(ids_of(rows));
    lemma_words_len(crcs_of(rows));
    lemma_words_len(words_of(rows));
    lemma_long_len(far_offsets(rows, rows.len()));
    if n > 0 {
        lemma_far(rows, rows.len(), 0);
    }
    let a2 = h + p1;
    let a3 = a2 + p2;
    let a4 = a3 + p3;
    let a5 = a4 + p4;
    let a6 = a5 + p5;
    let a7 = a6 + pack_sum;
    lemma_prefix(a7, sum, f);
    lemma_prefix(a6, pack_sum, a7);
    lemma_prefix(a5, p5, a6);
    lemma_prefix(a4, p4, a5);
    lemma_prefix(a3, p3, a4);
    lemma_prefix(a2, p2, a3);
    lemma_prefix(h, p1, a2);
    assert(Seq::<u8>::empty() + h =~= h);
    lemma_inside(f, Seq::empty(), h, 4, 8);
    assert(h.subrange(4, 8) =~= be32_bytes(2));
    lemma_word_in(f, 4, 2);
    lemma_inside(f, Seq::empty(), h, 0, 4);
    assert(h.subrange(0, 4) =~= seq![255u8, 116, 79, 99]);
    assert forall|j: int| 0 <= j < 256 implies be32(f, 8 + j * 4) == #[trigger] fan[j] by {
        lemma_words(fan, j);
        lemma_inside(f, h, p1, 4 * j, 4 * j + 4);
        lemma_word_in(f, 8 + j * 4, fan[j]);
    }
    assert(be32(f, 8 + 255int * 4) == fan[255]);
    assert(f == a7 + sum);
    assert((a7 + sum).is_prefix_of(f)) by {
        assert(f.subrange(0, f.len() as int) =~= f);
    }
    lemma_inside(f, a6, pack_sum, 0, 20);
    lemma_inside(f, a7, sum, 0, 20);
    assert(pack_sum.subrange(0, 20) =~= pack_sum);
    assert(sum.subrange(0, 20) =~= sum);
}

/// Where row `i` stands in a version 2 index.
#[verifier::rlimit(60)]
#[verifier::spinoff_prover]
pub proof fn new_index_row(rows: Seq<Row>, fan: Seq<u32>, pack_sum: Seq<u8>, sum: Seq<u8>, i: int)
    requires
        make_index(rows, fan, pack_sum, sum),
        0 <= i < rows.len(),
    ensures
        ({
            let f = new_index(rows, fan, pack_sum, sum);
            let n = rows.len() as int;
            let word = be32(f, 1032 + n * 24 + i * 4);
            &&& f.subrange(1032 + i * 20, 1032 + i * 20 + 20) == rows[i].oid
            &&& be32(f, 1032 + n * 20 + i * 4) == rows[i].crc
            &&& word == word_of(rows, i)
            &&& far(rows, i as nat) <= far(rows, rows.len())
            &&& word >= 0x8000_0000 <==> rows[i].offset >= 0x8000_0000
            &&& word < 0x8000_0000 ==> word == rows[i].offset
            &&& word >= 0x8000_0000 ==> word - 0x8000_0000 == far(rows, i as nat) && far(rows, i as nat) < far(
                rows,
                rows.len(),
            ) && be64(f, 1032 + n * 28 + far(rows, i as nat) * 8) == rows[i].offset
        }),
{
    let f = new_index(rows, fan, pack_sum, sum);
    let n = rows.len() as int;
    let h = seq![255u8, 116, 79, 99, 0, 0, 0, 2];
    let p1 = word_bytes(fan);
    let p2 = joined_bytes(ids_of(rows));
    let p3 = word_bytes(crcs_of(rows));
    let p4 = word_bytes(words_of(rows));
    let p5 = long_bytes(far_offsets(rows, rows.len()));
    lemma_words_len(fan);
    assert forall|j: int| 0 <= j < ids_of(rows).len() implies (#[trigger] ids_of(rows)[j]).len() == 20 by {
        assert(rows[j].oid.len() == 20);
    }
    lemma_parts_len(ids_of(rows));
    lemma_words_len(crcs_of(rows));
    lemma_words_len(words_of(rows));
    lemma_long_len(far_offsets(rows, rows.len()));
    lemma_far(rows, rows.len(), i);
    let a2 = h + p1;
    let a3 = a2 + p2;
    let a4 = a3 + p3;
    let a5 = a4 + p4;
    let a6 = a5 + p5;
    let a7 = a6 + pack_sum;
    lemma_prefix(a7, sum, f);
    lemma_prefix(a6, pack_sum, a7);
    lemma_prefix(a5, p5, a6);
    lemma_prefix(a4, p4, a5);
    lemma_prefix(a3, p3, a4);
    lemma_prefix(a2, p2, a3);
    lemma_parts(ids_of(rows), i);
    lemma_inside(f, a2, p2, 20 * i, 20 * i + 20);
    lemma_words(crcs_of(rows), i);
    lemma_inside(f, a3, p3, 4 * i, 4 * i + 4);
    lemma_word_in(f, 1032 + n * 20 + i * 4, rows[i].crc);
    lemma_words(words_of(rows), i);
    lemma_inside(f, a4, p4, 4 * i, 4 * i + 4);
    lemma_word_in(f, 1032 + n * 24 + i * 4, word_of(rows, i));
    if rows[i].offset >= 0x8000_0000 {
        let k = far(rows, i as nat) as int;
        lemma_long(far_offsets(rows, rows.len()), k);
        lemma_inside(f, a5, p5, 8 * k, 8 * k + 8);
        lemma_long_in(f, 1032 + n * 28 + k * 8, rows[i].offset);
    }
}

proof fn lemma_old_rows(rows: Seq<Row>, i: int)
    requires
        forall|j: int| 0 <= j < rows.len() ==> (#[trigger] rows[j]).oid.len() == 20,
    ensures
        old_rows(rows).len() == 24 * rows.len(),
        0 <= i < rows.len() ==> old_rows(rows).subrange(24 * i, 24 * i + 4) == be32_bytes(rows[i].offset as u32)
            && old_rows(rows).subrange(24 * i + 4, 24 * i + 24) == rows[i].oid,
    decreases rows.len(),
{
    if rows.len() > 0 {
        let t = rows.drop_last();
        assert forall|j: int| 0 <= j < t.len() implies (#[trigger] t[j]).oid.len() == 20 by {
            assert(t[j] == rows[j]);
        }
        lemma_old_rows(t, i);
        assert(rows[rows.len() - 1].oid.len() == 20);
        let b = old_rows(rows);
        if 0 <= i < t.len() {
            assert(b.subrange(24 * i, 24 * i + 4) =~= old_rows(t).subrange(24 * i, 24 * i + 4));
            assert(b.subrange(24 * i + 4, 24 * i + 24) =~= old_rows(t).subrange(24 * i + 4, 24 * i + 24));
        } else if i == t.len() {
            assert(b.subrange(24 * i, 24 * i + 4) =~= be32_bytes(rows[i].offset as u32));
            assert(b.subrange(24 * i + 4, 24 * i + 24) =~= rows[i].oid);
        }
    }
}

/// Where everything stands in a version 1 index.
#[verifier::rlimit(60)]
#[verifier::spinoff_prover]
pub proof fn old_index_layout(rows: Seq<Row>, fan: Seq<u32>, pack_sum: Seq<u8>, sum: Seq<u8>, i: int)
    requires
        make_index(rows, fan, pack_sum, sum),
    ensures
        ({
            let f = old_index(rows, fan, pack_sum, sum);
            let n = rows.len() as int;
            let end = 1024 + n * 24;
            &&& f.len() == end + 40
            &&& f.subrange(end, end + 20) == pack_sum
            &&& f.subrange(end + 20, end + 40) == sum
            &&& be32(f, 1020) == n
            &&& be32(f, 0) == fan[0]
            &&& 0 <= i < n ==> be32(f, 1024 + i * 24) == rows[i].offset as u32 && f.subrange(
                1024 + i * 24 + 4,
                1024 + i * 24 + 24,
            ) == rows[i].oid
        }),
        forall|j: int| 0 <= j < 256 ==> be32(old_index(rows, fan, pack_sum, sum), j * 4) == #[trigger] fan[j],
{
    let f = old_index(rows, fan, pack_sum, sum);
    let n = rows.len() as int;
    let p1 = word_bytes(fan);
    let p2 = old_rows(rows);
    lemma_words_len(fan);
    lemma_old_rows(rows, i);
    let a2 = p1 + p2;
    let a3 = a2 + pack_sum;
    lemma_prefix(a3, sum, f);
    lemma_prefix(a2, pack_sum, a3);
    lemma_prefix(p1, p2, a2);
    assert(Seq::<u8>::empty() + p1 =~= p1);
    assert forall|j: int| 0 <= j < 256 implies be32(f, j * 4) == #[trigger] fan[j] by {
        lemma_words(fan, j);
        lemma_inside(f, Seq::empty(), p1, 4 * j, 4 * j + 4);
        lemma_word_in(f, j * 4, fan[j]);
    }
    assert(be32(f, 255int * 4) == fan[255]);
    assert(be32(f, 0int * 4) == fan[0]);
    if 0 <= i < n {
        lemma_inside(f, p1, p2, 24 * i, 24 * i + 4);
        lemma_word_in(f, 1024 + i * 24, rows[i].offset as u32);
        lemma_inside(f, p1, p2, 24 * i + 4, 24 * i + 24);
    }
    assert((a3 + sum).is_prefix_of(f)) by {
        assert(f.subrange(0, f.len() as int) =~= f);
    }
    lemma_inside(f, a2, pack_sum, 0, 20);
    lemma_inside(f, a3, sum, 0, 20);
    assert(pack_sum.subrange(0, 20) =~= pack_sum);
    assert(sum.subrange(0, 20) =~= sum);
}

} // verus!
