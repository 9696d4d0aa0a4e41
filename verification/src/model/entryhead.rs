//! The head of a pack entry as it is written: the type and the size, and behind them how a delta
//! names its base.
use vstd::prelude::*;
use crate::model::varint::{
    ends, head_bytes, header_bytes, header_code, header_roundtrip, header_size, lemma_head_of_number, ofs128,
    ofs128_bytes, ofs128_roundtrip, run, touched, word,
};

verus! {

/// The bytes at `pos` are the head of an entry with type bits `code` and size `size`, and then `base`.
pub open spec fn has_head(b: Seq<u8>, pos: int, code: nat, size: nat, base: Seq<u8>) -> bool {
    &&& 0 <= pos
    &&& code < 8
    &&& size < word()
    &&& pos + header_bytes(code, size).len() + base.len() <= b.len()
    &&& b.subrange(pos, pos + header_bytes(code, size).len() + base.len()) == header_bytes(code, size) + base
}

/// A head is read as it was written, and what is behind it stands where it ends.
pub proof fn heads_are_read(b: Seq<u8>, pos: int, code: nat, size: nat, base: Seq<u8>)
    requires
        has_head(b, pos, code, size, base),
    ensures
        ({
            let s = b.skip(pos);
            let at = pos + header_bytes(code, size).len();
            &&& s.len() > 0
            &&& ends(s)
            &&& run(s) < 10
            &&& header_code(s[0]) == code
            &&& b[pos] == s[0]
            &&& touched(s) == header_bytes(code, size).len()
            &&& header_size(head_bytes(s)) % word() == size
            &&& b.subrange(at, at + base.len()) == base
        }),
{
    let head = header_bytes(code, size);
    let s = b.skip(pos);
    let whole = b.subrange(pos, pos + head.len() + base.len());
    let tail = b.skip(pos + head.len());
    header_roundtrip(code, size);
    assert(s =~= head + tail) by {
        assert forall|k: int| 0 <= k < head.len() implies s[k] == head[k] by {
            assert(whole[k] == (head + base)[k]);
        }
    }
    lemma_head_of_number(head, tail);
    assert(s[0] == head[0]);
    assert(b.subrange(pos + head.len(), pos + head.len() + base.len()) =~= base) by {
        assert forall|k: int| 0 <= k < base.len() implies b.subrange(
            pos + head.len(),
            pos + head.len() + base.len(),
        )[k] == base[k] by {
            assert(whole[head.len() + k] == (head + base)[head.len() + k]);
        }
    }
    assert(size % word() == size) by (nonlinear_arith)
        requires
            size < word(),
    ;
}

/// A distance is read as it was written.
pub proof fn distances_are_read(b: Seq<u8>, at: int, distance: nat)
    requires
        0 <= at,
        distance < word(),
        at + ofs128_bytes(distance).len() <= b.len(),
        b.subrange(at, at + ofs128_bytes(distance).len()) == ofs128_bytes(distance),
    ensures
        ends(b.skip(at)),
        b.skip(at).len() > 0,
        touched(b.skip(at)) == ofs128_bytes(distance).len(),
        ofs128(head_bytes(b.skip(at))) % word() == distance,
{
    let n = ofs128_bytes(distance);
    let s = b.skip(at);
    let tail = b.skip(at + n.len());
    ofs128_roundtrip(distance);
    assert(s =~= n + tail) by {
        assert forall|k: int| 0 <= k < n.len() implies s[k] == n[k] by {
            assert(b.subrange(at, at + n.len())[k] == n[k]);
        }
    }
    lemma_head_of_number(n, tail);
    assert(distance % word() == distance) by (nonlinear_arith)
        requires
            distance < word(),
    ;
}

} // verus!
