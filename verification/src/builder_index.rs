//! Builds a version 2 index for the entries of a pack.
use vstd::prelude::*;
use crate::model::crc::{bitwise_checksum, crc32_of};
use crate::model::indexfile::{index_file, write_index};
use crate::model::outside::{sha1, sha1_of};
use crate::model::sort::id_keys;

verus! {

/// The ids of entries.
pub open spec fn ids_of(v: Seq<(usize, [u8; 20])>) -> Seq<Seq<u8>> {
    v.map_values(|e: (usize, [u8; 20])| e.1@)
}

/// The least offset past `offset` among the first `n` entries, or `end` when there is none.
pub open spec fn next_offset(v: Seq<(usize, [u8; 20])>, offset: usize, end: nat, n: nat) -> nat
    decreases n,
{
    if n == 0 {
        end
    } else {
        let w = next_offset(v, offset, end, (n - 1) as nat);
        let o = v[n - 1].0;
        if o > offset && o < w {
            o as nat
        } else {
            w
        }
    }
}

/// The checksums of the entries, each up to the next one.
pub open spec fn crcs_of(v: Seq<(usize, [u8; 20])>, pack: Seq<u8>) -> Seq<u32> {
    Seq::new(
        v.len(),
        |i: int|
            crc32_of(
                pack.subrange(
                    v[i].0 as int,
                    next_offset(v, v[i].0, (pack.len() - 20) as nat, v.len()) as int,
                ),
            ),
    )
}

/// The low 32 bits of the offsets.
pub open spec fn words_of(v: Seq<(usize, [u8; 20])>) -> Seq<u32> {
    v.map_values(|e: (usize, [u8; 20])| (e.0 as u64 % 0x1_0000_0000) as u32)
}

fn find_next(v: &[(usize, [u8; 20])], offset: usize, end: usize) -> (r: usize)
    requires
        offset <= end,
    ensures
        r == next_offset(v@, offset, end as nat, v@.len()),
        offset <= r <= end,
{
    let mut r: usize = end;
    let mut n: usize = 0;
    while n < v.len()
        invariant
            n <= v@.len(),
            offset <= r <= end,
            r == next_offset(v@, offset, end as nat, n as nat),
        decreases v@.len() - n,
    {
        let o: usize = v[n].0;
        if o > offset && o < r {
            r = o;
        }
        n += 1;
    }
    r
}

/// Builds the index of a pack from the offsets and ids of its entries, sorted by id.
pub fn build_index_v2(pack: &[u8], entries: &[(usize, [u8; 20])]) -> (out: Vec<u8>)
    requires
        entries@.len() <= u32::MAX,
        pack@.len() >= 20,
        forall|i: int| 0 <= i < entries@.len() ==> (#[trigger] entries@[i]).0 <= pack@.len() - 20,
    ensures
        out@ == index_file(
            ids_of(entries@),
            crcs_of(entries@, pack@),
            words_of(entries@),
            sha1_of(pack@.take(pack@.len() - 20)),
        ),
{
    let end: usize = pack.len() - 20;
    let mut ids: Vec<[u8; 20]> = Vec::new();
    let mut crcs: Vec<u32> = Vec::new();
    let mut words: Vec<u32> = Vec::new();
    let mut i: usize = 0;
    while i < entries.len()
        invariant
            i <= entries@.len(),
            end == pack@.len() - 20,
            forall|j: int| 0 <= j < entries@.len() ==> (#[trigger] entries@[j]).0 <= end,
            id_keys(ids@) == ids_of(entries@).take(i as int),
            crcs@ == crcs_of(entries@, pack@).take(i as int),
            words@ == words_of(entries@).take(i as int),
        decreases entries@.len() - i,
    {
        let (offset, id) = entries[i];
        assert(entries@[i as int].0 <= end);
        let next: usize = find_next(entries, offset, end);
        let bytes = vstd::slice::slice_subrange(pack, offset, next);
        assert(bytes@ =~= pack@.subrange(offset as int, next as int));
        let ghost before = ids@;
        ids.push(id);
        crcs.push(bitwise_checksum(bytes));
        words.push((offset as u64 % 0x1_0000_0000) as u32);
        proof {
            assert(id_keys(ids@) =~= id_keys(before).push(id@));
            assert(id_keys(ids@) =~= ids_of(entries@).take(i + 1));
            assert(crcs@ =~= crcs_of(entries@, pack@).take(i + 1));
            assert(words@ =~= words_of(entries@).take(i + 1));
        }
        i += 1;
    }
    assert(ids_of(entries@).take(i as int) =~= ids_of(entries@));
    assert(crcs@ =~= crcs_of(entries@, pack@));
    assert(words@ =~= words_of(entries@));
    assert(id_keys(ids@).len() == ids@.len());
    let body = vstd::slice::slice_subrange(pack, 0, end);
    assert(body@ =~= pack@.take(pack@.len() - 20));
    let sum = sha1(body);
    write_index(&ids, &crcs, &words, sum.as_slice())
}

} // verus!
