//! Self-contained builders of pack, index and loose byte streams.
use vstd::prelude::*;
use vstd::utf8::encode_utf8;
use crate::builder_index::{crcs_of, ids_of, next_offset, words_of};
use crate::git::writer::{delta_bytes, make_delta, pack_head};
use crate::model::bytes::{push_all, push_be32, same_bytes};
use crate::model::crc::{make_table, table_checksum};
use crate::model::indexfile::{index_file, write_index};
use crate::model::object::{dec_bytes, frame, object_frame, push_dec_bytes};
use crate::model::outside::{sha1, sha1_of, zlib_pack, zlib_packed};
use crate::model::sort::id_keys;
use crate::model::varint::{header_bytes, ofs128_bytes, push_header, push_ofs128};

verus! {

/// An entry of a pack that is to be built.
#[derive(Debug)]
pub struct Entry {
    /// 1 commit, 2 tree, 3 blob, 4 tag, 6 offset delta, 7 reference delta.
    pub kind: u8,
    pub size: u64,
    pub data: Vec<u8>,
    /// For an offset delta: the place of the base in the same pack.
    pub ofs_base: Option<usize>,
    /// For a reference delta: the id of the base.
    pub ref_base: Option<[u8; 20]>,
}

pub fn blob_entry(content: &[u8]) -> (e: Entry)
    ensures
        e.kind == 3,
        e.size == content@.len(),
        e.data@ == content@,
        e.ofs_base is None,
        e.ref_base is None,
{
    assert(content@.len() == content.len());
    Entry {
        kind: 3,
        size: content.len() as u64,
        data: vstd::slice::slice_to_vec(content),
        ofs_base: None,
        ref_base: None,
    }
}

pub fn ofs_delta_entry(base: &[u8], target: &[u8], base_index: usize) -> (e: Entry)
    ensures
        e.kind == 6,
        e.size == delta_bytes(base@, target@).len(),
        e.data@ == delta_bytes(base@, target@),
        e.ofs_base == Some(base_index),
        e.ref_base is None,
{
    let d = make_delta(base, target);
    assert(d@.len() == d.len());
    Entry { kind: 6, size: d.len() as u64, data: d, ofs_base: Some(base_index), ref_base: None }
}

pub fn ref_delta_entry(base: &[u8], target: &[u8], base_oid: [u8; 20]) -> (e: Entry)
    ensures
        e.kind == 7,
        e.size == delta_bytes(base@, target@).len(),
        e.data@ == delta_bytes(base@, target@),
        e.ofs_base is None,
        e.ref_base == Some(base_oid),
{
    let d = make_delta(base, target);
    assert(d@.len() == d.len());
    Entry { kind: 7, size: d.len() as u64, data: d, ofs_base: None, ref_base: Some(base_oid) }
}

/// The size header of an entry. Of a kind that is none of the seven, the bits that the header
/// has no room for are lost, and the fourth announces a further byte.
pub open spec fn size_header(kind: u8, size: u64) -> Seq<u8> {
    let head = header_bytes((kind % 8) as nat, size as nat);
    if kind % 16 >= 8 && head[0] < 128 {
        head.update(0, (head[0] + 128) as u8)
    } else {
        head
    }
}

fn write_size_header(out: &mut Vec<u8>, kind: u8, size: u64)
    ensures
        final(out)@ == old(out)@ + size_header(kind, size),
{
    let ghost before = out@;
    let at: usize = out.len();
    push_header(out, kind % 8, size);
    let ghost head = header_bytes((kind % 8) as nat, size as nat);
    let first: u8 = out[at];
    assert(first == head[0]);
    if kind % 16 >= 8 && first < 128 {
        out.set(at, first + 128);
        assert(out@ =~= before + head.update(0, (head[0] + 128) as u8));
    }
}

/// The entry of `e` behind `before` bytes, when the entries stand at `offsets`. The distance of
/// an offset delta is counted back from where the entry begins.
pub open spec fn entry_of(e: Entry, before: nat, offsets: Seq<u64>) -> Seq<u8> {
    size_header(e.kind, e.size) + (if e.kind == 6 {
        ofs128_bytes((before - offsets[e.ofs_base->0 as int]) as nat)
    } else if e.kind == 7 {
        e.ref_base->0@
    } else {
        Seq::empty()
    }) + zlib_packed(e.data@)
}

/// The pack after its first `n` entries, and their offsets.
pub open spec fn packed_upto(entries: Seq<Entry>, n: nat) -> (Seq<u8>, Seq<u64>)
    decreases n,
{
    if n == 0 {
        (pack_head(entries.len()), Seq::empty())
    } else {
        let p = packed_upto(entries, (n - 1) as nat);
        let offsets = p.1.push(p.0.len() as u64);
        (p.0 + entry_of(entries[n - 1], p.0.len(), offsets), offsets)
    }
}

/// An entry that can stand at place `i`.
pub open spec fn fits(e: Entry, i: int) -> bool {
    &&& e.kind == 6 ==> e.ofs_base is Some && e.ofs_base->0 <= i
    &&& e.kind == 7 ==> e.ref_base is Some
}

/// Whether the entries stand at `offsets`, each behind the one before it, from the end of the
/// head of the pack on.
pub open spec fn placed(entries: Seq<Entry>, pack: Seq<u8>, offsets: Seq<u64>) -> bool {
    &&& offsets.len() > 0 ==> offsets[0] == 12
    &&& forall|i: int, j: int| 0 <= i < j < offsets.len() ==> #[trigger] offsets[i] < #[trigger] offsets[j]
    &&& forall|i: int| #![trigger offsets[i]]
        0 <= i < offsets.len() ==> offsets[i] < pack.len() && entry_of(
            entries[i],
            offsets[i] as nat,
            offsets,
        ).is_prefix_of(pack.skip(offsets[i] as int))
}

proof fn lemma_placed(entries: Seq<Entry>, pack: Seq<u8>, offsets: Seq<u64>)
    requires
        placed(entries, pack, offsets),
        offsets.len() < entries.len(),
        pack.len() <= u64::MAX,
        offsets.len() == 0 ==> pack.len() == 12,
        forall|i: int| 0 <= i < entries.len() ==> fits(#[trigger] entries[i], i),
    ensures
        ({
            let all = offsets.push(pack.len() as u64);
            placed(entries, pack + entry_of(entries[offsets.len() as int], pack.len(), all), all)
        }),
{
    let n = offsets.len() as int;
    let all = offsets.push(pack.len() as u64);
    let last = entry_of(entries[n], pack.len(), all);
    let more = pack + last;
    assert(size_header(entries[n].kind, entries[n].size).len() > 0);
    assert forall|i: int| 0 <= i < all.len() implies #[trigger] all[i] < more.len() && entry_of(
        entries[i],
        all[i] as nat,
        all,
    ).is_prefix_of(more.skip(all[i] as int)) by {
        assert(fits(entries[i], i));
        if i < n {
            let e = entry_of(entries[i], offsets[i] as nat, offsets);
            assert(all[i] == offsets[i]);
            assert(e == entry_of(entries[i], all[i] as nat, all));
            let rest = pack.skip(offsets[i] as int);
            assert(e =~= rest.subrange(0, e.len() as int));
            assert(more.skip(all[i] as int).subrange(0, e.len() as int) =~= rest.subrange(0, e.len() as int));
        } else {
            assert(more.skip(all[i] as int) =~= last);
        }
    }
}

/// Builds a pack. Returns it and the offset of each entry.
pub fn build_pack(entries: &[Entry]) -> (r: (Vec<u8>, Vec<u64>))
    requires
        entries@.len() <= u32::MAX,
        forall|i: int| 0 <= i < entries@.len() ==> fits(#[trigger] entries@[i], i),
    ensures
        ({
            let p = packed_upto(entries@, entries@.len());
            &&& r.0@ == p.0 + sha1_of(p.0)
            &&& r.1@ == p.1
            &&& r.1@.len() == entries@.len()
            &&& placed(entries@, p.0, r.1@)
        }),
{
    let n: usize = entries.len();
    let mut out: Vec<u8> = Vec::new();
    out.push(80);
    out.push(65);
    out.push(67);
    out.push(75);
    push_be32(&mut out, 2);
    push_be32(&mut out, n as u32);
    assert(out@ =~= pack_head(entries@.len()));
    let mut offsets: Vec<u64> = Vec::new();
    assert(offsets@ =~= Seq::empty());
    let mut i: usize = 0;
    while i < n
        invariant
            i <= n,
            n == entries@.len(),
            forall|j: int| 0 <= j < entries@.len() ==> fits(#[trigger] entries@[j], j),
            out@ == packed_upto(entries@, i as nat).0,
            offsets@ == packed_upto(entries@, i as nat).1,
            offsets@.len() == i,
            i == 0 ==> out@.len() == 12,
            placed(entries@, out@, offsets@),
        decreases n - i,
    {
        let e = &entries[i];
        let ghost before = out@;
        assert(fits(entries@[i as int], i as int));
        assert(out@.len() == out.len());
        proof {
            lemma_placed(entries@, out@, offsets@);
        }
        let at: u64 = out.len() as u64;
        offsets.push(at);
        write_size_header(&mut out, e.kind, e.size);
        assert(out@.len() == out.len());
        if e.kind == 6 {
            match e.ofs_base {
                Some(b) => {
                    assert(offsets@[b as int] <= at);
                    let distance: u64 = at - offsets[b];
                    push_ofs128(&mut out, distance);
                },
                None => {},
            }
        } else if e.kind == 7 {
            match e.ref_base {
                Some(o) => push_all(&mut out, o.as_slice()),
                None => {},
            }
        }
        push_all(&mut out, zlib_pack(e.data.as_slice()).as_slice());
        assert(out@ =~= before + entry_of(*e, before.len(), offsets@));
        i += 1;
    }
    let sum = sha1(out.as_slice());
    push_all(&mut out, sum.as_slice());
    (out, offsets)
}

/// The checksum at the end of a pack.
pub fn pack_checksum(pack: &[u8]) -> (sum: [u8; 20])
    requires
        pack@.len() >= 20,
    ensures
        sum@ == sha1_of(pack@.take(pack@.len() - 20)),
{
    let body = vstd::slice::slice_subrange(pack, 0, pack.len() - 20);
    assert(body@ =~= pack@.take(pack@.len() - 20));
    sha1(body)
}

/// Offsets and ids, from ids and offsets.
pub open spec fn swapped(v: Seq<([u8; 20], u64)>) -> Seq<(usize, [u8; 20])> {
    v.map_values(|e: ([u8; 20], u64)| (e.1 as usize, e.0))
}

/// The checksums of the entries, that of one id falsified.
pub open spec fn falsified(v: Seq<(usize, [u8; 20])>, pack: Seq<u8>, wrong: Option<Seq<u8>>) -> Seq<u32> {
    Seq::new(
        v.len(),
        |i: int|
            if wrong == Some(v[i].1@) {
                crcs_of(v, pack)[i] ^ 0xdead_beefu32
            } else {
                crcs_of(v, pack)[i]
            },
    )
}

/// The view of an optional id.
pub open spec fn id_opt(o: Option<&[u8; 20]>) -> Option<Seq<u8>> {
    match o {
        Some(x) => Some(x@),
        None => None,
    }
}

fn least_after(v: &Vec<([u8; 20], u64)>, offset: usize, end: usize) -> (r: usize)
    requires
        offset <= end,
        forall|i: int| 0 <= i < v@.len() ==> (#[trigger] v@[i]).1 <= end,
    ensures
        r == next_offset(swapped(v@), offset, end as nat, v@.len()),
        offset <= r <= end,
{
    let ghost s = swapped(v@);
    let mut r: usize = end;
    let mut n: usize = 0;
    while n < v.len()
        invariant
            n <= v@.len(),
            s == swapped(v@),
            offset <= r <= end,
            forall|i: int| 0 <= i < v@.len() ==> (#[trigger] v@[i]).1 <= end,
            r == next_offset(s, offset, end as nat, n as nat),
        decreases v@.len() - n,
    {
        assert(v@[n as int].1 <= end);
        assert(s[n as int].0 == v@[n as int].1 as usize);
        let o: usize = v[n].1 as usize;
        if o > offset && o < r {
            r = o;
        }
        n += 1;
    }
    r
}

/// Builds an index that names `sum` as the checksum of its pack.
fn index_naming(
    pack: &[u8],
    mapping: &Vec<([u8; 20], u64)>,
    corrupt_crc_for: Option<&[u8; 20]>,
    sum: &[u8],
) -> (out: Vec<u8>)
    requires
        mapping@.len() <= u32::MAX,
        pack@.len() >= 20,
        forall|i: int|
            0 <= i < mapping@.len() ==> (#[trigger] mapping@[i]).1 <= pack@.len() - 20 && mapping@[i].1
                < 0x8000_0000,
    ensures
        out@ == index_file(
            ids_of(swapped(mapping@)),
            falsified(swapped(mapping@), pack@, id_opt(corrupt_crc_for)),
            words_of(swapped(mapping@)),
            sum@,
        ),
{
    let end: usize = pack.len() - 20;
    let ghost v = swapped(mapping@);
    let ghost goal = falsified(v, pack@, id_opt(corrupt_crc_for));
    let table = make_table();
    let mut ids: Vec<[u8; 20]> = Vec::new();
    let mut crcs: Vec<u32> = Vec::new();
    let mut words: Vec<u32> = Vec::new();
    let mut i: usize = 0;
    while i < mapping.len()
        invariant
            i <= mapping@.len(),
            v == swapped(mapping@),
            goal == falsified(v, pack@, id_opt(corrupt_crc_for)),
            end == pack@.len() - 20,
            table@.len() == 256,
            forall|j: int| 0 <= j < 256 ==> table@[j] == crate::model::crc::crc_octet(j as u32),
            forall|j: int|
                0 <= j < mapping@.len() ==> (#[trigger] mapping@[j]).1 <= end && mapping@[j].1 < 0x8000_0000,
            id_keys(ids@) == ids_of(v).take(i as int),
            crcs@ == goal.take(i as int),
            words@ == words_of(v).take(i as int),
        decreases mapping@.len() - i,
    {
        let id = mapping[i].0;
        assert(mapping@[i as int].1 <= end);
        let offset: usize = mapping[i].1 as usize;
        assert(v[i as int] == (offset, id));
        let next: usize = least_after(mapping, offset, end);
        let bytes = vstd::slice::slice_subrange(pack, offset, next);
        assert(bytes@ =~= pack@.subrange(offset as int, next as int));
        let crc: u32 = table_checksum(&table, bytes);
        assert(crc == crcs_of(v, pack@)[i as int]);
        let wrong: bool = match corrupt_crc_for {
            Some(o) => same_bytes(o.as_slice(), id.as_slice()),
            None => false,
        };
        let ghost before = ids@;
        ids.push(id);
        crcs.push(
            if wrong {
                crc ^ 0xdead_beef
            } else {
                crc
            },
        );
        words.push((offset as u64 % 0x1_0000_0000) as u32);
        proof {
            assert(id_keys(ids@) =~= id_keys(before).push(id@));
            assert(id_keys(ids@) =~= ids_of(v).take(i + 1));
            assert(crcs@ =~= goal.take(i + 1));
            assert(words@ =~= words_of(v).take(i + 1));
        }
        i += 1;
    }
    assert(ids_of(v).take(i as int) =~= ids_of(v));
    assert(crcs@ =~= goal);
    assert(words@ =~= words_of(v));
    assert(id_keys(ids@).len() == ids@.len());
    write_index(&ids, &crcs, &words, sum)
}

/// Builds a version 2 index for a pack, given the id and the offset of each entry; the checksum
/// of one entry may be falsified.
pub fn build_idx(pack: &[u8], mapping: &Vec<([u8; 20], u64)>, corrupt_crc_for: Option<&[u8; 20]>) -> (out:
    Vec<u8>)
    requires
        mapping@.len() <= u32::MAX,
        pack@.len() >= 20,
        forall|i: int|
            0 <= i < mapping@.len() ==> (#[trigger] mapping@[i]).1 <= pack@.len() - 20 && mapping@[i].1
                < 0x8000_0000,
    ensures
        out@ == index_file(
            ids_of(swapped(mapping@)),
            falsified(swapped(mapping@), pack@, id_opt(corrupt_crc_for)),
            words_of(swapped(mapping@)),
            sha1_of(pack@.take(pack@.len() - 20)),
        ),
{
    let sum = pack_checksum(pack);
    index_naming(pack, mapping, corrupt_crc_for, sum.as_slice())
}

/// Builds an index whose pack checksum points somewhere else; only the pairing is wrong.
pub fn build_mismatched_idx(pack: &[u8], mapping: &Vec<([u8; 20], u64)>) -> (out: Vec<u8>)
    requires
        mapping@.len() <= u32::MAX,
        pack@.len() >= 20,
        forall|i: int|
            0 <= i < mapping@.len() ==> (#[trigger] mapping@[i]).1 <= pack@.len() - 20 && mapping@[i].1
                < 0x8000_0000,
    ensures
        out@ == index_file(
            ids_of(swapped(mapping@)),
            crcs_of(swapped(mapping@), pack@),
            words_of(swapped(mapping@)),
            Seq::new(20, |i: int| 0xa5u8),
        ),
{
    let sum = [0xa5u8; 20];
    assert(sum@ =~= Seq::new(20, |i: int| 0xa5u8));
    let ghost v = swapped(mapping@);
    assert(falsified(v, pack@, None) =~= crcs_of(v, pack@));
    index_naming(pack, mapping, None, sum.as_slice())
}

/// Builds a loose object.
pub fn build_loose(kind: &str, content: &[u8]) -> (out: Vec<u8>)
    ensures
        out@ == zlib_packed(object_frame(kind@, content@)),
{
    let raw = frame(kind, content);
    zlib_pack(raw.as_slice())
}

/// Builds a loose object whose header claims another size.
pub fn build_loose_fake_size(kind: &str, content: &[u8], declared: usize) -> (out: Vec<u8>)
    ensures
        out@ == zlib_packed(
            encode_utf8(kind@) + seq![32u8] + dec_bytes(declared as nat) + seq![0u8] + content@,
        ),
{
    let mut raw: Vec<u8> = Vec::new();
    push_all(&mut raw, kind.as_bytes());
    raw.push(32);
    push_dec_bytes(&mut raw, declared as u64);
    raw.push(0);
    push_all(&mut raw, content);
    assert(raw@ =~= encode_utf8(kind@) + seq![32u8] + dec_bytes(declared as nat) + seq![0u8] + content@);
    zlib_pack(raw.as_slice())
}

/// Builds a loose object that lacks its last bytes.
pub fn build_loose_truncated(kind: &str, content: &[u8], drop_bytes: usize) -> (out: Vec<u8>)
    ensures
        ({
            let z = zlib_packed(object_frame(kind@, content@));
            out@ == z.take(
                if drop_bytes <= z.len() {
                    z.len() - drop_bytes
                } else {
                    0
                },
            )
        }),
{
    let mut z = build_loose(kind, content);
    let n: usize = z.len();
    let keep: usize = if drop_bytes <= n {
        n - drop_bytes
    } else {
        0
    };
    z.truncate(keep);
    z
}

/// The id of a blob.
pub fn blob_oid(content: &[u8]) -> (id: [u8; 20])
    ensures
        id@ == sha1_of(object_frame("blob"@, content@)),
{
    let raw = frame("blob", content);
    sha1(raw.as_slice())
}

/// Tampers the last byte of the range `[off, end)` that an entry takes up. An empty range, or one
/// that reaches into the trailer, is left as it is.
pub fn corrupt_entry_at(pack: &mut Vec<u8>, off: u64, end: u64)
    requires
        off < end ==> old(pack)@.len() >= 20,
    ensures
        final(pack)@ == if off < end <= old(pack)@.len() - 20 {
            old(pack)@.update(end - 1, old(pack)@[end - 1] ^ 0xff)
        } else {
            old(pack)@
        },
{
    if off < end && end <= pack.len() as u64 - 20 {
        let at: usize = end as usize - 1;
        let b: u8 = pack[at] ^ 0xff;
        pack.set(at, b);
    }
}

} // verus!
