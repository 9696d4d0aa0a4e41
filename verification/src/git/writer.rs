//! Builds packs, indexes and deltas.
use vstd::prelude::*;
use crate::git::delta::{inserts, lemma_inserts_play, lemma_sizes, push_inserts, result_of};
use crate::git::object::ObjType;
use crate::model::bytes::{be32_bytes, push_all, push_be32};
use crate::model::crc::crc32_of;
use crate::model::delta::{instr_at, operand, Instr};
use crate::model::indexfile::{index_file, write_index};
use crate::model::object::{frame, object_frame};
use crate::model::outside::{crc32fast_hash, sha1, sha1_of, zlib_pack, zlib_packed};
use crate::model::sort::id_keys;
use crate::model::varint::{
    be128_groups, header_bytes, le128_bytes, push_be128_groups, push_header, push_le128,
};

verus! {

#[derive(Clone, Copy)]
pub enum DeltaBase {
    Ref([u8; 20]),
    Ofs(usize),
}

pub struct BuildObject {
    pub kind: ObjType,
    pub data: Vec<u8>,
    pub delta_base: Option<DeltaBase>,
}

pub struct BuiltPack {
    pub bytes: Vec<u8>,
    pub offsets: Vec<u64>,
    pub oids: Vec<[u8; 20]>,
    pub crcs: Vec<u32>,
}

/// The bytes of an offset distance: one group below 128, otherwise every group continuing.
pub open spec fn distance_bytes(distance: nat) -> Seq<u8> {
    if distance < 128 {
        seq![distance as u8]
    } else {
        be128_groups(distance)
    }
}

/// Appends an offset distance.
pub fn write_ofs_distance(out: &mut Vec<u8>, distance: u64)
    ensures
        final(out)@ == old(out)@ + distance_bytes(distance as nat),
{
    if distance < 128 {
        out.push(distance as u8);
    } else {
        push_be128_groups(out, distance);
    }
    proof {
        assert(out@ =~= old(out)@ + distance_bytes(distance as nat));
    }
}

/// The entry of an object at `offset`, when earlier objects stand at `offsets`.
pub open spec fn entry_bytes(o: BuildObject, offset: nat, offsets: Seq<u64>) -> Seq<u8> {
    let size = o.data@.len();
    match o.delta_base {
        None => header_bytes(o.kind.number() as nat, size) + zlib_packed(o.data@),
        Some(DeltaBase::Ref(id)) => header_bytes(7, size) + id@ + zlib_packed(o.data@),
        Some(DeltaBase::Ofs(i)) => header_bytes(6, size) + distance_bytes(
            (offset - offsets[i as int]) as nat,
        ) + zlib_packed(o.data@),
    }
}

/// The head of a pack of `count` objects.
pub open spec fn pack_head(count: nat) -> Seq<u8> {
    seq![80u8, 65, 67, 75] + be32_bytes(2) + be32_bytes(count as u32)
}

/// The pack after its first `n` objects, with their offsets and CRCs.
pub open spec fn packed_upto(objects: Seq<BuildObject>, n: nat) -> (Seq<u8>, Seq<u64>, Seq<u32>)
    decreases n,
{
    if n == 0 {
        (pack_head(objects.len()), Seq::empty(), Seq::empty())
    } else {
        let p = packed_upto(objects, (n - 1) as nat);
        let offsets = p.1.push(p.0.len() as u64);
        let e = entry_bytes(objects[n - 1], p.0.len(), offsets);
        (p.0 + e, offsets, p.2.push(crc32_of(e)))
    }
}

/// Every offset delta has its base at an earlier place (or at its own).
pub open spec fn bases_precede(objects: Seq<BuildObject>) -> bool {
    forall|i: int|
        0 <= i < objects.len() ==> ((#[trigger] objects[i]).delta_base matches Some(DeltaBase::Ofs(b)) ==> b
            <= i)
}

pub proof fn lemma_packed(objects: Seq<BuildObject>, n: nat)
    requires
        n <= objects.len(),
    ensures
        packed_upto(objects, n).1.len() == n,
        packed_upto(objects, n).2.len() == n,
        packed_upto(objects, n).0.len() >= 12,
    decreases n,
{
    if n > 0 {
        lemma_packed(objects, (n - 1) as nat);
    }
}

/// Builds a pack of the objects in order, with the offset, the id and the CRC of each.
pub fn build_pack(objects: &[BuildObject]) -> (p: BuiltPack)
    requires
        objects@.len() <= u32::MAX,
        bases_precede(objects@),
    ensures
        ({
            let s = packed_upto(objects@, objects@.len());
            &&& p.bytes@ == s.0 + sha1_of(s.0)
            &&& p.offsets@ == s.1
            &&& p.crcs@ == s.2
            &&& p.oids@.len() == objects@.len()
            &&& forall|i: int|
                0 <= i < objects@.len() ==> (#[trigger] p.oids@[i])@ == sha1_of(
                    object_frame(objects@[i].kind.text(), objects@[i].data@),
                )
        }),
{
    let n: usize = objects.len();
    let mut bytes: Vec<u8> = Vec::new();
    bytes.push(80);
    bytes.push(65);
    bytes.push(67);
    bytes.push(75);
    push_be32(&mut bytes, 2);
    push_be32(&mut bytes, n as u32);
    assert(bytes@ =~= pack_head(objects@.len()));
    let mut offsets: Vec<u64> = Vec::new();
    let mut crcs: Vec<u32> = Vec::new();
    let mut oids: Vec<[u8; 20]> = Vec::new();
    assert(offsets@ =~= Seq::empty());
    assert(crcs@ =~= Seq::empty());
    let mut i: usize = 0;
    while i < n
        invariant
            i <= n,
            n == objects@.len(),
            bases_precede(objects@),
            bytes@ == packed_upto(objects@, i as nat).0,
            offsets@ == packed_upto(objects@, i as nat).1,
            crcs@ == packed_upto(objects@, i as nat).2,
            offsets@.len() == i,
            forall|j: int| 0 <= j < i ==> (#[trigger] offsets@[j]) <= bytes@.len(),
            oids@.len() == i,
            forall|j: int|
                0 <= j < i ==> (#[trigger] oids@[j])@ == sha1_of(
                    object_frame(objects@[j].kind.text(), objects@[j].data@),
                ),
        decreases n - i,
    {
        let object = &objects[i];
        let offset: usize = bytes.len();
        let ghost before = bytes@;
        offsets.push(offset as u64);
        let size: u64 = object.data.len() as u64;
        assert(objects@[i as int].delta_base matches Some(DeltaBase::Ofs(b)) ==> b <= i);
        let mut entry: Vec<u8> = Vec::new();
        match object.delta_base {
            None => {
                push_header(&mut entry, object.kind.code(), size);
            },
            Some(DeltaBase::Ref(id)) => {
                push_header(&mut entry, 7, size);
                push_all(&mut entry, id.as_slice());
            },
            Some(DeltaBase::Ofs(b)) => {
                push_header(&mut entry, 6, size);
                assert(offsets@[b as int] <= offset);
                write_ofs_distance(&mut entry, offset as u64 - offsets[b]);
            },
        }
        push_all(&mut entry, zlib_pack(object.data.as_slice()).as_slice());
        assert(entry@ =~= entry_bytes(*object, offset as nat, offsets@));
        crcs.push(crc32fast_hash(entry.as_slice()));
        push_all(&mut bytes, entry.as_slice());
        let framed = frame(object.kind.name(), object.data.as_slice());
        oids.push(sha1(framed.as_slice()));
        i += 1;
    }
    let sum = sha1(bytes.as_slice());
    push_all(&mut bytes, sum.as_slice());
    BuiltPack { bytes, offsets, oids, crcs }
}

/// The low 32 bits of the offsets.
pub open spec fn offset_words(offs: Seq<u64>) -> Seq<u32> {
    offs.map_values(|x: u64| (x % 0x1_0000_0000) as u32)
}

/// Builds the index of a pack that was built: ids sorted, with CRC and 32-bit offset.
pub fn build_idx(pack: &BuiltPack) -> (out: Vec<u8>)
    requires
        pack.oids@.len() <= u32::MAX,
        pack.offsets@.len() == pack.oids@.len(),
        pack.crcs@.len() == pack.oids@.len(),
        pack.bytes@.len() >= 20,
    ensures
        out@ == index_file(
            id_keys(pack.oids@),
            pack.crcs@,
            offset_words(pack.offsets@),
            pack.bytes@.skip(pack.bytes@.len() - 20),
        ),
{
    let mut words: Vec<u32> = Vec::new();
    let mut i: usize = 0;
    while i < pack.offsets.len()
        invariant
            i <= pack.offsets@.len(),
            words@ == offset_words(pack.offsets@).take(i as int),
        decreases pack.offsets@.len() - i,
    {
        words.push((pack.offsets[i] % 0x1_0000_0000) as u32);
        i += 1;
        assert(words@ =~= offset_words(pack.offsets@).take(i as int));
    }
    assert(words@ =~= offset_words(pack.offsets@));
    let n: usize = pack.bytes.len();
    let sum = vstd::slice::slice_subrange(pack.bytes.as_slice(), n - 20, n);
    assert(sum@ =~= pack.bytes@.skip(pack.bytes@.len() - 20));
    write_index(&pack.oids, &pack.crcs, &words, sum)
}

/// An index that was built lists the objects of the pack in the order of their ids, each with
/// its CRC and its offset.
pub proof fn built_index_lists_the_pack(pack: BuiltPack, i: int)
    requires
        pack.oids@.len() <= u32::MAX,
        pack.offsets@.len() == pack.oids@.len(),
        pack.crcs@.len() == pack.oids@.len(),
        pack.bytes@.len() >= 20,
        0 <= i < pack.oids@.len(),
    ensures
        ({
            let ids = id_keys(pack.oids@);
            let n = ids.len() as int;
            let f = index_file(
                ids,
                pack.crcs@,
                offset_words(pack.offsets@),
                pack.bytes@.skip(pack.bytes@.len() - 20),
            );
            let k = crate::model::sort::order(ids, ids.len())[i];
            &&& f.subrange(1032 + i * 20, 1032 + i * 20 + 20) == pack.oids@[k]@
            &&& crate::model::bytes::be32(f, 1032 + n * 20 + i * 4) == pack.crcs@[k]
            &&& crate::model::bytes::be32(f, 1032 + n * 24 + i * 4) == (pack.offsets@[k] % 0x1_0000_0000) as u32
        }),
{
    let ids = id_keys(pack.oids@);
    crate::model::sort::order_is_sorted(ids, ids.len());
    assert(0 <= crate::model::sort::order(ids, ids.len())[i] < ids.len());
    crate::model::indexfile::index_file_layout(
        ids,
        pack.crcs@,
        offset_words(pack.offsets@),
        pack.bytes@.skip(pack.bytes@.len() - 20),
        i,
    );
}

/// How many bytes two sequences have in common at their head.
pub open spec fn common_len(a: Seq<u8>, b: Seq<u8>) -> nat
    decreases a.len(),
{
    if a.len() == 0 || b.len() == 0 || a[0] != b[0] {
        0
    } else {
        1 + common_len(a.skip(1), b.skip(1))
    }
}

/// The length of the copy with which a delta begins.
pub open spec fn copied_len(a: Seq<u8>, b: Seq<u8>) -> nat {
    if common_len(a, b) < 0xff_ffff {
        common_len(a, b)
    } else {
        0xff_ffff
    }
}

/// The command that copies the first `n` bytes of a base.
pub open spec fn copy_head(n: nat) -> Seq<u8> {
    if n == 0 {
        Seq::empty()
    } else {
        seq![0xf1u8, 0, (n % 0x100) as u8, (n / 0x100 % 0x100) as u8, (n / 0x1_0000) as u8]
    }
}

/// The delta from `base` to `result`: their common head copied, the rest inserted.
pub open spec fn delta_bytes(base: Seq<u8>, result: Seq<u8>) -> Seq<u8> {
    let n = copied_len(base, result);
    le128_bytes(base.len()) + le128_bytes(result.len()) + copy_head(n) + inserts(result.skip(n as int))
}

fn common(a: &[u8], b: &[u8]) -> (n: usize)
    ensures
        n == common_len(a@, b@),
        n <= b@.len(),
{
    let mut i: usize = 0;
    assert(a@.skip(0) =~= a@);
    assert(b@.skip(0) =~= b@);
    while i < a.len() && i < b.len() && a[i] == b[i]
        invariant
            i <= a@.len(),
            i <= b@.len(),
            common_len(a@, b@) == i + common_len(a@.skip(i as int), b@.skip(i as int)),
        decreases a@.len() - i,
    {
        assert(a@.skip(i as int).skip(1) =~= a@.skip(i + 1));
        assert(b@.skip(i as int).skip(1) =~= b@.skip(i + 1));
        i += 1;
    }
    i
}

/// Appends a delta size.
pub fn append_delta_size(out: &mut Vec<u8>, value: u64)
    ensures
        final(out)@ == old(out)@ + le128_bytes(value as nat),
{
    push_le128(out, value);
}

/// Makes a delta from `base` to `result`.
pub fn make_delta(base: &[u8], result: &[u8]) -> (delta: Vec<u8>)
    ensures
        delta@ == delta_bytes(base@, result@),
{
    let mut delta: Vec<u8> = Vec::new();
    append_delta_size(&mut delta, base.len() as u64);
    append_delta_size(&mut delta, result.len() as u64);
    let mut n: usize = common(base, result);
    if n > 0xff_ffff {
        n = 0xff_ffff;
    }
    if n > 0 {
        delta.push(0xf1);
        delta.push(0);
        delta.push((n % 0x100) as u8);
        delta.push((n / 0x100 % 0x100) as u8);
        delta.push((n / 0x1_0000) as u8);
    }
    push_inserts(&mut delta, result, n);
    assert(delta@ =~= delta_bytes(base@, result@));
    delta
}

proof fn lemma_common(a: Seq<u8>, b: Seq<u8>)
    ensures
        common_len(a, b) <= a.len(),
        common_len(a, b) <= b.len(),
        a.take(common_len(a, b) as int) == b.take(common_len(a, b) as int),
    decreases a.len(),
{
    let n = common_len(a, b) as int;
    if a.len() > 0 && b.len() > 0 && a[0] == b[0] {
        lemma_common(a.skip(1), b.skip(1));
        assert forall|i: int| 0 <= i < n implies a[i] == b[i] by {
            if i > 0 {
                assert(a.skip(1).take(n - 1)[i - 1] == a[i]);
                assert(b.skip(1).take(n - 1)[i - 1] == b[i]);
            }
        }
    }
    assert(a.take(n) =~= b.take(n));
}

/// Applying the delta that was made from a base to a result gives the result.
pub proof fn made_delta_gives_the_result(base: Seq<u8>, result: Seq<u8>)
    requires
        base.len() <= u64::MAX,
        result.len() <= u64::MAX,
        delta_bytes(base, result).len() <= usize::MAX,
    ensures
        result_of(base, delta_bytes(base, result)) matches Ok((out, instrs)) && out == result,
{
    let d = delta_bytes(base, result);
    let n = copied_len(base, result);
    let rest = result.skip(n as int);
    let start = (le128_bytes(base.len()).len() + le128_bytes(result.len()).len()) as int;
    lemma_common(base, result);
    assert(d =~= le128_bytes(base.len()) + le128_bytes(result.len()) + (copy_head(n) + inserts(rest)));
    lemma_sizes(base.len(), result.len(), copy_head(n) + inserts(rest));
    let c = copy_head(n).len() as int;
    assert(d.skip(start + c) =~= inserts(rest));
    let head = result.take(n as int);
    assert(base.take(n as int) =~= head) by {
        assert forall|i: int| 0 <= i < n implies base[i] == result[i] by {
            let m = common_len(base, result) as int;
            assert(base.take(m)[i] == result.take(m)[i]);
        }
    }
    lemma_inserts_play(base, d, start + c, rest, head);
    assert(head + rest =~= result);
    if n == 0 {
        assert(head =~= Seq::empty());
    } else {
        assert(d[start] == 0xf1 && d[start + 1] == 0) by {
            assert(d[start] == copy_head(n)[0]);
            assert(d[start + 1] == copy_head(n)[1]);
        }
        assert(d[start + 2] == copy_head(n)[2]);
        assert(d[start + 3] == copy_head(n)[3]);
        assert(d[start + 4] == copy_head(n)[4]);
        lemma_copy_op(d, start, n);
        assert(base.subrange(0, n as int) =~= base.take(n as int));
        assert(Seq::<u8>::empty() + head =~= head);
    }
    crate::git::delta::applies_exactly_when_sound(base, d);
}

proof fn lemma_copy_op(d: Seq<u8>, p: int, n: nat)
    requires
        0 <= p,
        p + 5 <= d.len() <= usize::MAX,
        0 < n <= 0xff_ffff,
        d[p] == 0xf1,
        d[p + 1] == 0,
        d[p + 2] == n % 0x100,
        d[p + 3] == n / 0x100 % 0x100,
        d[p + 4] == n / 0x1_0000,
    ensures
        instr_at(d, p) == (Instr::Copy { offset: 0, size: n as u64, next: (p + 5) as usize }),
{
    reveal_with_fuel(operand, 5);
    assert(operand(d, p + 1, 1, 4) == (0nat, p + 2));
    assert(operand(d, p + 2, 7, 3) == (n, p + 5));
}

} // verus!
