//! Forges packs with their indexes from objects and deltas.
use vstd::prelude::*;
use crate::builder::{code_of, distance_bytes, encode_ofs_distance, frame_head, id_of, kind_code, object_id};
use crate::git::delta::{apply_delta, inserts, push_inserts, result_of};
use crate::git::writer::{offset_words, pack_head};
use crate::git::GitType;
use crate::model::bytes::{push_all, push_be32, same_bytes};
use crate::model::crc::crc32_of;
use crate::model::indexfile::{index_file, write_index};
use crate::model::object::push_dec_bytes;
use crate::model::outside::{crc32fast_hash, sha1, sha1_of, zlib_pack, zlib_packed};
use crate::model::sort::id_keys;

verus! {

/// An entry of a pack that is to be forged.
#[derive(Debug)]
pub enum ForgeEntry {
    Object { object_type: GitType, data: Vec<u8> },
    OfsDelta { base: usize, delta: Vec<u8> },
    RefDelta { base_oid: [u8; 20], delta: Vec<u8> },
}

/// How a delta names its base.
#[derive(Clone, Copy, Debug)]
pub enum DeltaRef {
    /// The offset of the base.
    Offset(u64),
    /// The id of the base.
    Oid([u8; 20]),
}

/// A pack with its index, and the ids and offsets of its entries.
#[derive(Debug)]
pub struct BuiltPack {
    pub pack: Vec<u8>,
    pub idx: Vec<u8>,
    pub oids: Vec<[u8; 20]>,
    pub offsets: Vec<usize>,
}

/// Spells a size in groups of seven bits, most significant first, with every group but the first
/// marked.
pub fn write_size(value: usize) -> (out: Vec<u8>)
    ensures
        out@ == distance_bytes(value as nat),
{
    encode_ofs_distance(value as u64)
}

/// The size of an entry with the code of its type laid over the first byte.
pub open spec fn marked_size(code: u8, size: nat) -> Seq<u8> {
    let s = distance_bytes(size);
    let mark: u8 = if s.len() > 1 || size >= 16 {
        0x80
    } else {
        0
    };
    s.update(0, s[0] | (code << 4) | mark)
}

/// The header of an entry at `offset`.
pub open spec fn entry_head(kind: GitType, size: nat, base: Option<DeltaRef>, offset: nat) -> Seq<u8> {
    marked_size(code_of(kind), size) + match base {
        Some(DeltaRef::Offset(b)) => distance_bytes((offset - b) as nat),
        Some(DeltaRef::Oid(id)) => id@,
        None => Seq::empty(),
    }
}

/// Writes the header of an entry.
pub fn write_pack_object_header(
    object_type: GitType,
    size: usize,
    delta_ref: Option<DeltaRef>,
    current_offset: usize,
) -> (out: Vec<u8>)
    requires
        delta_ref matches Some(DeltaRef::Offset(b)) ==> b <= current_offset,
    ensures
        out@ == entry_head(object_type, size as nat, delta_ref, current_offset as nat),
{
    let code: u8 = kind_code(object_type);
    let mut out = write_size(size);
    proof {
        crate::builder::lemma_distance(size as nat);
    }
    let mark: u8 = if out.len() > 1 || size >= 16 {
        0x80
    } else {
        0
    };
    let first: u8 = out[0] | (code << 4) | mark;
    out.set(0, first);
    match delta_ref {
        Some(DeltaRef::Offset(b)) => {
            let d = encode_ofs_distance(current_offset as u64 - b);
            push_all(&mut out, d.as_slice());
        },
        Some(DeltaRef::Oid(id)) => push_all(&mut out, id.as_slice()),
        None => {},
    }
    assert(out@ =~= entry_head(object_type, size as nat, delta_ref, current_offset as nat));
    out
}

/// One byte of a size, left out when it is zero.
pub open spec fn size_byte(b: nat) -> Seq<u8> {
    if b == 0 {
        Seq::empty()
    } else {
        seq![b as u8]
    }
}

/// The command that copies the first `n` bytes of a base; only the low 24 bits of `n` count.
pub open spec fn copy_command(n: nat) -> Seq<u8> {
    let b = n / 0x100 % 0x100;
    let c = n / 0x1_0000 % 0x100;
    let code: u8 = if b == 0 && c == 0 {
        0x90
    } else if c == 0 {
        0xb0
    } else if b == 0 {
        0xd0
    } else {
        0xf0
    };
    seq![code, (n % 0x100) as u8] + size_byte(b) + size_byte(c)
}

/// The length that a base and a target share.
pub open spec fn shared_len(base: Seq<u8>, target: Seq<u8>) -> nat {
    if base.len() < target.len() {
        base.len()
    } else {
        target.len()
    }
}

/// The delta that copies as much of the base as the target is long and inserts the rest of the
/// target.
pub open spec fn forged_delta(base: Seq<u8>, target: Seq<u8>) -> Seq<u8> {
    let n = shared_len(base, target);
    distance_bytes(base.len()) + distance_bytes(target.len()) + (if n > 0 {
        copy_command(n)
    } else {
        Seq::empty()
    }) + inserts(target.skip(n as int))
}

pub fn delta_for(base: &[u8], target: &[u8]) -> (delta: Vec<u8>)
    ensures
        delta@ == forged_delta(base@, target@),
{
    let n: usize = if base.len() < target.len() {
        base.len()
    } else {
        target.len()
    };
    let mut delta = write_size(base.len());
    let size = write_size(target.len());
    push_all(&mut delta, size.as_slice());
    let ghost head = delta@;
    if n > 0 {
        let b: usize = n / 0x100 % 0x100;
        let c: usize = n / 0x1_0000 % 0x100;
        delta.push(
            if b == 0 && c == 0 {
                0x90
            } else if c == 0 {
                0xb0
            } else if b == 0 {
                0xd0
            } else {
                0xf0
            },
        );
        delta.push((n % 0x100) as u8);
        if b != 0 {
            delta.push(b as u8);
        }
        if c != 0 {
            delta.push(c as u8);
        }
        assert(delta@ =~= head + copy_command(n as nat));
    }
    push_inserts(&mut delta, target, n);
    assert(delta@ =~= forged_delta(base@, target@));
    delta
}

/// What has been forged: the pack so far, the offset and the checksum of each entry, and what
/// each holds.
pub ghost struct Forged {
    pub pack: Seq<u8>,
    pub offsets: Seq<u64>,
    pub crcs: Seq<u32>,
    pub objects: Seq<(GitType, Seq<u8>)>,
}

/// The place, from `n` on, of an object whose id is `id`, taken as an object of type `kind` where
/// one is given and as what it is where not.
pub open spec fn place_under(
    objects: Seq<(GitType, Seq<u8>)>,
    kind: Option<GitType>,
    id: Seq<u8>,
    n: nat,
) -> nat
    decreases objects.len() - n,
{
    if n >= objects.len() {
        n
    } else if id_of(
        match kind {
            Some(k) => k,
            None => objects[n as int].0,
        },
        objects[n as int].1,
    ) == id {
        n
    } else {
        place_under(objects, kind, id, n + 1)
    }
}

/// The base that an id names: the object with that id, or else an empty blob.
pub open spec fn base_under(objects: Seq<(GitType, Seq<u8>)>, id: Seq<u8>) -> (GitType, Seq<u8>) {
    let p = place_under(objects, None, id, 0);
    let kind = if p < objects.len() {
        objects[p as int].0
    } else {
        GitType::Blob
    };
    let q = place_under(objects, Some(kind), id, 0);
    (
        kind,
        if q < objects.len() {
            objects[q as int].1
        } else {
            Seq::empty()
        },
    )
}

/// What an entry holds; nothing when it cannot be forged.
pub open spec fn object_in(f: Forged, e: ForgeEntry) -> Option<(GitType, Seq<u8>)> {
    match e {
        ForgeEntry::Object { object_type, data } => if object_type.delta() {
            None
        } else {
            Some((object_type, data@))
        },
        ForgeEntry::OfsDelta { base, delta } => if base < f.objects.len() {
            let (kind, content) = f.objects[base as int];
            match result_of(content, delta@) {
                Ok((out, _)) => Some((kind, out)),
                Err(_) => None,
            }
        } else {
            None
        },
        ForgeEntry::RefDelta { base_oid, delta } => {
            let (kind, content) = base_under(f.objects, base_oid@);
            match result_of(content, delta@) {
                Ok((out, _)) => Some((kind, out)),
                Err(_) => None,
            }
        },
    }
}

/// The bytes of an entry.
pub open spec fn forged_entry(f: Forged, e: ForgeEntry) -> Seq<u8> {
    match e {
        ForgeEntry::Object { object_type, data } => entry_head(object_type, data@.len(), None, f.pack.len())
            + zlib_packed(data@),
        ForgeEntry::OfsDelta { base, delta } => entry_head(
            GitType::OfsDelta,
            delta@.len(),
            Some(DeltaRef::Offset(f.offsets[base as int])),
            f.pack.len(),
        ) + zlib_packed(delta@),
        ForgeEntry::RefDelta { base_oid, delta } => entry_head(
            GitType::RefDelta,
            delta@.len(),
            Some(DeltaRef::Oid(base_oid)),
            f.pack.len(),
        ) + zlib_packed(delta@),
    }
}

/// What has been forged of the first `n` entries; nothing when one of them cannot be.
pub open spec fn forged_upto(entries: Seq<ForgeEntry>, n: nat) -> Option<Forged>
    decreases n,
{
    if n == 0 {
        Some(
            Forged {
                pack: pack_head(entries.len()),
                offsets: Seq::empty(),
                crcs: Seq::empty(),
                objects: Seq::empty(),
            },
        )
    } else {
        match forged_upto(entries, (n - 1) as nat) {
            None => None,
            Some(f) => match object_in(f, entries[n - 1]) {
                None => None,
                Some(object) => {
                    let e = forged_entry(f, entries[n - 1]);
                    Some(
                        Forged {
                            pack: f.pack + e,
                            offsets: f.offsets.push(f.pack.len() as u64),
                            crcs: f.crcs.push(crc32_of(e)),
                            objects: f.objects.push(object),
                        },
                    )
                },
            },
        }
    }
}

proof fn lemma_forged(entries: Seq<ForgeEntry>, n: nat, m: nat)
    requires
        n <= m,
        forged_upto(entries, m) is Some,
    ensures
        forged_upto(entries, n) is Some,
    decreases m,
{
    if n < m {
        lemma_forged(entries, n, (m - 1) as nat);
    }
}

/// The ids of objects.
pub open spec fn object_ids(objects: Seq<(GitType, Seq<u8>)>) -> Seq<Seq<u8>> {
    objects.map_values(|o: (GitType, Seq<u8>)| id_of(o.0, o.1))
}

spec fn contents(v: Seq<(GitType, Vec<u8>)>) -> Seq<(GitType, Seq<u8>)> {
    v.map_values(|o: (GitType, Vec<u8>)| (o.0, o.1@))
}

fn find_under(objects: &Vec<(GitType, Vec<u8>)>, kind: Option<GitType>, id: &[u8; 20]) -> (n: usize)
    ensures
        n == place_under(contents(objects@), kind, id@, 0),
        n <= objects@.len(),
{
    let ghost all = contents(objects@);
    let mut n: usize = 0;
    while n < objects.len()
        invariant
            n <= objects@.len(),
            all == contents(objects@),
            place_under(all, kind, id@, 0) == place_under(all, kind, id@, n as nat),
        decreases objects@.len() - n,
    {
        let k = match kind {
            Some(k) => k,
            None => objects[n].0,
        };
        assert(all[n as int] == (objects@[n as int].0, objects@[n as int].1@));
        let found = object_id(k, objects[n].1.as_slice());
        if same_bytes(found.as_slice(), id.as_slice()) {
            return n;
        }
        n += 1;
    }
    n
}

/// What a delta makes of a base; nothing when it does not apply.
fn remade(kind: GitType, base: &[u8], delta: &Vec<u8>) -> (r: Option<(GitType, Vec<u8>)>)
    ensures
        match result_of(base@, delta@) {
            Ok((out, _)) => r matches Some(o) && o.0 == kind && o.1@ == out,
            Err(_) => r is None,
        },
{
    match apply_delta(base, delta.as_slice()) {
        Ok(v) => Some((kind, v.output)),
        Err(_) => None,
    }
}

/// Whether a pack with its index is that of what has been forged.
pub open spec fn is_pack_of(p: BuiltPack, f: Forged) -> bool {
    &&& p.pack@ == f.pack + sha1_of(f.pack)
    &&& p.idx@ == index_file(object_ids(f.objects), f.crcs, offset_words(f.offsets), sha1_of(f.pack))
    &&& id_keys(p.oids@) == object_ids(f.objects)
    &&& p.offsets@.map_values(|o: usize| o as u64) == f.offsets
}

/// Forges a pack of the entries in order, and its index.
pub fn build_pack(entries: Vec<ForgeEntry>) -> (p: BuiltPack)
    requires
        entries@.len() <= u32::MAX,
        forged_upto(entries@, entries@.len()) is Some,
    ensures
        is_pack_of(p, forged_upto(entries@, entries@.len())->0),
{
    match try_build_pack(entries) {
        Some(p) => p,
        None => vstd::pervasive::unreached(),
    }
}

/// Forges a pack of the entries in order, and its index, unless an entry cannot be forged.
#[verifier::rlimit(60)]
#[verifier::spinoff_prover]
pub fn try_build_pack(entries: Vec<ForgeEntry>) -> (r: Option<BuiltPack>)
    requires
        entries@.len() <= u32::MAX,
    ensures
        match forged_upto(entries@, entries@.len()) {
            Some(f) => r matches Some(p) && is_pack_of(p, f),
            None => r is None,
        },
{
    let n: usize = entries.len();
    let mut pack: Vec<u8> = Vec::new();
    pack.push(80);
    pack.push(65);
    pack.push(67);
    pack.push(75);
    push_be32(&mut pack, 2);
    push_be32(&mut pack, n as u32);
    assert(pack@ =~= pack_head(entries@.len()));
    let mut offsets: Vec<usize> = Vec::new();
    let mut words: Vec<u32> = Vec::new();
    let mut crcs: Vec<u32> = Vec::new();
    let mut objects: Vec<(GitType, Vec<u8>)> = Vec::new();
    let mut oids: Vec<[u8; 20]> = Vec::new();
    let mut i: usize = 0;
    proof {
        let f = forged_upto(entries@, 0)->0;
        assert(offsets@.map_values(|o: usize| o as u64) =~= f.offsets);
        assert(crcs@ =~= f.crcs);
        assert(contents(objects@) =~= f.objects);
        assert(id_keys(oids@) =~= object_ids(f.objects));
        assert(words@ =~= offset_words(f.offsets));
    }
    while i < n
        invariant
            i <= n,
            n == entries@.len(),
            forged_upto(entries@, i as nat) is Some,
            ({
                let f = forged_upto(entries@, i as nat)->0;
                &&& pack@ == f.pack
                &&& offsets@.map_values(|o: usize| o as u64) == f.offsets
                &&& crcs@ == f.crcs
                &&& contents(objects@) == f.objects
                &&& id_keys(oids@) == object_ids(f.objects)
                &&& words@ == offset_words(f.offsets)
            }),
            offsets@.len() == i,
            objects@.len() == i,
            oids@.len() == i,
            crcs@.len() == i,
            words@.len() == i,
            forall|j: int| 0 <= j < i ==> (#[trigger] offsets@[j]) <= pack@.len(),
        decreases n - i,
    {
        let ghost f = forged_upto(entries@, i as nat)->0;
        proof {
            if forged_upto(entries@, n as nat) is Some {
                lemma_forged(entries@, (i + 1) as nat, n as nat);
            }
        }
        let offset: usize = pack.len();
        let mut entry: Vec<u8> = Vec::new();
        let made = match &entries[i] {
            ForgeEntry::Object { object_type, data } => {
                if object_type.is_delta() {
                    return None;
                }
                let head = write_pack_object_header(*object_type, data.len(), None, offset);
                push_all(&mut entry, head.as_slice());
                push_all(&mut entry, zlib_pack(data.as_slice()).as_slice());
                Some((*object_type, data.clone()))
            },
            ForgeEntry::OfsDelta { base, delta } => {
                if *base >= objects.len() {
                    return None;
                }
                assert(contents(objects@)[*base as int] == (objects@[*base as int].0, objects@[*base as int].1@));
                assert(offsets@[*base as int] <= pack@.len());
                assert(offsets@.map_values(|o: usize| o as u64)[*base as int] == offsets@[*base as int] as u64);
                let head = write_pack_object_header(
                    GitType::OfsDelta,
                    delta.len(),
                    Some(DeltaRef::Offset(offsets[*base] as u64)),
                    offset,
                );
                push_all(&mut entry, head.as_slice());
                push_all(&mut entry, zlib_pack(delta.as_slice()).as_slice());
                remade(objects[*base].0, objects[*base].1.as_slice(), delta)
            },
            ForgeEntry::RefDelta { base_oid, delta } => {
                let head = write_pack_object_header(
                    GitType::RefDelta,
                    delta.len(),
                    Some(DeltaRef::Oid(*base_oid)),
                    offset,
                );
                push_all(&mut entry, head.as_slice());
                push_all(&mut entry, zlib_pack(delta.as_slice()).as_slice());
                let p: usize = find_under(&objects, None, base_oid);
                let kind = if p < objects.len() {
                    assert(contents(objects@)[p as int].0 == objects@[p as int].0);
                    objects[p].0
                } else {
                    GitType::Blob
                };
                let q: usize = find_under(&objects, Some(kind), base_oid);
                if q < objects.len() {
                    assert(contents(objects@)[q as int].1 == objects@[q as int].1@);
                    remade(kind, objects[q].1.as_slice(), delta)
                } else {
                    let none: Vec<u8> = Vec::new();
                    assert(none@ =~= Seq::empty());
                    remade(kind, none.as_slice(), delta)
                }
            },
        };
        let object = match made {
            Some(o) => o,
            None => return None,
        };
        assert(entry@ =~= forged_entry(f, entries@[i as int]));
        let ghost kept = objects@;
        let ghost known = oids@;
        let ghost placed = offsets@;
        let id = object_id(object.0, object.1.as_slice());
        offsets.push(offset);
        words.push((offset as u64 % 0x1_0000_0000) as u32);
        crcs.push(crc32fast_hash(entry.as_slice()));
        push_all(&mut pack, entry.as_slice());
        objects.push(object);
        oids.push(id);
        i += 1;
        proof {
            let g = forged_upto(entries@, i as nat)->0;
            assert(contents(objects@) =~= contents(kept).push(g.objects.last()));
            assert(id_keys(oids@) =~= id_keys(known).push(id@));
            assert(id_keys(oids@) =~= object_ids(g.objects));
            assert(offsets@.map_values(|o: usize| o as u64) =~= g.offsets);
            assert(words@ =~= offset_words(g.offsets));
        }
    }
    let sum = sha1(pack.as_slice());
    push_all(&mut pack, sum.as_slice());
    let idx = write_index(&oids, &crcs, &words, sum.as_slice());
    Some(BuiltPack { pack, idx, oids, offsets })
}

/// Writes the header of an object as it is, and its content as a zlib stream behind it. Returns
/// these bytes and the id of the object.
pub fn loose_object(object_type: GitType, data: &[u8]) -> (r: (Vec<u8>, [u8; 20]))
    requires
        !object_type.delta(),
    ensures
        r.0@ == frame_head(object_type.text(), data@.len()) + zlib_packed(data@),
        r.1@ == id_of(object_type, data@),
{
    let id = object_id(object_type, data);
    let mut raw: Vec<u8> = Vec::new();
    push_all(&mut raw, object_type.name().as_bytes());
    raw.push(32);
    push_dec_bytes(&mut raw, data.len() as u64);
    raw.push(0);
    assert(raw@ =~= frame_head(object_type.text(), data@.len()));
    push_all(&mut raw, zlib_pack(data).as_slice());
    (raw, id)
}

} // verus!
