//! Builds packs with their indexes, deltas and loose objects from plain objects.
use vstd::prelude::*;
use crate::git::delta::{apply_delta, result_of};
use crate::git::writer::{offset_words, pack_head};
use crate::git::GitType;
use crate::model::bytes::{push_all, push_be32, same_bytes};
use crate::model::crc::crc32_of;
use crate::model::indexfile::{index_file, write_index};
use crate::model::object::{dec_bytes, frame, object_frame, push_dec_bytes};
use crate::model::outside::{crc32fast_hash, hex_encode, sha1, sha1_of, zlib_pack, zlib_packed};
use crate::model::sort::id_keys;
use crate::model::text::{hex, push_part, texts};
use crate::model::varint::{
    be128_groups, header_bytes, le128_bytes, push_be128_groups, push_header, push_le128,
};
use vstd::utf8::encode_utf8;

verus! {

/// An object of a pack that is to be built.
#[derive(Debug)]
pub enum PackInput {
    Raw(GitType, Vec<u8>),
    OfsDelta { base: usize, delta: Vec<u8> },
    /// A delta on an object that is given by its id. Where the base is not in the pack, the id of
    /// the result is given.
    RefDelta { base_oid: [u8; 20], delta: Vec<u8>, final_oid: Option<[u8; 20]> },
}

/// A pack with its index, and the ids of its objects in the order of the inputs.
#[derive(Debug)]
pub struct BuiltPack {
    pub pack: Vec<u8>,
    pub idx: Vec<u8>,
    pub oids: Vec<String>,
}

/// The code of the type of a whole object.
pub open spec fn code_of(kind: GitType) -> u8 {
    match kind {
        GitType::Commit => 1,
        GitType::Tree => 2,
        GitType::Blob => 3,
        GitType::Tag => 4,
        GitType::OfsDelta => 6,
        GitType::RefDelta => 7,
    }
}

pub(crate) fn kind_code(kind: GitType) -> (c: u8)
    ensures
        c == code_of(kind),
{
    match kind {
        GitType::Commit => 1,
        GitType::Tree => 2,
        GitType::Blob => 3,
        GitType::Tag => 4,
        GitType::OfsDelta => 6,
        GitType::RefDelta => 7,
    }
}

/// The bytes of a distance: groups of seven bits, most significant first, where every group but
/// the first is marked.
pub open spec fn distance_bytes(d: nat) -> Seq<u8> {
    let g = be128_groups(d);
    if d < 128 {
        seq![d as u8]
    } else {
        seq![(g[0] - 128) as u8] + g.skip(1)
    }
}

proof fn lemma_groups(d: nat)
    requires
        d > 0,
    ensures
        be128_groups(d).len() > 0,
        forall|i: int| 0 <= i < be128_groups(d).len() ==> #[trigger] be128_groups(d)[i] >= 128,
    decreases d,
{
    reveal_with_fuel(be128_groups, 2);
    if d >= 128 {
        lemma_groups(d / 128);
        let g = be128_groups(d / 128);
        assert forall|i: int| 0 <= i < be128_groups(d).len() implies #[trigger] be128_groups(d)[i] >= 128 by {
            if i < g.len() {
                assert(be128_groups(d)[i] == g[i]);
            }
        }
    }
}

pub(crate) proof fn lemma_distance(d: nat)
    ensures
        distance_bytes(d).len() > 0,
{
    if d >= 128 {
        lemma_groups(d);
    }
}

pub(crate) fn encode_ofs_distance(distance: u64) -> (out: Vec<u8>)
    ensures
        out@ == distance_bytes(distance as nat),
{
    let mut out: Vec<u8> = Vec::new();
    if distance < 128 {
        out.push(distance as u8);
        assert(out@ =~= distance_bytes(distance as nat));
        return out;
    }
    push_be128_groups(&mut out, distance);
    let ghost g = be128_groups(distance as nat);
    assert(out@ =~= g);
    proof {
        lemma_groups(distance as nat);
    }
    let first: u8 = out[0] - 128;
    out.set(0, first);
    assert(out@ =~= distance_bytes(distance as nat));
    out
}

/// The id of an object.
pub open spec fn id_of(kind: GitType, content: Seq<u8>) -> Seq<u8> {
    sha1_of(object_frame(kind.text(), content))
}

pub(crate) fn object_id(kind: GitType, content: &[u8]) -> (id: [u8; 20])
    ensures
        id@ == id_of(kind, content@),
{
    let framed = frame(kind.name(), content);
    sha1(framed.as_slice())
}

/// What has been built: the pack so far, the offset and the checksum of each entry, what each
/// reconstructs where that is known, and its id.
pub ghost struct Built {
    pub pack: Seq<u8>,
    pub offsets: Seq<u64>,
    pub crcs: Seq<u32>,
    pub objects: Seq<Option<(GitType, Seq<u8>)>>,
    pub ids: Seq<Seq<u8>>,
}

/// The place of an id, from place `n` on.
pub open spec fn place_of(ids: Seq<Seq<u8>>, id: Seq<u8>, n: nat) -> nat
    decreases ids.len() - n,
{
    if n >= ids.len() || ids[n as int] == id {
        n
    } else {
        place_of(ids, id, n + 1)
    }
}

/// What an input reconstructs and its id; nothing when it has none.
pub open spec fn result_in(b: Built, input: PackInput) -> Option<(Option<(GitType, Seq<u8>)>, Seq<u8>)> {
    match input {
        PackInput::Raw(kind, payload) => if kind.delta() {
            None
        } else {
            Some((Some((kind, payload@)), id_of(kind, payload@)))
        },
        PackInput::OfsDelta { base, delta } => if base < b.objects.len() && b.objects[base as int] is Some {
            let (kind, content) = b.objects[base as int]->0;
            match result_of(content, delta@) {
                Ok((out, _)) => Some((Some((kind, out)), id_of(kind, out))),
                Err(_) => None,
            }
        } else {
            None
        },
        PackInput::RefDelta { base_oid, delta, final_oid } => {
            let p = place_of(b.ids, base_oid@, 0);
            if p < b.ids.len() {
                if b.objects[p as int] is Some {
                    let (kind, content) = b.objects[p as int]->0;
                    match result_of(content, delta@) {
                        Ok((out, _)) => Some((Some((kind, out)), id_of(kind, out))),
                        Err(_) => None,
                    }
                } else {
                    None
                }
            } else {
                match final_oid {
                    Some(o) => Some((None, o@)),
                    None => None,
                }
            }
        },
    }
}

/// The entry of an input.
pub open spec fn entry_of(b: Built, input: PackInput) -> Seq<u8> {
    match input {
        PackInput::Raw(kind, payload) => header_bytes(code_of(kind) as nat, payload@.len()) + zlib_packed(
            payload@,
        ),
        PackInput::OfsDelta { base, delta } => header_bytes(6, delta@.len()) + distance_bytes(
            (b.pack.len() - b.offsets[base as int]) as nat,
        ) + zlib_packed(delta@),
        PackInput::RefDelta { base_oid, delta, .. } => header_bytes(7, delta@.len()) + base_oid@ + zlib_packed(
            delta@,
        ),
    }
}

/// What has been built of the first `n` inputs; nothing when one of them cannot be.
pub open spec fn built_upto(inputs: Seq<PackInput>, n: nat) -> Option<Built>
    decreases n,
{
    if n == 0 {
        Some(
            Built {
                pack: pack_head(inputs.len()),
                offsets: Seq::empty(),
                crcs: Seq::empty(),
                objects: Seq::empty(),
                ids: Seq::empty(),
            },
        )
    } else {
        match built_upto(inputs, (n - 1) as nat) {
            None => None,
            Some(b) => match result_in(b, inputs[n - 1]) {
                None => None,
                Some((object, id)) => {
                    let e = entry_of(b, inputs[n - 1]);
                    Some(
                        Built {
                            pack: b.pack + e,
                            offsets: b.offsets.push(b.pack.len() as u64),
                            crcs: b.crcs.push(crc32_of(e)),
                            objects: b.objects.push(object),
                            ids: b.ids.push(id),
                        },
                    )
                },
            },
        }
    }
}

proof fn lemma_built(inputs: Seq<PackInput>, n: nat, m: nat)
    requires
        n <= m,
        built_upto(inputs, m) is Some,
    ensures
        built_upto(inputs, n) is Some,
    decreases m,
{
    if n < m {
        lemma_built(inputs, n, (m - 1) as nat);
    }
}

/// The objects, as they are kept while a pack is built.
spec fn objects_of(v: Seq<Option<(GitType, Vec<u8>)>>) -> Seq<Option<(GitType, Seq<u8>)>> {
    v.map_values(
        |o: Option<(GitType, Vec<u8>)>|
            match o {
                Some((k, c)) => Some((k, c@)),
                None => None,
            },
    )
}

fn find_id(ids: &Vec<[u8; 20]>, id: &[u8; 20]) -> (n: usize)
    ensures
        n == place_of(id_keys(ids@), id@, 0),
        n <= ids@.len(),
{
    let ghost keys = id_keys(ids@);
    let mut n: usize = 0;
    while n < ids.len() && !same_bytes(ids[n].as_slice(), id.as_slice())
        invariant
            n <= ids@.len(),
            keys == id_keys(ids@),
            place_of(keys, id@, 0) == place_of(keys, id@, n as nat),
        decreases ids@.len() - n,
    {
        assert(keys[n as int] == ids@[n as int]@);
        n += 1;
    }
    if n < ids.len() {
        assert(keys[n as int] == ids@[n as int]@);
    }
    n
}

/// Whether a pack with its index is that of what has been built.
pub open spec fn is_pack_of(p: BuiltPack, b: Built) -> bool {
    &&& p.pack@ == b.pack + sha1_of(b.pack)
    &&& p.idx@ == index_file(b.ids, b.crcs, offset_words(b.offsets), sha1_of(b.pack))
    &&& texts(p.oids@) == b.ids.map_values(|id: Seq<u8>| hex(id))
}

/// Builds a pack of the inputs in order, and its index.
pub fn build_pack(inputs: &[PackInput]) -> (p: BuiltPack)
    requires
        inputs@.len() <= u32::MAX,
        built_upto(inputs@, inputs@.len()) is Some,
    ensures
        is_pack_of(p, built_upto(inputs@, inputs@.len())->0),
{
    match try_build_pack(inputs) {
        Some(p) => p,
        None => vstd::pervasive::unreached(),
    }
}

/// Builds a pack of the inputs in order, and its index, unless an input cannot be built.
#[verifier::rlimit(60)]
#[verifier::spinoff_prover]
pub fn try_build_pack(inputs: &[PackInput]) -> (r: Option<BuiltPack>)
    requires
        inputs@.len() <= u32::MAX,
    ensures
        match built_upto(inputs@, inputs@.len()) {
            Some(b) => r matches Some(p) && is_pack_of(p, b),
            None => r is None,
        },
{
    let n: usize = inputs.len();
    let mut pack: Vec<u8> = Vec::new();
    pack.push(80);
    pack.push(65);
    pack.push(67);
    pack.push(75);
    push_be32(&mut pack, 2);
    push_be32(&mut pack, n as u32);
    assert(pack@ =~= pack_head(inputs@.len()));
    let mut offsets: Vec<u64> = Vec::new();
    let mut words: Vec<u32> = Vec::new();
    let mut crcs: Vec<u32> = Vec::new();
    let mut objects: Vec<Option<(GitType, Vec<u8>)>> = Vec::new();
    let mut ids: Vec<[u8; 20]> = Vec::new();
    let mut oids: Vec<String> = Vec::new();
    let ghost names = |id: Seq<u8>| hex(id);
    let mut i: usize = 0;
    proof {
        let b = built_upto(inputs@, 0)->0;
        assert(offsets@ =~= b.offsets);
        assert(crcs@ =~= b.crcs);
        assert(objects_of(objects@) =~= b.objects);
        assert(id_keys(ids@) =~= b.ids);
        assert(words@ =~= offset_words(b.offsets));
        assert(texts(oids@) =~= b.ids.map_values(|id: Seq<u8>| hex(id)));
    }
    while i < n
        invariant
            i <= n,
            n == inputs@.len(),
            built_upto(inputs@, i as nat) is Some,
            ({
                let b = built_upto(inputs@, i as nat)->0;
                &&& pack@ == b.pack
                &&& offsets@ == b.offsets
                &&& crcs@ == b.crcs
                &&& objects_of(objects@) == b.objects
                &&& id_keys(ids@) == b.ids
                &&& words@ == offset_words(b.offsets)
                &&& texts(oids@) == b.ids.map_values(|id: Seq<u8>| hex(id))
            }),
            offsets@.len() == i,
            objects@.len() == i,
            ids@.len() == i,
            crcs@.len() == i,
            words@.len() == i,
            forall|j: int| 0 <= j < i ==> (#[trigger] offsets@[j]) <= pack@.len(),
        decreases n - i,
    {
        let ghost b = built_upto(inputs@, i as nat)->0;
        let input = &inputs[i];
        let offset: u64 = pack.len() as u64;
        let mut entry: Vec<u8> = Vec::new();
        proof {
            if built_upto(inputs@, n as nat) is Some {
                lemma_built(inputs@, (i + 1) as nat, n as nat);
            }
        }
        let (object, id) = match input {
            PackInput::Raw(kind, payload) => {
                if kind.is_delta() {
                    return None;
                }
                push_header(&mut entry, kind_code(*kind), payload.len() as u64);
                push_all(&mut entry, zlib_pack(payload.as_slice()).as_slice());
                let id = object_id(*kind, payload.as_slice());
                (Some((*kind, payload.clone())), id)
            },
            PackInput::OfsDelta { base, delta } => {
                if *base >= objects.len() {
                    return None;
                }
                assert(objects_of(objects@)[*base as int] == b.objects[*base as int]);
                let made = match rebuilt(&objects[*base], delta) {
                    Some(v) => v,
                    None => return None,
                };
                push_header(&mut entry, 6, delta.len() as u64);
                assert(offsets@[*base as int] <= pack@.len());
                let distance = encode_ofs_distance(offset - offsets[*base]);
                push_all(&mut entry, distance.as_slice());
                push_all(&mut entry, zlib_pack(delta.as_slice()).as_slice());
                made
            },
            PackInput::RefDelta { base_oid, delta, final_oid } => {
                push_header(&mut entry, 7, delta.len() as u64);
                push_all(&mut entry, base_oid.as_slice());
                push_all(&mut entry, zlib_pack(delta.as_slice()).as_slice());
                let p: usize = find_id(&ids, base_oid);
                if p < ids.len() {
                    assert(objects_of(objects@)[p as int] == b.objects[p as int]);
                    match rebuilt(&objects[p], delta) {
                        Some(v) => v,
                        None => return None,
                    }
                } else {
                    match final_oid {
                        Some(o) => (None, *o),
                        None => return None,
                    }
                }
            },
        };
        assert(entry@ =~= entry_of(b, *input));
        let ghost kept = objects@;
        let ghost known = ids@;
        let ghost listed = texts(oids@);
        offsets.push(offset);
        words.push((offset % 0x1_0000_0000) as u32);
        crcs.push(crc32fast_hash(entry.as_slice()));
        push_all(&mut pack, entry.as_slice());
        objects.push(object);
        push_part(&mut oids, hex_encode(id.as_slice()));
        ids.push(id);
        i += 1;
        proof {
            let c = built_upto(inputs@, i as nat)->0;
            assert(objects_of(objects@) =~= objects_of(kept).push(c.objects.last()));
            assert(id_keys(ids@) =~= id_keys(known).push(id@));
            assert(words@ =~= offset_words(c.offsets));
            assert(texts(oids@) =~= c.ids.map_values(|id: Seq<u8>| hex(id)));
        }
    }
    let sum = sha1(pack.as_slice());
    push_all(&mut pack, sum.as_slice());
    let idx = write_index(&ids, &crcs, &words, sum.as_slice());
    Some(BuiltPack { pack, idx, oids })
}

/// What a delta makes of an object that was built, and its id; nothing when it does not apply or
/// the object is not known.
fn rebuilt(base: &Option<(GitType, Vec<u8>)>, delta: &Vec<u8>) -> (r: Option<
    (Option<(GitType, Vec<u8>)>, [u8; 20]),
>)
    ensures
        match (*base, r) {
            (Some((kind, content)), Some((Some((k, c)), id))) => {
                &&& k == kind
                &&& result_of(content@, delta@) matches Ok((out, _)) && c@ == out
                &&& id@ == id_of(k, c@)
            },
            (Some((kind, content)), None) => result_of(content@, delta@) is Err,
            (None, None) => true,
            _ => false,
        },
{
    match base {
        None => None,
        Some((kind, content)) => match apply_delta(content.as_slice(), delta.as_slice()) {
            Ok(v) => {
                let id = object_id(*kind, v.output.as_slice());
                Some((Some((*kind, v.output)), id))
            },
            Err(_) => None,
        },
    }
}

/// The delta that inserts `inserted` and then copies the base.
pub open spec fn insert_then_copy(base_len: nat, inserted: Seq<u8>) -> Seq<u8> {
    le128_bytes(base_len) + le128_bytes(base_len + inserted.len()) + seq![(inserted.len() % 256) as u8]
        + inserted + seq![
        0x80u8,
        0,
        (base_len % 0x100) as u8,
        (base_len / 0x100 % 0x100) as u8,
        (base_len / 0x1_0000 % 0x100) as u8,
    ]
}

pub fn delta_insert_then_copy(base_len: usize, inserted: &[u8]) -> (delta: Vec<u8>)
    requires
        base_len + inserted@.len() <= usize::MAX,
    ensures
        delta@ == insert_then_copy(base_len as nat, inserted@),
{
    let mut delta: Vec<u8> = Vec::new();
    let n: usize = inserted.len();
    push_le128(&mut delta, base_len as u64);
    push_le128(&mut delta, (base_len + n) as u64);
    delta.push((n % 256) as u8);
    push_all(&mut delta, inserted);
    delta.push(0x80);
    delta.push(0);
    delta.push((base_len % 0x100) as u8);
    delta.push((base_len / 0x100 % 0x100) as u8);
    delta.push((base_len / 0x1_0000 % 0x100) as u8);
    assert(delta@ =~= insert_then_copy(base_len as nat, inserted@));
    delta
}

/// The header of a framed object.
pub open spec fn frame_head(name: Seq<char>, size: nat) -> Seq<u8> {
    encode_utf8(name) + seq![32u8] + dec_bytes(size) + seq![0u8]
}

/// Writes the header of an object as it is, and its content as a zlib stream behind it. Returns
/// the id of the object and these bytes.
pub fn loose_object(kind: GitType, payload: &[u8]) -> (r: (String, Vec<u8>))
    ensures
        r.0@ == hex(id_of(kind, payload@)),
        r.1@ == frame_head(kind.text(), payload@.len()) + zlib_packed(payload@),
{
    let id = object_id(kind, payload);
    let mut raw: Vec<u8> = Vec::new();
    push_all(&mut raw, kind.name().as_bytes());
    raw.push(32);
    push_dec_bytes(&mut raw, payload.len() as u64);
    raw.push(0);
    assert(raw@ =~= frame_head(kind.text(), payload@.len()));
    push_all(&mut raw, zlib_pack(payload).as_slice());
    (hex_encode(id.as_slice()), raw)
}

} // verus!
