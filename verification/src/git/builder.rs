//! In-memory pack, index and loose object writer, with deliberate corruptions.
use vstd::prelude::*;
use crate::git::delta::{apply_delta, result_of};
use crate::git::object::ObjType;
use crate::git::pack::{entry_at, parse_entry};
use crate::kernel::git::{EntryType, GitType};
use crate::kernel::pack::{can_be_written, is_written, pack_magic, written, written_entry, Written};
use crate::model::bytes::{be32_bytes, be32_roundtrip, push_all, push_be32, same_bytes};
use crate::model::indexfile::{index_file, write_index};
use crate::model::object::{frame, object_frame};
use crate::model::outside::{sha1, sha1_of, zlib_pack, zlib_packed};
use crate::model::sort::id_keys;
use crate::model::varint::{header_bytes, ofs128_bytes, push_header, push_ofs128, word};

verus! {

pub enum PackObj {
    Base { kind: ObjType, content: Vec<u8> },
    OfsDelta {
        /// Index into the object list of the base (must be earlier in the pack).
        base_index: usize,
        delta: Vec<u8>,
    },
    RefDelta { base_oid: [u8; 20], delta: Vec<u8> },
}

impl PackObj {
    pub fn base(kind: ObjType, content: Vec<u8>) -> (o: Self)
        ensures
            o == (PackObj::Base { kind, content }),
    {
        PackObj::Base { kind, content }
    }

    pub fn ofs_delta(base_index: usize, delta: Vec<u8>) -> (o: Self)
        ensures
            o == (PackObj::OfsDelta { base_index, delta }),
    {
        PackObj::OfsDelta { base_index, delta }
    }

    pub fn ref_delta(base_oid: [u8; 20], delta: Vec<u8>) -> (o: Self)
        ensures
            o == (PackObj::RefDelta { base_oid, delta }),
    {
        PackObj::RefDelta { base_oid, delta }
    }
}

pub struct Corruptions {
    /// Flip a bit inside the compressed bytes of entry at index.
    pub flip_zlib_bit: Vec<usize>,
    /// Tamper a byte right before the zlib trailer to break the adler checksum.
    pub break_crc: Vec<usize>,
    /// Declare a different inflated size for entry at index (size spoof).
    pub spoof_size: Vec<(usize, u64)>,
    /// Truncate the pack after this many bytes (None = full file).
    pub truncate_at: Option<usize>,
}

impl Default for Corruptions {
    fn default() -> (c: Self)
        ensures
            c.flip_zlib_bit@.len() == 0,
            c.break_crc@.len() == 0,
            c.spoof_size@.len() == 0,
            c.truncate_at is None,
    {
        Corruptions {
            flip_zlib_bit: Vec::new(),
            break_crc: Vec::new(),
            spoof_size: Vec::new(),
            truncate_at: None,
        }
    }
}

/// The object id of a typed content.
pub open spec fn id_of(c: (ObjType, Seq<u8>)) -> Seq<u8> {
    sha1_of(object_frame(c.0.text(), c.1))
}

/// The place of the first id equal to `id`, or the number of ids.
pub open spec fn place_of(cs: Seq<(ObjType, Seq<u8>)>, id: Seq<u8>) -> nat
    decreases cs.len(),
{
    if cs.len() == 0 || id_of(cs[0]) == id {
        0
    } else {
        1 + place_of(cs.skip(1), id)
    }
}

/// What a delta on content number `b` gives; nothing when there is no such content or the
/// delta does not apply.
pub open spec fn derived(cs: Seq<(ObjType, Seq<u8>)>, b: int, delta: Seq<u8>) -> Option<(ObjType, Seq<u8>)> {
    if 0 <= b < cs.len() {
        match result_of(cs[b].1, delta) {
            Ok((out, _)) => Some((cs[b].0, out)),
            Err(_) => None,
        }
    } else {
        None
    }
}

/// The content of an object, given those of the objects before it.
pub open spec fn content_of(cs: Seq<(ObjType, Seq<u8>)>, o: PackObj) -> Option<(ObjType, Seq<u8>)> {
    match o {
        PackObj::Base { kind, content } => Some((kind, content@)),
        PackObj::OfsDelta { base_index, delta } => derived(cs, base_index as int, delta@),
        PackObj::RefDelta { base_oid, delta } => derived(cs, place_of(cs, base_oid@) as int, delta@),
    }
}

/// The contents of the first `n` objects; nothing when one of them cannot be built.
pub open spec fn contents_upto(objs: Seq<PackObj>, n: nat) -> Option<Seq<(ObjType, Seq<u8>)>>
    decreases n,
{
    if n == 0 {
        Some(Seq::empty())
    } else {
        match contents_upto(objs, (n - 1) as nat) {
            None => None,
            Some(cs) => match content_of(cs, objs[n - 1]) {
                None => None,
                Some(c) => Some(cs.push(c)),
            },
        }
    }
}

/// Every delta has an earlier base to which it applies.
pub open spec fn buildable(objs: Seq<PackObj>) -> bool {
    contents_upto(objs, objs.len()) is Some
}

/// The size that is spoofed for entry `i`, if any.
pub open spec fn spoofed(v: Seq<(usize, u64)>, i: int) -> Option<u64>
    decreases v.len(),
{
    if v.len() == 0 {
        None
    } else if v[0].0 == i {
        Some(v[0].1)
    } else {
        spoofed(v.skip(1), i)
    }
}

/// Compressed bytes with the wanted bytes changed.
pub open spec fn tampered(z: Seq<u8>, flip: bool, spoil: bool) -> Seq<u8> {
    let a = if flip && z.len() > 8 {
        z.update(2, z[2] ^ 0x20u8)
    } else {
        z
    };
    if spoil && z.len() > 8 {
        a.update(z.len() - 5, a[z.len() - 5] ^ 0x01u8)
    } else {
        a
    }
}

/// The data of entry `i`.
pub open spec fn data_bytes(content: Seq<u8>, c: Corruptions, i: int) -> Seq<u8> {
    tampered(zlib_packed(content), c.flip_zlib_bit@.contains(i as usize), c.break_crc@.contains(i as usize))
}

/// The bytes of entry `i`, which stands at `offset`.
pub open spec fn entry_bytes(o: PackObj, c: Corruptions, i: int, offset: nat, offsets: Seq<u64>) -> Seq<u8> {
    match o {
        PackObj::Base { kind, content } => header_bytes(
            kind.number() as nat,
            match spoofed(c.spoof_size@, i) {
                Some(v) => v as nat,
                None => content@.len(),
            },
        ) + data_bytes(content@, c, i),
        PackObj::OfsDelta { base_index, delta } => header_bytes(6, delta@.len()) + ofs128_bytes(
            (offset - offsets[base_index as int]) as nat,
        ) + data_bytes(delta@, c, i),
        PackObj::RefDelta { base_oid, delta } => header_bytes(7, delta@.len()) + base_oid@ + data_bytes(
            delta@,
            c,
            i,
        ),
    }
}

/// The head of a pack of `count` objects.
pub open spec fn pack_head(count: nat) -> Seq<u8> {
    seq![80u8, 65, 67, 75] + be32_bytes(2) + be32_bytes(count as u32)
}

/// The pack after its first `n` objects, and their offsets.
pub open spec fn packed_upto(objs: Seq<PackObj>, c: Corruptions, n: nat) -> (Seq<u8>, Seq<u64>)
    decreases n,
{
    if n == 0 {
        (pack_head(objs.len()), Seq::empty())
    } else {
        let p = packed_upto(objs, c, (n - 1) as nat);
        let offsets = p.1.push(p.0.len() as u64);
        (p.0 + entry_bytes(objs[n - 1], c, n - 1, p.0.len(), offsets), offsets)
    }
}

/// The finished pack: cut short, or followed by its checksum.
pub open spec fn finished(pack: Seq<u8>, truncate_at: Option<usize>) -> Seq<u8> {
    match truncate_at {
        Some(cut) => if cut <= pack.len() {
            pack.take(cut as int)
        } else {
            pack
        },
        None => pack + sha1_of(pack),
    }
}

fn find_id(oids: &Vec<[u8; 20]>, id: &[u8; 20], Ghost(cs): Ghost<Seq<(ObjType, Seq<u8>)>>) -> (p: usize)
    requires
        oids@.len() == cs.len(),
        forall|i: int| 0 <= i < cs.len() ==> (#[trigger] oids@[i])@ == id_of(cs[i]),
    ensures
        p == place_of(cs, id@),
        p <= oids@.len(),
{
    let mut p: usize = 0;
    assert(cs.skip(0) =~= cs);
    while p < oids.len() && !same_bytes(oids[p].as_slice(), id.as_slice())
        invariant
            p <= oids@.len(),
            oids@.len() == cs.len(),
            forall|i: int| 0 <= i < cs.len() ==> (#[trigger] oids@[i])@ == id_of(cs[i]),
            place_of(cs, id@) == p + place_of(cs.skip(p as int), id@),
        decreases oids@.len() - p,
    {
        assert(oids@[p as int]@ == id_of(cs[p as int]));
        assert(cs.skip(p as int).skip(1) =~= cs.skip(p + 1));
        p += 1;
    }
    if p < oids.len() {
        assert(oids@[p as int]@ == id_of(cs[p as int]));
    }
    p
}

/// The contents as a specification sees them.
pub open spec fn content_models(v: Seq<(ObjType, Vec<u8>)>) -> Seq<(ObjType, Seq<u8>)> {
    v.map_values(|c: (ObjType, Vec<u8>)| (c.0, c.1@))
}

/// What a delta on content number `b` gives.
fn derive(contents: &Vec<(ObjType, Vec<u8>)>, b: usize, delta: &Vec<u8>) -> (r: Option<(ObjType, Vec<u8>)>)
    ensures
        match r {
            Some(c) => derived(content_models(contents@), b as int, delta@) == Some((c.0, c.1@)),
            None => derived(content_models(contents@), b as int, delta@) is None,
        },
{
    if b >= contents.len() {
        return None;
    }
    assert(content_models(contents@)[b as int] == (contents@[b as int].0, contents@[b as int].1@));
    match apply_delta(contents[b].1.as_slice(), delta.as_slice()) {
        Ok(v) => Some((contents[b].0, v.output)),
        Err(_) => None,
    }
}

/// Builds the contents of all objects and gives their ids; nothing when one cannot be built.
fn resolve_contents(objs: &[PackObj]) -> (r: Option<Vec<[u8; 20]>>)
    ensures
        r is Some <==> buildable(objs@),
        r matches Some(oids) ==> {
            &&& oids@.len() == objs@.len()
            &&& forall|i: int|
                0 <= i < objs@.len() ==> (#[trigger] oids@[i])@ == id_of(
                    contents_upto(objs@, objs@.len())->0[i],
                )
        },
{
    let n: usize = objs.len();
    let mut contents: Vec<(ObjType, Vec<u8>)> = Vec::new();
    let mut oids: Vec<[u8; 20]> = Vec::new();
    assert(content_models(contents@) =~= Seq::empty());
    let mut i: usize = 0;
    while i < n
        invariant
            i <= n,
            n == objs@.len(),
            contents_upto(objs@, i as nat) == Some(content_models(contents@)),
            contents@.len() == i,
            oids@.len() == i,
            forall|j: int| 0 <= j < i ==> (#[trigger] oids@[j])@ == id_of(content_models(contents@)[j]),
        decreases n - i,
    {
        let ghost cs = content_models(contents@);
        let built = match &objs[i] {
            PackObj::Base { kind, content } => Some((*kind, content.clone())),
            PackObj::OfsDelta { base_index, delta } => derive(&contents, *base_index, delta),
            PackObj::RefDelta { base_oid, delta } => {
                let b: usize = find_id(&oids, base_oid, Ghost(cs));
                derive(&contents, b, delta)
            },
        };
        let fresh: (ObjType, Vec<u8>) = match built {
            Some(c) => c,
            None => {
                proof {
                    if buildable(objs@) {
                        lemma_prefixes(objs@, (i + 1) as nat, n as nat);
                    }
                }
                return None;
            },
        };
        let ghost c = (fresh.0, fresh.1@);
        assert(content_of(cs, objs@[i as int]) == Some(c));
        let framed = frame(fresh.0.name(), fresh.1.as_slice());
        oids.push(sha1(framed.as_slice()));
        contents.push(fresh);
        assert(content_models(contents@) =~= cs.push(c));
        i += 1;
    }
    Some(oids)
}

proof fn lemma_prefixes(objs: Seq<PackObj>, i: nat, n: nat)
    requires
        i <= n,
        contents_upto(objs, n) is Some,
    ensures
        contents_upto(objs, i) is Some,
        contents_upto(objs, i)->0.len() == i,
    decreases n,
{
    if i < n {
        lemma_prefixes(objs, i, (n - 1) as nat);
    } else if n > 0 {
        lemma_prefixes(objs, (n - 1) as nat, (n - 1) as nat);
    }
}

fn contains_index(v: &Vec<usize>, i: usize) -> (r: bool)
    ensures
        r == v@.contains(i),
{
    let mut k: usize = 0;
    while k < v.len()
        invariant
            k <= v@.len(),
            forall|j: int| 0 <= j < k ==> v@[j] != i,
        decreases v@.len() - k,
    {
        if v[k] == i {
            assert(v@[k as int] == i);
            return true;
        }
        k += 1;
    }
    false
}

fn append_zlib(out: &mut Vec<u8>, content: &[u8], corrupt: &Corruptions, idx: usize)
    ensures
        final(out)@ == old(out)@ + data_bytes(content@, *corrupt, idx as int),
        zlib_packed(content@).len() > 0,
{
    let mut z = zlib_pack(content);
    let n: usize = z.len();
    if contains_index(&corrupt.flip_zlib_bit, idx) {
        if n > 8 {
            let b: u8 = z[2];
            z.set(2, b ^ 0x20u8);
        }
    }
    if contains_index(&corrupt.break_crc, idx) {
        if n > 8 {
            let b: u8 = z[n - 5];
            z.set(n - 5, b ^ 0x01u8);
        }
    }
    assert(z@ =~= data_bytes(content@, *corrupt, idx as int));
    push_all(out, z.as_slice());
}

fn find_spoof(v: &Vec<(usize, u64)>, i: usize) -> (r: Option<u64>)
    ensures
        r == spoofed(v@, i as int),
{
    let mut k: usize = 0;
    assert(v@.skip(0) =~= v@);
    while k < v.len()
        invariant
            k <= v@.len(),
            spoofed(v@, i as int) == spoofed(v@.skip(k as int), i as int),
        decreases v@.len() - k,
    {
        if v[k].0 == i {
            return Some(v[k].1);
        }
        assert(v@.skip(k as int).skip(1) =~= v@.skip(k + 1));
        k += 1;
    }
    None
}

/// An offset delta that can be built has its base before it.
proof fn lemma_base_precedes(objs: Seq<PackObj>, i: nat)
    requires
        i < objs.len(),
        buildable(objs),
    ensures
        objs[i as int] matches PackObj::OfsDelta { base_index, delta } ==> base_index < i,
{
    lemma_prefixes(objs, i, objs.len());
    lemma_prefixes(objs, i + 1, objs.len());
}

/// Whether a pack of the objects, their offsets and their ids are these.
pub open spec fn is_packed(
    objs: Seq<PackObj>,
    corrupt: Corruptions,
    pack: Seq<u8>,
    offsets: Seq<u64>,
    ids: Seq<Seq<u8>>,
) -> bool {
    let p = packed_upto(objs, corrupt, objs.len());
    &&& pack == finished(p.0, corrupt.truncate_at)
    &&& offsets == p.1
    &&& ids == contents_upto(objs, objs.len())->0.map_values(|c: (ObjType, Seq<u8>)| id_of(c))
}

/// Whether nothing is corrupted.
pub open spec fn is_clean(c: Corruptions) -> bool {
    &&& c.flip_zlib_bit@.len() == 0
    &&& c.break_crc@.len() == 0
    &&& c.spoof_size@.len() == 0
    &&& c.truncate_at is None
}

/// The type that an object of a kind has as an entry.
pub open spec fn entry_type(kind: ObjType) -> EntryType {
    match kind {
        ObjType::Commit => EntryType::Base(GitType::Commit),
        ObjType::Tree => EntryType::Base(GitType::Tree),
        ObjType::Blob => EntryType::Base(GitType::Blob),
        ObjType::Tag => EntryType::Base(GitType::Tag),
        ObjType::OfsDelta => EntryType::OfsDelta,
        ObjType::RefDelta => EntryType::RefDelta,
    }
}

/// The entry that is written for an object at `offset`.
pub open spec fn as_written(o: PackObj, offset: nat, offsets: Seq<u64>) -> Written {
    match o {
        PackObj::Base { kind, content } => Written {
            etype: entry_type(kind),
            distance: 0,
            base: Seq::empty(),
            data: content@,
        },
        PackObj::OfsDelta { base_index, delta } => Written {
            etype: EntryType::OfsDelta,
            distance: (offset - offsets[base_index as int]) as nat,
            base: Seq::empty(),
            data: delta@,
        },
        PackObj::RefDelta { base_oid, delta } => Written {
            etype: EntryType::RefDelta,
            distance: 0,
            base: base_oid@,
            data: delta@,
        },
    }
}

/// The entries that are written for objects.
pub open spec fn all_written(objs: Seq<PackObj>, c: Corruptions) -> Seq<Written> {
    Seq::new(
        objs.len(),
        |i: int|
            as_written(
                objs[i],
                packed_upto(objs, c, i as nat).0.len(),
                packed_upto(objs, c, (i + 1) as nat).1,
            ),
    )
}

/// Whether no object is given as whole under the kind of a delta.
pub open spec fn kinds_fit(objs: Seq<PackObj>) -> bool {
    forall|i: int|
        0 <= i < objs.len() ==> ((#[trigger] objs[i]) matches PackObj::Base { kind, .. } ==> !kind.delta())
}

proof fn lemma_all_written(objs: Seq<PackObj>, c: Corruptions, n: nat)
    requires
        is_clean(c),
        kinds_fit(objs),
        n <= objs.len(),
    ensures
        packed_upto(objs, c, n).0 == pack_head(objs.len()) + written(all_written(objs, c), n),
    decreases n,
{
    let ws = all_written(objs, c);
    if n == 0 {
        assert(pack_head(objs.len()) + written(ws, 0) =~= pack_head(objs.len()));
    } else {
        let k = (n - 1) as nat;
        lemma_all_written(objs, c, k);
        let p = packed_upto(objs, c, k);
        let offsets = p.1.push(p.0.len() as u64);
        let o = objs[k as int];
        let w = ws[k as int];
        assert(w == as_written(o, p.0.len(), offsets));
        assert(!c.flip_zlib_bit@.contains(k as usize) && !c.break_crc@.contains(k as usize));
        assert(entry_bytes(o, c, k as int, p.0.len(), offsets) =~= written_entry(w));
        assert(packed_upto(objs, c, n).0 =~= pack_head(objs.len()) + written(ws, n));
    }
}

/// A clean pack is written as its objects are.
proof fn lemma_is_written(objs: Seq<PackObj>, c: Corruptions, b: Seq<u8>, sum: Seq<u8>)
    requires
        is_clean(c),
        kinds_fit(objs),
        objs.len() <= u32::MAX,
        b == packed_upto(objs, c, objs.len()).0 + sum,
        sum.len() == 20,
        forall|i: int| 0 <= i < objs.len() ==> can_be_written(#[trigger] all_written(objs, c)[i]),
    ensures
        is_written(b, all_written(objs, c)),
{
    let ws = all_written(objs, c);
    let head = pack_head(objs.len());
    lemma_all_written(objs, c, objs.len());
    let magic = seq![80u8, 65, 67, 75];
    let count = be32_bytes(objs.len() as u32);
    let rest = written(ws, ws.len()) + sum;
    assert(head.len() == 12);
    assert(b =~= head + rest);
    assert(b.subrange(12, b.len() - 20) =~= written(ws, ws.len()));
    assert(pack_magic().is_prefix_of(b)) by {
        assert(b.take(4) =~= pack_magic());
    }
    be32_roundtrip(2, magic, count + rest);
    assert(b =~= magic + be32_bytes(2) + (count + rest));
    be32_roundtrip(objs.len() as u32, magic + be32_bytes(2), rest);
    assert(b =~= magic + be32_bytes(2) + count + rest);
}

/// Builds a pack, unless a delta has no base to which it applies.
pub fn try_build_pack_with(objs: &[PackObj], corrupt: &Corruptions) -> (r: Option<
    (Vec<u8>, Vec<u64>, Vec<[u8; 20]>),
>)
    requires
        objs@.len() <= u32::MAX,
    ensures
        r is Some <==> buildable(objs@),
        r matches Some(v) ==> is_packed(objs@, *corrupt, v.0@, v.1@, id_keys(v.2@)),
        r matches Some(v) ==> is_clean(*corrupt) && kinds_fit(objs@) ==> is_written(
            v.0@,
            all_written(objs@, *corrupt),
        ),
{
    match resolve_contents(objs) {
        Some(_) => Some(build_pack_with(objs, corrupt)),
        None => None,
    }
}

/// Builds a pack. Returns `(pack bytes, entry offsets, entry ids)` where the ids are the true
/// content ids of the resolved objects.
///
/// Without corruptions, the pack is written as the parser of packs reads it back.
pub fn build_pack_with(objs: &[PackObj], corrupt: &Corruptions) -> (r: (Vec<u8>, Vec<u64>, Vec<[u8; 20]>))
    requires
        objs@.len() <= u32::MAX,
        buildable(objs@),
    ensures
        is_packed(objs@, *corrupt, r.0@, r.1@, id_keys(r.2@)),
        is_clean(*corrupt) && kinds_fit(objs@) ==> is_written(
            r.0@,
            all_written(objs@, *corrupt),
        ),
{
    let n: usize = objs.len();
    let oids = match resolve_contents(objs) {
        Some(v) => v,
        None => vstd::pervasive::unreached(),
    };
    assert(id_keys(oids@) =~= contents_upto(objs@, objs@.len())->0.map_values(
        |c: (ObjType, Seq<u8>)| id_of(c),
    )) by {
        lemma_prefixes(objs@, objs@.len(), objs@.len());
    }
    let mut pack: Vec<u8> = Vec::new();
    pack.push(80);
    pack.push(65);
    pack.push(67);
    pack.push(75);
    push_be32(&mut pack, 2);
    push_be32(&mut pack, n as u32);
    assert(pack@ =~= pack_head(objs@.len()));
    let mut offsets: Vec<u64> = Vec::new();
    assert(offsets@ =~= Seq::empty());
    let mut i: usize = 0;
    while i < n
        invariant
            i <= n,
            n == objs@.len(),
            buildable(objs@),
            pack@ == packed_upto(objs@, *corrupt, i as nat).0,
            offsets@ == packed_upto(objs@, *corrupt, i as nat).1,
            offsets@.len() == i,
            forall|j: int| 0 <= j < i ==> (#[trigger] offsets@[j]) <= pack@.len(),
            kinds_fit(objs@) ==> forall|j: int|
                0 <= j < i ==> can_be_written(#[trigger] all_written(objs@, *corrupt)[j]),
        decreases n - i,
    {
        let offset: usize = pack.len();
        let ghost before = pack@;
        offsets.push(offset as u64);
        proof {
            lemma_base_precedes(objs@, i as nat);
        }
        match &objs[i] {
            PackObj::Base { kind, content } => {
                let declared: u64 = match find_spoof(&corrupt.spoof_size, i) {
                    Some(v) => v,
                    None => content.len() as u64,
                };
                push_header(&mut pack, kind.code(), declared);
                append_zlib(&mut pack, content.as_slice(), corrupt, i);
            },
            PackObj::OfsDelta { base_index, delta } => {
                push_header(&mut pack, 6, delta.len() as u64);
                assert(offsets@[*base_index as int] <= offset);
                push_ofs128(&mut pack, offset as u64 - offsets[*base_index]);
                append_zlib(&mut pack, delta.as_slice(), corrupt, i);
            },
            PackObj::RefDelta { base_oid, delta } => {
                push_header(&mut pack, 7, delta.len() as u64);
                push_all(&mut pack, base_oid.as_slice());
                append_zlib(&mut pack, delta.as_slice(), corrupt, i);
            },
        }
        proof {
            assert(pack@ =~= before + entry_bytes(
                objs@[i as int],
                *corrupt,
                i as int,
                offset as nat,
                offsets@,
            ));
            let w = all_written(objs@, *corrupt)[i as int];
            assert(w == as_written(objs@[i as int], before.len(), offsets@));
            assert(w.data.len() < word() && w.distance < word()) by {
                match &objs[i as int] {
                    PackObj::Base { kind, content } => {
                        assert(content@.len() == content.len());
                    },
                    PackObj::OfsDelta { base_index, delta } => {
                        assert(delta@.len() == delta.len());
                    },
                    PackObj::RefDelta { base_oid, delta } => {
                        assert(delta@.len() == delta.len());
                    },
                }
            }
        }
        i += 1;
    }
    match corrupt.truncate_at {
        Some(cut) => {
            pack.truncate(cut);
            assert(pack@ =~= finished(
                packed_upto(objs@, *corrupt, n as nat).0,
                corrupt.truncate_at,
            ));
            return (pack, offsets, oids);
        },
        None => {},
    }
    let sum = sha1(pack.as_slice());
    push_all(&mut pack, sum.as_slice());
    proof {
        if is_clean(*corrupt) && kinds_fit(objs@) {
            lemma_is_written(objs@, *corrupt, pack@, sum@);
        }
    }
    (pack, offsets, oids)
}

/// Builds a pack without corruptions; the checksum is always there.
pub fn build_pack(objs: &[PackObj], trailer: bool) -> (pack: Vec<u8>)
    requires
        objs@.len() <= u32::MAX,
        buildable(objs@),
    ensures
        exists|c: Corruptions|
            c.flip_zlib_bit@.len() == 0 && c.break_crc@.len() == 0 && c.spoof_size@.len() == 0
                && c.truncate_at is None && pack@ == finished(
                #[trigger] packed_upto(objs@, c, objs@.len()).0,
                None,
            ),
{
    let c = Corruptions::default();
    let (pack, _, _) = build_pack_with(objs, &c);
    pack
}

/// The CRC of the entry at `off`; zero when it cannot be delimited.
pub open spec fn entry_crc_of(pack: Seq<u8>, off: u64) -> u32 {
    match entry_at(pack, off).crc32 {
        Some(c) => c,
        None => 0,
    }
}

fn entry_crc(pack: &[u8], offset: u64) -> (c: u32)
    ensures
        c == entry_crc_of(pack@, offset),
{
    let e = parse_entry(pack, offset);
    match e.crc32 {
        Some(c) => c,
        None => 0,
    }
}

/// The ids of pairs of offset and id.
pub open spec fn pair_ids(pairs: Seq<(u64, [u8; 20])>) -> Seq<Seq<u8>> {
    pairs.map_values(|p: (u64, [u8; 20])| p.1@)
}

/// The CRCs of the entries that pairs of offset and id tell of.
pub open spec fn pair_crcs(pairs: Seq<(u64, [u8; 20])>, pack: Seq<u8>) -> Seq<u32> {
    pairs.map_values(|p: (u64, [u8; 20])| entry_crc_of(pack, p.0))
}

/// The 32-bit offsets of pairs of offset and id.
pub open spec fn pair_words(pairs: Seq<(u64, [u8; 20])>) -> Seq<u32> {
    pairs.map_values(|p: (u64, [u8; 20])| (p.0 % 0x1_0000_0000) as u32)
}

/// Builds a version 2 index matching a pack from (offset, id) pairs, sorted by id internally.
/// There is no table of 64-bit offsets (all offsets are small).
pub fn build_index_v2(pairs: &[(u64, [u8; 20])], pack_bytes: &[u8]) -> (out: Vec<u8>)
    requires
        pairs@.len() <= u32::MAX,
        pack_bytes@.len() >= 20,
    ensures
        out@ == index_file(
            pair_ids(pairs@),
            pair_crcs(pairs@, pack_bytes@),
            pair_words(pairs@),
            pack_bytes@.skip(pack_bytes@.len() - 20),
        ),
{
    let mut ids: Vec<[u8; 20]> = Vec::new();
    let mut crcs: Vec<u32> = Vec::new();
    let mut words: Vec<u32> = Vec::new();
    let mut i: usize = 0;
    while i < pairs.len()
        invariant
            i <= pairs@.len(),
            id_keys(ids@) == pair_ids(pairs@).take(i as int),
            crcs@ == pair_crcs(pairs@, pack_bytes@).take(i as int),
            words@ == pair_words(pairs@).take(i as int),
        decreases pairs@.len() - i,
    {
        let off: u64 = pairs[i].0;
        let ghost before = id_keys(ids@);
        ids.push(pairs[i].1);
        crcs.push(entry_crc(pack_bytes, off));
        words.push((off % 0x1_0000_0000) as u32);
        proof {
            assert(id_keys(ids@) =~= before.push(pairs@[i as int].1@));
            assert(id_keys(ids@) =~= pair_ids(pairs@).take(i + 1));
            assert(crcs@ =~= pair_crcs(pairs@, pack_bytes@).take(i + 1));
            assert(words@ =~= pair_words(pairs@).take(i + 1));
        }
        i += 1;
    }
    assert(pair_ids(pairs@).take(i as int) =~= pair_ids(pairs@));
    assert(crcs@ =~= pair_crcs(pairs@, pack_bytes@));
    assert(words@ =~= pair_words(pairs@));
    assert(id_keys(ids@).len() == ids@.len());
    let n: usize = pack_bytes.len();
    let sum = vstd::slice::slice_subrange(pack_bytes, n - 20, n);
    assert(sum@ =~= pack_bytes@.skip(pack_bytes@.len() - 20));
    write_index(&ids, &crcs, &words, sum)
}

/// Writes a loose object: the zlib stream of the framed content.
pub fn write_loose_object(kind: ObjType, content: &[u8]) -> (z: Vec<u8>)
    ensures
        z@ == zlib_packed(object_frame(kind.text(), content@)),
{
    let raw = frame(kind.name(), content);
    zlib_pack(raw.as_slice())
}

/// The offsets of a pack that was built point at its entries, in order, and the first entry
/// follows the header.
pub proof fn offsets_point_at_entries(objs: Seq<PackObj>, c: Corruptions, n: nat, i: int)
    requires
        0 <= i < n <= objs.len(),
        packed_upto(objs, c, n).0.len() <= u64::MAX,
    ensures
        packed_upto(objs, c, n).1.len() == n,
        packed_upto(objs, c, n).1[i] == packed_upto(objs, c, i as nat).0.len(),
        packed_upto(objs, c, (i + 1) as nat).0.is_prefix_of(packed_upto(objs, c, n).0),
        packed_upto(objs, c, n).1[0] == 12,
    decreases n,
{
    let p = packed_upto(objs, c, (n - 1) as nat);
    lemma_offsets_len(objs, c, (n - 1) as nat);
    if i < n - 1 {
        offsets_point_at_entries(objs, c, (n - 1) as nat, i);
    } else if n > 1 {
        offsets_point_at_entries(objs, c, (n - 1) as nat, 0);
    } else {
        assert(pack_head(objs.len()).len() == 12);
    }
}

proof fn lemma_offsets_len(objs: Seq<PackObj>, c: Corruptions, n: nat)
    ensures
        packed_upto(objs, c, n).1.len() == n,
    decreases n,
{
    if n > 0 {
        lemma_offsets_len(objs, c, (n - 1) as nat);
    }
}

} // verus!
