//! Low level binary format primitives, after the on-disk layout alone.
use vstd::prelude::*;
use vstd::string::StringExecFns;
use crate::model::bytes::push_all;
use crate::model::crc::{crc32_of, make_table, table_checksum};
use crate::model::object::{frame, object_frame};
use crate::model::outside::{
    lemma_zlib_push, sha1, sha1_of, zlib_call, zlib_consumed, zlib_packed, zlib_produced, ZlibReader,
    ZlibStatus,
};
use crate::model::text::{dec, push_dec};
use crate::model::varint::{
    ends, head_bytes, header_code, header_size, header_size_at, le128, le128_at, lemma_run_bounds, ofs128, run,
    run_at, touched, word,
};

verus! {

/// Object type ids used inside pack object headers (3-bit field).
pub const OBJ_COMMIT: u8 = 1;

pub const OBJ_TREE: u8 = 2;

pub const OBJ_BLOB: u8 = 3;

pub const OBJ_TAG: u8 = 4;

pub const OBJ_OFS_DELTA: u8 = 6;

pub const OBJ_REF_DELTA: u8 = 7;

/// The name of a type id.
pub open spec fn name_of(t: u8) -> Seq<char> {
    if t == OBJ_COMMIT {
        "commit"@
    } else if t == OBJ_TREE {
        "tree"@
    } else if t == OBJ_BLOB {
        "blob"@
    } else if t == OBJ_TAG {
        "tag"@
    } else if t == OBJ_OFS_DELTA {
        "ofs-delta"@
    } else if t == OBJ_REF_DELTA {
        "ref-delta"@
    } else {
        "unknown("@ + dec(t as nat) + ")"@
    }
}

/// The name of a type id.
pub fn kind_name(t: u8) -> (s: String)
    ensures
        s@ == name_of(t),
{
    match t {
        1 => "commit".to_owned(),
        2 => "tree".to_owned(),
        3 => "blob".to_owned(),
        4 => "tag".to_owned(),
        6 => "ofs-delta".to_owned(),
        7 => "ref-delta".to_owned(),
        _ => {
            let mut s = "unknown(".to_owned();
            push_dec(&mut s, t as u64);
            s.append(")");
            s
        },
    }
}

/// The bytes from `start` on; none when `start` is past the end.
pub open spec fn from_pos(buf: Seq<u8>, start: usize) -> Seq<u8> {
    if start <= buf.len() {
        buf.skip(start as int)
    } else {
        Seq::empty()
    }
}

/// Decodes the pack entry header that begins at `start`: its type id, the declared size and
/// where the header ends.
pub fn decode_pack_header(buf: &[u8], start: usize) -> (r: Result<(u8, u64, usize), String>)
    ensures
        ({
            let s = from_pos(buf@, start);
            match r {
                Ok((id, size, end)) => {
                    &&& ends(s)
                    &&& id == header_code(s[0])
                    &&& size as nat == header_size(head_bytes(s)) % word()
                    &&& end == start + touched(s)
                },
                Err(e) => {
                    ||| s.len() == 0 && e@ == "object header truncated"@
                    ||| s.len() > 0 && !ends(s) && e@ == "size varint truncated"@
                },
            }
        }),
{
    if start >= buf.len() {
        return Err("object header truncated".to_owned());
    }
    let ghost s = buf@.skip(start as int);
    let k: usize = run_at(buf, start);
    if k >= buf.len() - start {
        return Err("size varint truncated".to_owned());
    }
    assert(head_bytes(s) =~= buf@.subrange(start as int, start + k + 1));
    let id: u8 = (buf[start] / 16) % 8;
    Ok((id, header_size_at(buf, start, k + 1), start + k + 1))
}

/// The largest distance that a further byte may extend.
pub open spec fn ofs_limit() -> nat {
    0x1ff_ffff_ffff_fffe
}

/// Some byte of the distance at the head of `s` extends one that is too large.
pub open spec fn ofs_overflows(s: Seq<u8>) -> bool {
    exists|j: int| 1 <= j <= run(s) && #[trigger] ofs128(s.take(j)) > ofs_limit()
}

/// Decodes the distance of an offset delta, and where it ends. The base stands that far before
/// the entry.
pub fn decode_ofs_distance(buf: &[u8], start: usize) -> (r: Result<(u64, usize), String>)
    ensures
        ({
            let s = from_pos(buf@, start);
            match r {
                Ok((distance, end)) => {
                    &&& ends(s) && !ofs_overflows(s)
                    &&& distance as nat == ofs128(head_bytes(s))
                    &&& end == start + touched(s)
                },
                Err(e) => {
                    ||| ofs_overflows(s) && e@ == "ofs distance overflow"@
                    ||| !ofs_overflows(s) && !ends(s) && e@ == "ofs varint truncated"@
                },
            }
        }),
{
    if start >= buf.len() {
        assert(run(Seq::<u8>::empty()) == 0);
        return Err("ofs varint truncated".to_owned());
    }
    let ghost s = buf@.skip(start as int);
    let k: usize = run_at(buf, start);
    proof {
        lemma_run_bounds(s);
    }
    let mut distance: u64 = (buf[start] % 128) as u64;
    let mut j: usize = 1;
    assert(s.take(1)[0] == s[0]);
    assert(ofs128(s.take(1)) == distance);
    while j <= k
        invariant
            1 <= j <= k + 1,
            k == run(s),
            k <= s.len(),
            s == buf@.skip(start as int),
            start < buf@.len(),
            start + s.len() == buf.len(),
            j <= s.len(),
            distance as nat == ofs128(s.take(j as int)),
            forall|i: int| 1 <= i < j ==> #[trigger] ofs128(s.take(i)) <= ofs_limit(),
        decreases k + 1 - j,
    {
        if distance > 0x1ff_ffff_ffff_fffe {
            assert(ofs128(s.take(j as int)) > ofs_limit());
            return Err("ofs distance overflow".to_owned());
        }
        if j >= buf.len() - start {
            assert(!ends(s));
            return Err("ofs varint truncated".to_owned());
        }
        let b: u64 = (buf[start + j] % 128) as u64;
        proof {
            assert(s.take(j + 1).drop_last() =~= s.take(j as int));
            assert(s.take(j + 1).last() == s[j as int]);
        }
        distance = (distance + 1) * 128 + b;
        j += 1;
    }
    assert(s.take(j as int) =~= head_bytes(s));
    Ok((distance, start + j))
}

/// Some byte past the tenth of the number at the head of `s` holds bits.
pub open spec fn size_overflows(s: Seq<u8>) -> bool {
    exists|k: int| 10 <= k < s.len() && k <= run(s) && #[trigger] s[k] % 128 != 0
}

/// Decodes a plain little-endian size as used by delta headers, and where it ends.
pub fn decode_size_varint(buf: &[u8], start: usize) -> (r: Result<(u64, usize), String>)
    ensures
        ({
            let s = from_pos(buf@, start);
            match r {
                Ok((size, end)) => {
                    &&& ends(s) && !size_overflows(s)
                    &&& size as nat == le128(head_bytes(s)) % word()
                    &&& end == start + touched(s)
                },
                Err(e) => {
                    ||| size_overflows(s) && e@ == "delta size overflow"@
                    ||| !size_overflows(s) && !ends(s) && e@ == "delta size varint truncated"@
                },
            }
        }),
{
    if start >= buf.len() {
        assert(run(Seq::<u8>::empty()) == 0);
        return Err("delta size varint truncated".to_owned());
    }
    let ghost s = buf@.skip(start as int);
    let n: usize = buf.len() - start;
    let k: usize = run_at(buf, start);
    let mut i: usize = 10;
    while i < n && i <= k
        invariant
            n == s.len(),
            s == buf@.skip(start as int),
            start + n == buf.len(),
            k == run(s),
            10 <= i,
            forall|j: int| 10 <= j < i && j < s.len() && j <= k ==> #[trigger] s[j] % 128 == 0,
        decreases n - i,
    {
        if buf[start + i] % 128 != 0 {
            assert(s[i as int] % 128 != 0);
            return Err("delta size overflow".to_owned());
        }
        i += 1;
    }
    assert(!size_overflows(s));
    if k >= n {
        return Err("delta size varint truncated".to_owned());
    }
    assert(head_bytes(s) =~= buf@.subrange(start as int, start + k + 1));
    Ok((le128_at(buf, start, k + 1), start + k + 1))
}

/// The id of an object.
pub fn git_object_id(type_str: &str, content: &[u8]) -> (id: [u8; 20])
    ensures
        id@ == sha1_of(object_frame(type_str@, content@)),
{
    let framed = frame(type_str, content);
    sha1(framed.as_slice())
}

/// The table of the checksum.
pub struct Crc32 {
    table: Vec<u32>,
}

impl Crc32 {
    /// The table holds the checksum steps of all bytes.
    pub closed spec fn valid(self) -> bool {
        self.table@.len() == 256 && forall|i: int|
            0 <= i < 256 ==> self.table@[i] == #[trigger] crate::model::crc::crc_octet(i as u32)
    }

    pub fn new() -> (c: Self)
        ensures
            c.valid(),
    {
        Crc32 { table: make_table() }
    }

    pub fn checksum(&self, data: &[u8]) -> (crc: u32)
        requires
            self.valid(),
        ensures
            crc == crc32_of(data@),
    {
        table_checksum(&self.table, data)
    }
}

/// The CRC-32 of bytes, as an index stores it for each object.
pub fn crc32_ieee(data: &[u8]) -> (crc: u32)
    ensures
        crc == crc32_of(data@),
{
    let c = Crc32::new();
    c.checksum(data)
}

/// Result of inflating one zlib stream embedded in a larger byte slice.
#[derive(Debug)]
pub struct Inflated {
    pub data: Vec<u8>,
    /// Number of compressed bytes consumed (start of stream .. end of stream).
    pub consumed: usize,
    /// Expected inflated size (from the object header).
    pub declared: u64,
    /// True if the inflated output exceeded the hard cap.
    pub overran_cap: bool,
}

/// The room for the next call, after `made` bytes: up to the cap, 4096 bytes at most, then one
/// byte that tells whether there is more, and 4096 bytes for what is not kept.
pub open spec fn room_after(cap: nat, made: nat) -> nat {
    if made == cap {
        1
    } else if made > cap || cap - made > 4096 {
        4096
    } else {
        (cap - made) as nat
    }
}

/// What is kept of an output: the cap, and one byte more when there is more.
pub open spec fn kept(out: Seq<u8>, cap: nat) -> Seq<u8> {
    if out.len() > cap {
        out.take(cap as int + 1)
    } else {
        out
    }
}

/// What a stream at the head of `source` inflates to, after the calls that `rooms` tells of:
/// what is kept of the output, how much was consumed, and whether the output went past the cap.
/// Once it has, trouble in the rest of the stream only ends the reading.
pub open spec fn capped_run(source: Seq<u8>, cap: nat, rooms: Seq<nat>) -> Result<
    (Seq<u8>, nat, bool),
    Seq<char>,
>
    decreases
        source.len() - zlib_consumed(source, rooms) + u64::MAX - zlib_produced(source, rooms).len(),
{
    let made = zlib_produced(source, rooms);
    let used = zlib_consumed(source, rooms);
    let next = rooms.push(room_after(cap, made.len()));
    let call = zlib_call(source, next);
    let out = made + call.produced;
    if call.status == ZlibStatus::Failed && made.len() <= cap {
        Err("zlib error: "@ + call.message)
    } else if call.status == ZlibStatus::Failed || call.status == ZlibStatus::StreamEnd {
        Ok((kept(out, cap), used + call.consumed, out.len() > cap))
    } else if (call.consumed > 0 || call.produced.len() > 0) && zlib_consumed(source, next) == used
        + call.consumed && zlib_produced(source, next) == out && used + call.consumed <= source.len()
        && out.len() <= u64::MAX - 4096 {
        capped_run(source, cap, next)
    } else if out.len() > cap {
        Ok((kept(out, cap), used + call.consumed, true))
    } else {
        Err("zlib stream truncated (no end marker)"@)
    }
}

/// Inflates exactly one zlib stream inside `buf[start..]`.
///
/// `cap` is a hard allocation ceiling used to defend against size spoofing: `overran_cap = true`
/// is reported if more than `cap` bytes would be produced, and what lies beyond is not kept. The
/// caller still learns the exact zlib boundary.
///
/// A stream that the encoder wrote is read back whole under the cap, whatever follows it, and its
/// boundary is found in any case.
pub fn inflate_zlib(buf: &[u8], start: usize, declared: u64, cap: usize) -> (r: Result<Inflated, String>)
    requires
        start <= buf@.len(),
    ensures
        match r {
            Ok(i) => {
                &&& capped_run(buf@.skip(start as int), cap as nat, Seq::empty()) == Ok::<
                    (Seq<u8>, nat, bool),
                    Seq<char>,
                >((i.data@, i.consumed as nat, i.overran_cap))
                &&& i.declared == declared
                &&& start + i.consumed <= buf@.len()
                &&& i.data@.len() <= cap + 1
            },
            Err(e) => capped_run(buf@.skip(start as int), cap as nat, Seq::empty()) == Err::<
                (Seq<u8>, nat, bool),
                Seq<char>,
            >(e@),
        },
        forall|x: Seq<u8>| #[trigger]
            zlib_packed(x).is_prefix_of(buf@.skip(start as int)) && x.len() <= u64::MAX - 4096 ==> (r matches Ok(i)
                && i.data@ == kept(x, cap as nat) && i.consumed == zlib_packed(x).len() && i.overran_cap == (
            x.len() > cap)),
{
    let source = vstd::slice::slice_subrange(buf, start, buf.len());
    assert(source@ =~= buf@.skip(start as int));
    let mut z = ZlibReader::start(source);
    let mut out: Vec<u8> = Vec::new();
    let mut made: u64 = 0;
    let mut pos: usize = 0;
    loop
        invariant
            z.source() == source@,
            source@ == buf@.skip(start as int),
            start + source@.len() == buf@.len(),
            pos == zlib_consumed(source@, z.rooms()),
            pos <= source.len(),
            made == zlib_produced(source@, z.rooms()).len(),
            made <= u64::MAX - 4096,
            out@ == kept(zlib_produced(source@, z.rooms()), cap as nat),
            capped_run(source@, cap as nat, Seq::empty()) == capped_run(source@, cap as nat, z.rooms()),
            forall|x: Seq<u8>| #[trigger]
                zlib_packed(x).is_prefix_of(source@) ==> pos <= zlib_packed(x).len(),
        decreases source@.len() - pos + u64::MAX - made,
    {
        let room: usize = if made == cap as u64 {
            1
        } else if made > cap as u64 || cap as u64 - made > 4096 {
            4096
        } else {
            cap - made as usize
        };
        let ghost rooms = z.rooms();
        let ghost before = zlib_produced(source@, rooms);
        let call = z.step(source, room);
        proof {
            lemma_zlib_push(source@, rooms, room as nat);
        }
        let ghost all = before + call.produced@;
        let past: bool = made > cap as u64;
        if matches!(call.status, ZlibStatus::Failed) && !past {
            let mut m = "zlib error: ".to_owned();
            m.append(call.message.as_str());
            return Err(m);
        }
        if !past {
            push_all(&mut out, call.produced.as_slice());
        }
        assert(out@ =~= kept(all, cap as nat));
        made += call.produced.len() as u64;
        pos += call.consumed;
        let overran_cap: bool = made > cap as u64;
        if matches!(call.status, ZlibStatus::Failed) || matches!(call.status, ZlibStatus::StreamEnd) {
            return Ok(Inflated { data: out, consumed: pos, declared, overran_cap });
        }
        if (call.consumed == 0 && call.produced.len() == 0) || made > u64::MAX - 4096 {
            if overran_cap {
                return Ok(Inflated { data: out, consumed: pos, declared, overran_cap });
            }
            return Err("zlib stream truncated (no end marker)".to_owned());
        }
    }
}

} // verus!
