//! Headers of packs and pack entries, hashes, checksums and previews.
use vstd::prelude::*;
use vstd::string::StringExecFns;
use crate::model::bytes::{be32, begins_with, oid_at, read_be32};
use crate::model::crc::{bitwise_checksum, crc32_of};
use crate::model::object::{frame, object_frame};
use crate::model::outside::{
    hex_encode, hex_error_text, hex_read, sha1, sha1_of, zlib_pack, zlib_packed, zlib_read, zlib_read_of, ZlibRead,
};
use crate::model::text::{dec, hex, hex_digit, is_hex, push_dec, push_hex_digit, unhex};
use crate::model::varint::{
    ends, head_bytes, le128, le128_bytes, le128_scan, ofs128, ofs128_at, push_le128, run, run_at, scan_le128, touched,
    word, Scan,
};

verus! {

pub const OBJ_COMMIT: u8 = 1;

pub const OBJ_TREE: u8 = 2;

pub const OBJ_BLOB: u8 = 3;

pub const OBJ_TAG: u8 = 4;

pub const OBJ_OFS_DELTA: u8 = 6;

pub const OBJ_REF_DELTA: u8 = 7;

#[derive(Debug, Clone, Copy, PartialEq, Eq)]
pub struct PackHeader {
    pub version: u32,
    pub object_count: u32,
}

#[derive(Debug, Clone, Copy, PartialEq, Eq)]
pub struct PackObjectHeader {
    pub kind: u8,
    pub declared_size: u64,
    pub header_end: usize,
    pub ofs_distance: Option<u64>,
    pub ref_base: Option<[u8; 20]>,
}

/// The name of a type code.
pub fn kind_name(kind: u8) -> (s: &'static str)
    ensures
        s@ == crate::gitcore::name_of(kind),
{
    crate::gitcore::kind_name(kind)
}

/// The bytes from `pos` on; none when `pos` is past the end.
pub open spec fn from_pos(data: Seq<u8>, pos: usize) -> Seq<u8> {
    if pos <= data.len() {
        data.skip(pos as int)
    } else {
        Seq::empty()
    }
}

/// A size at the head of `s`: its value and how many bytes it takes.
pub open spec fn size_of(s: Seq<u8>) -> Result<(u64, nat), Seq<char>> {
    match le128_scan(s) {
        Scan::Value { value, len } => Ok((value, len as nat)),
        Scan::Truncated => Err("truncated size encoding"@),
        Scan::TooLong => Err("size encoding is too long"@),
    }
}

/// Reads a little-endian base-128 size. Returns it and where it ends.
pub fn read_size_encoding(data: &[u8], pos: usize) -> (r: Result<(u64, usize), String>)
    ensures
        match r {
            Ok((v, end)) => pos < end <= data@.len() && size_of(from_pos(data@, pos)) == Ok::<
                (u64, nat),
                Seq<char>,
            >((v, (end - pos) as nat)),
            Err(e) => size_of(from_pos(data@, pos)) == Err::<(u64, nat), Seq<char>>(e@),
        },
{
    if pos > data.len() {
        return Err("truncated size encoding".to_owned());
    }
    match scan_le128(data, pos) {
        Scan::Value { value, len } => Ok((value, pos + len)),
        Scan::Truncated => Err("truncated size encoding".to_owned()),
        Scan::TooLong => Err("size encoding is too long".to_owned()),
    }
}

pub fn write_size_encoding(value: u64, out: &mut Vec<u8>)
    ensures
        final(out)@ == old(out)@ + le128_bytes(value as nat),
{
    push_le128(out, value);
}

/// What is wrong with the header of a pack.
pub open spec fn header_trouble(d: Seq<u8>) -> Option<Seq<char>> {
    if d.len() < 12 {
        Some("pack header is truncated"@)
    } else if d.subrange(0, 4) != seq![80u8, 65, 67, 75] {
        Some("missing PACK magic"@)
    } else if be32(d, 4) != 2 {
        Some("unsupported pack version "@ + dec(be32(d, 4) as nat))
    } else {
        None
    }
}

pub fn parse_pack_header(data: &[u8]) -> (r: Result<PackHeader, String>)
    ensures
        match r {
            Ok(h) => header_trouble(data@) is None && h.version == 2 && h.object_count == be32(data@, 8),
            Err(e) => header_trouble(data@) == Some(e@),
        },
{
    if data.len() < 12 {
        return Err("pack header is truncated".to_owned());
    }
    let head: [u8; 4] = [80, 65, 67, 75];
    assert(head@ =~= seq![80u8, 65, 67, 75]);
    if !begins_with(data, head.as_slice()) {
        return Err("missing PACK magic".to_owned());
    }
    let version: u32 = read_be32(data, 4);
    let object_count: u32 = read_be32(data, 8);
    if version != 2 {
        let mut m = "unsupported pack version ".to_owned();
        push_dec(&mut m, version as u64);
        return Err(m);
    }
    Ok(PackHeader { version, object_count })
}

/// The model of the header of a pack entry.
pub ghost struct HeaderModel {
    pub kind: u8,
    pub declared_size: u64,
    pub header_end: nat,
    pub ofs_distance: Option<u64>,
    pub ref_base: Option<Seq<u8>>,
}

impl View for PackObjectHeader {
    type V = HeaderModel;

    open spec fn view(&self) -> HeaderModel {
        HeaderModel {
            kind: self.kind,
            declared_size: self.declared_size,
            header_end: self.header_end as nat,
            ofs_distance: self.ofs_distance,
            ref_base: match self.ref_base {
                Some(o) => Some(o@),
                None => None,
            },
        }
    }
}

/// The type bits of the first word of an entry header.
pub open spec fn word_kind(w: u64) -> u8 {
    ((w >> 4) & 7) as u8
}

/// The size bits of the first word of an entry header.
pub open spec fn word_size(w: u64) -> u64 {
    (w & 0x0f) | (w >> 7)
}

/// The header of the entry at `offset`, or what is wrong with it.
pub open spec fn object_header(d: Seq<u8>, offset: usize) -> Result<HeaderModel, Seq<char>> {
    if offset >= d.len() {
        Err("object offset is outside pack"@)
    } else {
        match size_of(d.skip(offset as int)) {
            Err(e) => Err(e),
            Ok((w, n)) => {
                let kind = word_kind(w);
                let at = offset + n;
                let s = d.skip(at);
                let h = HeaderModel {
                    kind,
                    declared_size: word_size(w),
                    header_end: at as nat,
                    ofs_distance: None,
                    ref_base: None,
                };
                if kind == 0 || kind == 5 {
                    Err("reserved or invalid object type "@ + dec(kind as nat))
                } else if kind == OBJ_OFS_DELTA {
                    if s.len() == 0 {
                        Err("truncated ofs-delta header"@)
                    } else if !ends(s) {
                        Err("truncated ofs-delta distance"@)
                    } else {
                        Ok(
                            HeaderModel {
                                header_end: (at + touched(s)) as nat,
                                ofs_distance: Some((ofs128(head_bytes(s)) % word()) as u64),
                                ..h
                            },
                        )
                    }
                } else if kind == OBJ_REF_DELTA {
                    if at + 20 > d.len() {
                        Err("truncated ref-delta base name"@)
                    } else {
                        Ok(
                            HeaderModel {
                                header_end: (at + 20) as nat,
                                ref_base: Some(d.subrange(at, at + 20)),
                                ..h
                            },
                        )
                    }
                } else {
                    Ok(h)
                }
            },
        }
    }
}

/// Reads the header of the entry at `offset`.
pub fn parse_object_header(data: &[u8], offset: usize) -> (r: Result<PackObjectHeader, String>)
    ensures
        match r {
            Ok(h) => object_header(data@, offset) == Ok::<HeaderModel, Seq<char>>(h@),
            Err(e) => object_header(data@, offset) == Err::<HeaderModel, Seq<char>>(e@),
        },
{
    if offset >= data.len() {
        return Err("object offset is outside pack".to_owned());
    }
    let (w, at) = match read_size_encoding(data, offset) {
        Ok(v) => v,
        Err(e) => return Err(e),
    };
    let kind: u8 = ((w >> 4) & 7) as u8;
    assert(((w >> 4) & 7) < 8) by (bit_vector);
    let declared_size: u64 = (w & 0x0f) | (w >> 7);
    if kind == 0 || kind == 5 {
        let mut m = "reserved or invalid object type ".to_owned();
        push_dec(&mut m, kind as u64);
        return Err(m);
    }
    let ghost s = data@.skip(at as int);
    if kind == OBJ_OFS_DELTA {
        if at >= data.len() {
            return Err("truncated ofs-delta header".to_owned());
        }
        let k: usize = run_at(data, at);
        if k >= data.len() - at {
            return Err("truncated ofs-delta distance".to_owned());
        }
        assert(head_bytes(s) =~= data@.subrange(at as int, at + k + 1));
        return Ok(
            PackObjectHeader {
                kind,
                declared_size,
                header_end: at + k + 1,
                ofs_distance: Some(ofs128_at(data, at, k + 1)),
                ref_base: None,
            },
        );
    }
    if kind == OBJ_REF_DELTA {
        if data.len() - at < 20 {
            return Err("truncated ref-delta base name".to_owned());
        }
        return Ok(
            PackObjectHeader {
                kind,
                declared_size,
                header_end: at + 20,
                ofs_distance: None,
                ref_base: Some(oid_at(data, at)),
            },
        );
    }
    Ok(PackObjectHeader { kind, declared_size, header_end: at, ofs_distance: None, ref_base: None })
}

/// What is reported of a stream that begins at `start`, when the decoder has read it: the content
/// and where the stream ends, or the error with how far the decoder had come.
pub fn inflate_outcome(read: ZlibRead, start: usize) -> (r: Result<(Vec<u8>, usize, Option<String>), String>)
    requires
        start + read.consumed <= usize::MAX,
    ensures
        match read.error {
            None => r matches Ok((out, end, note)) && out@ == read.output@ && end == start + read.consumed
                && note is None,
            Some(error) => r matches Err(e) && e@ == error@ + "|partial="@ + dec(read.consumed as nat),
        },
{
    match read.error {
        None => Ok((read.output, start + read.consumed, None)),
        Some(error) => {
            let mut m = error;
            m.append("|partial=");
            push_dec(&mut m, read.consumed as u64);
            Err(m)
        },
    }
}

/// Inflates the zlib stream that begins at `start`. Returns the content and where the stream
/// ends.
///
/// A stream that the encoder wrote is read back whole.
pub fn zlib_inflate_from(data: &[u8], start: usize) -> (r: Result<
    (Vec<u8>, usize, Option<String>),
    String,
>)
    requires
        start <= data@.len(),
    ensures
        match zlib_read_of(data@.skip(start as int)) {
            Ok((output, consumed)) => r matches Ok((out, end, note)) && out@ == output && end == start + consumed
                && note is None,
            Err(error) => r matches Err(e) && exists|n: nat|
                n <= data@.len() - start && e@ == error + "|partial="@ + #[trigger] dec(n),
        },
        forall|x: Seq<u8>| #[trigger]
            zlib_packed(x).is_prefix_of(data@.skip(start as int)) ==> (r matches Ok(v) && v.0@ == x && v.1
                == start + zlib_packed(x).len()),
{
    let source = vstd::slice::slice_subrange(data, start, data.len());
    assert(source@ =~= data@.skip(start as int));
    assert(data@.len() == data.len());
    let read = zlib_read(source);
    inflate_outcome(read, start)
}

pub fn zlib_deflate(data: &[u8]) -> (z: Vec<u8>)
    ensures
        z@ == zlib_packed(data@),
{
    zlib_pack(data)
}

/// The id of an object.
pub fn git_hash(kind: &str, data: &[u8]) -> (id: [u8; 20])
    ensures
        id@ == sha1_of(object_frame(kind@, data@)),
{
    let framed = frame(kind, data);
    sha1(framed.as_slice())
}

pub fn hex_to_oid(s: &str) -> (r: Result<[u8; 20], String>)
    ensures
        match r {
            Ok(id) => is_hex(s@) && id@ == unhex(s@),
            Err(e) => if is_hex(s@) {
                unhex(s@).len() != 20 && e@ == "object id must be 20 bytes"@
            } else {
                e@ == hex_error_text(s@)
            },
        },
{
    let bytes = match hex_read(s) {
        Ok(v) => v,
        Err(e) => return Err(e),
    };
    if bytes.len() != 20 {
        return Err("object id must be 20 bytes".to_owned());
    }
    let id = oid_at(bytes.as_slice(), 0);
    assert(id@ =~= bytes@);
    Ok(id)
}

pub fn oid_hex(oid: &[u8; 20]) -> (s: String)
    ensures
        s@ == hex(oid@),
{
    hex_encode(oid.as_slice())
}

pub fn sha1_hex(data: &[u8]) -> (s: String)
    ensures
        s@ == hex(sha1_of(data@)),
{
    let sum = sha1(data);
    hex_encode(sum.as_slice())
}

pub fn crc32(data: &[u8]) -> (crc: u32)
    ensures
        crc == crc32_of(data@),
{
    bitwise_checksum(data)
}

/// How a byte is shown: printable ASCII, line ends and tabs as they are, others escaped.
pub open spec fn shown(b: u8) -> Seq<char> {
    if (0x20 <= b && b <= 0x7e) || b == 10 || b == 9 {
        seq![b as char]
    } else {
        "\\x"@.push(hex_digit((b / 16) as nat)).push(hex_digit((b % 16) as nat))
    }
}

/// How the first `n` bytes are shown.
pub open spec fn all_shown(s: Seq<u8>, n: nat) -> Seq<char>
    decreases n,
{
    if n == 0 {
        Seq::empty()
    } else {
        all_shown(s, (n - 1) as nat) + shown(s[n - 1])
    }
}

/// Shows the first `limit` bytes, with a mark when there are more.
pub fn preview_bytes(data: &[u8], limit: usize) -> (value: String)
    ensures
        value@ == if data@.len() > limit {
            all_shown(data@, limit as nat).push('…')
        } else {
            all_shown(data@, data@.len())
        },
{
    let n: usize = if data.len() < limit {
        data.len()
    } else {
        limit
    };
    let mut value = String::new();
    let mut i: usize = 0;
    while i < n
        invariant
            i <= n <= data@.len(),
            value@ == all_shown(data@, i as nat),
        decreases n - i,
    {
        let b: u8 = data[i];
        let ghost was = value@;
        if (0x20 <= b && b <= 0x7e) || b == 10 || b == 9 {
            value.push(b as char);
        } else {
            value.append("\\x");
            push_hex_digit(&mut value, b / 16);
            push_hex_digit(&mut value, b % 16);
        }
        assert(value@ =~= was + shown(b));
        i += 1;
    }
    if data.len() > n {
        value.push('…');
    }
    value
}

proof fn lemma_small_word(w: u64)
    by (bit_vector)
    requires
        w < 128,
    ensures
        ((w >> 4) & 7) == w / 16,
        ((w & 0x0f) | (w >> 7)) == w % 16,
{
}

/// An entry whose head takes one byte has the type of its upper bits and the size of its four lower bits;
/// a delta names its base behind it, by the twenty bytes that follow or by a distance.
pub proof fn short_heads_are_read_as_they_stand(d: Seq<u8>, offset: usize, kind: u8, size: u8)
    requires
        offset < d.len() <= usize::MAX,
        kind < 8,
        size < 16,
        d[offset as int] == kind * 16 + size,
    ensures
        kind == 0 || kind == 5 ==> object_header(d, offset) is Err,
        1 <= kind <= 4 ==> object_header(d, offset) == Ok::<HeaderModel, Seq<char>>(
            HeaderModel {
                kind,
                declared_size: size as u64,
                header_end: (offset + 1) as nat,
                ofs_distance: None,
                ref_base: None,
            },
        ),
        kind == 7 ==> (object_header(d, offset) is Ok <==> offset + 21 <= d.len()),
        kind == 7 && offset + 21 <= d.len() ==> object_header(d, offset) == Ok::<HeaderModel, Seq<char>>(
            HeaderModel {
                kind,
                declared_size: size as u64,
                header_end: (offset + 21) as nat,
                ofs_distance: None,
                ref_base: Some(d.subrange(offset + 1, offset + 21)),
            },
        ),
        kind == 6 && object_header(d, offset) is Ok ==> {
            let h = object_header(d, offset)->Ok_0;
            h.kind == 6 && h.declared_size == size && h.ref_base is None && h.ofs_distance is Some
        },
{
    let s = d.skip(offset as int);
    let b = d[offset as int];
    assert(s[0] == b && b < 128);
    assert(run(s) == 0);
    assert(head_bytes(s) =~= seq![b]);
    reveal_with_fuel(le128, 3);
    assert(le128(seq![b]) == b % 128) by {
        assert(seq![b].skip(1) =~= Seq::<u8>::empty());
    }
    let w = b as u64;
    lemma_small_word(w);
    assert(w / 16 == kind && w % 16 == size);
}

/// Every byte shows: a plain one as itself, any other as a mark and its two digits. What is shown of
/// more bytes begins with what is shown of fewer.
pub proof fn bytes_are_shown_one_by_one(s: Seq<u8>, n: nat)
    requires
        n < s.len(),
    ensures
        ({
            let b = s[n as int];
            let more = all_shown(s, n + 1);
            let fewer = all_shown(s, n);
            &&& fewer.is_prefix_of(more)
            &&& 32 <= b <= 126 || b == 9 || b == 10 ==> more == fewer.push(b as char)
            &&& b < 9 || 10 < b < 32 || b > 126 ==> more.len() == fewer.len() + 4 && more[fewer.len() as int] == '\\'
                && more[fewer.len() as int + 1] == 'x' && more[fewer.len() as int + 2] == hex_digit((b / 16) as nat)
                && more[fewer.len() as int + 3] == hex_digit((b % 16) as nat)
        }),
{
    reveal_strlit("\\x");
    let b = s[n as int];
    assert(all_shown(s, n + 1) == all_shown(s, n) + shown(b));
    if 32 <= b <= 126 || b == 9 || b == 10 {
        assert(all_shown(s, n + 1) =~= all_shown(s, n).push(b as char));
    }
}

} // verus!
