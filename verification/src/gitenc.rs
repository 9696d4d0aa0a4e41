//! Encodings of sizes, pack headers and offsets.
use vstd::prelude::*;
use crate::model::object::{frame, object_frame};
use crate::model::outside::{hex_encode, sha1, sha1_of};
use crate::model::text::hex;
use crate::model::varint::{
    ends, head_bytes, header_code, header_size, header_size_at, le128_bytes, le128_roundtrip, le128_scan,
    lemma_head_of_number, ofs128, ofs128_at, push_le128, run_at, scan_le128, touched, word, Scan,
};

verus! {

/// What kind of thing is wrong.
#[derive(Debug, Clone, Copy, PartialEq, Eq, Structural)]
pub enum ErrorCode {
    PackTruncated,
    PackEntryTruncated,
    DeltaBadInstruction,
}

/// An encoding that cannot be read.
#[derive(Debug)]
pub struct Error {
    pub code: ErrorCode,
    pub message: String,
}

impl Error {
    pub fn new(code: ErrorCode, message: &str) -> (e: Self)
        ensures
            e.code == code,
            e.message@ == message@,
    {
        Error { code, message: message.to_owned() }
    }
}

/// An error with a code and a message.
pub open spec fn is_error(e: Error, code: ErrorCode, message: Seq<char>) -> bool {
    e.code == code && e.message@ == message
}

pub fn oid_hex(bytes: &[u8]) -> (s: String)
    ensures
        s@ == hex(bytes@),
{
    hex_encode(bytes)
}

/// The id of an object.
pub fn oid_sha1(kind: &str, content: &[u8]) -> (id: [u8; 20])
    ensures
        id@ == sha1_of(object_frame(kind@, content@)),
{
    let framed = frame(kind, content);
    sha1(framed.as_slice())
}

/// The bytes from `pos` on; none when `pos` is past the end.
pub open spec fn from_pos(buf: Seq<u8>, pos: usize) -> Seq<u8> {
    if pos <= buf.len() {
        buf.skip(pos as int)
    } else {
        Seq::empty()
    }
}

/// Reads a little-endian base-128 size, as loose objects and delta headers have it. Returns it
/// and where it ends.
pub fn read_var_size(buf: &[u8], pos: usize) -> (r: Result<(u64, usize), Error>)
    ensures
        match le128_scan(from_pos(buf@, pos)) {
            Scan::Value { value, len } => r matches Ok(v) && v.0 == value && v.1 == pos + len,
            Scan::Truncated => r matches Err(e) && is_error(
                e,
                ErrorCode::PackTruncated,
                "varint runs past buffer"@,
            ),
            Scan::TooLong => r matches Err(e) && is_error(
                e,
                ErrorCode::DeltaBadInstruction,
                "varint too long"@,
            ),
        },
{
    if pos > buf.len() {
        return Err(Error::new(ErrorCode::PackTruncated, "varint runs past buffer"));
    }
    match scan_le128(buf, pos) {
        Scan::Value { value, len } => Ok((value, pos + len)),
        Scan::Truncated => Err(Error::new(ErrorCode::PackTruncated, "varint runs past buffer")),
        Scan::TooLong => Err(Error::new(ErrorCode::DeltaBadInstruction, "varint too long")),
    }
}

pub fn write_var_size(size: u64, out: &mut Vec<u8>)
    ensures
        final(out)@ == old(out)@ + le128_bytes(size as nat),
{
    push_le128(out, size);
}

/// A size that was written is read back, whatever follows it.
pub proof fn sizes_are_read_back(size: u64, rest: Seq<u8>)
    ensures
        le128_scan(le128_bytes(size as nat) + rest) == (Scan::Value {
            value: size,
            len: le128_bytes(size as nat).len() as usize,
        }),
{
    le128_roundtrip(size as nat);
    lemma_head_of_number(le128_bytes(size as nat), rest);
}

/// Reads the header of a pack entry at `pos`: its type bits, the inflated size and the length
/// of the header.
pub fn read_pack_header_byte(buf: &[u8], pos: usize) -> (r: Result<(u8, u64, usize), Error>)
    ensures
        ({
            let s = from_pos(buf@, pos);
            match r {
                Ok((kind, size, n)) => {
                    &&& ends(s)
                    &&& kind == header_code(s[0])
                    &&& size as nat == header_size(head_bytes(s)) % word()
                    &&& n == touched(s)
                },
                Err(e) => {
                    ||| s.len() == 0 && is_error(e, ErrorCode::PackEntryTruncated, "no header byte"@)
                    ||| s.len() > 0 && !ends(s) && is_error(
                        e,
                        ErrorCode::PackEntryTruncated,
                        "header continuation"@,
                    )
                },
            }
        }),
{
    if pos >= buf.len() {
        return Err(Error::new(ErrorCode::PackEntryTruncated, "no header byte"));
    }
    let ghost s = buf@.skip(pos as int);
    let k: usize = run_at(buf, pos);
    if k >= buf.len() - pos {
        return Err(Error::new(ErrorCode::PackEntryTruncated, "header continuation"));
    }
    assert(head_bytes(s) =~= buf@.subrange(pos as int, pos + k + 1));
    let kind: u8 = (buf[pos] / 16) % 8;
    Ok((kind, header_size_at(buf, pos, k + 1), k + 1))
}

/// Reads the distance of an offset delta, and how many bytes it takes.
pub fn read_ofs_distance(buf: &[u8], pos: usize) -> (r: Result<(u64, usize), Error>)
    ensures
        ({
            let s = from_pos(buf@, pos);
            match r {
                Ok((distance, n)) => {
                    &&& ends(s)
                    &&& distance as nat == ofs128(head_bytes(s)) % word()
                    &&& n == touched(s)
                },
                Err(e) => {
                    ||| s.len() == 0 && is_error(e, ErrorCode::PackEntryTruncated, "ofs byte missing"@)
                    ||| s.len() > 0 && !ends(s) && is_error(
                        e,
                        ErrorCode::PackEntryTruncated,
                        "ofs continuation"@,
                    )
                },
            }
        }),
{
    if pos >= buf.len() {
        return Err(Error::new(ErrorCode::PackEntryTruncated, "ofs byte missing"));
    }
    let ghost s = buf@.skip(pos as int);
    let k: usize = run_at(buf, pos);
    if k >= buf.len() - pos {
        return Err(Error::new(ErrorCode::PackEntryTruncated, "ofs continuation"));
    }
    assert(head_bytes(s) =~= buf@.subrange(pos as int, pos + k + 1));
    Ok((ofs128_at(buf, pos, k + 1), k + 1))
}

} // verus!
