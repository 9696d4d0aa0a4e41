//! Bounded zlib decompression with explicit stream-boundary tracking.
//!
//! A forensic parser cannot trust the size a pack entry declares in its
//! header. We inflate with a hard ceiling and separately report how many
//! bytes the stream produced so callers can detect that the declared size
//! is not the inflated size.
use vstd::prelude::*;
use vstd::string::StringExecFns;
use crate::model::bytes::push_all;
use crate::model::outside::{
    lemma_zlib_push, zlib_call, zlib_consumed, zlib_packed, zlib_produced, ZlibReader, ZlibStatus,
};
use crate::model::text::{dec, push_dec};

verus! {

/// Outcome of inflating one zlib member.
#[derive(Debug)]
pub struct Inflated {
    pub data: Vec<u8>,
    /// Bytes of compressed input consumed, i.e. the end offset of the zlib
    /// stream within the source file.
    pub consumed: usize,
}

/// What the member at the head of `source` inflates to, after the calls that `rooms` tells of.
pub open spec fn member_run(source: Seq<u8>, max_output: nat, rooms: Seq<nat>) -> Result<
    (Seq<u8>, nat),
    Seq<char>,
>
    decreases
        source.len() - zlib_consumed(source, rooms) + max_output - zlib_produced(
            source,
            rooms,
        ).len(),
{
    let made = zlib_produced(source, rooms);
    let next = rooms.push(16384);
    let call = zlib_call(source, next);
    let out = made + call.produced;
    let used = zlib_consumed(source, rooms) + call.consumed;
    if out.len() > max_output {
        Err("inflated stream exceeds ceiling of "@ + dec(max_output) + " bytes"@)
    } else if call.status == ZlibStatus::StreamEnd {
        Ok((out, used))
    } else if call.status == ZlibStatus::Failed {
        Err(call.message)
    } else if call.consumed == 0 && call.produced.len() == 0 && used >= source.len() {
        Err("zlib stream ended without end-of-stream marker"@)
    } else if call.consumed == 0 && call.produced.len() == 0 {
        Err("decompressor stalled"@)
    } else if zlib_consumed(source, next) == used && zlib_produced(source, next) == out && used
        <= source.len() {
        member_run(source, max_output, next)
    } else {
        Err("decompressor stalled"@)
    }
}

/// Inflates a single zlib member beginning at `input[0]`.
///
/// * `max_output` - hard ceiling on produced bytes (resource budget).
/// * The stream must terminate cleanly at its own end marker; bytes after the
///   member are ignored and the member's length appears in `consumed`.
///
/// A member that the encoder wrote is read back whole, whatever follows it, when its content
/// fits the ceiling.
pub fn inflate_once(input: &[u8], max_output: usize) -> (r: Result<Inflated, String>)
    ensures
        match r {
            Ok(v) => member_run(input@, max_output as nat, Seq::empty()) == Ok::<
                (Seq<u8>, nat),
                Seq<char>,
            >((v.data@, v.consumed as nat)) && v.consumed <= input@.len() && v.data@.len() <= max_output,
            Err(e) => member_run(input@, max_output as nat, Seq::empty()) == Err::<
                (Seq<u8>, nat),
                Seq<char>,
            >(e@),
        },
        forall|x: Seq<u8>| #[trigger]
            zlib_packed(x).is_prefix_of(input@) && x.len() <= max_output ==> (r matches Ok(v) && v.data@ == x
                && v.consumed == zlib_packed(x).len()),
{
    let mut z = ZlibReader::start(input);
    let mut out: Vec<u8> = Vec::new();
    let mut pos: usize = 0;
    loop
        invariant
            z.source() == input@,
            pos == zlib_consumed(input@, z.rooms()),
            pos <= input.len(),
            out@ == zlib_produced(input@, z.rooms()),
            out@.len() <= max_output,
            member_run(input@, max_output as nat, Seq::empty()) == member_run(
                input@,
                max_output as nat,
                z.rooms(),
            ),
        decreases input@.len() - pos + max_output - out@.len(),
    {
        let ghost rooms = z.rooms();
        let call = z.step(input, 16384);
        proof {
            lemma_zlib_push(input@, rooms, 16384);
        }
        push_all(&mut out, call.produced.as_slice());
        pos += call.consumed;
        if out.len() > max_output {
            let mut m = "inflated stream exceeds ceiling of ".to_owned();
            push_dec(&mut m, max_output as u64);
            m.append(" bytes");
            return Err(m);
        }
        match call.status {
            ZlibStatus::StreamEnd => {
                return Ok(Inflated { data: out, consumed: pos });
            },
            ZlibStatus::Failed => {
                return Err(call.message);
            },
            _ => {},
        }
        if call.consumed == 0 && call.produced.len() == 0 {
            if pos >= input.len() {
                return Err("zlib stream ended without end-of-stream marker".to_owned());
            }
            return Err("decompressor stalled".to_owned());
        }
    }
}

} // verus!
