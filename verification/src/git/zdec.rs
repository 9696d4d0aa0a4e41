//! Inflation of one zlib stream with its exact compressed boundaries.
use vstd::prelude::*;
use vstd::string::StringExecFns;
use crate::model::bytes::push_all;
use crate::model::outside::{
    lemma_zlib_push, zlib_call, zlib_consumed, zlib_packed, zlib_produced, ZlibReader, ZlibStatus,
};
use crate::model::text::{dec, push_dec};

verus! {

#[derive(Clone, Copy, Debug)]
pub struct ZlibRange {
    pub compressed_start: usize,
    pub compressed_end: usize,
    pub output_len: usize,
}

/// The message of a stream that grows past the cap.
pub open spec fn over_cap(made: nat, max_output: nat, note: Seq<char>) -> Seq<char> {
    "inflated size "@ + dec(made) + " exceeds hard cap "@ + dec(max_output) + note
}

/// What a stream at the head of `source` inflates to, after the calls that `rooms` tells of:
/// its content and its length. `note` ends the message of a stream that grows past the cap.
pub open spec fn capped_run(source: Seq<u8>, max_output: nat, note: Seq<char>, rooms: Seq<nat>) -> Result<
    (Seq<u8>, nat),
    Seq<char>,
>
    decreases
        source.len() - zlib_consumed(source, rooms) + max_output - zlib_produced(
            source,
            rooms,
        ).len(),
{
    let made = zlib_produced(source, rooms);
    let used = zlib_consumed(source, rooms);
    let next = rooms.push(16384);
    let call = zlib_call(source, next);
    let out = made + call.produced;
    if call.status == ZlibStatus::Failed {
        Err(call.message)
    } else if out.len() > max_output {
        Err(over_cap(out.len(), max_output, note))
    } else if call.status == ZlibStatus::StreamEnd {
        Ok((out, used + call.consumed))
    } else if call.consumed == 0 && call.produced.len() == 0 && used >= source.len() {
        Err("unexpected EOF inside zlib stream"@)
    } else if call.consumed == 0 && call.produced.len() == 0 {
        Err("zlib stream made no progress (corrupt data)"@)
    } else if zlib_consumed(source, next) == used + call.consumed && zlib_produced(
        source,
        next,
    ) == out && used + call.consumed <= source.len() {
        capped_run(source, max_output, note, next)
    } else {
        Err("unexpected EOF inside zlib stream"@)
    }
}

/// What is inflated under a cap stays under it.
pub proof fn caps_hold(source: Seq<u8>, max_output: nat, note: Seq<char>, rooms: Seq<nat>)
    ensures
        capped_run(source, max_output, note, rooms) matches Ok((out, used)) ==> out.len() <= max_output,
    decreases
        source.len() - zlib_consumed(source, rooms) + max_output - zlib_produced(
            source,
            rooms,
        ).len(),
{
    let made = zlib_produced(source, rooms);
    let used = zlib_consumed(source, rooms);
    let next = rooms.push(16384);
    let call = zlib_call(source, next);
    let out = made + call.produced;
    if call.status != ZlibStatus::Failed && out.len() <= max_output && call.status
        != ZlibStatus::StreamEnd && !(call.consumed == 0 && call.produced.len() == 0) && zlib_consumed(
        source,
        next,
    ) == used + call.consumed && zlib_produced(source, next) == out && used + call.consumed
        <= source.len() {
        caps_hold(source, max_output, note, next);
    }
}

/// Inflates under a cap. Returns the content and the length of the stream.
fn inflate_capped(data: &[u8], start: usize, max_output: usize, note: &str) -> (r: Result<
    (Vec<u8>, usize),
    String,
>)
    requires
        start <= data@.len(),
    ensures
        match r {
            Ok((out, used)) => capped_run(
                data@.skip(start as int),
                max_output as nat,
                note@,
                Seq::empty(),
            ) == Ok::<(Seq<u8>, nat), Seq<char>>((out@, used as nat)) && start + used <= data@.len(),
            Err(e) => capped_run(data@.skip(start as int), max_output as nat, note@, Seq::empty()) == Err::<
                (Seq<u8>, nat),
                Seq<char>,
            >(e@),
        },
        forall|x: Seq<u8>| #[trigger]
            zlib_packed(x).is_prefix_of(data@.skip(start as int)) && x.len() <= max_output ==> (r matches Ok(v)
                && v.0@ == x && v.1 == zlib_packed(x).len()),
{
    let source = vstd::slice::slice_subrange(data, start, data.len());
    assert(source@ =~= data@.skip(start as int));
    let mut z = ZlibReader::start(source);
    let mut out: Vec<u8> = Vec::new();
    let mut pos: usize = 0;
    loop
        invariant
            z.source() == source@,
            source@ == data@.skip(start as int),
            start + source@.len() == data@.len(),
            pos == zlib_consumed(source@, z.rooms()),
            pos <= source.len(),
            out@ == zlib_produced(source@, z.rooms()),
            out@.len() <= max_output,
            capped_run(source@, max_output as nat, note@, Seq::empty()) == capped_run(
                source@,
                max_output as nat,
                note@,
                z.rooms(),
            ),
            forall|x: Seq<u8>| #[trigger]
                zlib_packed(x).is_prefix_of(source@) ==> pos <= zlib_packed(x).len(),
        decreases source@.len() - pos + max_output - out@.len(),
    {
        let ghost rooms = z.rooms();
        let call = z.step(source, 16384);
        proof {
            lemma_zlib_push(source@, rooms, 16384);
        }
        push_all(&mut out, call.produced.as_slice());
        pos += call.consumed;
        match call.status {
            ZlibStatus::Failed => {
                return Err(call.message);
            },
            _ => {},
        }
        if out.len() > max_output {
            let mut m = "inflated size ".to_owned();
            push_dec(&mut m, out.len() as u64);
            m.append(" exceeds hard cap ");
            push_dec(&mut m, max_output as u64);
            m.append(note);
            return Err(m);
        }
        match call.status {
            ZlibStatus::StreamEnd => {
                return Ok((out, pos));
            },
            _ => {},
        }
        if call.consumed == 0 && call.produced.len() == 0 {
            if pos >= source.len() {
                return Err("unexpected EOF inside zlib stream".to_owned());
            }
            return Err("zlib stream made no progress (corrupt data)".to_owned());
        }
    }
}

/// What the stream at `start` inflates to under a cap.
pub open spec fn capped_at(data: Seq<u8>, start: usize, max_output: nat, note: Seq<char>) -> Result<
    (Seq<u8>, nat),
    Seq<char>,
> {
    if start > data.len() {
        Err("unexpected EOF inside zlib stream"@)
    } else {
        capped_run(data.skip(start as int), max_output, note, Seq::empty())
    }
}

/// What a stream of a declared size inflates to.
pub open spec fn declared_at(data: Seq<u8>, start: usize, declared: u64, max_output: nat) -> Result<
    (Seq<u8>, nat),
    Seq<char>,
> {
    match capped_at(data, start, max_output, " (possible size spoof)"@) {
        Err(m) => Err(m),
        Ok((out, used)) => if out.len() != declared {
            Err(
                "size spoof: header declared "@ + dec(declared as nat) + " bytes but zlib produced "@ + dec(
                    out.len(),
                ),
            )
        } else {
            Ok((out, used))
        },
    }
}

/// Inflates one zlib stream beginning at `start`.
///
/// Returns the inflated bytes plus exact compressed-byte boundaries, so the
/// parser can continue at `compressed_end` without relying on the declared
/// size. Inflation is bounded by `max_output`; reaching that bound before the
/// stream ends is reported as a size/spoof error.
///
/// A stream of the declared size that the encoder wrote is read back whole, whatever follows it.
pub fn inflate_one(data: &[u8], start: usize, declared: u64, max_output: usize) -> (r: Result<
    (Vec<u8>, ZlibRange),
    String,
>)
    ensures
        match r {
            Ok((out, range)) => {
                &&& declared_at(data@, start, declared, max_output as nat) == Ok::<
                    (Seq<u8>, nat),
                    Seq<char>,
                >((out@, (range.compressed_end - start) as nat))
                &&& start <= range.compressed_end <= data@.len()
                &&& range.compressed_start == start
                &&& range.output_len == out@.len()
            },
            Err(e) => declared_at(data@, start, declared, max_output as nat) == Err::<
                (Seq<u8>, nat),
                Seq<char>,
            >(e@),
        },
        forall|x: Seq<u8>|
            start <= data@.len() && #[trigger] zlib_packed(x).is_prefix_of(data@.skip(start as int))
                && x.len() <= max_output && x.len() == declared ==> (r matches Ok(v) && v.0@
                == x && v.1.compressed_end == start + zlib_packed(x).len()),
{
    if start > data.len() {
        return Err("unexpected EOF inside zlib stream".to_owned());
    }
    let (out, used) = match inflate_capped(data, start, max_output, " (possible size spoof)") {
        Ok(v) => v,
        Err(e) => return Err(e),
    };
    let n: usize = out.len();
    assert(start + used <= data.len());
    if n as u64 != declared {
        let mut m = "size spoof: header declared ".to_owned();
        push_dec(&mut m, declared);
        m.append(" bytes but zlib produced ");
        push_dec(&mut m, n as u64);
        return Err(m);
    }
    Ok((out, ZlibRange { compressed_start: start, compressed_end: start + used, output_len: n }))
}

/// Inflates without trusting any declared size (loose objects): only the hard
/// cap bounds the output.
///
/// A stream that the encoder wrote is read back whole, whatever follows it.
pub fn inflate_unbounded(data: &[u8], start: usize, max_output: usize) -> (r: Result<
    (Vec<u8>, ZlibRange),
    String,
>)
    ensures
        match r {
            Ok((out, range)) => {
                &&& capped_at(data@, start, max_output as nat, " (zip bomb suspected)"@) == Ok::<(Seq<u8>, nat), Seq<char>>((out@, (range.compressed_end - start) as nat))
                &&& start <= range.compressed_end <= data@.len()
                &&& range.compressed_start == start
                &&& range.output_len == out@.len()
            },
            Err(e) => capped_at(data@, start, max_output as nat, " (zip bomb suspected)"@) == Err::<(Seq<u8>, nat), Seq<char>>(e@),
        },
        forall|x: Seq<u8>|
            start <= data@.len() && #[trigger] zlib_packed(x).is_prefix_of(data@.skip(start as int))
                && x.len() <= max_output ==> (r matches Ok(v) && v.0@ == x
                && v.1.compressed_end == start + zlib_packed(x).len()),
{
    if start > data.len() {
        return Err("unexpected EOF inside zlib stream".to_owned());
    }
    let (out, used) = match inflate_capped(data, start, max_output, " (zip bomb suspected)") {
        Ok(v) => v,
        Err(e) => return Err(e),
    };
    let n: usize = out.len();
    assert(start + used <= data.len());
    Ok((out, ZlibRange { compressed_start: start, compressed_end: start + used, output_len: n }))
}

} // verus!
