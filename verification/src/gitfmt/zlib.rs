//! Streaming zlib decompression with precise stream-boundary reporting. The end of a stream is
//! found even when its declared size is a lie, so a bad object can be isolated without aborting
//! the whole pack.
use vstd::prelude::*;
use vstd::string::StringExecFns;
use crate::model::bytes::push_all;
use crate::model::outside::{
    lemma_oxide_push, oxide_call, oxide_consumed, oxide_pack, oxide_packed, oxide_produced, OxideReader,
    OxideStatus,
};

verus! {

#[derive(Debug)]
pub enum InflateError {
    /// The compressed stream itself is invalid or truncated; its boundary is unusable.
    BadStream(String),
    /// The decompressed data exceed the hard per-object safety cap.
    CapExceeded { cap: u64 },
}

/// The model of an inflation error.
pub ghost enum Fault {
    BadStream(Seq<char>),
    CapExceeded { cap: u64 },
}

impl View for InflateError {
    type V = Fault;

    open spec fn view(&self) -> Fault {
        match self {
            InflateError::BadStream(m) => Fault::BadStream(m@),
            InflateError::CapExceeded { cap } => Fault::CapExceeded { cap: *cap },
        }
    }
}

#[derive(Debug)]
pub struct Inflated {
    pub data: Vec<u8>,
    /// Offset in the input just past the end of the zlib stream.
    pub compressed_end: usize,
    pub compressed_len: usize,
    /// `(declared, actual)` when the advertised size did not match.
    pub size_mismatch: Option<(u64, u64)>,
}

/// The room for the next call, after `made` bytes: up to the declared size, or up to the cap
/// once the declared size has proved too small; a megabyte at most, and one byte at least.
pub open spec fn room_after(expected: Option<u64>, cap: u64, made: nat) -> nat {
    let bound = match expected {
        Some(d) => if made > d {
            cap
        } else {
            d
        },
        None => cap,
    };
    if made >= bound {
        1
    } else if bound - made > 0x10_0000 {
        0x10_0000
    } else {
        (bound - made) as nat
    }
}

/// What a stream at the head of `source` inflates to, after the calls that `rooms` tells of:
/// its content and its length.
pub open spec fn scan_run(source: Seq<u8>, expected: Option<u64>, cap: u64, rooms: Seq<nat>) -> Result<
    (Seq<u8>, nat),
    Fault,
>
    decreases cap - oxide_produced(source, rooms).len(),
{
    let made = oxide_produced(source, rooms);
    let next = rooms.push(room_after(expected, cap, made.len()));
    let call = oxide_call(source, next);
    let out = made + call.produced;
    if made.len() >= cap || out.len() > cap {
        Err(Fault::CapExceeded { cap })
    } else if call.status == OxideStatus::Done {
        Ok((out, oxide_consumed(source, rooms) + call.consumed))
    } else if call.status == OxideStatus::MoreOutput && call.produced.len() > 0 && oxide_produced(
        source,
        next,
    ) == out {
        scan_run(source, expected, cap, next)
    } else {
        Err(Fault::BadStream("zlib decompression failed: "@ + call.message))
    }
}

/// The bytes from `start` on; none when `start` is past the end.
pub open spec fn rest(buf: Seq<u8>, start: usize) -> Seq<u8> {
    if start < buf.len() {
        buf.skip(start as int)
    } else {
        Seq::empty()
    }
}

/// Inflates a zlib stream beginning at `start`.
///
/// `expected_size` is the size advertised by the pack entry or loose header, `hard_cap` the
/// number of output bytes that is never passed. A stream that the encoder wrote is read back
/// whole, with its end, while it stays under the cap.
pub fn inflate_at(buf: &[u8], start: usize, expected_size: Option<u64>, hard_cap: u64) -> (r: Result<
    Inflated,
    InflateError,
>)
    ensures
        match r {
            Ok(i) => {
                &&& scan_run(rest(buf@, start), expected_size, hard_cap, Seq::empty()) == Ok::<
                    (Seq<u8>, nat),
                    Fault,
                >((i.data@, i.compressed_len as nat))
                &&& i.compressed_end == start + i.compressed_len
                &&& start <= buf@.len() ==> i.compressed_end <= buf@.len()
                &&& i.size_mismatch == match expected_size {
                    Some(d) => if d != i.data@.len() {
                        Some((d, i.data@.len() as u64))
                    } else {
                        None
                    },
                    None => None,
                }
            },
            Err(e) => scan_run(rest(buf@, start), expected_size, hard_cap, Seq::empty()) == Err::<
                (Seq<u8>, nat),
                Fault,
            >(e@),
        },
        forall|x: Seq<u8>| #[trigger]
            oxide_packed(x).is_prefix_of(rest(buf@, start)) && x.len() < hard_cap ==> (r matches Ok(i)
                && i.data@ == x && i.compressed_len == oxide_packed(x).len()),
{
    let source = if start < buf.len() {
        vstd::slice::slice_subrange(buf, start, buf.len())
    } else {
        vstd::slice::slice_subrange(buf, 0, 0)
    };
    assert(source@ =~= rest(buf@, start));
    let mut z = OxideReader::start(source);
    let mut out: Vec<u8> = Vec::new();
    let mut pos: usize = 0;
    loop
        invariant
            z.source() == source@,
            source@ == rest(buf@, start),
            pos == oxide_consumed(source@, z.rooms()),
            pos <= source@.len(),
            out@ == oxide_produced(source@, z.rooms()),
            out@.len() <= hard_cap,
            scan_run(source@, expected_size, hard_cap, Seq::empty()) == scan_run(
                source@,
                expected_size,
                hard_cap,
                z.rooms(),
            ),
            forall|x: Seq<u8>| #[trigger]
                oxide_packed(x).is_prefix_of(source@) ==> out@.is_prefix_of(x),
        decreases hard_cap - out@.len(),
    {
        let made: u64 = out.len() as u64;
        if made >= hard_cap {
            return Err(InflateError::CapExceeded { cap: hard_cap });
        }
        let bound: u64 = match expected_size {
            Some(d) => if made > d {
                hard_cap
            } else {
                d
            },
            None => hard_cap,
        };
        let room: usize = if made >= bound {
            1
        } else if bound - made > 0x10_0000 {
            0x10_0000
        } else {
            (bound - made) as usize
        };
        let ghost rooms = z.rooms();
        let call = z.step(source, room);
        proof {
            lemma_oxide_push(source@, rooms, room as nat);
        }
        push_all(&mut out, call.produced.as_slice());
        assert(pos + call.consumed <= source.len());
        pos += call.consumed;
        if out.len() as u64 > hard_cap {
            return Err(InflateError::CapExceeded { cap: hard_cap });
        }
        match call.status {
            OxideStatus::Done => {
                let size_mismatch: Option<(u64, u64)> = match expected_size {
                    Some(d) => if d != out.len() as u64 {
                        Some((d, out.len() as u64))
                    } else {
                        None
                    },
                    None => None,
                };
                assert(pos > 0 ==> start + pos <= buf.len());
                return Ok(
                    Inflated {
                        data: out,
                        compressed_end: start + pos,
                        compressed_len: pos,
                        size_mismatch,
                    },
                );
            },
            OxideStatus::MoreOutput => {},
            _ => {
                let mut m = "zlib decompression failed: ".to_owned();
                m.append(call.message.as_str());
                return Err(InflateError::BadStream(m));
            },
        }
    }
}

/// Compresses data into a zlib stream.
pub fn deflate(data: &[u8]) -> (z: Vec<u8>)
    ensures
        z@ == oxide_packed(data@),
{
    oxide_pack(data)
}

} // verus!
