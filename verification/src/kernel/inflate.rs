//! Boundary-aware zlib decompression.
use vstd::prelude::*;
use vstd::string::StringExecFns;
use crate::model::bytes::push_all;
use crate::model::outside::{
    lemma_zlib_push, zlib_call, zlib_consumed, zlib_packed, zlib_produced, ZlibReader, ZlibStatus,
};
use crate::model::text::{dec, push_dec};

verus! {

#[derive(Debug)]
pub enum InflateError {
    /// Compressed stream itself is malformed / cannot be completed.
    ZlibError(String),
    /// Decompressed length does not match the header-advertised length.
    SizeMismatch { declared: u64, actual: u64 },
    /// Stream keeps emitting data beyond the declared size (size spoof attempt).
    SizeSpoof { declared: u64 },
}

/// The model of an inflate error.
pub ghost enum Fault {
    Zlib(Seq<char>),
    SizeMismatch { declared: u64, actual: u64 },
    SizeSpoof { declared: u64 },
}

impl View for InflateError {
    type V = Fault;

    open spec fn view(&self) -> Fault {
        match self {
            InflateError::ZlibError(s) => Fault::Zlib(s@),
            InflateError::SizeMismatch { declared, actual } => Fault::SizeMismatch {
                declared: *declared,
                actual: *actual,
            },
            InflateError::SizeSpoof { declared } => Fault::SizeSpoof { declared: *declared },
        }
    }
}

impl InflateError {
    pub open spec fn text(self) -> Seq<char> {
        match self {
            InflateError::ZlibError(s) => "zlib error: "@ + s@,
            InflateError::SizeMismatch { declared, actual } => "declared inflated size "@ + dec(
                declared as nat,
            ) + " but stream produced "@ + dec(actual as nat) + " bytes"@,
            InflateError::SizeSpoof { declared } => "stream produced more than declared size "@ + dec(
                declared as nat,
            ) + " (possible size spoof)"@,
        }
    }

    pub fn message(&self) -> (m: String)
        ensures
            m@ == self.text(),
    {
        match self {
            InflateError::ZlibError(s) => {
                let mut m = "zlib error: ".to_owned();
                m.append(s.as_str());
                m
            },
            InflateError::SizeMismatch { declared, actual } => {
                let mut m = "declared inflated size ".to_owned();
                push_dec(&mut m, *declared);
                m.append(" but stream produced ");
                push_dec(&mut m, *actual);
                m.append(" bytes");
                m
            },
            InflateError::SizeSpoof { declared } => {
                let mut m = "stream produced more than declared size ".to_owned();
                push_dec(&mut m, *declared);
                m.append(" (possible size spoof)");
                m
            },
        }
    }
}

pub struct InflateResult {
    pub data: Vec<u8>,
    /// Number of compressed bytes consumed (the exact zlib stream boundary).
    pub consumed: usize,
}

/// The room that is offered when `made` bytes of `declared` and one more are there.
pub open spec fn stream_room(declared: nat, made: nat) -> nat {
    if made >= declared {
        1
    } else if declared + 1 - made < 16384 {
        (declared + 1 - made) as nat
    } else {
        16384
    }
}

/// What a stream at the head of `source` inflates to, after the calls that `rooms` tells of:
/// its content and its length.
pub open spec fn stream_run(source: Seq<u8>, declared: u64, rooms: Seq<nat>) -> Result<(Seq<u8>, nat), Fault>
    decreases source.len() - zlib_consumed(source, rooms) + declared - zlib_produced(source, rooms).len(),
{
    let made = zlib_produced(source, rooms);
    let used = zlib_consumed(source, rooms);
    let next = rooms.push(stream_room(declared as nat, made.len()));
    let call = zlib_call(source, next);
    let out = made + call.produced;
    if call.status == ZlibStatus::Failed {
        Err(Fault::Zlib(call.message))
    } else if out.len() > declared {
        Err(Fault::SizeSpoof { declared })
    } else if call.status == ZlibStatus::StreamEnd {
        if out.len() != declared {
            Err(Fault::SizeMismatch { declared, actual: out.len() as u64 })
        } else {
            Ok((out, used + call.consumed))
        }
    } else if call.status == ZlibStatus::BufError && call.produced.len() == 0 && used + call.consumed
        >= source.len() {
        Err(Fault::Zlib("compressed stream truncated before stream end"@))
    } else if call.status == ZlibStatus::BufError && call.produced.len() == 0 {
        Err(Fault::Zlib("decompressor stalled"@))
    } else if zlib_consumed(source, next) == used + call.consumed && zlib_produced(
        source,
        next,
    ) == out && used + call.consumed <= source.len() && call.consumed + call.produced.len() > 0 {
        stream_run(source, declared, next)
    } else {
        Err(Fault::Zlib("decompressor stalled"@))
    }
}

/// What one zlib stream taken from `src[start..]` inflates to.
pub open spec fn stream_at(src: Seq<u8>, start: usize, declared: u64) -> Result<(Seq<u8>, nat), Fault> {
    if start > src.len() {
        Err(Fault::Zlib("compressed stream truncated before stream end"@))
    } else {
        stream_run(src.skip(start as int), declared, Seq::empty())
    }
}

/// Inflates exactly one zlib stream taken from `src[start..]`.
///
/// `declared_size` is the size advertised by the enclosing container (pack
/// entry header or loose object header). The inflator allows at most
/// `declared_size + 1` bytes to emerge: if any byte appears after the declared
/// size, `InflateError::SizeSpoof` is returned so that a lie discovered only
/// halfway through decompression cannot be mistaken for a complete object.
///
/// A stream that the encoder wrote is read back whole, whatever follows it.
pub fn inflate_stream(src: &[u8], start: usize, declared_size: u64) -> (r: Result<
    InflateResult,
    InflateError,
>)
    ensures
        match r {
            Ok(v) => stream_at(src@, start, declared_size) == Ok::<(Seq<u8>, nat), Fault>(
                (v.data@, v.consumed as nat),
            ) && start + v.consumed <= src@.len() && v.data@.len() == declared_size,
            Err(e) => stream_at(src@, start, declared_size) == Err::<(Seq<u8>, nat), Fault>(e@),
        },
        forall|x: Seq<u8>|
            start <= src@.len() && #[trigger] zlib_packed(x).is_prefix_of(src@.skip(start as int))
                && x.len() == declared_size ==> (r matches Ok(v)
                && v.data@ == x && v.consumed == zlib_packed(x).len()),
{
    if start > src.len() {
        return Err(InflateError::ZlibError("compressed stream truncated before stream end".to_owned()));
    }
    let source = vstd::slice::slice_subrange(src, start, src.len());
    assert(source@ =~= src@.skip(start as int));
    let mut z = ZlibReader::start(source);
    let mut out: Vec<u8> = Vec::new();
    let mut pos: usize = 0;
    loop
        invariant
            z.source() == source@,
            start + source@.len() == src@.len(),
            source@ == src@.skip(start as int),
            pos == zlib_consumed(source@, z.rooms()),
            pos <= source.len(),
            source.len() == source@.len(),
            out@ == zlib_produced(source@, z.rooms()),
            out@.len() <= declared_size,
            start <= src@.len(),
            stream_run(source@, declared_size, Seq::empty()) == stream_run(
                source@,
                declared_size,
                z.rooms(),
            ),
            forall|x: Seq<u8>| #[trigger]
                zlib_packed(x).is_prefix_of(source@) ==> pos <= zlib_packed(x).len() && out@.is_prefix_of(x),
        decreases source@.len() - pos + declared_size - out@.len(),
    {
        let made: u64 = out.len() as u64;
        let room: usize = if made >= declared_size {
            1
        } else if declared_size - made < 16383 {
            (declared_size - made) as usize + 1
        } else {
            16384
        };
        let ghost rooms = z.rooms();
        let call = z.step(source, room);
        proof {
            lemma_zlib_push(source@, rooms, room as nat);
        }
        push_all(&mut out, call.produced.as_slice());
        pos += call.consumed;
        match call.status {
            ZlibStatus::Failed => {
                return Err(InflateError::ZlibError(call.message));
            },
            _ => {},
        }
        if out.len() as u64 > declared_size {
            return Err(InflateError::SizeSpoof { declared: declared_size });
        }
        match call.status {
            ZlibStatus::StreamEnd => {
                if out.len() as u64 != declared_size {
                    return Err(
                        InflateError::SizeMismatch { declared: declared_size, actual: out.len() as u64 },
                    );
                }
                return Ok(InflateResult { data: out, consumed: pos });
            },
            ZlibStatus::BufError => {
                if call.produced.len() == 0 && pos >= source.len() {
                    return Err(
                        InflateError::ZlibError("compressed stream truncated before stream end".to_owned()),
                    );
                }
                if call.produced.len() == 0 {
                    return Err(InflateError::ZlibError("decompressor stalled".to_owned()));
                }
            },
            _ => {},
        }
    }
}

} // verus!
