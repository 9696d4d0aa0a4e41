//! Bounded zlib decompression with exact compressed-boundary detection.
use vstd::prelude::*;
use vstd::string::StringExecFns;
use crate::model::bytes::push_all;
use crate::model::outside::{
    lemma_zlib_push, zlib_call, zlib_consumed, zlib_packed, zlib_produced, ZlibReader, ZlibStatus,
};
use crate::model::text::{dec, push_dec};

verus! {

#[derive(Debug)]
pub struct ZlibOutcome {
    pub data: Vec<u8>,
    /// Number of input bytes the zlib stream occupied.
    pub consumed: usize,
    /// True if the zlib stream itself was valid and terminated cleanly.
    pub clean_end: bool,
    /// True when the real inflated length differs from `declared_size`.
    pub size_mismatch: bool,
}

#[derive(Debug)]
pub struct ZlibError {
    pub code: &'static str,
    pub message: String,
    pub consumed: usize,
}

/// The code, the message and the input consumed of a failed inflation.
pub ghost struct ZlibTrouble {
    pub code: Seq<char>,
    pub message: Seq<char>,
    pub consumed: nat,
}

impl View for ZlibError {
    type V = ZlibTrouble;

    open spec fn view(&self) -> ZlibTrouble {
        ZlibTrouble { code: self.code@, message: self.message@, consumed: self.consumed as nat }
    }
}

/// What a stream at the head of `source` inflates to, after the calls that `rooms` tells of.
pub open spec fn drained(source: Seq<u8>, hard_cap: nat, rooms: Seq<nat>) -> Result<
    (Seq<u8>, nat),
    ZlibTrouble,
>
    decreases
        source.len() - zlib_consumed(source, rooms) + hard_cap - zlib_produced(
            source,
            rooms,
        ).len(),
{
    let made = zlib_produced(source, rooms);
    let next = rooms.push(16384);
    let call = zlib_call(source, next);
    let out = made + call.produced;
    let used = zlib_consumed(source, rooms) + call.consumed;
    if call.status == ZlibStatus::Failed {
        Err(ZlibTrouble { code: "zlib_corrupt"@, message: "zlib error: "@ + call.message, consumed: used })
    } else if call.status == ZlibStatus::StreamEnd {
        Ok((out, used))
    } else if call.consumed == 0 && call.produced.len() == 0 {
        Err(
            ZlibTrouble {
                code: "zlib_truncated"@,
                message: "stream ended before zlib footer"@,
                consumed: used,
            },
        )
    } else if out.len() > hard_cap {
        Err(
            ZlibTrouble {
                code: "inflation_cap"@,
                message: "inflated stream exceeded hard cap of "@ + dec(hard_cap) + " bytes"@,
                consumed: used,
            },
        )
    } else if zlib_consumed(source, next) == used && zlib_produced(source, next) == out && used
        <= source.len() {
        drained(source, hard_cap, next)
    } else {
        Err(
            ZlibTrouble {
                code: "zlib_truncated"@,
                message: "stream ended before zlib footer"@,
                consumed: used,
            },
        )
    }
}

/// Decompresses one zlib stream beginning at `input[0]`.
///
/// `declared_size` is the size advertised by the pack entry header; it is never
/// trusted to bound output - the actual stream is always fully drained and the
/// two lengths are compared afterwards.
///
/// `hard_cap` bounds memory so a corrupt stream cannot expand without limit.
///
/// A stream that the encoder wrote, of no more than `hard_cap` bytes, is read back whole.
pub fn inflate_one(input: &[u8], declared_size: u64, hard_cap: usize) -> (r: Result<ZlibOutcome, ZlibError>)
    ensures
        match r {
            Ok(o) => {
                &&& drained(input@, hard_cap as nat, Seq::empty()) == Ok::<(Seq<u8>, nat), ZlibTrouble>(
                    (o.data@, o.consumed as nat),
                )
                &&& o.consumed <= input@.len()
                &&& o.clean_end
                &&& o.size_mismatch == (o.data@.len() != declared_size)
            },
            Err(e) => drained(input@, hard_cap as nat, Seq::empty()) == Err::<
                (Seq<u8>, nat),
                ZlibTrouble,
            >(e@) && e.consumed <= input@.len(),
        },
        forall|x: Seq<u8>| #[trigger]
            zlib_packed(x).is_prefix_of(input@) && x.len() <= hard_cap ==> (r matches Ok(o) && o.data@ == x
                && o.consumed == zlib_packed(x).len()),
{
    let mut z = ZlibReader::start(input);
    let mut out: Vec<u8> = Vec::new();
    let mut pos: usize = 0;
    loop
        invariant
            z.source() == input@,
            pos == zlib_consumed(input@, z.rooms()),
            pos <= input.len(),
            out@ == zlib_produced(input@, z.rooms()),
            out@.len() <= hard_cap,
            drained(input@, hard_cap as nat, Seq::empty()) == drained(input@, hard_cap as nat, z.rooms()),
        decreases input@.len() - pos + hard_cap - out@.len(),
    {
        let ghost rooms = z.rooms();
        let call = z.step(input, 16384);
        proof {
            lemma_zlib_push(input@, rooms, 16384);
        }
        push_all(&mut out, call.produced.as_slice());
        pos += call.consumed;
        match call.status {
            ZlibStatus::Failed => {
                let mut m = "zlib error: ".to_owned();
                m.append(call.message.as_str());
                return Err(ZlibError { code: "zlib_corrupt", message: m, consumed: pos });
            },
            ZlibStatus::StreamEnd => {
                let size_mismatch: bool = out.len() as u64 != declared_size;
                return Ok(ZlibOutcome { data: out, consumed: pos, clean_end: true, size_mismatch });
            },
            _ => {},
        }
        if call.consumed == 0 && call.produced.len() == 0 {
            return Err(
                ZlibError {
                    code: "zlib_truncated",
                    message: "stream ended before zlib footer".to_owned(),
                    consumed: pos,
                },
            );
        }
        if out.len() > hard_cap {
            let mut m = "inflated stream exceeded hard cap of ".to_owned();
            push_dec(&mut m, hard_cap as u64);
            m.append(" bytes");
            return Err(ZlibError { code: "inflation_cap", message: m, consumed: pos });
        }
    }
}

/// Convenience for loose objects (no declared size to compare).
pub fn inflate_loose(input: &[u8], hard_cap: usize) -> (r: Result<(Vec<u8>, usize), ZlibError>)
    ensures
        match r {
            Ok((out, used)) => drained(input@, hard_cap as nat, Seq::empty()) == Ok::<
                (Seq<u8>, nat),
                ZlibTrouble,
            >((out@, used as nat)),
            Err(e) => drained(input@, hard_cap as nat, Seq::empty()) == Err::<
                (Seq<u8>, nat),
                ZlibTrouble,
            >(e@),
        },
{
    match inflate_one(input, 0, hard_cap) {
        Ok(o) => Ok((o.data, o.consumed)),
        Err(e) => Err(e),
    }
}

} // verus!
