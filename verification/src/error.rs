//! Errors that are shown and kept as evidence.
use vstd::prelude::*;
use vstd::string::StringExecFns;
use crate::model::bytes::be32_bytes;
use crate::model::text::{dec, hex, join, joined, push_dec, push_hex32, texts};

verus! {

#[allow(inconsistent_fields)]
#[derive(Debug)]
pub enum Error {
    Io(String),
    Db(String),
    BadPack(String),
    BadIndex(String),
    BadLoose(String),
    BadDelta(String),
    SizeMismatch { declared: u64, actual: u64 },
    OfsOutOfRange { at: u64, negative_offset: u64 },
    DeltaCycle(Vec<String>),
    MissingBase(String),
    CrcMismatch { at: u64, expected: u32, actual: u32 },
    ChecksumMismatch(String),
    Unsupported(String),
    NotFound(String),
    Conflict(String),
}

impl Error {
    /// The message of the error.
    pub open spec fn text(self) -> Seq<char> {
        match self {
            Error::Io(s) => "io error: "@ + s@,
            Error::Db(s) => "database error: "@ + s@,
            Error::BadPack(s) => "bad pack: "@ + s@,
            Error::BadIndex(s) => "bad index: "@ + s@,
            Error::BadLoose(s) => "bad loose object: "@ + s@,
            Error::BadDelta(s) => "bad delta: "@ + s@,
            Error::SizeMismatch { declared, actual } => "declared size "@ + dec(declared as nat)
                + " does not match actual inflated size "@ + dec(actual as nat) + " (size spoof)"@,
            Error::OfsOutOfRange { at, negative_offset } => "ofs-delta at "@ + dec(at as nat)
                + " points "@ + dec(negative_offset as nat) + " bytes backwards, before the pack start"@,
            Error::DeltaCycle(chain) => "delta cycle detected: "@ + joined(texts(chain@), " -> "@),
            Error::MissingBase(id) => "missing external base "@ + id@,
            Error::CrcMismatch { at, expected, actual } => "crc32 mismatch at offset "@ + dec(at as nat)
                + ": index says "@ + hex(be32_bytes(expected)) + ", data computes "@ + hex(
                be32_bytes(actual),
            ),
            Error::ChecksumMismatch(s) => "checksum mismatch: "@ + s@,
            Error::Unsupported(s) => "unsupported: "@ + s@,
            Error::NotFound(s) => "not found: "@ + s@,
            Error::Conflict(s) => "conflict: "@ + s@,
        }
    }

    pub fn message(&self) -> (m: String)
        ensures
            m@ == self.text(),
    {
        match self {
            Error::Io(s) => labelled("io error: ", s),
            Error::Db(s) => labelled("database error: ", s),
            Error::BadPack(s) => labelled("bad pack: ", s),
            Error::BadIndex(s) => labelled("bad index: ", s),
            Error::BadLoose(s) => labelled("bad loose object: ", s),
            Error::BadDelta(s) => labelled("bad delta: ", s),
            Error::SizeMismatch { declared, actual } => {
                let mut m = "declared size ".to_owned();
                push_dec(&mut m, *declared);
                m.append(" does not match actual inflated size ");
                push_dec(&mut m, *actual);
                m.append(" (size spoof)");
                m
            },
            Error::OfsOutOfRange { at, negative_offset } => {
                let mut m = "ofs-delta at ".to_owned();
                push_dec(&mut m, *at);
                m.append(" points ");
                push_dec(&mut m, *negative_offset);
                m.append(" bytes backwards, before the pack start");
                m
            },
            Error::DeltaCycle(chain) => {
                let mut m = "delta cycle detected: ".to_owned();
                m.append(join(chain, " -> ").as_str());
                m
            },
            Error::MissingBase(id) => labelled("missing external base ", id),
            Error::CrcMismatch { at, expected, actual } => {
                let mut m = "crc32 mismatch at offset ".to_owned();
                push_dec(&mut m, *at);
                m.append(": index says ");
                push_hex32(&mut m, *expected);
                m.append(", data computes ");
                push_hex32(&mut m, *actual);
                m
            },
            Error::ChecksumMismatch(s) => labelled("checksum mismatch: ", s),
            Error::Unsupported(s) => labelled("unsupported: ", s),
            Error::NotFound(s) => labelled("not found: ", s),
            Error::Conflict(s) => labelled("conflict: ", s),
        }
    }

    /// The code under which the error is kept.
    pub open spec fn code(self) -> Seq<char> {
        match self {
            Error::Io(_) => "io"@,
            Error::Db(_) => "db"@,
            Error::BadPack(_) => "bad_pack"@,
            Error::BadIndex(_) => "bad_index"@,
            Error::BadLoose(_) => "bad_loose"@,
            Error::BadDelta(_) => "bad_delta"@,
            Error::SizeMismatch { .. } => "size_spoof"@,
            Error::OfsOutOfRange { .. } => "ofs_out_of_range"@,
            Error::DeltaCycle(_) => "delta_cycle"@,
            Error::MissingBase(_) => "missing_base"@,
            Error::CrcMismatch { .. } => "crc_mismatch"@,
            Error::ChecksumMismatch(_) => "checksum_mismatch"@,
            Error::Unsupported(_) => "unsupported"@,
            Error::NotFound(_) => "not_found"@,
            Error::Conflict(_) => "conflict"@,
        }
    }
}

fn labelled(label: &str, s: &String) -> (m: String)
    ensures
        m@ == label@ + s@,
{
    let mut m = label.to_owned();
    m.append(s.as_str());
    m
}

/// Stable machine-readable code used in persisted error evidence.
pub fn code_of(e: &Error) -> (c: &'static str)
    ensures
        c@ == e.code(),
{
    match e {
        Error::Io(_) => "io",
        Error::Db(_) => "db",
        Error::BadPack(_) => "bad_pack",
        Error::BadIndex(_) => "bad_index",
        Error::BadLoose(_) => "bad_loose",
        Error::BadDelta(_) => "bad_delta",
        Error::SizeMismatch { .. } => "size_spoof",
        Error::OfsOutOfRange { .. } => "ofs_out_of_range",
        Error::DeltaCycle(_) => "delta_cycle",
        Error::MissingBase(_) => "missing_base",
        Error::CrcMismatch { .. } => "crc_mismatch",
        Error::ChecksumMismatch(_) => "checksum_mismatch",
        Error::Unsupported(_) => "unsupported",
        Error::NotFound(_) => "not_found",
        Error::Conflict(_) => "conflict",
    }
}

} // verus!
