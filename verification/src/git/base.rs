//! Shared small helpers for object addressing.
use vstd::prelude::*;
use crate::git::GitType;

verus! {

/// Where a candidate object originates from.
#[derive(Debug, Clone, Copy, PartialEq, Eq, Structural)]
pub enum SourceKind {
    Pack,
    Loose,
}

impl SourceKind {
    pub open spec fn text(self) -> Seq<char> {
        match self {
            SourceKind::Pack => "pack"@,
            SourceKind::Loose => "loose"@,
        }
    }

    pub fn name(self) -> (s: &'static str)
        ensures
            s@ == self.text(),
    {
        match self {
            SourceKind::Pack => "pack",
            SourceKind::Loose => "loose",
        }
    }
}

/// Fully typed reconstructed object.
#[derive(Debug)]
pub struct Reconstructed {
    pub obj_type: GitType,
    pub data: Vec<u8>,
}

} // verus!
