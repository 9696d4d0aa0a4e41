//! Object formats, delta application and the reconstruction engine.
pub mod delta;
pub mod engine;
pub mod git;
pub mod idx;
pub mod inflate;
pub mod loose;
pub mod pack;
