//! Reconstruction of single entries: delta chains, budgets, failure isolation and saved
//! intermediate states.
pub mod chain;
pub mod inflate;
pub mod laws;
pub mod resolve;
pub mod rows;
