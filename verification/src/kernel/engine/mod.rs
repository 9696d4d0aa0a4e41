//! The analysis engine. Parsed sources become nodes (loose objects, pack entries); delta chains
//! are reconstructed by a memoized, cycle-checked search. Bad objects are isolated in failed or
//! paused states while the analysis of the rest goes on.
pub mod candidates;
pub mod chain;
pub mod import;
pub mod laws;
pub mod manage;
pub mod managing;
pub mod matching;
pub mod outcomes;
pub mod parsed;
pub mod publish;
pub mod rows;
