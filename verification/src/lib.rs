//! Many-to-many character alignment between a token's written surface
//! form and its phonetic transcription.
//!
//! The library holds the verified combinatorial core of the algorithm:
//! the admissible substring-pair lattice, the scratch grid, the keyed
//! containers, the best-path readout, the merge pass over finished
//! alignments, and the application of a finished model to a sentence.
//! The log-domain numeric passes drive these pieces from outside.

pub mod array_2d;
pub mod lattice;
pub mod chars;
pub mod keyed;
pub mod decode;
pub mod sentence;
pub mod model;
pub mod merge;
