//! Verified core of the MaxMatch (M2) scorer for grammatical error correction.
//!
//! The library aligns a source sentence with a system hypothesis, builds the
//! lattice of token edits between them, extends it with merged edits, weighs
//! the edits against a gold annotation and extracts and matches the chosen
//! edit sequence. Floating-point scoring stays with the caller.
#![allow(unused_imports)]

pub mod align;
pub mod closure;
pub mod edit;
pub mod extract;
pub mod graph;
pub mod order;
pub mod sentence;
pub mod tokens;
pub mod weights;
