//! A sequence index answering rank and select queries over a bounded
//! alphabet, together with the small utilities that surround it: a hex
//! identifier codec and deterministic string generators for test inputs.

pub mod id;
pub mod strings;
pub mod succinct;
mod text;
pub mod wavelet_tree;
