//! Codec implementations for the standard scalar and aggregate types.

pub mod ints;
pub mod varint;
pub mod tuple;
pub mod vecs;
pub mod string;
pub mod float;
