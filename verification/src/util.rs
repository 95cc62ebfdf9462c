//! Helpers around the codec: sequence framing over element runs, and a
//! compact hexadecimal rendering of encodings.

pub mod iterator;
pub mod test;
