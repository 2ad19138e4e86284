//! The encoding of grammars in the binary layout, and the proof that the
//! decoder reads from the encoding of a grammar that it has produced the
//! same grammar again.
//!
//! The encoding is a description only: nothing here writes a file.

pub mod concrete;
pub mod file;
pub mod symbols;
pub mod terms;
