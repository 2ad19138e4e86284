//! The decoder of the binary grammar file.
//!
//! The layout is big-endian throughout. A file is: the version (two bytes,
//! always 2), the number of grammars (two bytes, always 1), the abstract
//! name (a string with a length of two bytes), the global flags, the abstract
//! syntax, and the concrete syntaxes; nothing follows. Every other string has
//! a length of one byte. A flag table has a count of two bytes, every other
//! list a count of four bytes. Types, expressions and symbols are nested at
//! most `MAX_DEPTH` deep.
//!
//! A file is read from the front and never read twice; every short read,
//! unknown tag or text that is not UTF-8 is a failure that names the field
//! and the offset. A grammar that was decoded is loaded only if nothing is
//! wrong with it (see `valid`).

pub mod concrete;
pub mod file;
pub mod symbols;
pub mod terms;
