//! The primitives of the binary layout: big-endian integers and
//! length-prefixed UTF-8 strings, read from a byte buffer at a position.
//!
//! Every reader is described by a spec function from the buffer and a
//! position to the value and the position after it, or to the failure; every
//! value has an encoding, and a reader that is handed the encoding of a value
//! it has produced produces that value again.

use byteorder::ByteOrder;
use vstd::prelude::*;
use vstd::slice::{slice_subrange, slice_to_vec};
use vstd::utf8::{
    decode_utf8, decode_utf8_encode_utf8, encode_utf8, encode_utf8_decode_utf8,
    encode_utf8_valid_utf8, valid_utf8,
};

use crate::grammar::{views, CId};

verus! {

/// Why a buffer could not be loaded.
#[derive(Debug, Clone, Copy, PartialEq, Eq)]
pub enum Cause {
    /// The buffer ends inside the field.
    Truncated,
    /// The bytes of a string are not UTF-8.
    InvalidUtf8,
    /// A tag outside the dictionary of the field.
    UnknownTag(u8),
    /// A version other than the supported one.
    UnsupportedVersion(u16),
    /// A grammar count other than one.
    GrammarCount(u16),
    /// Bytes follow the last concrete syntax.
    TrailingBytes,
    /// Types, expressions or symbols are nested deeper than the limit.
    TooDeep,
    /// No start category: no `startcat` flag and no category.
    NoStartCategory,
    /// A concrete function has a name that the abstract syntax does not have.
    UnknownFunction,
    /// A concrete function names a sequence that its language does not have.
    SequenceOutOfRange,
    /// A symbol names an argument that its function does not have.
    ArgumentOutOfArity,
    /// A fid lies outside the fids of its language.
    FidOutOfRange,
    /// The coercions of a language go in a circle.
    CoercionCycle,
}

/// A failed loading: the field that was being read, the cause, and the
/// offset in the buffer. Where something is wrong with the grammar that was
/// decoded, the field is `grammar` and the offset the end of the buffer.
#[derive(Debug, Clone, Copy, PartialEq, Eq)]
pub struct Failure {
    pub field: &'static str,
    pub cause: Cause,
    pub offset: usize,
}

/// The failure of `field` at `pos`.
pub open spec fn failure(field: &'static str, cause: Cause, pos: int) -> Failure {
    Failure { field, cause, offset: pos as usize }
}

/// What a reader returns agrees with what its description gives.
pub open spec fn agrees<T: View>(
    r: Result<(T, usize), Failure>,
    s: Result<(T::V, int), Failure>,
) -> bool {
    match r {
        Ok((x, p)) => s == Ok::<(T::V, int), Failure>((x@, p as int)),
        Err(e) => s == Err::<(T::V, int), Failure>(e),
    }
}

/// What a reader of a list returns agrees with what its description gives.
pub open spec fn agrees_all<T: View>(
    r: Result<(Vec<T>, usize), Failure>,
    s: Result<(Seq<T::V>, int), Failure>,
) -> bool {
    match r {
        Ok((x, p)) => s == Ok::<(Seq<T::V>, int), Failure>((views(x@), p as int)),
        Err(e) => s == Err::<(Seq<T::V>, int), Failure>(e),
    }
}

/// The list that starts with `x` and goes on as `r` does.
pub open spec fn prepend<T>(x: T, r: Result<(Seq<T>, int), Failure>) -> Result<
    (Seq<T>, int),
    Failure,
> {
    match r {
        Ok((xs, q)) => Ok((seq![x] + xs, q)),
        Err(e) => Err(e),
    }
}

/// The list that starts with `acc` and goes on as `r` does.
pub open spec fn resume<T>(acc: Seq<T>, r: Result<(Seq<T>, int), Failure>) -> Result<
    (Seq<T>, int),
    Failure,
> {
    match r {
        Ok((xs, q)) => Ok((acc + xs, q)),
        Err(e) => Err(e),
    }
}

/// A list that starts with nothing goes on as it is.
pub proof fn lemma_resume_start<T>(acc: Seq<T>, r: Result<(Seq<T>, int), Failure>)
    requires
        acc.len() == 0,
    ensures
        resume(acc, r) == r,
{
    if let Ok((xs, q)) = r {
        assert(acc + xs =~= xs);
    }
}

/// An item may stand at the end of the start of a list or at the front of its
/// rest.
pub proof fn lemma_resume_prepend<T>(acc: Seq<T>, x: T, r: Result<(Seq<T>, int), Failure>)
    ensures
        resume(acc, prepend(x, r)) == resume(acc.push(x), r),
{
    if let Ok((xs, q)) = r {
        assert(acc + (seq![x] + xs) =~= acc.push(x) + xs);
    }
}

/// A list that goes on with nothing is its start.
pub proof fn lemma_resume_done<T>(acc: Seq<T>, q: int)
    ensures
        resume(acc, Ok((Seq::empty(), q))) == Ok::<(Seq<T>, int), Failure>((acc, q)),
{
    assert(acc + Seq::<T>::empty() =~= acc);
}

/// The number that bytes spell in big-endian order.
pub open spec fn be_value(s: Seq<u8>) -> nat
    decreases s.len(),
{
    if s.len() == 0 {
        0
    } else {
        be_value(s.drop_last()) * 256 + s.last() as nat
    }
}

/// The `n` low bytes of `v` in big-endian order.
pub open spec fn be_bytes(v: nat, n: nat) -> Seq<u8>
    decreases n,
{
    if n == 0 {
        Seq::empty()
    } else {
        be_bytes(v / 256, (n - 1) as nat).push((v % 256) as u8)
    }
}

/// The signed reading of a 32-bit pattern.
pub open spec fn signed32(v: nat) -> int {
    if v < 0x8000_0000 {
        v as int
    } else {
        v - 0x1_0000_0000
    }
}

/// The 32-bit pattern of a signed number.
pub open spec fn pattern32(v: int) -> nat {
    if v >= 0 {
        v as nat
    } else {
        (v + 0x1_0000_0000) as nat
    }
}

/// The `n` low bytes of a number are `n` bytes.
pub proof fn lemma_be_bytes_len(v: nat, n: nat)
    ensures
        be_bytes(v, n).len() == n,
    decreases n,
{
    if n > 0 {
        lemma_be_bytes_len(v / 256, (n - 1) as nat);
    }
}

/// `byteorder::BigEndian::read_u16`: the number that the first two bytes of
/// the buffer spell, most significant byte first.
#[verifier::external_body]
fn be_u16(buf: &[u8]) -> (r: u16)
    requires
        buf@.len() >= 2,
    ensures
        r as nat == be_value(buf@.subrange(0, 2)),
{
    byteorder::BigEndian::read_u16(buf)
}

/// `byteorder::BigEndian::read_u32`: the number that the first four bytes
/// of the buffer spell, most significant byte first.
#[verifier::external_body]
fn be_u32(buf: &[u8]) -> (r: u32)
    requires
        buf@.len() >= 4,
    ensures
        r as nat == be_value(buf@.subrange(0, 4)),
{
    byteorder::BigEndian::read_u32(buf)
}

/// `byteorder::BigEndian::read_i32`: the first four bytes of the buffer,
/// most significant byte first, read as a two's complement number.
#[verifier::external_body]
fn be_i32(buf: &[u8]) -> (r: i32)
    requires
        buf@.len() >= 4,
    ensures
        r as int == signed32(be_value(buf@.subrange(0, 4))),
{
    byteorder::BigEndian::read_i32(buf)
}

/// `byteorder::BigEndian::read_u64`: the number that the first eight bytes
/// of the buffer spell, most significant byte first.
#[verifier::external_body]
fn be_u64(buf: &[u8]) -> (r: u64)
    requires
        buf@.len() >= 8,
    ensures
        r as nat == be_value(buf@.subrange(0, 8)),
{
    byteorder::BigEndian::read_u64(buf)
}

/// `String::from_utf8` of the standard library: the text that the bytes
/// encode, or nothing when they are not UTF-8.
#[verifier::external_body]
fn text_of_utf8(bytes: Vec<u8>) -> (r: Option<String>)
    ensures
        r is Some <==> valid_utf8(bytes@),
        r matches Some(s) ==> s@ == decode_utf8(bytes@),
{
    String::from_utf8(bytes).ok()
}

/// `n` bytes can be read at `pos`.
pub open spec fn in_range(data: Seq<u8>, pos: int, n: int) -> bool {
    0 <= pos && pos + n <= data.len()
}

/// An integer of one byte at `pos`: the value and the position after it, or
/// the failure.
pub open spec fn spec_read_u8(data: Seq<u8>, pos: int, field: &'static str) -> Result<
    (u8, int),
    Failure,
> {
    if in_range(data, pos, 1) {
        Ok((data[pos], pos + 1))
    } else {
        Err(failure(field, Cause::Truncated, pos))
    }
}

/// An unsigned integer of two bytes at `pos`: the value and the position after
/// it, or the failure.
pub open spec fn spec_read_u16(data: Seq<u8>, pos: int, field: &'static str) -> Result<
    (u16, int),
    Failure,
> {
    if in_range(data, pos, 2) {
        Ok((be_value(data.subrange(pos, pos + 2)) as u16, pos + 2))
    } else {
        Err(failure(field, Cause::Truncated, pos))
    }
}

/// An unsigned integer of four bytes at `pos`: the value and the position
/// after it, or the failure.
pub open spec fn spec_read_u32(data: Seq<u8>, pos: int, field: &'static str) -> Result<
    (u32, int),
    Failure,
> {
    if in_range(data, pos, 4) {
        Ok((be_value(data.subrange(pos, pos + 4)) as u32, pos + 4))
    } else {
        Err(failure(field, Cause::Truncated, pos))
    }
}

/// A signed integer of four bytes at `pos`: the value and the position after
/// it, or the failure.
pub open spec fn spec_read_i32(data: Seq<u8>, pos: int, field: &'static str) -> Result<
    (i32, int),
    Failure,
> {
    if in_range(data, pos, 4) {
        Ok((signed32(be_value(data.subrange(pos, pos + 4))) as i32, pos + 4))
    } else {
        Err(failure(field, Cause::Truncated, pos))
    }
}

/// An unsigned integer of eight bytes at `pos`: the value and the position
/// after it, or the failure.
pub open spec fn spec_read_u64(data: Seq<u8>, pos: int, field: &'static str) -> Result<
    (u64, int),
    Failure,
> {
    if in_range(data, pos, 8) {
        Ok((be_value(data.subrange(pos, pos + 8)) as u64, pos + 8))
    } else {
        Err(failure(field, Cause::Truncated, pos))
    }
}

/// A string of `n` bytes at `pos`: the text they encode.
pub open spec fn spec_read_text(data: Seq<u8>, pos: int, n: int, field: &'static str) -> Result<
    (Seq<char>, int),
    Failure,
> {
    if !in_range(data, pos, n) {
        Err(failure(field, Cause::Truncated, pos))
    } else if !valid_utf8(data.subrange(pos, pos + n)) {
        Err(failure(field, Cause::InvalidUtf8, pos))
    } else {
        Ok((decode_utf8(data.subrange(pos, pos + n)), pos + n))
    }
}

/// A string with a length of one byte.
pub open spec fn spec_read_string(data: Seq<u8>, pos: int, field: &'static str) -> Result<
    (Seq<char>, int),
    Failure,
> {
    match spec_read_u8(data, pos, field) {
        Err(e) => Err(e),
        Ok((n, p)) => spec_read_text(data, p, n as int, field),
    }
}

/// A string with a length of two bytes.
pub open spec fn spec_read_string_16(data: Seq<u8>, pos: int, field: &'static str) -> Result<
    (Seq<char>, int),
    Failure,
> {
    match spec_read_u16(data, pos, field) {
        Err(e) => Err(e),
        Ok((n, p)) => spec_read_text(data, p, n as int, field),
    }
}

/// Reads an integer of one byte.
pub fn read_u8(data: &[u8], pos: usize, field: &'static str) -> (r: Result<(u8, usize), Failure>)
    ensures
        agrees(r, spec_read_u8(data@, pos as int, field)),
{
    if pos < data.len() {
        Ok((data[pos], pos + 1))
    } else {
        Err(Failure { field, cause: Cause::Truncated, offset: pos })
    }
}

/// Reads an unsigned integer of two bytes.
pub fn read_u16(data: &[u8], pos: usize, field: &'static str) -> (r: Result<(u16, usize), Failure>)
    ensures
        agrees(r, spec_read_u16(data@, pos as int, field)),
{
    if pos <= data.len() && data.len() - pos >= 2 {
        let buf = slice_subrange(data, pos, pos + 2);
        assert(buf@.subrange(0, 2) =~= data@.subrange(pos as int, pos + 2));
        Ok((be_u16(buf), pos + 2))
    } else {
        Err(Failure { field, cause: Cause::Truncated, offset: pos })
    }
}

/// Reads an unsigned integer of four bytes.
pub fn read_u32(data: &[u8], pos: usize, field: &'static str) -> (r: Result<(u32, usize), Failure>)
    ensures
        agrees(r, spec_read_u32(data@, pos as int, field)),
{
    if pos <= data.len() && data.len() - pos >= 4 {
        let buf = slice_subrange(data, pos, pos + 4);
        assert(buf@.subrange(0, 4) =~= data@.subrange(pos as int, pos + 4));
        Ok((be_u32(buf), pos + 4))
    } else {
        Err(Failure { field, cause: Cause::Truncated, offset: pos })
    }
}

/// Reads a signed integer of four bytes.
pub fn read_i32(data: &[u8], pos: usize, field: &'static str) -> (r: Result<(i32, usize), Failure>)
    ensures
        agrees(r, spec_read_i32(data@, pos as int, field)),
{
    if pos <= data.len() && data.len() - pos >= 4 {
        let buf = slice_subrange(data, pos, pos + 4);
        assert(buf@.subrange(0, 4) =~= data@.subrange(pos as int, pos + 4));
        Ok((be_i32(buf), pos + 4))
    } else {
        Err(Failure { field, cause: Cause::Truncated, offset: pos })
    }
}

/// Reads an unsigned integer of eight bytes.
pub fn read_u64(data: &[u8], pos: usize, field: &'static str) -> (r: Result<(u64, usize), Failure>)
    ensures
        agrees(r, spec_read_u64(data@, pos as int, field)),
{
    if pos <= data.len() && data.len() - pos >= 8 {
        let buf = slice_subrange(data, pos, pos + 8);
        assert(buf@.subrange(0, 8) =~= data@.subrange(pos as int, pos + 8));
        Ok((be_u64(buf), pos + 8))
    } else {
        Err(Failure { field, cause: Cause::Truncated, offset: pos })
    }
}

fn read_text(data: &[u8], pos: usize, n: usize, field: &'static str) -> (r: Result<
    (CId, usize),
    Failure,
>)
    requires
        pos <= data@.len(),
    ensures
        agrees(r, spec_read_text(data@, pos as int, n as int, field)),
{
    if data.len() - pos < n {
        return Err(Failure { field, cause: Cause::Truncated, offset: pos });
    }
    let bytes = slice_to_vec(slice_subrange(data, pos, pos + n));
    match text_of_utf8(bytes) {
        Some(s) => Ok((CId(s), pos + n)),
        None => Err(Failure { field, cause: Cause::InvalidUtf8, offset: pos }),
    }
}

/// Reads an identifier whose length is one byte.
pub fn read_string(data: &[u8], pos: usize, field: &'static str) -> (r: Result<
    (CId, usize),
    Failure,
>)
    ensures
        agrees(r, spec_read_string(data@, pos as int, field)),
{
    match read_u8(data, pos, field) {
        Err(e) => Err(e),
        Ok((n, p)) => read_text(data, p, n as usize, field),
    }
}

/// Reads an identifier whose length is two bytes.
pub fn read_string_16(data: &[u8], pos: usize, field: &'static str) -> (r: Result<
    (CId, usize),
    Failure,
>)
    ensures
        agrees(r, spec_read_string_16(data@, pos as int, field)),
{
    match read_u16(data, pos, field) {
        Err(e) => Err(e),
        Ok((n, p)) => read_text(data, p, n as usize, field),
    }
}

/// The bytes `e` stand in `out` at `at`.
pub open spec fn stored_at(out: Seq<u8>, at: int, e: Seq<u8>) -> bool {
    0 <= at && at + e.len() <= out.len() && out.subrange(at, at + e.len()) == e
}

/// Where two encodings stand one after the other, each stands.
pub proof fn lemma_stored_split(out: Seq<u8>, at: int, a: Seq<u8>, b: Seq<u8>)
    requires
        stored_at(out, at, a + b),
    ensures
        stored_at(out, at, a),
        stored_at(out, at + a.len(), b),
{
    let whole = out.subrange(at, at + (a + b).len());
    assert(out.subrange(at, at + a.len()) =~= whole.subrange(0, a.len() as int));
    assert((a + b).subrange(0, a.len() as int) =~= a);
    assert(out.subrange(at + a.len(), at + a.len() + b.len()) =~= whole.subrange(
        a.len() as int,
        (a + b).len() as int,
    ));
    assert((a + b).subrange(a.len() as int, (a + b).len() as int) =~= b);
}

/// The encoding of an integer of one byte.
pub open spec fn encode_u8(v: u8) -> Seq<u8> {
    seq![v]
}

/// The encoding of an unsigned integer of two bytes.
pub open spec fn encode_u16(v: u16) -> Seq<u8> {
    be_bytes(v as nat, 2)
}

/// The encoding of an unsigned integer of four bytes.
pub open spec fn encode_u32(v: u32) -> Seq<u8> {
    be_bytes(v as nat, 4)
}

/// The encoding of a signed integer of four bytes.
pub open spec fn encode_i32(v: i32) -> Seq<u8> {
    be_bytes(pattern32(v as int), 4)
}

/// The encoding of an unsigned integer of eight bytes.
pub open spec fn encode_u64(v: u64) -> Seq<u8> {
    be_bytes(v as nat, 8)
}

/// A string with a length of one byte. Meant for texts of at most 255 bytes.
pub open spec fn encode_string(s: Seq<char>) -> Seq<u8> {
    encode_u8(encode_utf8(s).len() as u8) + encode_utf8(s)
}

/// A string with a length of two bytes. Meant for texts of at most 65535
/// bytes.
pub open spec fn encode_string_16(s: Seq<char>) -> Seq<u8> {
    encode_u16(encode_utf8(s).len() as u16) + encode_utf8(s)
}

/// `256` to the power of `n`.
pub open spec fn radix(n: nat) -> nat
    decreases n,
{
    if n == 0 {
        1
    } else {
        256 * radix((n - 1) as nat)
    }
}

/// The big-endian bytes of a number that fits in them spell the number.
pub proof fn lemma_be_value_of_bytes(v: nat, n: nat)
    requires
        v < radix(n),
    ensures
        be_value(be_bytes(v, n)) == v,
        be_bytes(v, n).len() == n,
    decreases n,
{
    lemma_be_bytes_len(v, n);
    if n > 0 {
        lemma_be_value_of_bytes(v / 256, (n - 1) as nat);
        lemma_be_bytes_len(v / 256, (n - 1) as nat);
        let head = be_bytes(v / 256, (n - 1) as nat);
        assert(be_bytes(v, n).drop_last() =~= head);
    }
}

/// The powers of 256 for the widths in use.
pub proof fn lemma_radix()
    ensures
        radix(1) == 0x100,
        radix(2) == 0x1_0000,
        radix(4) == 0x1_0000_0000,
        radix(8) == 0x1_0000_0000_0000_0000,
{
    reveal_with_fuel(radix, 9);
}

/// A text whose encoding fits a length of one byte.
pub open spec fn short_text(s: Seq<char>) -> bool {
    encode_utf8(s).len() <= 0xff
}

/// A text whose encoding fits a length of two bytes.
pub open spec fn medium_text(s: Seq<char>) -> bool {
    encode_utf8(s).len() <= 0xffff
}

/// Where the encoding of an integer of one byte stands, it is read.
pub proof fn lemma_u8_returns(v: u8, out: Seq<u8>, at: int, field: &'static str)
    requires
        stored_at(out, at, encode_u8(v)),
    ensures
        spec_read_u8(out, at, field) == Ok::<(u8, int), Failure>((v, at + 1)),
        encode_u8(v).len() == 1,
{
    assert(out.subrange(at, at + 1)[0] == seq![v][0]);
}

/// Where the encoding of an unsigned integer of two bytes stands, it is read.
pub proof fn lemma_u16_returns(v: u16, out: Seq<u8>, at: int, field: &'static str)
    requires
        stored_at(out, at, encode_u16(v)),
    ensures
        spec_read_u16(out, at, field) == Ok::<(u16, int), Failure>((v, at + 2)),
        encode_u16(v).len() == 2,
{
    lemma_radix();
    lemma_be_value_of_bytes(v as nat, 2);
}

/// Where the encoding of an unsigned integer of four bytes stands, it is read.
pub proof fn lemma_u32_returns(v: u32, out: Seq<u8>, at: int, field: &'static str)
    requires
        stored_at(out, at, encode_u32(v)),
    ensures
        spec_read_u32(out, at, field) == Ok::<(u32, int), Failure>((v, at + 4)),
        encode_u32(v).len() == 4,
{
    lemma_radix();
    lemma_be_value_of_bytes(v as nat, 4);
}

/// Where the encoding of a signed integer of four bytes stands, it is read.
pub proof fn lemma_i32_returns(v: i32, out: Seq<u8>, at: int, field: &'static str)
    requires
        stored_at(out, at, encode_i32(v)),
    ensures
        spec_read_i32(out, at, field) == Ok::<(i32, int), Failure>((v, at + 4)),
        encode_i32(v).len() == 4,
{
    lemma_radix();
    lemma_be_value_of_bytes(pattern32(v as int), 4);
}

/// Where the encoding of an unsigned integer of eight bytes stands, it is
/// read.
pub proof fn lemma_u64_returns(v: u64, out: Seq<u8>, at: int, field: &'static str)
    requires
        stored_at(out, at, encode_u64(v)),
    ensures
        spec_read_u64(out, at, field) == Ok::<(u64, int), Failure>((v, at + 8)),
        encode_u64(v).len() == 8,
{
    lemma_radix();
    lemma_be_value_of_bytes(v as nat, 8);
}

/// A short text that stands encoded in a buffer is read from it.
pub proof fn lemma_string_returns(s: Seq<char>, out: Seq<u8>, at: int, field: &'static str)
    requires
        short_text(s),
        stored_at(out, at, encode_string(s)),
    ensures
        spec_read_string(out, at, field) == Ok::<(Seq<char>, int), Failure>(
            (s, at + encode_string(s).len()),
        ),
{
    let bytes = encode_utf8(s);
    encode_utf8_valid_utf8(s);
    encode_utf8_decode_utf8(s);
    lemma_stored_split(out, at, encode_u8(bytes.len() as u8), bytes);
    lemma_u8_returns(bytes.len() as u8, out, at, field);
}

/// A text of medium length that stands encoded in a buffer is read from it.
pub proof fn lemma_string_16_returns(s: Seq<char>, out: Seq<u8>, at: int, field: &'static str)
    requires
        medium_text(s),
        stored_at(out, at, encode_string_16(s)),
    ensures
        spec_read_string_16(out, at, field) == Ok::<(Seq<char>, int), Failure>(
            (s, at + encode_string_16(s).len()),
        ),
{
    let bytes = encode_utf8(s);
    encode_utf8_valid_utf8(s);
    encode_utf8_decode_utf8(s);
    lemma_stored_split(out, at, encode_u16(bytes.len() as u16), bytes);
    lemma_u16_returns(bytes.len() as u16, out, at, field);
}

/// A text that was read is short.
pub proof fn lemma_string_short(data: Seq<u8>, pos: int, field: &'static str)
    requires
        spec_read_string(data, pos, field) is Ok,
    ensures
        short_text(spec_read_string(data, pos, field)->Ok_0.0),
{
    let n = data[pos];
    decode_utf8_encode_utf8(data.subrange(pos + 1, pos + 1 + n));
}

/// A text that was read with a length of two bytes is of medium length.
pub proof fn lemma_string_16_medium(data: Seq<u8>, pos: int, field: &'static str)
    requires
        spec_read_string_16(data, pos, field) is Ok,
    ensures
        medium_text(spec_read_string_16(data, pos, field)->Ok_0.0),
{
    let n = spec_read_u16(data, pos, field)->Ok_0.0;
    decode_utf8_encode_utf8(data.subrange(pos + 2, pos + 2 + n));
}

} // verus!
