//! The encoding of linearization sequences.

use vstd::prelude::*;

use crate::binary::symbols::{
    spec_read_alt, spec_read_alts, spec_read_sequence, spec_read_sequence_list, spec_read_sequences,
    spec_read_slot, spec_read_symbol, spec_read_symbols, spec_read_token, spec_read_tokens,
};
use crate::binary::terms::MAX_DEPTH;
use crate::grammar::{SpecAlt, SpecSymbol};
use crate::wire::{
    encode_i32, encode_string, encode_u32, encode_u8, lemma_i32_returns, lemma_stored_split,
    lemma_string_returns, lemma_string_short, lemma_u32_returns, lemma_u8_returns, spec_read_i32,
    spec_read_u32, spec_read_u8, stored_at, Failure,
};

verus! {

/// The encoding of the two integers of a slot.
pub open spec fn encode_slot(s: (i32, i32)) -> Seq<u8> {
    encode_i32(s.0) + encode_i32(s.1)
}

/// The encoding of a token.
pub open spec fn encode_token(t: Seq<char>) -> Seq<u8> {
    encode_string(t)
}

/// The encoding of tokens, one after the other.
pub open spec fn encode_tokens(vs: Seq<Seq<char>>) -> Seq<u8>
    decreases vs.len(),
{
    if vs.len() == 0 {
        Seq::empty()
    } else {
        encode_token(vs[0]) + encode_tokens(vs.drop_first())
    }
}

/// The encoding of a symbol that is nested less than `depth` deep.
pub open spec fn encode_symbol(sym: SpecSymbol, depth: nat) -> Seq<u8>
    decreases depth, 0nat,
{
    if depth == 0 {
        Seq::empty()
    } else {
        let d = (depth - 1) as nat;
        match sym {
            SpecSymbol::SymCat(a, r) => encode_u8(0) + encode_slot((a, r)),
            SpecSymbol::SymLit(a, r) => encode_u8(1) + encode_slot((a, r)),
            SpecSymbol::SymVar(a, r) => encode_u8(2) + encode_slot((a, r)),
            SpecSymbol::SymKS(t) => encode_u8(3) + encode_token(t),
            SpecSymbol::SymKP(symbols, alts) => encode_u8(4) + (encode_u32(symbols.len() as u32)
                + (encode_symbols(symbols, d) + (encode_u32(alts.len() as u32) + encode_alts(
                alts,
                d,
            )))),
            SpecSymbol::SymNE => encode_u8(5),
        }
    }
}

/// The encoding of symbols, one after the other.
pub open spec fn encode_symbols(vs: Seq<SpecSymbol>, depth: nat) -> Seq<u8>
    decreases depth, vs.len() + 1,
{
    if vs.len() == 0 {
        Seq::empty()
    } else {
        encode_symbol(vs[0], depth) + encode_symbols(vs.drop_first(), depth)
    }
}

/// The encoding of a variant that is nested less than `depth` deep.
pub open spec fn encode_alt(alt: SpecAlt, depth: nat) -> Seq<u8>
    decreases depth, 0nat,
{
    if depth == 0 {
        Seq::empty()
    } else {
        let d = (depth - 1) as nat;
        encode_u32(alt.symbols.len() as u32) + (encode_symbols(alt.symbols, d) + (encode_u32(
            alt.tokens.len() as u32,
        ) + encode_tokens(alt.tokens)))
    }
}

/// The encoding of variants, one after the other.
pub open spec fn encode_alts(vs: Seq<SpecAlt>, depth: nat) -> Seq<u8>
    decreases depth, vs.len() + 1,
{
    if vs.len() == 0 {
        Seq::empty()
    } else {
        encode_alt(vs[0], depth) + encode_alts(vs.drop_first(), depth)
    }
}

/// The encoding of a sequence.
pub open spec fn encode_sequence(symbols: Seq<SpecSymbol>) -> Seq<u8> {
    encode_u32(symbols.len() as u32) + encode_symbols(symbols, MAX_DEPTH as nat)
}

/// The encoding of sequences, one after the other.
pub open spec fn encode_sequence_list(vs: Seq<Seq<SpecSymbol>>) -> Seq<u8>
    decreases vs.len(),
{
    if vs.len() == 0 {
        Seq::empty()
    } else {
        encode_sequence(vs[0]) + encode_sequence_list(vs.drop_first())
    }
}

/// The encoding of the table of sequences.
pub open spec fn encode_sequences(seqs: Seq<Seq<SpecSymbol>>) -> Seq<u8> {
    encode_u32(seqs.len() as u32) + encode_sequence_list(seqs)
}

proof fn lemma_slot_again(data: Seq<u8>, pos: int, out: Seq<u8>, at: int)
    requires
        spec_read_slot(data, pos) is Ok,
        stored_at(out, at, encode_slot(spec_read_slot(data, pos)->Ok_0.0)),
    ensures
        spec_read_slot(out, at) == Ok::<((i32, i32), int), Failure>(
            (
                spec_read_slot(data, pos)->Ok_0.0,
                at + encode_slot(spec_read_slot(data, pos)->Ok_0.0).len(),
            ),
        ),
{
    let (a, p1) = spec_read_i32(data, pos, "argument index")->Ok_0;
    let r = spec_read_i32(data, p1, "field index")->Ok_0.0;
    lemma_stored_split(out, at, encode_i32(a), encode_i32(r));
    lemma_i32_returns(a, out, at, "argument index");
    lemma_i32_returns(r, out, at + 4, "field index");
}

proof fn lemma_token_again(data: Seq<u8>, pos: int, out: Seq<u8>, at: int)
    requires
        spec_read_token(data, pos) is Ok,
        stored_at(out, at, encode_token(spec_read_token(data, pos)->Ok_0.0)),
    ensures
        spec_read_token(out, at) == Ok::<(Seq<char>, int), Failure>(
            (
                spec_read_token(data, pos)->Ok_0.0,
                at + encode_token(spec_read_token(data, pos)->Ok_0.0).len(),
            ),
        ),
{
    lemma_string_short(data, pos, "token");
    lemma_string_returns(spec_read_token(data, pos)->Ok_0.0, out, at, "token");
}

/// A list that was read has the length that was asked for.
pub proof fn lemma_tokens_len(data: Seq<u8>, pos: int, n: nat)
    requires
        spec_read_tokens(data, pos, n) is Ok,
    ensures
        spec_read_tokens(data, pos, n)->Ok_0.0.len() == n,
    decreases n,
{
    if n > 0 {
        let p = spec_read_token(data, pos)->Ok_0.1;
        lemma_tokens_len(data, p, (n - 1) as nat);
    }
}

/// Where the encoding of tokens that was read stands, the same is read.
pub proof fn lemma_tokens_again(data: Seq<u8>, pos: int, n: nat, out: Seq<u8>, at: int)
    requires
        spec_read_tokens(data, pos, n) is Ok,
        stored_at(out, at, encode_tokens(spec_read_tokens(data, pos, n)->Ok_0.0)),
    ensures
        spec_read_tokens(out, at, n) == Ok::<(Seq<Seq<char>>, int), Failure>(
            (
                spec_read_tokens(data, pos, n)->Ok_0.0,
                at + encode_tokens(spec_read_tokens(data, pos, n)->Ok_0.0).len(),
            ),
        ),
    decreases n,
{
    if n > 0 {
        let (x, p) = spec_read_token(data, pos)->Ok_0;
        let rest = spec_read_tokens(data, p, (n - 1) as nat)->Ok_0.0;
        let all = seq![x] + rest;
        assert(all.drop_first() =~= rest);
        lemma_stored_split(out, at, encode_token(x), encode_tokens(rest));
        lemma_token_again(data, pos, out, at);
        lemma_tokens_again(data, p, (n - 1) as nat, out, at + encode_token(x).len());
    }
}

/// A list that was read has the length that was asked for.
pub proof fn lemma_symbols_len(data: Seq<u8>, pos: int, n: nat, depth: nat)
    requires
        spec_read_symbols(data, pos, n, depth) is Ok,
    ensures
        spec_read_symbols(data, pos, n, depth)->Ok_0.0.len() == n,
    decreases n,
{
    if n > 0 {
        let p = spec_read_symbol(data, pos, depth)->Ok_0.1;
        lemma_symbols_len(data, p, (n - 1) as nat, depth);
    }
}

/// A list that was read has the length that was asked for.
pub proof fn lemma_alts_len(data: Seq<u8>, pos: int, n: nat, depth: nat)
    requires
        spec_read_alts(data, pos, n, depth) is Ok,
    ensures
        spec_read_alts(data, pos, n, depth)->Ok_0.0.len() == n,
    decreases n,
{
    if n > 0 {
        let p = spec_read_alt(data, pos, depth)->Ok_0.1;
        lemma_alts_len(data, p, (n - 1) as nat, depth);
    }
}

/// A list that was read has the length that was asked for.
pub proof fn lemma_sequence_list_len(data: Seq<u8>, pos: int, n: nat)
    requires
        spec_read_sequence_list(data, pos, n) is Ok,
    ensures
        spec_read_sequence_list(data, pos, n)->Ok_0.0.len() == n,
    decreases n,
{
    if n > 0 {
        let p = spec_read_sequence(data, pos)->Ok_0.1;
        lemma_sequence_list_len(data, p, (n - 1) as nat);
    }
}

proof fn lemma_symbol_slot_again(data: Seq<u8>, pos: int, depth: nat, out: Seq<u8>, at: int)
    requires
        spec_read_symbol(data, pos, depth) is Ok,
        spec_read_u8(data, pos, "symbol tag")->Ok_0.0 <= 2,
        stored_at(out, at, encode_symbol(spec_read_symbol(data, pos, depth)->Ok_0.0, depth)),
    ensures
        spec_read_symbol(out, at, depth) == Ok::<(SpecSymbol, int), Failure>(
            (
                spec_read_symbol(data, pos, depth)->Ok_0.0,
                at + encode_symbol(spec_read_symbol(data, pos, depth)->Ok_0.0, depth).len(),
            ),
        ),
    decreases depth, 0nat,
{
    let d = (depth - 1) as nat;
    let tag = spec_read_u8(data, pos, "symbol tag")->Ok_0.0;
    let p = pos + 1;
    let a = at + 1;
    let s = spec_read_slot(data, p)->Ok_0.0;
    lemma_stored_split(out, at, encode_u8(tag), encode_slot(s));
    lemma_u8_returns(tag, out, at, "symbol tag");
    lemma_slot_again(data, p, out, a);
}

proof fn lemma_symbol_token_again(data: Seq<u8>, pos: int, depth: nat, out: Seq<u8>, at: int)
    requires
        spec_read_symbol(data, pos, depth) is Ok,
        spec_read_u8(data, pos, "symbol tag")->Ok_0.0 == 3 || spec_read_u8(data, pos, "symbol tag")->Ok_0.0 == 5,
        stored_at(out, at, encode_symbol(spec_read_symbol(data, pos, depth)->Ok_0.0, depth)),
    ensures
        spec_read_symbol(out, at, depth) == Ok::<(SpecSymbol, int), Failure>(
            (
                spec_read_symbol(data, pos, depth)->Ok_0.0,
                at + encode_symbol(spec_read_symbol(data, pos, depth)->Ok_0.0, depth).len(),
            ),
        ),
    decreases depth, 0nat,
{
    let d = (depth - 1) as nat;
    let tag = spec_read_u8(data, pos, "symbol tag")->Ok_0.0;
    let p = pos + 1;
    let a = at + 1;
    if tag == 3 {
        let t = spec_read_token(data, p)->Ok_0.0;
        lemma_stored_split(out, at, encode_u8(3), encode_token(t));
        lemma_u8_returns(3, out, at, "symbol tag");
        lemma_token_again(data, p, out, a);
    } else {
        lemma_u8_returns(5, out, at, "symbol tag");
    }
}

proof fn lemma_symbol_variants_again(data: Seq<u8>, pos: int, depth: nat, out: Seq<u8>, at: int)
    requires
        spec_read_symbol(data, pos, depth) is Ok,
        spec_read_u8(data, pos, "symbol tag")->Ok_0.0 == 4,
        stored_at(out, at, encode_symbol(spec_read_symbol(data, pos, depth)->Ok_0.0, depth)),
    ensures
        spec_read_symbol(out, at, depth) == Ok::<(SpecSymbol, int), Failure>(
            (
                spec_read_symbol(data, pos, depth)->Ok_0.0,
                at + encode_symbol(spec_read_symbol(data, pos, depth)->Ok_0.0, depth).len(),
            ),
        ),
    decreases depth, 0nat,
{
    let d = (depth - 1) as nat;
    let tag = spec_read_u8(data, pos, "symbol tag")->Ok_0.0;
    let p = pos + 1;
    let a = at + 1;
    let (ns, p1) = spec_read_u32(data, p, "symbol count")->Ok_0;
    let (symbols, p2) = spec_read_symbols(data, p1, ns as nat, d)->Ok_0;
    let (na, p3) = spec_read_u32(data, p2, "variant count")->Ok_0;
    let alts = spec_read_alts(data, p3, na as nat, d)->Ok_0.0;
    let e1 = encode_u32(ns);
    let e2 = encode_symbols(symbols, d);
    let e3 = encode_u32(na);
    let e4 = encode_alts(alts, d);
    lemma_symbols_len(data, p1, ns as nat, d);
    lemma_alts_len(data, p3, na as nat, d);
    lemma_stored_split(out, at, encode_u8(4), e1 + (e2 + (e3 + e4)));
    lemma_u8_returns(4, out, at, "symbol tag");
    lemma_stored_split(out, a, e1, e2 + (e3 + e4));
    lemma_u32_returns(ns, out, a, "symbol count");
    let a1 = a + 4;
    lemma_stored_split(out, a1, e2, e3 + e4);
    lemma_symbols_again(data, p1, ns as nat, d, out, a1);
    let a2 = a1 + e2.len();
    lemma_stored_split(out, a2, e3, e4);
    lemma_u32_returns(na, out, a2, "variant count");
    lemma_alts_again(data, p3, na as nat, d, out, a2 + 4);
}

/// Where the encoding of a symbol that was read stands, the same is read.
pub proof fn lemma_symbol_again(data: Seq<u8>, pos: int, depth: nat, out: Seq<u8>, at: int)
    requires
        spec_read_symbol(data, pos, depth) is Ok,
        stored_at(out, at, encode_symbol(spec_read_symbol(data, pos, depth)->Ok_0.0, depth)),
    ensures
        spec_read_symbol(out, at, depth) == Ok::<(SpecSymbol, int), Failure>(
            (
                spec_read_symbol(data, pos, depth)->Ok_0.0,
                at + encode_symbol(spec_read_symbol(data, pos, depth)->Ok_0.0, depth).len(),
            ),
        ),
    decreases depth, 1nat,
{
    let tag = spec_read_u8(data, pos, "symbol tag")->Ok_0.0;
    if tag <= 2 {
        lemma_symbol_slot_again(data, pos, depth, out, at);
    } else if tag == 3 || tag == 5 {
        lemma_symbol_token_again(data, pos, depth, out, at);
    } else {
        lemma_symbol_variants_again(data, pos, depth, out, at);
    }
}

/// Where the encoding of symbols that was read stands, the same is read.
pub proof fn lemma_symbols_again(data: Seq<u8>, pos: int, n: nat, depth: nat, out: Seq<u8>, at: int)
    requires
        spec_read_symbols(data, pos, n, depth) is Ok,
        stored_at(out, at, encode_symbols(spec_read_symbols(data, pos, n, depth)->Ok_0.0, depth)),
    ensures
        spec_read_symbols(out, at, n, depth) == Ok::<(Seq<SpecSymbol>, int), Failure>(
            (
                spec_read_symbols(data, pos, n, depth)->Ok_0.0,
                at + encode_symbols(spec_read_symbols(data, pos, n, depth)->Ok_0.0, depth).len(),
            ),
        ),
    decreases depth, n + 2,
{
    if n > 0 {
        let (x, p) = spec_read_symbol(data, pos, depth)->Ok_0;
        let rest = spec_read_symbols(data, p, (n - 1) as nat, depth)->Ok_0.0;
        let all = seq![x] + rest;
        assert(all.drop_first() =~= rest);
        lemma_stored_split(out, at, encode_symbol(x, depth), encode_symbols(rest, depth));
        lemma_symbol_again(data, pos, depth, out, at);
        lemma_symbols_again(data, p, (n - 1) as nat, depth, out, at + encode_symbol(x, depth).len());
    }
}

/// Where the encoding of a variant that was read stands, the same is read.
pub proof fn lemma_alt_again(data: Seq<u8>, pos: int, depth: nat, out: Seq<u8>, at: int)
    requires
        spec_read_alt(data, pos, depth) is Ok,
        stored_at(out, at, encode_alt(spec_read_alt(data, pos, depth)->Ok_0.0, depth)),
    ensures
        spec_read_alt(out, at, depth) == Ok::<(SpecAlt, int), Failure>(
            (
                spec_read_alt(data, pos, depth)->Ok_0.0,
                at + encode_alt(spec_read_alt(data, pos, depth)->Ok_0.0, depth).len(),
            ),
        ),
    decreases depth, 0nat,
{
    let d = (depth - 1) as nat;
    let (ns, p1) = spec_read_u32(data, pos, "symbol count")->Ok_0;
    let (symbols, p2) = spec_read_symbols(data, p1, ns as nat, d)->Ok_0;
    let (nt, p3) = spec_read_u32(data, p2, "token count")->Ok_0;
    let tokens = spec_read_tokens(data, p3, nt as nat)->Ok_0.0;
    let e1 = encode_u32(ns);
    let e2 = encode_symbols(symbols, d);
    let e3 = encode_u32(nt);
    let e4 = encode_tokens(tokens);
    lemma_symbols_len(data, p1, ns as nat, d);
    lemma_tokens_len(data, p3, nt as nat);
    lemma_stored_split(out, at, e1, e2 + (e3 + e4));
    lemma_u32_returns(ns, out, at, "symbol count");
    let a1 = at + 4;
    lemma_stored_split(out, a1, e2, e3 + e4);
    lemma_symbols_again(data, p1, ns as nat, d, out, a1);
    let a2 = a1 + e2.len();
    lemma_stored_split(out, a2, e3, e4);
    lemma_u32_returns(nt, out, a2, "token count");
    lemma_tokens_again(data, p3, nt as nat, out, a2 + 4);
}

/// Where the encoding of variants that was read stands, the same is read.
pub proof fn lemma_alts_again(data: Seq<u8>, pos: int, n: nat, depth: nat, out: Seq<u8>, at: int)
    requires
        spec_read_alts(data, pos, n, depth) is Ok,
        stored_at(out, at, encode_alts(spec_read_alts(data, pos, n, depth)->Ok_0.0, depth)),
    ensures
        spec_read_alts(out, at, n, depth) == Ok::<(Seq<SpecAlt>, int), Failure>(
            (
                spec_read_alts(data, pos, n, depth)->Ok_0.0,
                at + encode_alts(spec_read_alts(data, pos, n, depth)->Ok_0.0, depth).len(),
            ),
        ),
    decreases depth, n + 1,
{
    if n > 0 {
        let (x, p) = spec_read_alt(data, pos, depth)->Ok_0;
        let rest = spec_read_alts(data, p, (n - 1) as nat, depth)->Ok_0.0;
        let all = seq![x] + rest;
        assert(all.drop_first() =~= rest);
        lemma_stored_split(out, at, encode_alt(x, depth), encode_alts(rest, depth));
        lemma_alt_again(data, pos, depth, out, at);
        lemma_alts_again(data, p, (n - 1) as nat, depth, out, at + encode_alt(x, depth).len());
    }
}

/// Where the encoding of a sequence that was read stands, the same is read.
pub proof fn lemma_sequence_again(data: Seq<u8>, pos: int, out: Seq<u8>, at: int)
    requires
        spec_read_sequence(data, pos) is Ok,
        stored_at(out, at, encode_sequence(spec_read_sequence(data, pos)->Ok_0.0)),
    ensures
        spec_read_sequence(out, at) == Ok::<(Seq<SpecSymbol>, int), Failure>(
            (
                spec_read_sequence(data, pos)->Ok_0.0,
                at + encode_sequence(spec_read_sequence(data, pos)->Ok_0.0).len(),
            ),
        ),
{
    let (n, p) = spec_read_u32(data, pos, "symbol count")->Ok_0;
    let symbols = spec_read_symbols(data, p, n as nat, MAX_DEPTH as nat)->Ok_0.0;
    lemma_symbols_len(data, p, n as nat, MAX_DEPTH as nat);
    lemma_stored_split(out, at, encode_u32(n), encode_symbols(symbols, MAX_DEPTH as nat));
    lemma_u32_returns(n, out, at, "symbol count");
    lemma_symbols_again(data, p, n as nat, MAX_DEPTH as nat, out, at + 4);
}

/// Where the encoding of sequences that was read stands, the same is read.
pub proof fn lemma_sequence_list_again(data: Seq<u8>, pos: int, n: nat, out: Seq<u8>, at: int)
    requires
        spec_read_sequence_list(data, pos, n) is Ok,
        stored_at(out, at, encode_sequence_list(spec_read_sequence_list(data, pos, n)->Ok_0.0)),
    ensures
        spec_read_sequence_list(out, at, n) == Ok::<(Seq<Seq<SpecSymbol>>, int), Failure>(
            (
                spec_read_sequence_list(data, pos, n)->Ok_0.0,
                at + encode_sequence_list(spec_read_sequence_list(data, pos, n)->Ok_0.0).len(),
            ),
        ),
    decreases n,
{
    if n > 0 {
        let (x, p) = spec_read_sequence(data, pos)->Ok_0;
        let rest = spec_read_sequence_list(data, p, (n - 1) as nat)->Ok_0.0;
        let all = seq![x] + rest;
        assert(all.drop_first() =~= rest);
        lemma_stored_split(out, at, encode_sequence(x), encode_sequence_list(rest));
        lemma_sequence_again(data, pos, out, at);
        lemma_sequence_list_again(data, p, (n - 1) as nat, out, at + encode_sequence(x).len());
    }
}

/// Where the encoding of the table of sequences that was read stands, the same
/// is read.
pub proof fn lemma_sequences_again(data: Seq<u8>, pos: int, out: Seq<u8>, at: int)
    requires
        spec_read_sequences(data, pos) is Ok,
        stored_at(out, at, encode_sequences(spec_read_sequences(data, pos)->Ok_0.0)),
    ensures
        spec_read_sequences(out, at) == Ok::<(Seq<Seq<SpecSymbol>>, int), Failure>(
            (
                spec_read_sequences(data, pos)->Ok_0.0,
                at + encode_sequences(spec_read_sequences(data, pos)->Ok_0.0).len(),
            ),
        ),
{
    let (n, p) = spec_read_u32(data, pos, "sequence count")->Ok_0;
    let seqs = spec_read_sequence_list(data, p, n as nat)->Ok_0.0;
    lemma_sequence_list_len(data, p, n as nat);
    lemma_stored_split(out, at, encode_u32(n), encode_sequence_list(seqs));
    lemma_u32_returns(n, out, at, "sequence count");
    lemma_sequence_list_again(data, p, n as nat, out, at + 4);
}

} // verus!
