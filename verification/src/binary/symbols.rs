//! Linearization sequences in the binary layout.
//!
//! A symbol is a tag and what the tag calls for: two integers for an
//! argument, literal or variable slot (tags 0, 1, 2), a token (3), a list of
//! symbols and a list of variants (4), nothing for a gap (5). A variant is a
//! list of symbols and a list of tokens.

use vstd::prelude::*;

use crate::binary::terms::MAX_DEPTH;
use crate::grammar::{
    lemma_alt_view, lemma_nested_views_push, lemma_symkp_view, lemma_views_push, nested_views,
    views, Alt, SpecAlt, SpecSymbol, Symbol,
};
use crate::wire::{
    agrees, agrees_all, failure, lemma_resume_done, lemma_resume_prepend, lemma_resume_start,
    prepend, read_i32, read_string, read_u32, read_u8, resume, spec_read_i32, spec_read_string,
    spec_read_u32, spec_read_u8, Cause, Failure,
};

verus! {

/// Two integers, the payload of a slot.
pub open spec fn spec_read_slot(data: Seq<u8>, pos: int) -> Result<((i32, i32), int), Failure> {
    match spec_read_i32(data, pos, "argument index") {
        Err(e) => Err(e),
        Ok((d, p1)) => match spec_read_i32(data, p1, "field index") {
            Err(e) => Err(e),
            Ok((r, p2)) => Ok(((d, r), p2)),
        },
    }
}

/// A token at `pos`: the value and the position after it, or the failure.
pub open spec fn spec_read_token(data: Seq<u8>, pos: int) -> Result<(Seq<char>, int), Failure> {
    spec_read_string(data, pos, "token")
}

/// Tokens, `n` of them from `pos` on: the items and the position after them,
/// or the first failure.
pub open spec fn spec_read_tokens(data: Seq<u8>, pos: int, n: nat) -> Result<
    (Seq<Seq<char>>, int),
    Failure,
>
    decreases n,
{
    if n == 0 {
        Ok((Seq::empty(), pos))
    } else {
        match spec_read_token(data, pos) {
            Err(e) => Err(e),
            Ok((x, p)) => prepend(x, spec_read_tokens(data, p, (n - 1) as nat)),
        }
    }
}

/// The symbol after the tag.
pub open spec fn spec_read_symbol_body(data: Seq<u8>, pos: int, tag: u8, p: int, depth: nat) -> Result<
    (SpecSymbol, int),
    Failure,
>
    recommends
        depth > 0,
    decreases depth, 0nat,
    when depth > 0
{
    let d = (depth - 1) as nat;
    if tag == 0 {
        match spec_read_slot(data, p) {
            Err(e) => Err(e),
            Ok((s, q)) => Ok((SpecSymbol::SymCat(s.0, s.1), q)),
        }
    } else if tag == 1 {
        match spec_read_slot(data, p) {
            Err(e) => Err(e),
            Ok((s, q)) => Ok((SpecSymbol::SymLit(s.0, s.1), q)),
        }
    } else if tag == 2 {
        match spec_read_slot(data, p) {
            Err(e) => Err(e),
            Ok((s, q)) => Ok((SpecSymbol::SymVar(s.0, s.1), q)),
        }
    } else if tag == 3 {
        match spec_read_token(data, p) {
            Err(e) => Err(e),
            Ok((t, q)) => Ok((SpecSymbol::SymKS(t), q)),
        }
    } else if tag == 4 {
        match spec_read_u32(data, p, "symbol count") {
            Err(e) => Err(e),
            Ok((ns, p1)) => match spec_read_symbols(data, p1, ns as nat, d) {
                Err(e) => Err(e),
                Ok((symbols, p2)) => match spec_read_u32(data, p2, "variant count") {
                    Err(e) => Err(e),
                    Ok((na, p3)) => match spec_read_alts(data, p3, na as nat, d) {
                        Err(e) => Err(e),
                        Ok((alts, p4)) => Ok((SpecSymbol::SymKP(symbols, alts), p4)),
                    },
                },
            },
        }
    } else if tag == 5 {
        Ok((SpecSymbol::SymNE, p))
    } else {
        Err(failure("symbol tag", Cause::UnknownTag(tag), pos))
    }
}

/// A symbol at `pos`: the value and the position after it, or the failure.
pub open spec fn spec_read_symbol(data: Seq<u8>, pos: int, depth: nat) -> Result<
    (SpecSymbol, int),
    Failure,
>
    decreases depth, 1nat,
{
    if depth == 0 {
        Err(failure("symbol", Cause::TooDeep, pos))
    } else {
        match spec_read_u8(data, pos, "symbol tag") {
            Err(e) => Err(e),
            Ok((tag, p)) => spec_read_symbol_body(data, pos, tag, p, depth),
        }
    }
}

/// Symbols, `n` of them from `pos` on: the items and the position after them,
/// or the first failure.
pub open spec fn spec_read_symbols(data: Seq<u8>, pos: int, n: nat, depth: nat) -> Result<
    (Seq<SpecSymbol>, int),
    Failure,
>
    decreases depth, n + 2,
{
    if n == 0 {
        Ok((Seq::empty(), pos))
    } else {
        match spec_read_symbol(data, pos, depth) {
            Err(e) => Err(e),
            Ok((x, p)) => prepend(x, spec_read_symbols(data, p, (n - 1) as nat, depth)),
        }
    }
}

/// A variant at `pos`: the value and the position after it, or the failure.
pub open spec fn spec_read_alt(data: Seq<u8>, pos: int, depth: nat) -> Result<(SpecAlt, int), Failure>
    decreases depth, 0nat,
{
    if depth == 0 {
        Err(failure("variant", Cause::TooDeep, pos))
    } else {
        match spec_read_u32(data, pos, "symbol count") {
            Err(e) => Err(e),
            Ok((ns, p1)) => match spec_read_symbols(data, p1, ns as nat, (depth - 1) as nat) {
                Err(e) => Err(e),
                Ok((symbols, p2)) => match spec_read_u32(data, p2, "token count") {
                    Err(e) => Err(e),
                    Ok((nt, p3)) => match spec_read_tokens(data, p3, nt as nat) {
                        Err(e) => Err(e),
                        Ok((tokens, p4)) => Ok((SpecAlt { symbols, tokens }, p4)),
                    },
                },
            },
        }
    }
}

/// Variants, `n` of them from `pos` on: the items and the position after them,
/// or the first failure.
pub open spec fn spec_read_alts(data: Seq<u8>, pos: int, n: nat, depth: nat) -> Result<
    (Seq<SpecAlt>, int),
    Failure,
>
    decreases depth, n + 1,
{
    if n == 0 {
        Ok((Seq::empty(), pos))
    } else {
        match spec_read_alt(data, pos, depth) {
            Err(e) => Err(e),
            Ok((x, p)) => prepend(x, spec_read_alts(data, p, (n - 1) as nat, depth)),
        }
    }
}

/// One sequence: a count and that many symbols.
pub open spec fn spec_read_sequence(data: Seq<u8>, pos: int) -> Result<(Seq<SpecSymbol>, int), Failure> {
    match spec_read_u32(data, pos, "symbol count") {
        Err(e) => Err(e),
        Ok((n, p)) => spec_read_symbols(data, p, n as nat, MAX_DEPTH as nat),
    }
}

/// Sequences, `n` of them from `pos` on: the items and the position after
/// them, or the first failure.
pub open spec fn spec_read_sequence_list(data: Seq<u8>, pos: int, n: nat) -> Result<
    (Seq<Seq<SpecSymbol>>, int),
    Failure,
>
    decreases n,
{
    if n == 0 {
        Ok((Seq::empty(), pos))
    } else {
        match spec_read_sequence(data, pos) {
            Err(e) => Err(e),
            Ok((x, p)) => prepend(x, spec_read_sequence_list(data, p, (n - 1) as nat)),
        }
    }
}

/// The table of sequences: a count and that many sequences.
pub open spec fn spec_read_sequences(data: Seq<u8>, pos: int) -> Result<
    (Seq<Seq<SpecSymbol>>, int),
    Failure,
> {
    match spec_read_u32(data, pos, "sequence count") {
        Err(e) => Err(e),
        Ok((n, p)) => spec_read_sequence_list(data, p, n as nat),
    }
}

fn read_slot(data: &[u8], pos: usize) -> (r: Result<((i32, i32), usize), Failure>)
    ensures
        agrees(r, spec_read_slot(data@, pos as int)),
{
    match read_i32(data, pos, "argument index") {
        Err(e) => Err(e),
        Ok((d, p1)) => match read_i32(data, p1, "field index") {
            Err(e) => Err(e),
            Ok((r, p2)) => Ok(((d, r), p2)),
        },
    }
}

fn read_token(data: &[u8], pos: usize) -> (r: Result<(String, usize), Failure>)
    ensures
        agrees(r, spec_read_token(data@, pos as int)),
{
    match read_string(data, pos, "token") {
        Err(e) => Err(e),
        Ok((t, q)) => Ok((t.0, q)),
    }
}

/// Reads `n` tokens.
pub fn read_tokens(data: &[u8], pos: usize, n: u32) -> (r: Result<(Vec<String>, usize), Failure>)
    ensures
        agrees_all(r, spec_read_tokens(data@, pos as int, n as nat)),
{
    let mut items: Vec<String> = Vec::new();
    let mut at = pos;
    let mut i: u32 = 0;
    proof {
        lemma_resume_start(views(items@), spec_read_tokens(data@, pos as int, n as nat));
    }
    while i < n
        invariant
            i <= n,
            spec_read_tokens(data@, pos as int, n as nat) == resume(
                views(items@),
                spec_read_tokens(data@, at as int, (n - i) as nat),
            ),
        decreases n - i,
    {
        match read_token(data, at) {
            Err(e) => {
                return Err(e);
            },
            Ok((x, p)) => {
                proof {
                    lemma_resume_prepend(
                        views(items@),
                        x@,
                        spec_read_tokens(data@, p as int, (n - i - 1) as nat),
                    );
                    lemma_views_push(items@, x);
                }
                items.push(x);
                at = p;
            },
        }
        i += 1;
    }
    proof {
        lemma_resume_done(views(items@), at as int);
    }
    Ok((items, at))
}

/// Reads one symbol, nested at most `depth` deep.
pub fn read_symbol(data: &[u8], pos: usize, depth: usize) -> (r: Result<(Symbol, usize), Failure>)
    ensures
        agrees(r, spec_read_symbol(data@, pos as int, depth as nat)),
    decreases depth, 1nat,
{
    if depth == 0 {
        return Err(Failure { field: "symbol", cause: Cause::TooDeep, offset: pos });
    }
    let (tag, p) = match read_u8(data, pos, "symbol tag") {
        Err(e) => {
            return Err(e);
        },
        Ok(v) => v,
    };
    let d = depth - 1;
    if tag == 0 {
        match read_slot(data, p) {
            Err(e) => Err(e),
            Ok((s, q)) => Ok((Symbol::SymCat(s.0, s.1), q)),
        }
    } else if tag == 1 {
        match read_slot(data, p) {
            Err(e) => Err(e),
            Ok((s, q)) => Ok((Symbol::SymLit(s.0, s.1), q)),
        }
    } else if tag == 2 {
        match read_slot(data, p) {
            Err(e) => Err(e),
            Ok((s, q)) => Ok((Symbol::SymVar(s.0, s.1), q)),
        }
    } else if tag == 3 {
        match read_token(data, p) {
            Err(e) => Err(e),
            Ok((t, q)) => Ok((Symbol::SymKS(t), q)),
        }
    } else if tag == 4 {
        let (ns, p1) = match read_u32(data, p, "symbol count") {
            Err(e) => {
                return Err(e);
            },
            Ok(v) => v,
        };
        let (symbols, p2) = match read_symbols(data, p1, ns, d) {
            Err(e) => {
                return Err(e);
            },
            Ok(v) => v,
        };
        let (na, p3) = match read_u32(data, p2, "variant count") {
            Err(e) => {
                return Err(e);
            },
            Ok(v) => v,
        };
        let (alts, p4) = match read_alts(data, p3, na, d) {
            Err(e) => {
                return Err(e);
            },
            Ok(v) => v,
        };
        proof {
            lemma_symkp_view(symbols, alts);
        }
        Ok((Symbol::SymKP(symbols, alts), p4))
    } else if tag == 5 {
        Ok((Symbol::SymNE, p))
    } else {
        Err(Failure { field: "symbol tag", cause: Cause::UnknownTag(tag), offset: pos })
    }
}

/// Reads `n` symbols, each nested at most `depth` deep.
pub fn read_symbols(data: &[u8], pos: usize, n: u32, depth: usize) -> (r: Result<(Vec<Symbol>, usize), Failure>)
    ensures
        agrees_all(r, spec_read_symbols(data@, pos as int, n as nat, depth as nat)),
    decreases depth, 2nat,
{
    let mut items: Vec<Symbol> = Vec::new();
    let mut at = pos;
    let mut i: u32 = 0;
    proof {
        lemma_resume_start(views(items@), spec_read_symbols(data@, pos as int, n as nat, depth as nat));
    }
    while i < n
        invariant
            i <= n,
            spec_read_symbols(data@, pos as int, n as nat, depth as nat) == resume(
                views(items@),
                spec_read_symbols(data@, at as int, (n - i) as nat, depth as nat),
            ),
        decreases n - i,
    {
        match read_symbol(data, at, depth) {
            Err(e) => {
                return Err(e);
            },
            Ok((x, p)) => {
                proof {
                    lemma_resume_prepend(
                        views(items@),
                        x@,
                        spec_read_symbols(data@, p as int, (n - i - 1) as nat, depth as nat),
                    );
                    lemma_views_push(items@, x);
                }
                items.push(x);
                at = p;
            },
        }
        i += 1;
    }
    proof {
        lemma_resume_done(views(items@), at as int);
    }
    Ok((items, at))
}

/// Reads one variant, nested at most `depth` deep.
pub fn read_alt(data: &[u8], pos: usize, depth: usize) -> (r: Result<(Alt, usize), Failure>)
    ensures
        agrees(r, spec_read_alt(data@, pos as int, depth as nat)),
    decreases depth, 0nat,
{
    if depth == 0 {
        return Err(Failure { field: "variant", cause: Cause::TooDeep, offset: pos });
    }
    let (ns, p1) = match read_u32(data, pos, "symbol count") {
        Err(e) => {
            return Err(e);
        },
        Ok(v) => v,
    };
    let (symbols, p2) = match read_symbols(data, p1, ns, depth - 1) {
        Err(e) => {
            return Err(e);
        },
        Ok(v) => v,
    };
    let (nt, p3) = match read_u32(data, p2, "token count") {
        Err(e) => {
            return Err(e);
        },
        Ok(v) => v,
    };
    let (tokens, p4) = match read_tokens(data, p3, nt) {
        Err(e) => {
            return Err(e);
        },
        Ok(v) => v,
    };
    let alt = Alt { symbols, tokens };
    proof {
        lemma_alt_view(alt);
    }
    Ok((alt, p4))
}

/// Reads `n` variants, each nested at most `depth` deep.
pub fn read_alts(data: &[u8], pos: usize, n: u32, depth: usize) -> (r: Result<(Vec<Alt>, usize), Failure>)
    ensures
        agrees_all(r, spec_read_alts(data@, pos as int, n as nat, depth as nat)),
    decreases depth, 1nat,
{
    let mut items: Vec<Alt> = Vec::new();
    let mut at = pos;
    let mut i: u32 = 0;
    proof {
        lemma_resume_start(views(items@), spec_read_alts(data@, pos as int, n as nat, depth as nat));
    }
    while i < n
        invariant
            i <= n,
            spec_read_alts(data@, pos as int, n as nat, depth as nat) == resume(
                views(items@),
                spec_read_alts(data@, at as int, (n - i) as nat, depth as nat),
            ),
        decreases n - i,
    {
        match read_alt(data, at, depth) {
            Err(e) => {
                return Err(e);
            },
            Ok((x, p)) => {
                proof {
                    lemma_resume_prepend(
                        views(items@),
                        x@,
                        spec_read_alts(data@, p as int, (n - i - 1) as nat, depth as nat),
                    );
                    lemma_views_push(items@, x);
                }
                items.push(x);
                at = p;
            },
        }
        i += 1;
    }
    proof {
        lemma_resume_done(views(items@), at as int);
    }
    Ok((items, at))
}

/// Reads the table of sequences.
pub fn read_sequences(data: &[u8], pos: usize) -> (r: Result<(Vec<Vec<Symbol>>, usize), Failure>)
    ensures
        match r {
            Ok((x, p)) => spec_read_sequences(data@, pos as int) == Ok::<
                (Seq<Seq<SpecSymbol>>, int),
                Failure,
            >((nested_views(x@), p as int)),
            Err(e) => spec_read_sequences(data@, pos as int) == Err::<
                (Seq<Seq<SpecSymbol>>, int),
                Failure,
            >(e),
        },
{
    let (n, start) = match read_u32(data, pos, "sequence count") {
        Err(e) => {
            return Err(e);
        },
        Ok(v) => v,
    };
    let mut items: Vec<Vec<Symbol>> = Vec::new();
    let mut at = start;
    let mut i: u32 = 0;
    proof {
        lemma_resume_start(
            nested_views(items@),
            spec_read_sequence_list(data@, start as int, n as nat),
        );
    }
    while i < n
        invariant
            i <= n,
            spec_read_sequences(data@, pos as int) == spec_read_sequence_list(
                data@,
                start as int,
                n as nat,
            ),
            spec_read_sequence_list(data@, start as int, n as nat) == resume(
                nested_views(items@),
                spec_read_sequence_list(data@, at as int, (n - i) as nat),
            ),
        decreases n - i,
    {
        let (m, p) = match read_u32(data, at, "symbol count") {
            Err(e) => {
                return Err(e);
            },
            Ok(v) => v,
        };
        match read_symbols(data, p, m, MAX_DEPTH) {
            Err(e) => {
                return Err(e);
            },
            Ok((x, q)) => {
                proof {
                    lemma_resume_prepend(
                        nested_views(items@),
                        views(x@),
                        spec_read_sequence_list(data@, q as int, (n - i - 1) as nat),
                    );
                    lemma_nested_views_push(items@, x);
                }
                items.push(x);
                at = q;
            },
        }
        i += 1;
    }
    proof {
        lemma_resume_done(nested_views(items@), at as int);
    }
    Ok((items, at))
}

} // verus!
