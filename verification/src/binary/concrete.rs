//! Concrete syntaxes in the binary layout.
//!
//! A concrete syntax is: its flags, its productions, its concrete functions,
//! its sequences, its categories, and the number of category instances.
//! A table that is keyed (flags, productions, categories) keeps for a key
//! that stands twice in the file the place of the first entry and the value
//! of the last; a set of productions keeps each production once.

use vstd::prelude::*;

use crate::binary::symbols::{read_sequences, spec_read_sequences};
use crate::equal::has_production;
use crate::grammar::{
    lemma_views_push, views, CId, CncCat, CncFun, Concrete, Literal, PArg, Production,
    ProductionSet, SpecCncFun, SpecConcrete, SpecLiteral, SpecPArg, SpecProduction,
};
use crate::table::{
    find_productions, insert_cid, lemma_position_is, lemma_position_none, lemma_table_of_step,
    lemma_without_repeats_step, position, table_insert, table_of, without_repeats,
};
use crate::wire::{
    agrees, agrees_all, failure, lemma_resume_done, lemma_resume_prepend, lemma_resume_start,
    prepend, read_i32, read_string, read_u16, read_u32, read_u64, read_u8, resume, spec_read_i32,
    spec_read_string, spec_read_u16, spec_read_u32, spec_read_u64, spec_read_u8, Cause, Failure,
};

verus! {

/// A literal at `pos`: the value and the position after it, or the failure.
pub open spec fn spec_read_literal(data: Seq<u8>, pos: int) -> Result<(SpecLiteral, int), Failure> {
    match spec_read_u8(data, pos, "literal tag") {
        Err(e) => Err(e),
        Ok((tag, p)) => if tag == 0 {
            match spec_read_string(data, p, "string literal") {
                Err(e) => Err(e),
                Ok((s, q)) => Ok((SpecLiteral::Str(s), q)),
            }
        } else if tag == 1 {
            match spec_read_i32(data, p, "integer literal") {
                Err(e) => Err(e),
                Ok((n, q)) => Ok((SpecLiteral::Int(n), q)),
            }
        } else if tag == 2 {
            match spec_read_u64(data, p, "float literal") {
                Err(e) => Err(e),
                Ok((b, q)) => Ok((SpecLiteral::Flt(b), q)),
            }
        } else {
            Err(failure("literal tag", Cause::UnknownTag(tag), pos))
        },
    }
}

/// One flag: its name and its value.
pub open spec fn spec_read_flag(data: Seq<u8>, pos: int) -> Result<
    ((Seq<char>, SpecLiteral), int),
    Failure,
> {
    match spec_read_string(data, pos, "flag name") {
        Err(e) => Err(e),
        Ok((k, p)) => match spec_read_literal(data, p) {
            Err(e) => Err(e),
            Ok((v, q)) => Ok(((k, v), q)),
        },
    }
}

/// Flags, `n` of them from `pos` on: the items and the position after them, or
/// the first failure.
pub open spec fn spec_read_flag_list(data: Seq<u8>, pos: int, n: nat) -> Result<
    (Seq<(Seq<char>, SpecLiteral)>, int),
    Failure,
>
    decreases n,
{
    if n == 0 {
        Ok((Seq::empty(), pos))
    } else {
        match spec_read_flag(data, pos) {
            Err(e) => Err(e),
            Ok((x, p)) => prepend(x, spec_read_flag_list(data, p, (n - 1) as nat)),
        }
    }
}

/// A table of flags: a count of two bytes and that many flags.
pub open spec fn spec_read_flags(data: Seq<u8>, pos: int) -> Result<
    (Seq<(Seq<char>, SpecLiteral)>, int),
    Failure,
> {
    match spec_read_u16(data, pos, "flag count") {
        Err(e) => Err(e),
        Ok((n, p)) => match spec_read_flag_list(data, p, n as nat) {
            Err(e) => Err(e),
            Ok((list, q)) => Ok((table_of(list), q)),
        },
    }
}

/// A fid at `pos`: the value and the position after it, or the failure.
pub open spec fn spec_read_fid(data: Seq<u8>, pos: int) -> Result<(i32, int), Failure> {
    spec_read_i32(data, pos, "fid")
}

/// Fids, `n` of them from `pos` on: the items and the position after them, or
/// the first failure.
pub open spec fn spec_read_fids(data: Seq<u8>, pos: int, n: nat) -> Result<
    (Seq<i32>, int),
    Failure,
>
    decreases n,
{
    if n == 0 {
        Ok((Seq::empty(), pos))
    } else {
        match spec_read_fid(data, pos) {
            Err(e) => Err(e),
            Ok((x, p)) => prepend(x, spec_read_fids(data, p, (n - 1) as nat)),
        }
    }
}

/// A production argument at `pos`: the value and the position after it, or the
/// failure.
pub open spec fn spec_read_parg(data: Seq<u8>, pos: int) -> Result<(SpecPArg, int), Failure> {
    match spec_read_u32(data, pos, "hypothesis count") {
        Err(e) => Err(e),
        Ok((n, p1)) => match spec_read_fids(data, p1, n as nat) {
            Err(e) => Err(e),
            Ok((hypos, p2)) => match spec_read_i32(data, p2, "argument fid") {
                Err(e) => Err(e),
                Ok((fid, p3)) => Ok((SpecPArg { hypos, fid }, p3)),
            },
        },
    }
}

/// Production arguments, `n` of them from `pos` on: the items and the position
/// after them, or the first failure.
pub open spec fn spec_read_pargs(data: Seq<u8>, pos: int, n: nat) -> Result<
    (Seq<SpecPArg>, int),
    Failure,
>
    decreases n,
{
    if n == 0 {
        Ok((Seq::empty(), pos))
    } else {
        match spec_read_parg(data, pos) {
            Err(e) => Err(e),
            Ok((x, p)) => prepend(x, spec_read_pargs(data, p, (n - 1) as nat)),
        }
    }
}

/// A production at `pos`: the value and the position after it, or the failure.
pub open spec fn spec_read_production(data: Seq<u8>, pos: int) -> Result<
    (SpecProduction, int),
    Failure,
> {
    match spec_read_u8(data, pos, "production tag") {
        Err(e) => Err(e),
        Ok((tag, p)) => if tag == 0 {
            match spec_read_i32(data, p, "function id") {
                Err(e) => Err(e),
                Ok((fid, p1)) => match spec_read_u32(data, p1, "argument count") {
                    Err(e) => Err(e),
                    Ok((n, p2)) => match spec_read_pargs(data, p2, n as nat) {
                        Err(e) => Err(e),
                        Ok((args, p3)) => Ok((SpecProduction::Apply { fid, args }, p3)),
                    },
                },
            }
        } else if tag == 1 {
            match spec_read_i32(data, p, "coerced fid") {
                Err(e) => Err(e),
                Ok((arg, p1)) => Ok((SpecProduction::Coerce { arg }, p1)),
            }
        } else {
            Err(failure("production tag", Cause::UnknownTag(tag), pos))
        },
    }
}

/// Productions, `n` of them from `pos` on: the items and the position after
/// them, or the first failure.
pub open spec fn spec_read_production_list(data: Seq<u8>, pos: int, n: nat) -> Result<
    (Seq<SpecProduction>, int),
    Failure,
>
    decreases n,
{
    if n == 0 {
        Ok((Seq::empty(), pos))
    } else {
        match spec_read_production(data, pos) {
            Err(e) => Err(e),
            Ok((x, p)) => prepend(x, spec_read_production_list(data, p, (n - 1) as nat)),
        }
    }
}

/// The productions of one category instance: the fid, a count, and that
/// many productions, each kept once.
pub open spec fn spec_read_production_set(data: Seq<u8>, pos: int) -> Result<
    ((i32, Seq<SpecProduction>), int),
    Failure,
> {
    match spec_read_i32(data, pos, "production fid") {
        Err(e) => Err(e),
        Ok((fid, p1)) => match spec_read_u32(data, p1, "production count") {
            Err(e) => Err(e),
            Ok((n, p2)) => match spec_read_production_list(data, p2, n as nat) {
                Err(e) => Err(e),
                Ok((list, p3)) => Ok(((fid, without_repeats(list)), p3)),
            },
        },
    }
}

/// The productions of several fids, `n` of them from `pos` on: the items and
/// the position after them, or the first failure.
pub open spec fn spec_read_production_sets(data: Seq<u8>, pos: int, n: nat) -> Result<
    (Seq<(i32, Seq<SpecProduction>)>, int),
    Failure,
>
    decreases n,
{
    if n == 0 {
        Ok((Seq::empty(), pos))
    } else {
        match spec_read_production_set(data, pos) {
            Err(e) => Err(e),
            Ok((x, p)) => prepend(x, spec_read_production_sets(data, p, (n - 1) as nat)),
        }
    }
}

/// The table of productions: a count and that many sets.
pub open spec fn spec_read_productions(data: Seq<u8>, pos: int) -> Result<
    (Seq<(i32, Seq<SpecProduction>)>, int),
    Failure,
> {
    match spec_read_u32(data, pos, "production set count") {
        Err(e) => Err(e),
        Ok((n, p)) => match spec_read_production_sets(data, p, n as nat) {
            Err(e) => Err(e),
            Ok((list, q)) => Ok((table_of(list), q)),
        },
    }
}

/// A sequence index at `pos`: the value and the position after it, or the
/// failure.
pub open spec fn spec_read_lin(data: Seq<u8>, pos: int) -> Result<(i32, int), Failure> {
    spec_read_i32(data, pos, "sequence index")
}

/// Sequence indices, `n` of them from `pos` on: the items and the position
/// after them, or the first failure.
pub open spec fn spec_read_lins(data: Seq<u8>, pos: int, n: nat) -> Result<
    (Seq<i32>, int),
    Failure,
>
    decreases n,
{
    if n == 0 {
        Ok((Seq::empty(), pos))
    } else {
        match spec_read_lin(data, pos) {
            Err(e) => Err(e),
            Ok((x, p)) => prepend(x, spec_read_lins(data, p, (n - 1) as nat)),
        }
    }
}

/// A concrete function at `pos`: the value and the position after it, or the
/// failure.
pub open spec fn spec_read_cncfun(data: Seq<u8>, pos: int) -> Result<(SpecCncFun, int), Failure> {
    match spec_read_string(data, pos, "concrete function name") {
        Err(e) => Err(e),
        Ok((name, p1)) => match spec_read_u32(data, p1, "sequence index count") {
            Err(e) => Err(e),
            Ok((n, p2)) => match spec_read_lins(data, p2, n as nat) {
                Err(e) => Err(e),
                Ok((lins, p3)) => Ok((SpecCncFun { name, lins }, p3)),
            },
        },
    }
}

/// Concrete functions, `n` of them from `pos` on: the items and the position
/// after them, or the first failure.
pub open spec fn spec_read_cncfun_list(data: Seq<u8>, pos: int, n: nat) -> Result<
    (Seq<SpecCncFun>, int),
    Failure,
>
    decreases n,
{
    if n == 0 {
        Ok((Seq::empty(), pos))
    } else {
        match spec_read_cncfun(data, pos) {
            Err(e) => Err(e),
            Ok((x, p)) => prepend(x, spec_read_cncfun_list(data, p, (n - 1) as nat)),
        }
    }
}

/// The table of concrete functions: a count and that many functions.
pub open spec fn spec_read_cncfuns(data: Seq<u8>, pos: int) -> Result<
    (Seq<SpecCncFun>, int),
    Failure,
> {
    match spec_read_u32(data, pos, "concrete function count") {
        Err(e) => Err(e),
        Ok((n, p)) => spec_read_cncfun_list(data, p, n as nat),
    }
}

/// One concrete category: its name and its range of fids.
pub open spec fn spec_read_cnccat(data: Seq<u8>, pos: int) -> Result<
    ((Seq<char>, CncCat), int),
    Failure,
> {
    match spec_read_string(data, pos, "concrete category name") {
        Err(e) => Err(e),
        Ok((name, p1)) => match spec_read_i32(data, p1, "first fid") {
            Err(e) => Err(e),
            Ok((start, p2)) => match spec_read_i32(data, p2, "last fid") {
                Err(e) => Err(e),
                Ok((end, p3)) => Ok(((name, CncCat { start, end }), p3)),
            },
        },
    }
}

/// Concrete categories, `n` of them from `pos` on: the items and the position
/// after them, or the first failure.
pub open spec fn spec_read_cnccat_list(data: Seq<u8>, pos: int, n: nat) -> Result<
    (Seq<(Seq<char>, CncCat)>, int),
    Failure,
>
    decreases n,
{
    if n == 0 {
        Ok((Seq::empty(), pos))
    } else {
        match spec_read_cnccat(data, pos) {
            Err(e) => Err(e),
            Ok((x, p)) => prepend(x, spec_read_cnccat_list(data, p, (n - 1) as nat)),
        }
    }
}

/// The table of concrete categories: a count and that many categories.
pub open spec fn spec_read_cnccats(data: Seq<u8>, pos: int) -> Result<
    (Seq<(Seq<char>, CncCat)>, int),
    Failure,
> {
    match spec_read_u32(data, pos, "concrete category count") {
        Err(e) => Err(e),
        Ok((n, p)) => match spec_read_cnccat_list(data, p, n as nat) {
            Err(e) => Err(e),
            Ok((list, q)) => Ok((table_of(list), q)),
        },
    }
}

/// A concrete syntax at `pos`: the value and the position after it, or the
/// failure.
#[verifier::opaque]
pub open spec fn spec_read_concrete(data: Seq<u8>, pos: int) -> Result<(SpecConcrete, int), Failure> {
    match spec_read_flags(data, pos) {
        Err(e) => Err(e),
        Ok((cflags, p1)) => match spec_read_productions(data, p1) {
            Err(e) => Err(e),
            Ok((productions, p2)) => match spec_read_cncfuns(data, p2) {
                Err(e) => Err(e),
                Ok((cncfuns, p3)) => match spec_read_sequences(data, p3) {
                    Err(e) => Err(e),
                    Ok((sequences, p4)) => match spec_read_cnccats(data, p4) {
                        Err(e) => Err(e),
                        Ok((cnccats, p5)) => match spec_read_i32(data, p5, "fid total") {
                            Err(e) => Err(e),
                            Ok((total_cats, p6)) => Ok(
                                (
                                    SpecConcrete {
                                        cflags,
                                        productions,
                                        cncfuns,
                                        sequences,
                                        cnccats,
                                        total_cats,
                                    },
                                    p6,
                                ),
                            ),
                        },
                    },
                },
            },
        },
    }
}

/// Reads a literal.
pub fn read_literal(data: &[u8], pos: usize) -> (r: Result<(Literal, usize), Failure>)
    ensures
        agrees(r, spec_read_literal(data@, pos as int)),
{
    match read_u8(data, pos, "literal tag") {
        Err(e) => Err(e),
        Ok((tag, p)) => if tag == 0 {
            match read_string(data, p, "string literal") {
                Err(e) => Err(e),
                Ok((s, q)) => Ok((Literal::Str(s.0), q)),
            }
        } else if tag == 1 {
            match read_i32(data, p, "integer literal") {
                Err(e) => Err(e),
                Ok((n, q)) => Ok((Literal::Int(n), q)),
            }
        } else if tag == 2 {
            match read_u64(data, p, "float literal") {
                Err(e) => Err(e),
                Ok((b, q)) => Ok((Literal::Flt(b), q)),
            }
        } else {
            Err(Failure { field: "literal tag", cause: Cause::UnknownTag(tag), offset: pos })
        },
    }
}

fn read_flag(data: &[u8], pos: usize) -> (r: Result<((CId, Literal), usize), Failure>)
    ensures
        agrees(r, spec_read_flag(data@, pos as int)),
{
    match read_string(data, pos, "flag name") {
        Err(e) => Err(e),
        Ok((k, p)) => match read_literal(data, p) {
            Err(e) => Err(e),
            Ok((v, q)) => Ok(((k, v), q)),
        },
    }
}

/// Reads a table of flags.
pub fn read_flags(data: &[u8], pos: usize) -> (r: Result<(Vec<(CId, Literal)>, usize), Failure>)
    ensures
        agrees_all(r, spec_read_flags(data@, pos as int)),
{
    let (n, start) = match read_u16(data, pos, "flag count") {
        Err(e) => {
            return Err(e);
        },
        Ok(v) => v,
    };
    let mut table: Vec<(CId, Literal)> = Vec::new();
    let ghost mut list: Seq<(Seq<char>, SpecLiteral)> = Seq::empty();
    let mut at = start;
    let mut i: u16 = 0;
    proof {
        lemma_resume_start(list, spec_read_flag_list(data@, start as int, n as nat));
        assert(views(table@) =~= table_of(list));
    }
    while i < n
        invariant
            i <= n,
            spec_read_u16(data@, pos as int, "flag count") == Ok::<(u16, int), Failure>(
                (n, start as int),
            ),
            spec_read_flag_list(data@, start as int, n as nat) == resume(
                list,
                spec_read_flag_list(data@, at as int, (n - i) as nat),
            ),
            views(table@) == table_of(list),
        decreases n - i,
    {
        match read_flag(data, at) {
            Err(e) => {
                return Err(e);
            },
            Ok((x, p)) => {
                proof {
                    lemma_resume_prepend(
                        list,
                        x@,
                        spec_read_flag_list(data@, p as int, (n - i - 1) as nat),
                    );
                    lemma_table_of_step(list, x@);
                    list = list.push(x@);
                }
                insert_cid(&mut table, x.0, x.1);
                at = p;
            },
        }
        i += 1;
    }
    proof {
        lemma_resume_done(list, at as int);
    }
    Ok((table, at))
}

fn read_fid(data: &[u8], pos: usize) -> (r: Result<(i32, usize), Failure>)
    ensures
        agrees(r, spec_read_fid(data@, pos as int)),
{
    read_i32(data, pos, "fid")
}

/// Reads `n` fids.
fn read_fids(data: &[u8], pos: usize, n: u32) -> (r: Result<(Vec<i32>, usize), Failure>)
    ensures
        agrees_all(r, spec_read_fids(data@, pos as int, n as nat)),
{
    let mut items: Vec<i32> = Vec::new();
    let mut at = pos;
    let mut i: u32 = 0;
    proof {
        lemma_resume_start(views(items@), spec_read_fids(data@, pos as int, n as nat));
    }
    while i < n
        invariant
            i <= n,
            spec_read_fids(data@, pos as int, n as nat) == resume(
                views(items@),
                spec_read_fids(data@, at as int, (n - i) as nat),
            ),
        decreases n - i,
    {
        match read_fid(data, at) {
            Err(e) => {
                return Err(e);
            },
            Ok((x, p)) => {
                proof {
                    lemma_resume_prepend(
                        views(items@),
                        x@,
                        spec_read_fids(data@, p as int, (n - i - 1) as nat),
                    );
                    lemma_views_push(items@, x);
                }
                items.push(x);
                at = p;
            },
        }
        i += 1;
    }
    proof {
        lemma_resume_done(views(items@), at as int);
    }
    Ok((items, at))
}

/// Reads a production argument.
pub fn read_parg(data: &[u8], pos: usize) -> (r: Result<(PArg, usize), Failure>)
    ensures
        agrees(r, spec_read_parg(data@, pos as int)),
{
    let (n, p1) = match read_u32(data, pos, "hypothesis count") {
        Err(e) => {
            return Err(e);
        },
        Ok(v) => v,
    };
    let (hypos, p2) = match read_fids(data, p1, n) {
        Err(e) => {
            return Err(e);
        },
        Ok(v) => v,
    };
    let (fid, p3) = match read_i32(data, p2, "argument fid") {
        Err(e) => {
            return Err(e);
        },
        Ok(v) => v,
    };
    assert(views(hypos@) =~= hypos@);
    Ok((PArg { hypos, fid }, p3))
}

/// Reads `n` production arguments.
fn read_pargs(data: &[u8], pos: usize, n: u32) -> (r: Result<(Vec<PArg>, usize), Failure>)
    ensures
        agrees_all(r, spec_read_pargs(data@, pos as int, n as nat)),
{
    let mut items: Vec<PArg> = Vec::new();
    let mut at = pos;
    let mut i: u32 = 0;
    proof {
        lemma_resume_start(views(items@), spec_read_pargs(data@, pos as int, n as nat));
    }
    while i < n
        invariant
            i <= n,
            spec_read_pargs(data@, pos as int, n as nat) == resume(
                views(items@),
                spec_read_pargs(data@, at as int, (n - i) as nat),
            ),
        decreases n - i,
    {
        match read_parg(data, at) {
            Err(e) => {
                return Err(e);
            },
            Ok((x, p)) => {
                proof {
                    lemma_resume_prepend(
                        views(items@),
                        x@,
                        spec_read_pargs(data@, p as int, (n - i - 1) as nat),
                    );
                    lemma_views_push(items@, x);
                }
                items.push(x);
                at = p;
            },
        }
        i += 1;
    }
    proof {
        lemma_resume_done(views(items@), at as int);
    }
    Ok((items, at))
}

/// Reads a production.
pub fn read_production(data: &[u8], pos: usize) -> (r: Result<(Production, usize), Failure>)
    ensures
        agrees(r, spec_read_production(data@, pos as int)),
{
    let (tag, p) = match read_u8(data, pos, "production tag") {
        Err(e) => {
            return Err(e);
        },
        Ok(v) => v,
    };
    if tag == 0 {
        let (fid, p1) = match read_i32(data, p, "function id") {
            Err(e) => {
                return Err(e);
            },
            Ok(v) => v,
        };
        let (n, p2) = match read_u32(data, p1, "argument count") {
            Err(e) => {
                return Err(e);
            },
            Ok(v) => v,
        };
        let (args, p3) = match read_pargs(data, p2, n) {
            Err(e) => {
                return Err(e);
            },
            Ok(v) => v,
        };
        Ok((Production::Apply { fid, args }, p3))
    } else if tag == 1 {
        match read_i32(data, p, "coerced fid") {
            Err(e) => Err(e),
            Ok((arg, p1)) => Ok((Production::Coerce { arg }, p1)),
        }
    } else {
        Err(Failure { field: "production tag", cause: Cause::UnknownTag(tag), offset: pos })
    }
}

/// Reads `n` productions and keeps each of them once.
fn read_production_list(data: &[u8], pos: usize, n: u32) -> (r: Result<
    (Vec<Production>, usize),
    Failure,
>)
    ensures
        match r {
            Ok((x, p)) => spec_read_production_list(data@, pos as int, n as nat) is Ok
                && spec_read_production_list(data@, pos as int, n as nat)->Ok_0.1 == p
                && views(x@) == without_repeats(
                spec_read_production_list(data@, pos as int, n as nat)->Ok_0.0,
            ),
            Err(e) => spec_read_production_list(data@, pos as int, n as nat) == Err::<
                (Seq<SpecProduction>, int),
                Failure,
            >(e),
        },
{
    let mut items: Vec<Production> = Vec::new();
    let ghost mut list: Seq<SpecProduction> = Seq::empty();
    let mut at = pos;
    let mut i: u32 = 0;
    proof {
        lemma_resume_start(list, spec_read_production_list(data@, pos as int, n as nat));
        assert(views(items@) =~= without_repeats(list));
    }
    while i < n
        invariant
            i <= n,
            spec_read_production_list(data@, pos as int, n as nat) == resume(
                list,
                spec_read_production_list(data@, at as int, (n - i) as nat),
            ),
            views(items@) == without_repeats(list),
        decreases n - i,
    {
        match read_production(data, at) {
            Err(e) => {
                return Err(e);
            },
            Ok((x, p)) => {
                proof {
                    lemma_resume_prepend(
                        list,
                        x@,
                        spec_read_production_list(data@, p as int, (n - i - 1) as nat),
                    );
                    lemma_without_repeats_step(list, x@);
                    list = list.push(x@);
                }
                if !has_production(&items, &x) {
                    proof {
                        lemma_views_push(items@, x);
                    }
                    items.push(x);
                }
                at = p;
            },
        }
        i += 1;
    }
    proof {
        lemma_resume_done(list, at as int);
    }
    Ok((items, at))
}

fn read_production_set(data: &[u8], pos: usize) -> (r: Result<(ProductionSet, usize), Failure>)
    ensures
        agrees(r, spec_read_production_set(data@, pos as int)),
{
    let (fid, p1) = match read_i32(data, pos, "production fid") {
        Err(e) => {
            return Err(e);
        },
        Ok(v) => v,
    };
    let (n, p2) = match read_u32(data, p1, "production count") {
        Err(e) => {
            return Err(e);
        },
        Ok(v) => v,
    };
    let (prods, p3) = match read_production_list(data, p2, n) {
        Err(e) => {
            return Err(e);
        },
        Ok(v) => v,
    };
    Ok((ProductionSet { fid, prods }, p3))
}

/// Reads the table of productions.
pub fn read_productions(data: &[u8], pos: usize) -> (r: Result<(Vec<ProductionSet>, usize), Failure>)
    ensures
        agrees_all(r, spec_read_productions(data@, pos as int)),
{
    let (n, start) = match read_u32(data, pos, "production set count") {
        Err(e) => {
            return Err(e);
        },
        Ok(v) => v,
    };
    let mut table: Vec<ProductionSet> = Vec::new();
    let ghost mut list: Seq<(i32, Seq<SpecProduction>)> = Seq::empty();
    let mut at = start;
    let mut i: u32 = 0;
    proof {
        lemma_resume_start(list, spec_read_production_sets(data@, start as int, n as nat));
        assert(views(table@) =~= table_of(list));
    }
    while i < n
        invariant
            i <= n,
            spec_read_u32(data@, pos as int, "production set count") == Ok::<(u32, int), Failure>(
                (n, start as int),
            ),
            spec_read_production_sets(data@, start as int, n as nat) == resume(
                list,
                spec_read_production_sets(data@, at as int, (n - i) as nat),
            ),
            views(table@) == table_of(list),
        decreases n - i,
    {
        match read_production_set(data, at) {
            Err(e) => {
                return Err(e);
            },
            Ok((x, p)) => {
                proof {
                    lemma_resume_prepend(
                        list,
                        x@,
                        spec_read_production_sets(data@, p as int, (n - i - 1) as nat),
                    );
                    lemma_table_of_step(list, x@);
                    list = list.push(x@);
                }
                let ghost before = views(table@);
                match find_productions(&table, x.fid) {
                    Some(k) => {
                        let ghost xv = x@;
                        table.set(k, x);
                        assert(views(table@) =~= table_insert(before, xv.0, xv.1));
                    },
                    None => {
                        let ghost xv = x@;
                        table.push(x);
                        assert(views(table@) =~= table_insert(before, xv.0, xv.1));
                    },
                }
                at = p;
            },
        }
        i += 1;
    }
    proof {
        lemma_resume_done(list, at as int);
    }
    Ok((table, at))
}

fn read_lin(data: &[u8], pos: usize) -> (r: Result<(i32, usize), Failure>)
    ensures
        agrees(r, spec_read_lin(data@, pos as int)),
{
    read_i32(data, pos, "sequence index")
}

/// Reads `n` sequence indices.
fn read_lins(data: &[u8], pos: usize, n: u32) -> (r: Result<(Vec<i32>, usize), Failure>)
    ensures
        agrees_all(r, spec_read_lins(data@, pos as int, n as nat)),
{
    let mut items: Vec<i32> = Vec::new();
    let mut at = pos;
    let mut i: u32 = 0;
    proof {
        lemma_resume_start(views(items@), spec_read_lins(data@, pos as int, n as nat));
    }
    while i < n
        invariant
            i <= n,
            spec_read_lins(data@, pos as int, n as nat) == resume(
                views(items@),
                spec_read_lins(data@, at as int, (n - i) as nat),
            ),
        decreases n - i,
    {
        match read_lin(data, at) {
            Err(e) => {
                return Err(e);
            },
            Ok((x, p)) => {
                proof {
                    lemma_resume_prepend(
                        views(items@),
                        x@,
                        spec_read_lins(data@, p as int, (n - i - 1) as nat),
                    );
                    lemma_views_push(items@, x);
                }
                items.push(x);
                at = p;
            },
        }
        i += 1;
    }
    proof {
        lemma_resume_done(views(items@), at as int);
    }
    Ok((items, at))
}

fn read_cncfun(data: &[u8], pos: usize) -> (r: Result<(CncFun, usize), Failure>)
    ensures
        agrees(r, spec_read_cncfun(data@, pos as int)),
{
    let (name, p1) = match read_string(data, pos, "concrete function name") {
        Err(e) => {
            return Err(e);
        },
        Ok(v) => v,
    };
    let (n, p2) = match read_u32(data, p1, "sequence index count") {
        Err(e) => {
            return Err(e);
        },
        Ok(v) => v,
    };
    let (lins, p3) = match read_lins(data, p2, n) {
        Err(e) => {
            return Err(e);
        },
        Ok(v) => v,
    };
    assert(views(lins@) =~= lins@);
    Ok((CncFun { name, lins }, p3))
}

/// Reads `n` concrete functions.
fn read_cncfun_list(data: &[u8], pos: usize, n: u32) -> (r: Result<(Vec<CncFun>, usize), Failure>)
    ensures
        agrees_all(r, spec_read_cncfun_list(data@, pos as int, n as nat)),
{
    let mut items: Vec<CncFun> = Vec::new();
    let mut at = pos;
    let mut i: u32 = 0;
    proof {
        lemma_resume_start(views(items@), spec_read_cncfun_list(data@, pos as int, n as nat));
    }
    while i < n
        invariant
            i <= n,
            spec_read_cncfun_list(data@, pos as int, n as nat) == resume(
                views(items@),
                spec_read_cncfun_list(data@, at as int, (n - i) as nat),
            ),
        decreases n - i,
    {
        match read_cncfun(data, at) {
            Err(e) => {
                return Err(e);
            },
            Ok((x, p)) => {
                proof {
                    lemma_resume_prepend(
                        views(items@),
                        x@,
                        spec_read_cncfun_list(data@, p as int, (n - i - 1) as nat),
                    );
                    lemma_views_push(items@, x);
                }
                items.push(x);
                at = p;
            },
        }
        i += 1;
    }
    proof {
        lemma_resume_done(views(items@), at as int);
    }
    Ok((items, at))
}

/// Reads the table of concrete functions.
pub fn read_cncfuns(data: &[u8], pos: usize) -> (r: Result<(Vec<CncFun>, usize), Failure>)
    ensures
        agrees_all(r, spec_read_cncfuns(data@, pos as int)),
{
    match read_u32(data, pos, "concrete function count") {
        Err(e) => Err(e),
        Ok((n, p)) => read_cncfun_list(data, p, n),
    }
}

fn read_cnccat(data: &[u8], pos: usize) -> (r: Result<((CId, CncCat), usize), Failure>)
    ensures
        agrees(r, spec_read_cnccat(data@, pos as int)),
{
    let (name, p1) = match read_string(data, pos, "concrete category name") {
        Err(e) => {
            return Err(e);
        },
        Ok(v) => v,
    };
    let (start, p2) = match read_i32(data, p1, "first fid") {
        Err(e) => {
            return Err(e);
        },
        Ok(v) => v,
    };
    let (end, p3) = match read_i32(data, p2, "last fid") {
        Err(e) => {
            return Err(e);
        },
        Ok(v) => v,
    };
    Ok(((name, CncCat { start, end }), p3))
}

/// Reads the table of concrete categories.
pub fn read_cnccats(data: &[u8], pos: usize) -> (r: Result<(Vec<(CId, CncCat)>, usize), Failure>)
    ensures
        agrees_all(r, spec_read_cnccats(data@, pos as int)),
{
    let (n, start) = match read_u32(data, pos, "concrete category count") {
        Err(e) => {
            return Err(e);
        },
        Ok(v) => v,
    };
    let mut table: Vec<(CId, CncCat)> = Vec::new();
    let ghost mut list: Seq<(Seq<char>, CncCat)> = Seq::empty();
    let mut at = start;
    let mut i: u32 = 0;
    proof {
        lemma_resume_start(list, spec_read_cnccat_list(data@, start as int, n as nat));
        assert(views(table@) =~= table_of(list));
    }
    while i < n
        invariant
            i <= n,
            spec_read_u32(data@, pos as int, "concrete category count") == Ok::<
                (u32, int),
                Failure,
            >((n, start as int)),
            spec_read_cnccat_list(data@, start as int, n as nat) == resume(
                list,
                spec_read_cnccat_list(data@, at as int, (n - i) as nat),
            ),
            views(table@) == table_of(list),
        decreases n - i,
    {
        match read_cnccat(data, at) {
            Err(e) => {
                return Err(e);
            },
            Ok((x, p)) => {
                proof {
                    lemma_resume_prepend(
                        list,
                        x@,
                        spec_read_cnccat_list(data@, p as int, (n - i - 1) as nat),
                    );
                    lemma_table_of_step(list, x@);
                    list = list.push(x@);
                }
                insert_cid(&mut table, x.0, x.1);
                at = p;
            },
        }
        i += 1;
    }
    proof {
        lemma_resume_done(list, at as int);
    }
    Ok((table, at))
}

/// Reads one concrete syntax.
pub fn read_concrete(data: &[u8], pos: usize) -> (r: Result<(Concrete, usize), Failure>)
    ensures
        agrees(r, spec_read_concrete(data@, pos as int)),
{
    reveal(spec_read_concrete);
    let (cflags, p1) = match read_flags(data, pos) {
        Err(e) => {
            return Err(e);
        },
        Ok(v) => v,
    };
    let (productions, p2) = match read_productions(data, p1) {
        Err(e) => {
            return Err(e);
        },
        Ok(v) => v,
    };
    let (cncfuns, p3) = match read_cncfuns(data, p2) {
        Err(e) => {
            return Err(e);
        },
        Ok(v) => v,
    };
    let (sequences, p4) = match read_sequences(data, p3) {
        Err(e) => {
            return Err(e);
        },
        Ok(v) => v,
    };
    let (cnccats, p5) = match read_cnccats(data, p4) {
        Err(e) => {
            return Err(e);
        },
        Ok(v) => v,
    };
    let (total_cats, p6) = match read_i32(data, p5, "fid total") {
        Err(e) => {
            return Err(e);
        },
        Ok(v) => v,
    };
    Ok((Concrete { cflags, productions, cncfuns, sequences, cnccats, total_cats }, p6))
}

} // verus!
