//! The grammar file as a whole.
//!
//! After the header come the abstract name, the global flags and the
//! functions of the abstract syntax, each with its name, type, weight and
//! probability. The categories are not in the file: each function is listed
//! under the category of its type, in the order of the functions. The start
//! category is the text of the flag `startcat` or, without such a flag, the
//! first category. The concrete syntaxes follow, each under its language.

use vstd::prelude::*;
use vstd::string::*;

use crate::binary::concrete::{read_concrete, read_flags, spec_read_concrete, spec_read_flags};
use crate::binary::terms::{read_type, spec_read_type, MAX_DEPTH};
use crate::encode::file::lemma_decoded_distinct;
use crate::error::{describe, failure_text, PgfError};
use crate::grammar::{
    views, Abstract, CId, Category, Concrete, Function, Language, Literal, Pgf, SpecAbstract,
    SpecCategory, SpecConcrete, SpecFunction, SpecLiteral, SpecPgf,
};
use crate::table::{
    find_cid, find_language, insert_cid, lemma_position, lemma_table_of_step, position, table_get,
    table_insert, table_of,
};
use crate::valid::{find_violation, violation};
use crate::wire::{
    agrees, agrees_all, failure, lemma_resume_done, lemma_resume_prepend, lemma_resume_start,
    prepend, read_i32, read_string, read_string_16, read_u16, read_u32, read_u64, resume,
    spec_read_i32, spec_read_string, spec_read_string_16, spec_read_u16, spec_read_u32,
    spec_read_u64, Cause, Failure,
};

verus! {

/// The version of the layout that is read.
pub const VERSION: u16 = 2;

/// One function: its name, type, weight and probability.
pub open spec fn spec_read_fun(data: Seq<u8>, pos: int) -> Result<
    ((Seq<char>, SpecFunction), int),
    Failure,
> {
    match spec_read_string(data, pos, "function name") {
        Err(e) => Err(e),
        Ok((name, p1)) => match spec_read_type(data, p1, MAX_DEPTH as nat) {
            Err(e) => Err(e),
            Ok((ty, p2)) => match spec_read_i32(data, p2, "weight") {
                Err(e) => Err(e),
                Ok((weight, p3)) => match spec_read_u64(data, p3, "probability") {
                    Err(e) => Err(e),
                    Ok((prob, p4)) => Ok(
                        ((name, SpecFunction { ty, weight, equations: None, prob }), p4),
                    ),
                },
            },
        },
    }
}

/// Functions, `n` of them from `pos` on: the items and the position after
/// them, or the first failure.
pub open spec fn spec_read_fun_list(data: Seq<u8>, pos: int, n: nat) -> Result<
    (Seq<(Seq<char>, SpecFunction)>, int),
    Failure,
>
    decreases n,
{
    if n == 0 {
        Ok((Seq::empty(), pos))
    } else {
        match spec_read_fun(data, pos) {
            Err(e) => Err(e),
            Ok((x, p)) => prepend(x, spec_read_fun_list(data, p, (n - 1) as nat)),
        }
    }
}

/// The categories with `name` listed under `cat`: at the end of the list
/// of the category, or as the only function of a new category at the end.
pub open spec fn list_under(
    cats: Seq<(Seq<char>, SpecCategory)>,
    cat: Seq<char>,
    name: Seq<char>,
) -> Seq<(Seq<char>, SpecCategory)> {
    match position(cats, cat) {
        Some(i) => cats.update(
            i,
            (
                cats[i].0,
                SpecCategory { hypos: cats[i].1.hypos, funs: cats[i].1.funs.push((0usize, name)) },
            ),
        ),
        None => cats.push((cat, SpecCategory { hypos: Seq::empty(), funs: seq![(0usize, name)] })),
    }
}

/// The categories of the functions: each function listed under the category
/// of its type, in the order of the functions.
pub open spec fn categories_of(funs: Seq<(Seq<char>, SpecFunction)>) -> Seq<
    (Seq<char>, SpecCategory),
>
    decreases funs.len(),
{
    if funs.len() == 0 {
        Seq::empty()
    } else {
        list_under(categories_of(funs.drop_last()), funs.last().1.ty.category, funs.last().0)
    }
}

/// The abstract syntax: a count and that many functions.
pub open spec fn spec_read_abstract(data: Seq<u8>, pos: int) -> Result<(SpecAbstract, int), Failure> {
    match spec_read_u32(data, pos, "function count") {
        Err(e) => Err(e),
        Ok((n, p)) => match spec_read_fun_list(data, p, n as nat) {
            Err(e) => Err(e),
            Ok((list, q)) => Ok(
                (SpecAbstract { funs: table_of(list), cats: categories_of(table_of(list)) }, q),
            ),
        },
    }
}

/// One concrete syntax under its language.
pub open spec fn spec_read_language(data: Seq<u8>, pos: int) -> Result<
    ((Seq<char>, SpecConcrete), int),
    Failure,
> {
    match spec_read_string(data, pos, "language name") {
        Err(e) => Err(e),
        Ok((name, p)) => match spec_read_concrete(data, p) {
            Err(e) => Err(e),
            Ok((cnc, q)) => Ok(((name, cnc), q)),
        },
    }
}

/// Languages, `n` of them from `pos` on: the items and the position after
/// them, or the first failure.
pub open spec fn spec_read_language_list(data: Seq<u8>, pos: int, n: nat) -> Result<
    (Seq<(Seq<char>, SpecConcrete)>, int),
    Failure,
>
    decreases n,
{
    if n == 0 {
        Ok((Seq::empty(), pos))
    } else {
        match spec_read_language(data, pos) {
            Err(e) => Err(e),
            Ok((x, p)) => prepend(x, spec_read_language_list(data, p, (n - 1) as nat)),
        }
    }
}

/// The concrete syntaxes: a count and that many languages.
pub open spec fn spec_read_concretes(data: Seq<u8>, pos: int) -> Result<
    (Seq<(Seq<char>, SpecConcrete)>, int),
    Failure,
> {
    match spec_read_u32(data, pos, "concrete count") {
        Err(e) => Err(e),
        Ok((n, p)) => match spec_read_language_list(data, p, n as nat) {
            Err(e) => Err(e),
            Ok((list, q)) => Ok((table_of(list), q)),
        },
    }
}

/// The start category: the text of the flag `startcat`, or else the first
/// category.
pub open spec fn start_category(
    flags: Seq<(Seq<char>, SpecLiteral)>,
    cats: Seq<(Seq<char>, SpecCategory)>,
) -> Option<Seq<char>> {
    match table_get(flags, "startcat"@) {
        Some(SpecLiteral::Str(s)) => Some(s),
        _ => if cats.len() > 0 {
            Some(cats[0].0)
        } else {
            None
        },
    }
}

/// The header: the version and the number of grammars.
pub open spec fn spec_read_header(data: Seq<u8>) -> Result<((), int), Failure> {
    match spec_read_u16(data, 0, "version") {
        Err(e) => Err(e),
        Ok((version, p1)) => if version != VERSION {
            Err(failure("version", Cause::UnsupportedVersion(version), 0))
        } else {
            match spec_read_u16(data, p1, "grammar count") {
                Err(e) => Err(e),
                Ok((count, p2)) => if count != 1 {
                    Err(failure("grammar count", Cause::GrammarCount(count), p1))
                } else {
                    Ok(((), p2))
                },
            }
        },
    }
}

/// The grammar that the bytes of a file spell, or why they spell none.
pub open spec fn spec_decode_pgf(data: Seq<u8>) -> Result<SpecPgf, Failure> {
    match spec_read_header(data) {
        Err(e) => Err(e),
        Ok((_, p2)) => match spec_read_string_16(data, p2, "abstract name") {
            Err(e) => Err(e),
            Ok((absname, p3)) => match spec_read_flags(data, p3) {
                Err(e) => Err(e),
                Ok((flags, p4)) => match spec_read_abstract(data, p4) {
                    Err(e) => Err(e),
                    Ok((abstract_syntax, p5)) => match start_category(flags, abstract_syntax.cats) {
                        None => Err(failure("start category", Cause::NoStartCategory, p5)),
                        Some(startcat) => match spec_read_concretes(data, p5) {
                            Err(e) => Err(e),
                            Ok((concretes, p6)) => if p6 != data.len() {
                                Err(failure("end of file", Cause::TrailingBytes, p6))
                            } else {
                                Ok(
                                    SpecPgf {
                                        absname,
                                        concretes,
                                        abstract_syntax,
                                        startcat,
                                        flags,
                                    },
                                )
                            },
                        },
                    },
                },
            },
        },
    }
}

fn read_fun(data: &[u8], pos: usize) -> (r: Result<((CId, Function), usize), Failure>)
    ensures
        agrees(r, spec_read_fun(data@, pos as int)),
{
    let (name, p1) = match read_string(data, pos, "function name") {
        Err(e) => {
            return Err(e);
        },
        Ok(v) => v,
    };
    let (ty, p2) = match read_type(data, p1, MAX_DEPTH) {
        Err(e) => {
            return Err(e);
        },
        Ok(v) => v,
    };
    let (weight, p3) = match read_i32(data, p2, "weight") {
        Err(e) => {
            return Err(e);
        },
        Ok(v) => v,
    };
    let (prob, p4) = match read_u64(data, p3, "probability") {
        Err(e) => {
            return Err(e);
        },
        Ok(v) => v,
    };
    Ok(((name, Function { ty, weight, equations: None, prob }), p4))
}

/// Lists `name` under the category `cat`.
fn list_function(cats: &mut Vec<(CId, Category)>, cat: &CId, name: &CId)
    ensures
        views(final(cats)@) == list_under(views(old(cats)@), cat@, name@),
{
    let ghost before = views(cats@);
    match find_cid(cats, cat) {
        Some(i) => {
            cats[i].1.funs.push((0, name.clone()));
            assert(views(cats@) =~= list_under(before, cat@, name@)) by {
                assert(views(cats@[i as int].1.funs@) =~= before[i as int].1.funs.push(
                    (0usize, name@),
                ));
            }
        },
        None => {
            let mut funs: Vec<(usize, CId)> = Vec::new();
            funs.push((0, name.clone()));
            let hypos: Vec<crate::grammar::Hypo> = Vec::new();
            cats.push((cat.clone(), Category { hypos, funs }));
            assert(views(cats@) =~= list_under(before, cat@, name@)) by {
                assert(views(funs@) =~= seq![(0usize, name@)]);
                assert(views(hypos@) =~= Seq::empty());
            }
        },
    }
}

/// The categories of the functions.
fn derive_categories(funs: &Vec<(CId, Function)>) -> (cats: Vec<(CId, Category)>)
    ensures
        views(cats@) == categories_of(views(funs@)),
{
    let mut cats: Vec<(CId, Category)> = Vec::new();
    let mut i: usize = 0;
    assert(views(funs@).take(0) =~= Seq::empty());
    assert(views(cats@) =~= Seq::empty());
    while i < funs.len()
        invariant
            i <= funs.len(),
            views(cats@) == categories_of(views(funs@).take(i as int)),
        decreases funs.len() - i,
    {
        proof {
            let next = views(funs@).take(i + 1);
            assert(next.drop_last() =~= views(funs@).take(i as int));
            assert(next.last() == views(funs@)[i as int]);
        }
        list_function(&mut cats, &funs[i].1.ty.category, &funs[i].0);
        i += 1;
    }
    assert(views(funs@).take(funs.len() as int) =~= views(funs@));
    cats
}

/// Reads the abstract syntax.
pub fn read_abstract(data: &[u8], pos: usize) -> (r: Result<(Abstract, usize), Failure>)
    ensures
        agrees(r, spec_read_abstract(data@, pos as int)),
{
    let (n, start) = match read_u32(data, pos, "function count") {
        Err(e) => {
            return Err(e);
        },
        Ok(v) => v,
    };
    let mut funs: Vec<(CId, Function)> = Vec::new();
    let ghost mut list: Seq<(Seq<char>, SpecFunction)> = Seq::empty();
    let mut at = start;
    let mut i: u32 = 0;
    proof {
        lemma_resume_start(list, spec_read_fun_list(data@, start as int, n as nat));
        assert(views(funs@) =~= table_of(list));
    }
    while i < n
        invariant
            i <= n,
            spec_read_u32(data@, pos as int, "function count") == Ok::<(u32, int), Failure>(
                (n, start as int),
            ),
            spec_read_fun_list(data@, start as int, n as nat) == resume(
                list,
                spec_read_fun_list(data@, at as int, (n - i) as nat),
            ),
            views(funs@) == table_of(list),
        decreases n - i,
    {
        match read_fun(data, at) {
            Err(e) => {
                return Err(e);
            },
            Ok((x, p)) => {
                proof {
                    lemma_resume_prepend(
                        list,
                        x@,
                        spec_read_fun_list(data@, p as int, (n - i - 1) as nat),
                    );
                    lemma_table_of_step(list, x@);
                    list = list.push(x@);
                }
                insert_cid(&mut funs, x.0, x.1);
                at = p;
            },
        }
        i += 1;
    }
    proof {
        lemma_resume_done(list, at as int);
    }
    let cats = derive_categories(&funs);
    Ok((Abstract { funs, cats }, at))
}

fn read_language(data: &[u8], pos: usize) -> (r: Result<((Language, Concrete), usize), Failure>)
    ensures
        agrees(r, spec_read_language(data@, pos as int)),
{
    match read_string(data, pos, "language name") {
        Err(e) => Err(e),
        Ok((name, p)) => match read_concrete(data, p) {
            Err(e) => Err(e),
            Ok((cnc, q)) => Ok(((Language(name), cnc), q)),
        },
    }
}

/// Reads the concrete syntaxes.
pub fn read_concretes(data: &[u8], pos: usize) -> (r: Result<
    (Vec<(Language, Concrete)>, usize),
    Failure,
>)
    ensures
        agrees_all(r, spec_read_concretes(data@, pos as int)),
{
    let (n, start) = match read_u32(data, pos, "concrete count") {
        Err(e) => {
            return Err(e);
        },
        Ok(v) => v,
    };
    let mut table: Vec<(Language, Concrete)> = Vec::new();
    let ghost mut list: Seq<(Seq<char>, SpecConcrete)> = Seq::empty();
    let mut at = start;
    let mut i: u32 = 0;
    proof {
        lemma_resume_start(list, spec_read_language_list(data@, start as int, n as nat));
        assert(views(table@) =~= table_of(list));
    }
    while i < n
        invariant
            i <= n,
            spec_read_u32(data@, pos as int, "concrete count") == Ok::<(u32, int), Failure>(
                (n, start as int),
            ),
            spec_read_language_list(data@, start as int, n as nat) == resume(
                list,
                spec_read_language_list(data@, at as int, (n - i) as nat),
            ),
            views(table@) == table_of(list),
        decreases n - i,
    {
        match read_language(data, at) {
            Err(e) => {
                return Err(e);
            },
            Ok((x, p)) => {
                proof {
                    lemma_resume_prepend(
                        list,
                        x@,
                        spec_read_language_list(data@, p as int, (n - i - 1) as nat),
                    );
                    lemma_table_of_step(list, x@);
                    list = list.push(x@);
                }
                let ghost before = views(table@);
                let ghost xv = x@;
                match find_language(&table, &x.0) {
                    Some(k) => {
                        table.set(k, x);
                        assert(views(table@) =~= table_insert(before, xv.0, xv.1));
                    },
                    None => {
                        table.push(x);
                        assert(views(table@) =~= table_insert(before, xv.0, xv.1));
                    },
                }
                at = p;
            },
        }
        i += 1;
    }
    proof {
        lemma_resume_done(list, at as int);
    }
    Ok((table, at))
}

/// Finds the start category of a grammar with these flags and categories.
fn resolve_start(flags: &Vec<(CId, Literal)>, cats: &Vec<(CId, Category)>) -> (r: Option<CId>)
    ensures
        match r {
            Some(c) => start_category(views(flags@), views(cats@)) == Some(c@),
            None => start_category(views(flags@), views(cats@)) is None,
        },
{
    let key = CId(String::from_str("startcat"));
    proof {
        lemma_position(views(flags@), key@);
    }
    match find_cid(flags, &key) {
        Some(i) => {
            match &flags[i].1 {
                Literal::Str(s) => {
                    return Some(CId(s.clone()));
                },
                _ => {},
            }
        },
        None => {},
    }
    if cats.len() > 0 {
        Some(cats[0].0.clone())
    } else {
        None
    }
}

fn read_header(data: &[u8]) -> (r: Result<((), usize), Failure>)
    ensures
        agrees(r, spec_read_header(data@)),
{
    let (version, p1) = match read_u16(data, 0, "version") {
        Err(e) => {
            return Err(e);
        },
        Ok(v) => v,
    };
    if version != VERSION {
        return Err(
            Failure { field: "version", cause: Cause::UnsupportedVersion(version), offset: 0 },
        );
    }
    let (count, p2) = match read_u16(data, p1, "grammar count") {
        Err(e) => {
            return Err(e);
        },
        Ok(v) => v,
    };
    if count != 1 {
        return Err(
            Failure { field: "grammar count", cause: Cause::GrammarCount(count), offset: p1 },
        );
    }
    Ok(((), p2))
}

/// Decodes the bytes of a grammar file.
fn decode_pgf(data: &[u8]) -> (r: Result<Pgf, Failure>)
    ensures
        match r {
            Ok(g) => spec_decode_pgf(data@) == Ok::<SpecPgf, Failure>(g@),
            Err(e) => spec_decode_pgf(data@) == Err::<SpecPgf, Failure>(e),
        },
{
    let (_, p2) = match read_header(data) {
        Err(e) => {
            return Err(e);
        },
        Ok(v) => v,
    };
    let (absname, p3) = match read_string_16(data, p2, "abstract name") {
        Err(e) => {
            return Err(e);
        },
        Ok(v) => v,
    };
    let (flags, p4) = match read_flags(data, p3) {
        Err(e) => {
            return Err(e);
        },
        Ok(v) => v,
    };
    let (abstract_syntax, p5) = match read_abstract(data, p4) {
        Err(e) => {
            return Err(e);
        },
        Ok(v) => v,
    };
    let startcat = match resolve_start(&flags, &abstract_syntax.cats) {
        None => {
            return Err(
                Failure { field: "start category", cause: Cause::NoStartCategory, offset: p5 },
            );
        },
        Some(c) => c,
    };
    let (concretes, p6) = match read_concretes(data, p5) {
        Err(e) => {
            return Err(e);
        },
        Ok(v) => v,
    };
    if p6 != data.len() {
        return Err(Failure { field: "end of file", cause: Cause::TrailingBytes, offset: p6 });
    }
    Ok(Pgf { absname, concretes, abstract_syntax, startcat, flags })
}

/// The grammar that a file holds, or why it holds none: the grammar that
/// its bytes spell, unless something is wrong with it.
pub open spec fn spec_parse_pgf(data: Seq<u8>) -> Result<SpecPgf, Failure> {
    match spec_decode_pgf(data) {
        Err(e) => Err(e),
        Ok(g) => match violation(g) {
            Some(cause) => Err(failure("grammar", cause, data.len() as int)),
            None => Ok(g),
        },
    }
}

/// Loads a grammar file. The whole buffer must be the file.
pub fn parse_pgf_binary(data: &[u8]) -> (r: Result<Pgf, Failure>)
    ensures
        match r {
            Ok(g) => spec_parse_pgf(data@) == Ok::<SpecPgf, Failure>(g@),
            Err(e) => spec_parse_pgf(data@) == Err::<SpecPgf, Failure>(e),
        },
{
    let g = match decode_pgf(data) {
        Err(e) => {
            return Err(e);
        },
        Ok(g) => g,
    };
    proof {
        lemma_decoded_distinct(data@);
    }
    match find_violation(&g) {
        Some(cause) => Err(Failure { field: "grammar", cause, offset: data.len() }),
        None => Ok(g),
    }
}

/// The byte buffer of the crate `bytes`. Nothing is known of what is
/// inside but the bytes that it holds.
#[verifier::external_type_specification]
#[verifier::external_body]
pub struct ExBytes(bytes::Bytes);

/// The bytes that a buffer holds.
pub uninterp spec fn bytes_contents(data: bytes::Bytes) -> Seq<u8>;

/// `AsRef<[u8]>::as_ref` of `bytes::Bytes`: the bytes that the buffer
/// holds, in order, as a slice.
#[verifier::external_body]
fn bytes_as_slice(data: &bytes::Bytes) -> (s: &[u8])
    ensures
        s@ == bytes_contents(*data),
{
    data.as_ref()
}

/// What `parse_pgf` returns for what decoding gives.
pub open spec fn parsed_as(r: Result<Pgf, PgfError>, s: Result<SpecPgf, Failure>) -> bool {
    match s {
        Ok(g) => r matches Ok(x) && x@ == g,
        Err(f) => r matches Err(PgfError::DeserializeError(m)) && m@ == failure_text(f),
    }
}

/// Turns what decoding gives into what `parse_pgf` returns.
fn finish_parse(decoded: Result<Pgf, Failure>) -> (r: Result<Pgf, PgfError>)
    ensures
        match decoded {
            Ok(g) => r == Ok::<Pgf, PgfError>(g),
            Err(f) => r matches Err(PgfError::DeserializeError(m)) && m@ == failure_text(f),
        },
{
    match decoded {
        Ok(g) => Ok(g),
        Err(f) => Err(PgfError::DeserializeError(describe(&f))),
    }
}

/// Loads the grammar file that the buffer holds.
pub fn parse_pgf(data: bytes::Bytes) -> (r: Result<Pgf, PgfError>)
    ensures
        parsed_as(r, spec_parse_pgf(bytes_contents(data))),
{
    finish_parse(parse_pgf_binary(bytes_as_slice(&data)))
}

} // verus!
