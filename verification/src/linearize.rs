//! The linearizer: from a tree to the text of its tokens.

use vstd::prelude::*;
use vstd::string::*;

use crate::cid::show_cid;
use crate::error::{PgfError, SpecPgfError};
use crate::grammar::{
    views, CId, CncFun, Concrete, Expr, Language, Pgf, SpecCncFun, SpecConcrete, SpecExpr, SpecPgf,
    SpecSymbol, Symbol,
};
use crate::table::{find_language, lemma_position, table_get};

verus! {

/// The names of the concrete functions, in order.
pub open spec fn names_of(funs: Seq<SpecCncFun>) -> Seq<Seq<char>> {
    Seq::new(funs.len(), |i: int| funs[i].name)
}

/// The first concrete function with the name, if there is one.
pub open spec fn first_named(funs: Seq<SpecCncFun>, name: Seq<char>) -> Option<int> {
    names_of(funs).index_of_first(name)
}

/// The sequence of the first field of a function; empty where the function
/// has no field or the grammar no such sequence.
pub open spec fn first_field(cnc: SpecConcrete, fun: SpecCncFun) -> Seq<SpecSymbol> {
    if fun.lins.len() > 0 && 0 <= fun.lins[0] < cnc.sequences.len() {
        cnc.sequences[fun.lins[0] as int]
    } else {
        Seq::empty()
    }
}

/// The tokens among the symbols, in order.
pub open spec fn tokens_in(symbols: Seq<SpecSymbol>) -> Seq<Seq<char>>
    decreases symbols.len(),
{
    if symbols.len() == 0 {
        Seq::empty()
    } else {
        match symbols.last() {
            SpecSymbol::SymKS(t) => tokens_in(symbols.drop_last()).push(t),
            _ => tokens_in(symbols.drop_last()),
        }
    }
}

/// The words with one space between each two.
pub open spec fn joined(words: Seq<Seq<char>>) -> Seq<char>
    decreases words.len(),
{
    if words.len() == 0 {
        Seq::empty()
    } else if words.len() == 1 {
        words[0]
    } else {
        joined(words.drop_last()) + " "@ + words.last()
    }
}

/// The text of a tree in a concrete syntax, or the error.
pub open spec fn spec_linearize_in(cnc: SpecConcrete, e: SpecExpr) -> Result<
    Seq<char>,
    SpecPgfError,
>
    decreases e,
{
    match e {
        SpecExpr::Fun(f) => match first_named(cnc.cncfuns, f) {
            Some(i) => Ok(joined(tokens_in(first_field(cnc, cnc.cncfuns[i])))),
            None => Err(SpecPgfError::ParseError("Function not found in concrete syntax"@)),
        },
        SpecExpr::App(h, a) => match spec_linearize_in(cnc, *h) {
            Err(x) => Err(x),
            Ok(s1) => match spec_linearize_in(cnc, *a) {
                Err(x) => Err(x),
                Ok(s2) => Ok(s1 + " "@ + s2),
            },
        },
        _ => Err(SpecPgfError::ParseError("Unsupported expression for linearization"@)),
    }
}

/// The text of a tree in a language of a grammar, or the error. A function
/// gives the tokens of the first field of the first concrete function of
/// its name, with one space between each two; an application gives the text
/// of the function, a space, and the text of the argument.
pub open spec fn spec_linearize(g: SpecPgf, l: Seq<char>, e: SpecExpr) -> Result<
    Seq<char>,
    SpecPgfError,
> {
    match table_get(g.concretes, l) {
        None => Err(SpecPgfError::UnknownLanguage(l)),
        Some(cnc) => spec_linearize_in(cnc, e),
    }
}

/// The first concrete function with the name.
pub fn find_cncfun(funs: &Vec<CncFun>, name: &CId) -> (r: Option<usize>)
    ensures
        match r {
            Some(i) => i < funs.len() && first_named(views(funs@), name@) == Some(i as int),
            None => first_named(views(funs@), name@) is None,
        },
{
    let ghost names = names_of(views(funs@));
    let mut i: usize = 0;
    while i < funs.len()
        invariant
            i <= funs.len(),
            names == names_of(views(funs@)),
            forall|j: int| 0 <= j < i ==> names[j] != name@,
        decreases funs.len() - i,
    {
        if funs[i].name.0 == name.0 {
            proof {
                names.index_of_first_ensures(name@);
                assert(names[i as int] == name@);
                assert(names.contains(name@));
                let k = names.index_of_first(name@)->Some_0;
                if k < i {
                    assert(names[k] != name@);
                }
                if i < k {
                    assert(names[i as int] != name@);
                }
            }
            return Some(i);
        }
        i += 1;
    }
    proof {
        names.index_of_first_ensures(name@);
        if names.contains(name@) {
            let k = choose|k: int| 0 <= k < names.len() && names[k] == name@;
            assert(names[k] != name@);
        }
    }
    None
}

/// The tokens among the symbols, with one space between each two.
fn join_tokens(symbols: &Vec<Symbol>) -> (r: String)
    ensures
        r@ == joined(tokens_in(views(symbols@))),
{
    let mut r = String::new();
    let mut any = false;
    let mut i: usize = 0;
    assert(views(symbols@).take(0) =~= Seq::empty());
    while i < symbols.len()
        invariant
            i <= symbols.len(),
            any == (tokens_in(views(symbols@).take(i as int)).len() > 0),
            r@ == joined(tokens_in(views(symbols@).take(i as int))),
        decreases symbols.len() - i,
    {
        proof {
            let next = views(symbols@).take(i + 1);
            assert(next.drop_last() =~= views(symbols@).take(i as int));
            assert(next.last() == symbols@[i as int]@);
        }
        match &symbols[i] {
            Symbol::SymKS(t) => {
                let ghost before = tokens_in(views(symbols@).take(i as int));
                proof {
                    assert(before.push(t@).drop_last() =~= before);
                }
                if any {
                    r.append(" ");
                    r.append(t.as_str());
                } else {
                    r.append(t.as_str());
                    assert(r@ =~= t@);
                }
                any = true;
            },
            _ => {},
        }
        i += 1;
    }
    assert(views(symbols@).take(symbols.len() as int) =~= views(symbols@));
    r
}

fn linearize_in(cnc: &Concrete, expr: &Expr) -> (r: Result<String, PgfError>)
    ensures
        match spec_linearize_in(cnc@, expr@) {
            Ok(s) => r matches Ok(x) && x@ == s,
            Err(e) => r matches Err(x) && x@ == e,
        },
    decreases expr,
{
    match expr {
        Expr::Fun(cid) => match find_cncfun(&cnc.cncfuns, cid) {
            Some(i) => {
                let fun = &cnc.cncfuns[i];
                if fun.lins.len() > 0 && fun.lins[0] >= 0 && (fun.lins[0] as usize)
                    < cnc.sequences.len() {
                    Ok(join_tokens(&cnc.sequences[fun.lins[0] as usize]))
                } else {
                    Ok(String::new())
                }
            },
            None => Err(
                PgfError::ParseError(String::from_str("Function not found in concrete syntax")),
            ),
        },
        Expr::App(e1, e2) => {
            let mut s1 = match linearize_in(cnc, e1) {
                Ok(s) => s,
                Err(e) => {
                    return Err(e);
                },
            };
            let s2 = match linearize_in(cnc, e2) {
                Ok(s) => s,
                Err(e) => {
                    return Err(e);
                },
            };
            s1.append(" ");
            s1.append(s2.as_str());
            Ok(s1)
        },
        _ => Err(
            PgfError::ParseError(String::from_str("Unsupported expression for linearization")),
        ),
    }
}

/// Writes a tree as text in a language.
pub fn linearize(pgf: &Pgf, lang: &Language, expr: &Expr) -> (r: Result<String, PgfError>)
    ensures
        match spec_linearize(pgf@, lang@, expr@) {
            Ok(s) => r matches Ok(x) && x@ == s,
            Err(e) => r matches Err(x) && x@ == e,
        },
{
    proof {
        lemma_position(pgf@.concretes, lang@);
    }
    match find_language(&pgf.concretes, lang) {
        Some(i) => linearize_in(&pgf.concretes[i].1, expr),
        None => Err(PgfError::UnknownLanguage(show_cid(&lang.0))),
    }
}

} // verus!
