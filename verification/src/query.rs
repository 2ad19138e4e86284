//! Questions to the abstract syntax of a grammar.

use vstd::prelude::*;

use crate::equal::{copy_hypo, copy_type};
use crate::grammar::{views, CId, Hypo, Pgf, SpecPgf, Type};
use crate::table::{find_cid, keys_of, lemma_position, table_get};

verus! {

/// The categories of a grammar, in the order of the grammar.
pub fn categories(pgf: &Pgf) -> (r: Vec<CId>)
    ensures
        views(r@) == keys_of(pgf@.abstract_syntax.cats),
{
    let cats = &pgf.abstract_syntax.cats;
    let mut r: Vec<CId> = Vec::new();
    let mut i: usize = 0;
    while i < cats.len()
        invariant
            i <= cats.len(),
            r.len() == i,
            forall|j: int| 0 <= j < i ==> r@[j]@ == cats@[j].0@,
        decreases cats.len() - i,
    {
        r.push(cats[i].0.clone());
        i += 1;
    }
    assert(views(r@) =~= keys_of(pgf@.abstract_syntax.cats));
    r
}

/// The context of a category: a copy of its hypotheses, where the grammar
/// has the category.
pub fn category_context(pgf: &Pgf, cat: &CId) -> (r: Option<Vec<Hypo>>)
    ensures
        match table_get(pgf@.abstract_syntax.cats, cat@) {
            Some(c) => r matches Some(hypos) && views(hypos@) == c.hypos,
            None => r is None,
        },
{
    proof {
        lemma_position(pgf@.abstract_syntax.cats, cat@);
    }
    match find_cid(&pgf.abstract_syntax.cats, cat) {
        None => None,
        Some(k) => {
            let src = &pgf.abstract_syntax.cats[k].1.hypos;
            let mut hypos: Vec<Hypo> = Vec::new();
            let mut i: usize = 0;
            while i < src.len()
                invariant
                    i <= src.len(),
                    hypos.len() == i,
                    forall|j: int| 0 <= j < i ==> hypos@[j]@ == src@[j]@,
                decreases src.len() - i,
            {
                hypos.push(copy_hypo(&src[i]));
                i += 1;
            }
            assert(views(hypos@) =~= views(src@));
            Some(hypos)
        },
    }
}

/// The functions of a grammar, in the order of the grammar.
pub fn functions(pgf: &Pgf) -> (r: Vec<CId>)
    ensures
        views(r@) == keys_of(pgf@.abstract_syntax.funs),
{
    let funs = &pgf.abstract_syntax.funs;
    let mut r: Vec<CId> = Vec::new();
    let mut i: usize = 0;
    while i < funs.len()
        invariant
            i <= funs.len(),
            r.len() == i,
            forall|j: int| 0 <= j < i ==> r@[j]@ == funs@[j].0@,
        decreases funs.len() - i,
    {
        r.push(funs[i].0.clone());
        i += 1;
    }
    assert(views(r@) =~= keys_of(pgf@.abstract_syntax.funs));
    r
}

/// The functions that a category lists, in its order; none where the
/// grammar does not have the category.
pub open spec fn spec_functions_by_cat(g: SpecPgf, cat: Seq<char>) -> Seq<Seq<char>> {
    match table_get(g.abstract_syntax.cats, cat) {
        Some(c) => Seq::new(c.funs.len(), |i: int| c.funs[i].1),
        None => Seq::empty(),
    }
}

/// The functions of a category.
pub fn functions_by_cat(pgf: &Pgf, cat: &CId) -> (r: Vec<CId>)
    ensures
        views(r@) == spec_functions_by_cat(pgf@, cat@),
{
    proof {
        lemma_position(pgf@.abstract_syntax.cats, cat@);
    }
    let mut r: Vec<CId> = Vec::new();
    match find_cid(&pgf.abstract_syntax.cats, cat) {
        None => {
            assert(views(r@) =~= Seq::empty());
        },
        Some(k) => {
            let src = &pgf.abstract_syntax.cats[k].1.funs;
            let mut i: usize = 0;
            while i < src.len()
                invariant
                    i <= src.len(),
                    r.len() == i,
                    forall|j: int| 0 <= j < i ==> r@[j]@ == src@[j].1@,
                decreases src.len() - i,
            {
                r.push(src[i].1.clone());
                i += 1;
            }
            assert(views(r@) =~= spec_functions_by_cat(pgf@, cat@));
        },
    }
    r
}

/// The type of a function, where the grammar has the function.
pub fn function_type(pgf: &Pgf, fun: &CId) -> (r: Option<Type>)
    ensures
        match table_get(pgf@.abstract_syntax.funs, fun@) {
            Some(f) => r matches Some(t) && t@ == f.ty,
            None => r is None,
        },
{
    proof {
        lemma_position(pgf@.abstract_syntax.funs, fun@);
    }
    match find_cid(&pgf.abstract_syntax.funs, fun) {
        Some(i) => Some(copy_type(&pgf.abstract_syntax.funs[i].1.ty)),
        None => None,
    }
}

} // verus!
