//! Types and hypotheses.

use vstd::prelude::*;

use crate::grammar::{
    lemma_type_view, views, Binding, CId, Expr, Hypo, Pgf, SpecHypo, SpecType, Type,
};

verus! {

/// The type with the given hypotheses, category and arguments.
pub fn mk_type(hypos: Vec<Hypo>, cat: CId, exprs: Vec<Expr>) -> (r: Type)
    ensures
        r@ == (SpecType { hypos: views(hypos@), category: cat@, exprs: views(exprs@) }),
{
    let r = Type { hypos, category: cat, exprs };
    proof {
        lemma_type_view(r);
    }
    r
}

/// The hypothesis with the given binding and type.
pub fn mk_hypo(binding: Binding, ty: Type) -> (r: Hypo)
    ensures
        r@ == (SpecHypo { binding: binding@, ty: ty@ }),
{
    Hypo { binding, ty }
}

/// The ground type of a category.
pub open spec fn ground(category: Seq<char>) -> SpecType {
    SpecType { hypos: Seq::empty(), category, exprs: Seq::empty() }
}

/// The type of the start category of a grammar.
pub fn start_cat(pgf: &Pgf) -> (r: Type)
    ensures
        r@ == ground(pgf@.startcat),
{
    let hypos: Vec<Hypo> = Vec::new();
    let exprs: Vec<Expr> = Vec::new();
    let r = Type { hypos, category: pgf.startcat.clone(), exprs };
    proof {
        lemma_type_view(r);
        assert(views(hypos@) =~= Seq::empty());
        assert(views(exprs@) =~= Seq::empty());
    }
    r
}

} // verus!
