//! A structural check of trees against types.

use vstd::prelude::*;
use vstd::string::*;

use crate::equal::{copy_expr, copy_type};
use crate::error::{join, PgfError, SpecPgfError};
use crate::grammar::{
    lemma_type_view, views, CId, Expr, Hypo, Pgf, SpecExpr, SpecPgf, SpecType, Type,
};
use crate::table::{find_cid, lemma_position, table_get};
use crate::types::ground;

verus! {

/// The text of a mismatch of categories.
pub open spec fn mismatch_text(expected: Seq<char>, got: Seq<char>) -> Seq<char> {
    "Type mismatch: expected "@ + expected + ", got "@ + got
}

/// The checked tree and its type, or the error. A function has the type
/// that the grammar stores for it, and must be of the expected category.
/// An application takes the expected type: its function is checked against
/// it and must have a type with a hypothesis and the expected category;
/// its argument is checked against the category of the first hypothesis.
pub open spec fn spec_check_expr(g: SpecPgf, e: SpecExpr, expected: SpecType) -> Result<
    (SpecExpr, SpecType),
    SpecPgfError,
>
    decreases e,
{
    match e {
        SpecExpr::Fun(f) => match table_get(g.abstract_syntax.funs, f) {
            None => Err(SpecPgfError::TypeCheckError("Unknown function: "@ + f)),
            Some(fun) => if fun.ty.category == expected.category {
                Ok((e, fun.ty))
            } else {
                Err(
                    SpecPgfError::TypeCheckError(
                        mismatch_text(expected.category, fun.ty.category),
                    ),
                )
            },
        },
        SpecExpr::App(h, a) => match spec_check_expr(g, *h, expected) {
            Err(x) => Err(x),
            Ok((h1, t1)) => if t1.hypos.len() == 0 || t1.category != expected.category {
                Err(SpecPgfError::TypeCheckError("Invalid application"@))
            } else {
                match spec_check_expr(g, *a, ground(t1.hypos[0].ty.category)) {
                    Err(x) => Err(x),
                    Ok((a1, _)) => Ok((SpecExpr::App(Box::new(h1), Box::new(a1)), expected)),
                }
            },
        },
        _ => Err(SpecPgfError::TypeCheckError("Unsupported expression for type checking"@)),
    }
}

/// The categories of the hypotheses of a type, and its own category.
pub fn cat_skeleton(ty: &Type) -> (r: (Vec<CId>, CId))
    ensures
        views(r.0@) == Seq::new(ty@.hypos.len(), |i: int| ty@.hypos[i].ty.category),
        r.1@ == ty@.category,
{
    proof {
        lemma_type_view(*ty);
    }
    let mut args: Vec<CId> = Vec::new();
    let mut i: usize = 0;
    while i < ty.hypos.len()
        invariant
            i <= ty.hypos.len(),
            args.len() == i,
            forall|j: int| 0 <= j < i ==> args@[j]@ == ty.hypos@[j]@.ty.category,
        decreases ty.hypos.len() - i,
    {
        proof {
            lemma_type_view(ty.hypos@[i as int].ty);
        }
        args.push(ty.hypos[i].ty.category.clone());
        i += 1;
    }
    assert(views(args@) =~= Seq::new(ty@.hypos.len(), |i: int| ty@.hypos[i].ty.category));
    (args, ty.category.clone())
}

/// The ground type of a category.
fn ground_type(category: CId) -> (r: Type)
    ensures
        r@ == ground(category@),
{
    let hypos: Vec<Hypo> = Vec::new();
    let exprs: Vec<Expr> = Vec::new();
    let r = Type { hypos, category, exprs };
    proof {
        lemma_type_view(r);
        assert(views(hypos@) =~= Seq::empty());
        assert(views(exprs@) =~= Seq::empty());
    }
    r
}

/// Checks a tree against a type.
pub fn check_expr(pgf: &Pgf, expr: &Expr, expected: &Type) -> (r: Result<(Expr, Type), PgfError>)
    ensures
        match spec_check_expr(pgf@, expr@, expected@) {
            Ok((e, t)) => r matches Ok(x) && x.0@ == e && x.1@ == t,
            Err(e) => r matches Err(x) && x@ == e,
        },
    decreases expr,
{
    proof {
        lemma_type_view(*expected);
    }
    match expr {
        Expr::Fun(cid) => {
            proof {
                lemma_position(pgf@.abstract_syntax.funs, cid@);
            }
            match find_cid(&pgf.abstract_syntax.funs, cid) {
                None => Err(PgfError::TypeCheckError(join("Unknown function: ", cid.0.as_str()))),
                Some(i) => {
                    let fun_type = &pgf.abstract_syntax.funs[i].1.ty;
                    proof {
                        lemma_type_view(*fun_type);
                    }
                    if fun_type.category.0 == expected.category.0 {
                        Ok((copy_expr(expr), copy_type(fun_type)))
                    } else {
                        let mut m = String::from_str("Type mismatch: expected ");
                        m.append(expected.category.0.as_str());
                        m.append(", got ");
                        m.append(fun_type.category.0.as_str());
                        Err(PgfError::TypeCheckError(m))
                    }
                },
            }
        },
        Expr::App(e1, e2) => {
            let (e1_checked, e1_type) = match check_expr(pgf, e1, expected) {
                Ok(x) => x,
                Err(e) => {
                    return Err(e);
                },
            };
            let (args, result_cat) = cat_skeleton(&e1_type);
            assert(views(args@).len() == e1_type@.hypos.len());
            assert(args.len() > 0 ==> views(args@)[0] == e1_type@.hypos[0].ty.category);
            if args.len() == 0 || result_cat.0 != expected.category.0 {
                return Err(PgfError::TypeCheckError(String::from_str("Invalid application")));
            }
            let arg_type = ground_type(args[0].clone());
            let (e2_checked, _) = match check_expr(pgf, e2, &arg_type) {
                Ok(x) => x,
                Err(e) => {
                    return Err(e);
                },
            };
            Ok((Expr::App(Box::new(e1_checked), Box::new(e2_checked)), copy_type(expected)))
        },
        _ => Err(
            PgfError::TypeCheckError(String::from_str("Unsupported expression for type checking")),
        ),
    }
}

} // verus!
