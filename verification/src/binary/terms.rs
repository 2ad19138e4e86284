//! Types and expressions in the binary layout.
//!
//! A binding is a tag (0 explicit, 1 implicit) and the variable. A
//! hypothesis is a binding and a type. A type is the list of its hypotheses,
//! the category, and the list of its expression arguments. An expression is
//! a tag and what the tag calls for.

use vstd::prelude::*;

use crate::grammar::{
    lemma_type_view, lemma_views_push, views, Binding, Expr, Hypo, SpecBinding, SpecExpr, SpecHypo,
    SpecType, Type,
};
use crate::wire::{
    agrees, agrees_all, failure, lemma_resume_done, lemma_resume_prepend, lemma_resume_start,
    prepend, read_i32, read_string, read_u32, read_u64, read_u8, resume, spec_read_i32,
    spec_read_string, spec_read_u32, spec_read_u64, spec_read_u8, Cause, Failure,
};

verus! {

/// How deep types, expressions and symbols may be nested in a file.
pub const MAX_DEPTH: usize = 64;

/// A binding at `pos`: the value and the position after it, or the failure.
pub open spec fn spec_read_binding(data: Seq<u8>, pos: int) -> Result<(SpecBinding, int), Failure> {
    match spec_read_u8(data, pos, "binding tag") {
        Err(e) => Err(e),
        Ok((tag, p)) => if tag == 0 {
            match spec_read_string(data, p, "binding name") {
                Err(e) => Err(e),
                Ok((x, q)) => Ok((SpecBinding::Explicit(x), q)),
            }
        } else if tag == 1 {
            match spec_read_string(data, p, "binding name") {
                Err(e) => Err(e),
                Ok((x, q)) => Ok((SpecBinding::Implicit(x), q)),
            }
        } else {
            Err(failure("binding tag", Cause::UnknownTag(tag), pos))
        },
    }
}

/// A hypothesis at `pos`: the value and the position after it, or the failure.
pub open spec fn spec_read_hypo(data: Seq<u8>, pos: int, depth: nat) -> Result<
    (SpecHypo, int),
    Failure,
>
    decreases depth, 0nat,
{
    if depth == 0 {
        Err(failure("hypothesis", Cause::TooDeep, pos))
    } else {
        match spec_read_binding(data, pos) {
            Err(e) => Err(e),
            Ok((binding, p)) => match spec_read_type(data, p, (depth - 1) as nat) {
                Err(e) => Err(e),
                Ok((ty, q)) => Ok((SpecHypo { binding, ty }, q)),
            },
        }
    }
}

/// Hypotheses, `n` of them from `pos` on: the items and the position after
/// them, or the first failure.
pub open spec fn spec_read_hypos(data: Seq<u8>, pos: int, n: nat, depth: nat) -> Result<
    (Seq<SpecHypo>, int),
    Failure,
>
    decreases depth, n + 1,
{
    if n == 0 {
        Ok((Seq::empty(), pos))
    } else {
        match spec_read_hypo(data, pos, depth) {
            Err(e) => Err(e),
            Ok((h, p)) => prepend(h, spec_read_hypos(data, p, (n - 1) as nat, depth)),
        }
    }
}

/// A type at `pos`: the value and the position after it, or the failure.
pub open spec fn spec_read_type(data: Seq<u8>, pos: int, depth: nat) -> Result<
    (SpecType, int),
    Failure,
>
    decreases depth, 0nat,
{
    if depth == 0 {
        Err(failure("type", Cause::TooDeep, pos))
    } else {
        match spec_read_u32(data, pos, "hypothesis count") {
            Err(e) => Err(e),
            Ok((nh, p1)) => match spec_read_hypos(data, p1, nh as nat, (depth - 1) as nat) {
                Err(e) => Err(e),
                Ok((hypos, p2)) => match spec_read_string(data, p2, "category") {
                    Err(e) => Err(e),
                    Ok((category, p3)) => match spec_read_u32(data, p3, "expression count") {
                        Err(e) => Err(e),
                        Ok((ne, p4)) => match spec_read_exprs(
                            data,
                            p4,
                            ne as nat,
                            (depth - 1) as nat,
                        ) {
                            Err(e) => Err(e),
                            Ok((exprs, p5)) => Ok((SpecType { hypos, category, exprs }, p5)),
                        },
                    },
                },
            },
        }
    }
}

/// Expressions, `n` of them from `pos` on: the items and the position after
/// them, or the first failure.
pub open spec fn spec_read_exprs(data: Seq<u8>, pos: int, n: nat, depth: nat) -> Result<
    (Seq<SpecExpr>, int),
    Failure,
>
    decreases depth, n + 1,
{
    if n == 0 {
        Ok((Seq::empty(), pos))
    } else {
        match spec_read_expr(data, pos, depth) {
            Err(e) => Err(e),
            Ok((x, p)) => prepend(x, spec_read_exprs(data, p, (n - 1) as nat, depth)),
        }
    }
}

/// The expression after the tag.
pub open spec fn spec_read_expr_body(data: Seq<u8>, pos: int, tag: u8, p: int, depth: nat) -> Result<
    (SpecExpr, int),
    Failure,
>
    recommends
        depth > 0,
    decreases depth, 0nat,
    when depth > 0
{
    let d = (depth - 1) as nat;
    if tag == 0 {
        match spec_read_binding(data, p) {
            Err(e) => Err(e),
            Ok((b, p1)) => match spec_read_string(data, p1, "variable") {
                Err(e) => Err(e),
                Ok((x, p2)) => match spec_read_expr(data, p2, d) {
                    Err(e) => Err(e),
                    Ok((body, p3)) => Ok((SpecExpr::Abs(b, x, Box::new(body)), p3)),
                },
            },
        }
    } else if tag == 1 {
        match spec_read_expr(data, p, d) {
            Err(e) => Err(e),
            Ok((f, p1)) => match spec_read_expr(data, p1, d) {
                Err(e) => Err(e),
                Ok((a, p2)) => Ok((SpecExpr::App(Box::new(f), Box::new(a)), p2)),
            },
        }
    } else if tag == 2 {
        match spec_read_string(data, p, "function") {
            Err(e) => Err(e),
            Ok((f, p1)) => Ok((SpecExpr::Fun(f), p1)),
        }
    } else if tag == 3 {
        match spec_read_string(data, p, "string") {
            Err(e) => Err(e),
            Ok((s, p1)) => Ok((SpecExpr::Str(s), p1)),
        }
    } else if tag == 4 {
        match spec_read_i32(data, p, "integer") {
            Err(e) => Err(e),
            Ok((n, p1)) => Ok((SpecExpr::Int(n), p1)),
        }
    } else if tag == 5 {
        match spec_read_u32(data, p, "float") {
            Err(e) => Err(e),
            Ok((b, p1)) => Ok((SpecExpr::Float(b), p1)),
        }
    } else if tag == 6 {
        match spec_read_u64(data, p, "double") {
            Err(e) => Err(e),
            Ok((b, p1)) => Ok((SpecExpr::Double(b), p1)),
        }
    } else if tag == 7 {
        Ok((SpecExpr::Meta, p))
    } else if tag == 8 {
        match spec_read_expr(data, p, d) {
            Err(e) => Err(e),
            Ok((x, p1)) => match spec_read_type(data, p1, d) {
                Err(e) => Err(e),
                Ok((t, p2)) => Ok((SpecExpr::Typed(Box::new(x), t), p2)),
            },
        }
    } else if tag == 9 {
        match spec_read_expr(data, p, d) {
            Err(e) => Err(e),
            Ok((x, p1)) => Ok((SpecExpr::ImplArg(Box::new(x)), p1)),
        }
    } else {
        Err(failure("expression tag", Cause::UnknownTag(tag), pos))
    }
}

/// An expression at `pos`: the value and the position after it, or the
/// failure.
pub open spec fn spec_read_expr(data: Seq<u8>, pos: int, depth: nat) -> Result<
    (SpecExpr, int),
    Failure,
>
    decreases depth, 1nat,
{
    if depth == 0 {
        Err(failure("expression", Cause::TooDeep, pos))
    } else {
        match spec_read_u8(data, pos, "expression tag") {
            Err(e) => Err(e),
            Ok((tag, p)) => spec_read_expr_body(data, pos, tag, p, depth),
        }
    }
}

/// Reads a binding.
pub fn read_binding(data: &[u8], pos: usize) -> (r: Result<(Binding, usize), Failure>)
    ensures
        agrees(r, spec_read_binding(data@, pos as int)),
{
    match read_u8(data, pos, "binding tag") {
        Err(e) => Err(e),
        Ok((tag, p)) => if tag == 0 {
            match read_string(data, p, "binding name") {
                Err(e) => Err(e),
                Ok((x, q)) => Ok((Binding::Explicit(x.0), q)),
            }
        } else if tag == 1 {
            match read_string(data, p, "binding name") {
                Err(e) => Err(e),
                Ok((x, q)) => Ok((Binding::Implicit(x.0), q)),
            }
        } else {
            Err(Failure { field: "binding tag", cause: Cause::UnknownTag(tag), offset: pos })
        },
    }
}

/// Reads a hypothesis.
pub fn read_hypo(data: &[u8], pos: usize, depth: usize) -> (r: Result<(Hypo, usize), Failure>)
    ensures
        agrees(r, spec_read_hypo(data@, pos as int, depth as nat)),
    decreases depth, 0nat,
{
    if depth == 0 {
        return Err(Failure { field: "hypothesis", cause: Cause::TooDeep, offset: pos });
    }
    match read_binding(data, pos) {
        Err(e) => Err(e),
        Ok((binding, p)) => match read_type(data, p, depth - 1) {
            Err(e) => Err(e),
            Ok((ty, q)) => Ok((Hypo { binding, ty }, q)),
        },
    }
}

/// Reads `n` hypotheses.
pub fn read_hypos(data: &[u8], pos: usize, n: u32, depth: usize) -> (r: Result<
    (Vec<Hypo>, usize),
    Failure,
>)
    ensures
        agrees_all(r, spec_read_hypos(data@, pos as int, n as nat, depth as nat)),
    decreases depth, 1nat,
{
    let mut items: Vec<Hypo> = Vec::new();
    let mut at = pos;
    let mut i: u32 = 0;
    proof {
        lemma_resume_start(
            views(items@),
            spec_read_hypos(data@, pos as int, n as nat, depth as nat),
        );
    }
    while i < n
        invariant
            i <= n,
            spec_read_hypos(data@, pos as int, n as nat, depth as nat) == resume(
                views(items@),
                spec_read_hypos(data@, at as int, (n - i) as nat, depth as nat),
            ),
        decreases n - i,
    {
        match read_hypo(data, at, depth) {
            Err(e) => {
                return Err(e);
            },
            Ok((h, p)) => {
                proof {
                    lemma_resume_prepend(
                        views(items@),
                        h@,
                        spec_read_hypos(data@, p as int, (n - i - 1) as nat, depth as nat),
                    );
                    lemma_views_push(items@, h);
                }
                items.push(h);
                at = p;
            },
        }
        i += 1;
    }
    proof {
        lemma_resume_done(views(items@), at as int);
    }
    Ok((items, at))
}

/// Reads a type.
pub fn read_type(data: &[u8], pos: usize, depth: usize) -> (r: Result<(Type, usize), Failure>)
    ensures
        agrees(r, spec_read_type(data@, pos as int, depth as nat)),
    decreases depth, 0nat,
{
    if depth == 0 {
        return Err(Failure { field: "type", cause: Cause::TooDeep, offset: pos });
    }
    let (nh, p1) = match read_u32(data, pos, "hypothesis count") {
        Err(e) => {
            return Err(e);
        },
        Ok(v) => v,
    };
    let (hypos, p2) = match read_hypos(data, p1, nh, depth - 1) {
        Err(e) => {
            return Err(e);
        },
        Ok(v) => v,
    };
    let (category, p3) = match read_string(data, p2, "category") {
        Err(e) => {
            return Err(e);
        },
        Ok(v) => v,
    };
    let (ne, p4) = match read_u32(data, p3, "expression count") {
        Err(e) => {
            return Err(e);
        },
        Ok(v) => v,
    };
    let (exprs, p5) = match read_exprs(data, p4, ne, depth - 1) {
        Err(e) => {
            return Err(e);
        },
        Ok(v) => v,
    };
    let ty = Type { hypos, category, exprs };
    proof {
        lemma_type_view(ty);
    }
    Ok((ty, p5))
}

/// Reads `n` expressions.
pub fn read_exprs(data: &[u8], pos: usize, n: u32, depth: usize) -> (r: Result<
    (Vec<Expr>, usize),
    Failure,
>)
    ensures
        agrees_all(r, spec_read_exprs(data@, pos as int, n as nat, depth as nat)),
    decreases depth, 2nat,
{
    let mut items: Vec<Expr> = Vec::new();
    let mut at = pos;
    let mut i: u32 = 0;
    proof {
        lemma_resume_start(
            views(items@),
            spec_read_exprs(data@, pos as int, n as nat, depth as nat),
        );
    }
    while i < n
        invariant
            i <= n,
            spec_read_exprs(data@, pos as int, n as nat, depth as nat) == resume(
                views(items@),
                spec_read_exprs(data@, at as int, (n - i) as nat, depth as nat),
            ),
        decreases n - i,
    {
        match read_expr(data, at, depth) {
            Err(e) => {
                return Err(e);
            },
            Ok((x, p)) => {
                proof {
                    lemma_resume_prepend(
                        views(items@),
                        x@,
                        spec_read_exprs(data@, p as int, (n - i - 1) as nat, depth as nat),
                    );
                    lemma_views_push(items@, x);
                }
                items.push(x);
                at = p;
            },
        }
        i += 1;
    }
    proof {
        lemma_resume_done(views(items@), at as int);
    }
    Ok((items, at))
}

/// Reads an expression.
pub fn read_expr(data: &[u8], pos: usize, depth: usize) -> (r: Result<(Expr, usize), Failure>)
    ensures
        agrees(r, spec_read_expr(data@, pos as int, depth as nat)),
    decreases depth, 1nat,
{
    if depth == 0 {
        return Err(Failure { field: "expression", cause: Cause::TooDeep, offset: pos });
    }
    let (tag, p) = match read_u8(data, pos, "expression tag") {
        Err(e) => {
            return Err(e);
        },
        Ok(v) => v,
    };
    let d = depth - 1;
    if tag == 0 {
        match read_binding(data, p) {
            Err(e) => Err(e),
            Ok((b, p1)) => match read_string(data, p1, "variable") {
                Err(e) => Err(e),
                Ok((x, p2)) => match read_expr(data, p2, d) {
                    Err(e) => Err(e),
                    Ok((body, p3)) => Ok((Expr::Abs(b, x, Box::new(body)), p3)),
                },
            },
        }
    } else if tag == 1 {
        match read_expr(data, p, d) {
            Err(e) => Err(e),
            Ok((f, p1)) => match read_expr(data, p1, d) {
                Err(e) => Err(e),
                Ok((a, p2)) => Ok((Expr::App(Box::new(f), Box::new(a)), p2)),
            },
        }
    } else if tag == 2 {
        match read_string(data, p, "function") {
            Err(e) => Err(e),
            Ok((f, p1)) => Ok((Expr::Fun(f), p1)),
        }
    } else if tag == 3 {
        match read_string(data, p, "string") {
            Err(e) => Err(e),
            Ok((s, p1)) => Ok((Expr::Str(s.0), p1)),
        }
    } else if tag == 4 {
        match read_i32(data, p, "integer") {
            Err(e) => Err(e),
            Ok((n, p1)) => Ok((Expr::Int(n), p1)),
        }
    } else if tag == 5 {
        match read_u32(data, p, "float") {
            Err(e) => Err(e),
            Ok((b, p1)) => Ok((Expr::Float(b), p1)),
        }
    } else if tag == 6 {
        match read_u64(data, p, "double") {
            Err(e) => Err(e),
            Ok((b, p1)) => Ok((Expr::Double(b), p1)),
        }
    } else if tag == 7 {
        Ok((Expr::Meta, p))
    } else if tag == 8 {
        match read_expr(data, p, d) {
            Err(e) => Err(e),
            Ok((x, p1)) => match read_type(data, p1, d) {
                Err(e) => Err(e),
                Ok((t, p2)) => Ok((Expr::Typed(Box::new(x), t), p2)),
            },
        }
    } else if tag == 9 {
        match read_expr(data, p, d) {
            Err(e) => Err(e),
            Ok((x, p1)) => Ok((Expr::ImplArg(Box::new(x)), p1)),
        }
    } else {
        Err(Failure { field: "expression tag", cause: Cause::UnknownTag(tag), offset: pos })
    }
}

} // verus!
