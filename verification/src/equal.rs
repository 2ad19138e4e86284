//! Structural equality of grammar values, decided on the values and stated
//! on their views.

use vstd::prelude::*;

use crate::grammar::{
    lemma_type_view, lemma_views_push, views, Binding, Expr, Hypo, PArg, Production, Type,
};

verus! {

/// Whether two lists of integers are the same.
pub fn same_i32s(a: &Vec<i32>, b: &Vec<i32>) -> (r: bool)
    ensures
        r == (a@ == b@),
{
    if a.len() != b.len() {
        return false;
    }
    let mut i: usize = 0;
    while i < a.len()
        invariant
            i <= a.len(),
            a.len() == b.len(),
            forall|j: int| 0 <= j < i ==> a@[j] == b@[j],
        decreases a.len() - i,
    {
        if a[i] != b[i] {
            return false;
        }
        i += 1;
    }
    assert(a@ =~= b@);
    true
}

/// Whether two production arguments are the same.
pub fn same_parg(a: &PArg, b: &PArg) -> (r: bool)
    ensures
        r == (a@ == b@),
{
    a.fid == b.fid && same_i32s(&a.hypos, &b.hypos)
}

/// Whether two lists of production arguments are the same.
pub fn same_pargs(a: &Vec<PArg>, b: &Vec<PArg>) -> (r: bool)
    ensures
        r == (views(a@) == views(b@)),
{
    if a.len() != b.len() {
        assert(views(a@).len() != views(b@).len());
        return false;
    }
    let mut i: usize = 0;
    while i < a.len()
        invariant
            i <= a.len(),
            a.len() == b.len(),
            forall|j: int| 0 <= j < i ==> a@[j]@ == b@[j]@,
        decreases a.len() - i,
    {
        if !same_parg(&a[i], &b[i]) {
            assert(views(a@)[i as int] != views(b@)[i as int]);
            return false;
        }
        i += 1;
    }
    assert(views(a@) =~= views(b@));
    true
}

/// Whether two productions are the same.
pub fn same_production(a: &Production, b: &Production) -> (r: bool)
    ensures
        r == (a@ == b@),
{
    match a {
        Production::Apply { fid: f1, args: a1 } => match b {
            Production::Apply { fid: f2, args: a2 } => *f1 == *f2 && same_pargs(a1, a2),
            Production::Coerce { .. } => false,
        },
        Production::Coerce { arg: x1 } => match b {
            Production::Apply { .. } => false,
            Production::Coerce { arg: x2 } => *x1 == *x2,
        },
    }
}

/// Whether the production is in the list.
pub fn has_production(list: &Vec<Production>, p: &Production) -> (r: bool)
    ensures
        r == views(list@).contains(p@),
{
    let mut i: usize = 0;
    while i < list.len()
        invariant
            i <= list.len(),
            forall|j: int| 0 <= j < i ==> views(list@)[j] != p@,
        decreases list.len() - i,
    {
        if same_production(&list[i], p) {
            assert(views(list@)[i as int] == p@);
            return true;
        }
        i += 1;
    }
    false
}

/// Whether two bindings are the same.
pub fn same_binding(a: &Binding, b: &Binding) -> (r: bool)
    ensures
        r == (a@ == b@),
{
    match a {
        Binding::Explicit(x) => match b {
            Binding::Explicit(y) => *x == *y,
            Binding::Implicit(_) => false,
        },
        Binding::Implicit(x) => match b {
            Binding::Explicit(_) => false,
            Binding::Implicit(y) => *x == *y,
        },
    }
}

/// Whether two hypotheses are the same.
pub fn same_hypo(a: &Hypo, b: &Hypo) -> (r: bool)
    ensures
        r == (a@ == b@),
    decreases a, 0nat,
{
    same_binding(&a.binding, &b.binding) && same_type(&a.ty, &b.ty)
}

/// Whether two types are the same.
pub fn same_type(a: &Type, b: &Type) -> (r: bool)
    ensures
        r == (a@ == b@),
    decreases a, 1nat,
{
    proof {
        lemma_type_view(*a);
        lemma_type_view(*b);
    }
    if a.category.0 != b.category.0 {
        return false;
    }
    if a.hypos.len() != b.hypos.len() || a.exprs.len() != b.exprs.len() {
        assert(a@.hypos.len() == a.hypos.len() && b@.hypos.len() == b.hypos.len());
        assert(a@.exprs.len() == a.exprs.len() && b@.exprs.len() == b.exprs.len());
        return false;
    }
    let mut i: usize = 0;
    while i < a.hypos.len()
        invariant
            i <= a.hypos.len(),
            a.hypos.len() == b.hypos.len(),
            a@.hypos == views(a.hypos@),
            b@.hypos == views(b.hypos@),
            forall|j: int| 0 <= j < i ==> a.hypos@[j]@ == b.hypos@[j]@,
        decreases a.hypos.len() - i,
    {
        if !same_hypo(&a.hypos[i], &b.hypos[i]) {
            assert(a@.hypos[i as int] != b@.hypos[i as int]);
            return false;
        }
        i += 1;
    }
    let mut k: usize = 0;
    while k < a.exprs.len()
        invariant
            k <= a.exprs.len(),
            a.exprs.len() == b.exprs.len(),
            a@.exprs == views(a.exprs@),
            b@.exprs == views(b.exprs@),
            forall|j: int| 0 <= j < k ==> a.exprs@[j]@ == b.exprs@[j]@,
        decreases a.exprs.len() - k,
    {
        if !same_expr(&a.exprs[k], &b.exprs[k]) {
            assert(a@.exprs[k as int] != b@.exprs[k as int]);
            return false;
        }
        k += 1;
    }
    assert(a@.hypos =~= b@.hypos);
    assert(a@.exprs =~= b@.exprs);
    true
}

/// Whether two trees are the same.
pub fn same_expr(a: &Expr, b: &Expr) -> (r: bool)
    ensures
        r == (a@ == b@),
    decreases a, 0nat,
{
    match a {
        Expr::Abs(b1, x1, e1) => match b {
            Expr::Abs(b2, x2, e2) => same_binding(b1, b2) && x1.0 == x2.0 && same_expr(e1, e2),
            _ => false,
        },
        Expr::App(f1, a1) => match b {
            Expr::App(f2, a2) => same_expr(f1, f2) && same_expr(a1, a2),
            _ => false,
        },
        Expr::Fun(f1) => match b {
            Expr::Fun(f2) => f1.0 == f2.0,
            _ => false,
        },
        Expr::Str(s1) => match b {
            Expr::Str(s2) => *s1 == *s2,
            _ => false,
        },
        Expr::Int(n1) => match b {
            Expr::Int(n2) => *n1 == *n2,
            _ => false,
        },
        Expr::Float(n1) => match b {
            Expr::Float(n2) => *n1 == *n2,
            _ => false,
        },
        Expr::Double(n1) => match b {
            Expr::Double(n2) => *n1 == *n2,
            _ => false,
        },
        Expr::Meta => match b {
            Expr::Meta => true,
            _ => false,
        },
        Expr::Typed(e1, t1) => match b {
            Expr::Typed(e2, t2) => same_expr(e1, e2) && same_type(t1, t2),
            _ => false,
        },
        Expr::ImplArg(e1) => match b {
            Expr::ImplArg(e2) => same_expr(e1, e2),
            _ => false,
        },
    }
}

/// Whether the tree is in the list.
pub fn has_expr(list: &Vec<Expr>, e: &Expr) -> (r: bool)
    ensures
        r == views(list@).contains(e@),
{
    let mut i: usize = 0;
    while i < list.len()
        invariant
            i <= list.len(),
            forall|j: int| 0 <= j < i ==> views(list@)[j] != e@,
        decreases list.len() - i,
    {
        if same_expr(&list[i], e) {
            assert(views(list@)[i as int] == e@);
            return true;
        }
        i += 1;
    }
    false
}

/// A copy of a binding.
pub fn copy_binding(b: &Binding) -> (r: Binding)
    ensures
        r@ == b@,
{
    match b {
        Binding::Explicit(x) => Binding::Explicit(x.clone()),
        Binding::Implicit(x) => Binding::Implicit(x.clone()),
    }
}

/// A copy of a hypothesis.
pub fn copy_hypo(h: &Hypo) -> (r: Hypo)
    ensures
        r@ == h@,
    decreases h, 0nat,
{
    Hypo { binding: copy_binding(&h.binding), ty: copy_type(&h.ty) }
}

/// A copy of a type.
pub fn copy_type(t: &Type) -> (r: Type)
    ensures
        r@ == t@,
    decreases t, 1nat,
{
    let mut hypos: Vec<Hypo> = Vec::new();
    let mut i: usize = 0;
    assert(views(hypos@) =~= views(t.hypos@).take(0));
    while i < t.hypos.len()
        invariant
            i <= t.hypos.len(),
            views(hypos@) == views(t.hypos@).take(i as int),
        decreases t.hypos.len() - i,
    {
        let h = copy_hypo(&t.hypos[i]);
        proof {
            lemma_views_push(hypos@, h);
            assert(views(t.hypos@).take(i + 1) =~= views(t.hypos@).take(i as int).push(h@));
        }
        hypos.push(h);
        i += 1;
    }
    let mut exprs: Vec<Expr> = Vec::new();
    let mut k: usize = 0;
    assert(views(exprs@) =~= views(t.exprs@).take(0));
    while k < t.exprs.len()
        invariant
            k <= t.exprs.len(),
            views(exprs@) == views(t.exprs@).take(k as int),
        decreases t.exprs.len() - k,
    {
        let e = copy_expr(&t.exprs[k]);
        proof {
            lemma_views_push(exprs@, e);
            assert(views(t.exprs@).take(k + 1) =~= views(t.exprs@).take(k as int).push(e@));
        }
        exprs.push(e);
        k += 1;
    }
    let r = Type { hypos, category: t.category.clone(), exprs };
    proof {
        lemma_type_view(*t);
        lemma_type_view(r);
        assert(views(t.hypos@).take(t.hypos.len() as int) =~= views(t.hypos@));
        assert(views(t.exprs@).take(t.exprs.len() as int) =~= views(t.exprs@));
    }
    r
}

/// A copy of a tree.
pub fn copy_expr(e: &Expr) -> (r: Expr)
    ensures
        r@ == e@,
    decreases e, 0nat,
{
    match e {
        Expr::Abs(b, x, body) => Expr::Abs(copy_binding(b), x.clone(), Box::new(copy_expr(body))),
        Expr::App(f, a) => Expr::App(Box::new(copy_expr(f)), Box::new(copy_expr(a))),
        Expr::Fun(f) => Expr::Fun(f.clone()),
        Expr::Str(s) => Expr::Str(s.clone()),
        Expr::Int(n) => Expr::Int(*n),
        Expr::Float(n) => Expr::Float(*n),
        Expr::Double(n) => Expr::Double(*n),
        Expr::Meta => Expr::Meta,
        Expr::Typed(x, t) => Expr::Typed(Box::new(copy_expr(x)), copy_type(t)),
        Expr::ImplArg(x) => Expr::ImplArg(Box::new(copy_expr(x))),
    }
}

} // verus!
