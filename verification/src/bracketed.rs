//! Bracketed strings: a view of trees for inspection.

use vstd::prelude::*;
use vstd::string::*;

use crate::cid::{show_cid, wild_cid};
use crate::grammar::{lemma_views_push, views, CId, Expr, SpecExpr};

verus! {

/// A tree of labelled brackets with texts at the leaves.
#[derive(Debug, PartialEq, Eq)]
pub enum BracketedString {
    Leaf(String),
    Branch(CId, Vec<BracketedString>),
}

pub enum SpecBracketed {
    Leaf(Seq<char>),
    Branch(Seq<char>, Seq<SpecBracketed>),
}

/// The views of the first `n` bracketed strings of `s`.
pub open spec fn bracketed_views(s: Seq<BracketedString>, n: nat) -> Seq<SpecBracketed>
    decreases s, n,
{
    if n == 0 || n > s.len() {
        Seq::empty()
    } else {
        bracketed_views(s, (n - 1) as nat).push(s[n - 1].view())
    }
}

impl View for BracketedString {
    type V = SpecBracketed;

    open spec fn view(&self) -> SpecBracketed
        decreases self,
    {
        match self {
            BracketedString::Leaf(s) => SpecBracketed::Leaf(s@),
            BracketedString::Branch(c, children) => SpecBracketed::Branch(
                c@,
                bracketed_views(children@, children@.len()),
            ),
        }
    }
}

/// `bracketed_views` is the element-wise view.
pub proof fn lemma_bracketed_views(s: Seq<BracketedString>, n: nat)
    requires
        n <= s.len(),
    ensures
        bracketed_views(s, n) == views(s.take(n as int)),
    decreases n,
{
    if n > 0 {
        lemma_bracketed_views(s, (n - 1) as nat);
        assert(s.take(n as int) =~= s.take(n - 1).push(s[n - 1]));
        lemma_views_push(s.take(n - 1), s[n - 1]);
    } else {
        assert(bracketed_views(s, n) =~= views(s.take(n as int)));
    }
}

/// The view of a branch, field by field.
pub proof fn lemma_branch_view(c: CId, children: Vec<BracketedString>)
    ensures
        BracketedString::Branch(c, children)@ == SpecBracketed::Branch(c@, views(children@)),
{
    lemma_bracketed_views(children@, children@.len());
    assert(children@.take(children@.len() as int) =~= children@);
}

/// The bracketed string of a tree, cut below `limit` levels: a function is
/// a leaf with its name, an application a branch under the wildcard with
/// the function and the argument, anything else an empty leaf; so is what
/// lies below the limit.
pub open spec fn bracketed(e: SpecExpr, limit: int) -> SpecBracketed
    decreases e,
{
    if limit <= 0 {
        SpecBracketed::Leaf(Seq::empty())
    } else {
        match e {
            SpecExpr::Fun(c) => SpecBracketed::Leaf(c),
            SpecExpr::App(f, a) => SpecBracketed::Branch(
                "*"@,
                seq![bracketed(*f, limit - 1), bracketed(*a, limit - 1)],
            ),
            _ => SpecBracketed::Leaf(Seq::empty()),
        }
    }
}

/// An empty leaf.
pub fn empty_leaf() -> (r: BracketedString)
    ensures
        r@ == SpecBracketed::Leaf(Seq::empty()),
{
    BracketedString::Leaf(String::new())
}

/// The bracketed string of a tree, cut below `limit` levels.
pub fn expr_to_bracketed(expr: &Expr, limit: i32) -> (r: BracketedString)
    ensures
        r@ == bracketed(expr@, limit as int),
    decreases expr,
{
    if limit <= 0 {
        return empty_leaf();
    }
    match expr {
        Expr::Fun(cid) => BracketedString::Leaf(show_cid(cid)),
        Expr::App(e1, e2) => {
            let mut children: Vec<BracketedString> = Vec::new();
            children.push(expr_to_bracketed(e1, limit - 1));
            children.push(expr_to_bracketed(e2, limit - 1));
            let label = wild_cid();
            proof {
                lemma_branch_view(label, children);
                assert(views(children@) =~= seq![
                    bracketed(e1@, limit - 1),
                    bracketed(e2@, limit - 1),
                ]);
            }
            BracketedString::Branch(label, children)
        },
        _ => empty_leaf(),
    }
}

} // verus!
