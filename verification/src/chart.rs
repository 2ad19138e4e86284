//! The chart of the parser: items, grouped by the fid they are kept under,
//! in the order in which the fids were first used.

use vstd::prelude::*;

use crate::equal::copy_expr;
use crate::grammar::{lemma_views_push, views, CncFun, Expr, SpecCncFun, SpecExpr};
use crate::table::{lemma_position, lemma_position_is, lemma_position_none, position, table_get};

verus! {

/// A record of the chart: a sequence of a concrete function with a dot in
/// it, the trees found for the arguments before the dot, and, once the
/// item is passive, its own tree.
#[derive(Debug)]
pub struct Item {
    pub fid: i32,
    pub seqid: i32,
    pub dot: usize,
    pub args: Vec<(i32, Expr)>,
    pub tree: Option<Expr>,
}

pub struct SpecItem {
    pub fid: i32,
    pub seqid: i32,
    pub dot: int,
    pub args: Seq<(i32, SpecExpr)>,
    pub tree: Option<SpecExpr>,
}

impl View for Item {
    type V = SpecItem;

    open spec fn view(&self) -> SpecItem {
        SpecItem {
            fid: self.fid,
            seqid: self.seqid,
            dot: self.dot as int,
            args: views(self.args@),
            tree: match self.tree {
                Some(t) => Some(t@),
                None => None,
            },
        }
    }
}

/// The items that are kept under one fid.
#[derive(Debug)]
pub struct ChartRow {
    pub fid: i32,
    pub items: Vec<Item>,
}

impl View for ChartRow {
    type V = (i32, Seq<SpecItem>);

    open spec fn view(&self) -> (i32, Seq<SpecItem>) {
        (self.fid, views(self.items@))
    }
}

pub type SpecChart = Seq<(i32, Seq<SpecItem>)>;

/// The chart with one more item under `fid`.
pub open spec fn push_under(chart: SpecChart, fid: i32, item: SpecItem) -> SpecChart {
    match position(chart, fid) {
        Some(i) => chart.update(i, (fid, chart[i].1.push(item))),
        None => chart.push((fid, seq![item])),
    }
}

/// The items under `fid`; none where the chart has no such fid.
pub open spec fn row_of(chart: SpecChart, fid: i32) -> Seq<SpecItem> {
    match table_get(chart, fid) {
        Some(items) => items,
        None => Seq::empty(),
    }
}

/// `head` applied to the trees of `args`, one after the other.
pub open spec fn apply_all(head: SpecExpr, args: Seq<(i32, SpecExpr)>) -> SpecExpr
    decreases args.len(),
{
    if args.len() == 0 {
        head
    } else {
        SpecExpr::App(Box::new(apply_all(head, args.drop_last())), Box::new(args.last().1))
    }
}

/// The tree of a function and the trees of its arguments.
pub open spec fn spec_build_tree(fun: SpecCncFun, args: Seq<(i32, SpecExpr)>) -> SpecExpr {
    apply_all(SpecExpr::Fun(fun.name), args)
}

/// The first index of the chart that holds `fid`.
pub fn find_row(chart: &Vec<ChartRow>, fid: i32) -> (r: Option<usize>)
    ensures
        match r {
            Some(i) => i < chart.len() && position(views(chart@), fid) == Some(i as int),
            None => position(views(chart@), fid) is None,
        },
{
    let mut i: usize = 0;
    while i < chart.len()
        invariant
            i <= chart.len(),
            forall|j: int| 0 <= j < i ==> views(chart@)[j].0 != fid,
        decreases chart.len() - i,
    {
        if chart[i].fid == fid {
            proof {
                lemma_position_is(views(chart@), fid, i as int);
            }
            return Some(i);
        }
        i += 1;
    }
    proof {
        lemma_position_none(views(chart@), fid);
    }
    None
}

/// Adds an item under `fid`.
pub fn push_item(chart: &mut Vec<ChartRow>, fid: i32, item: Item)
    ensures
        views(final(chart)@) == push_under(views(old(chart)@), fid, item@),
{
    let ghost before = views(chart@);
    let ghost iv = item@;
    match find_row(chart, fid) {
        Some(i) => {
            let ghost rows = chart@;
            proof {
                lemma_position(before, fid);
                lemma_views_push(rows[i as int].items@, item);
            }
            chart[i].items.push(item);
            assert(chart@.len() == rows.len());
            assert(chart@[i as int].fid == fid);
            assert(chart@[i as int].items@ == rows[i as int].items@.push(item));
            assert(forall|j: int| 0 <= j < rows.len() && j != i ==> chart@[j] == rows[j]);
            assert(views(chart@) =~= push_under(before, fid, iv));
        },
        None => {
            let mut items: Vec<Item> = Vec::new();
            items.push(item);
            assert(views(items@) =~= seq![iv]);
            chart.push(ChartRow { fid, items });
            assert(views(chart@) =~= push_under(before, fid, iv));
        },
    }
}

/// A copy of the trees of the arguments.
pub fn copy_args(args: &Vec<(i32, Expr)>) -> (r: Vec<(i32, Expr)>)
    ensures
        views(r@) == views(args@),
{
    let mut r: Vec<(i32, Expr)> = Vec::new();
    let mut i: usize = 0;
    assert(views(r@) =~= views(args@).take(0));
    while i < args.len()
        invariant
            i <= args.len(),
            views(r@) == views(args@).take(i as int),
        decreases args.len() - i,
    {
        let x = (args[i].0, copy_expr(&args[i].1));
        proof {
            lemma_views_push(r@, x);
            assert(views(args@).take(i + 1) =~= views(args@).take(i as int).push(x@));
        }
        r.push(x);
        i += 1;
    }
    assert(views(args@).take(args.len() as int) =~= views(args@));
    r
}

/// A copy of a tree that may be absent.
pub fn copy_tree(tree: &Option<Expr>) -> (r: Option<Expr>)
    ensures
        match tree {
            Some(t) => r matches Some(x) && x@ == t@,
            None => r is None,
        },
{
    match tree {
        Some(t) => Some(copy_expr(t)),
        None => None,
    }
}

/// Builds the tree of a function and the trees of its arguments.
pub fn build_tree(cnc_fun: &CncFun, args: &Vec<(i32, Expr)>) -> (tree: Expr)
    ensures
        tree@ == spec_build_tree(cnc_fun@, views(args@)),
{
    let mut tree = Expr::Fun(cnc_fun.name.clone());
    let mut i: usize = 0;
    assert(views(args@).take(0) =~= Seq::empty());
    while i < args.len()
        invariant
            i <= args.len(),
            tree@ == apply_all(SpecExpr::Fun(cnc_fun@.name), views(args@).take(i as int)),
        decreases args.len() - i,
    {
        proof {
            let next = views(args@).take(i + 1);
            assert(next.drop_last() =~= views(args@).take(i as int));
            assert(next.last() == views(args@)[i as int]);
        }
        tree = Expr::App(Box::new(tree), Box::new(copy_expr(&args[i].1)));
        i += 1;
    }
    assert(views(args@).take(args.len() as int) =~= views(args@));
    tree
}

} // verus!
