//! The chart parser.
//!
//! A parse state is made for a grammar, a language and a goal type, fed one
//! token after the other, and asked for the trees found. The state keeps two
//! charts: the active items, which still have symbols after the dot, and the
//! passive items, which carry a tree.

use vstd::prelude::*;
use vstd::string::*;

use crate::bracketed::{
    bracketed, empty_leaf, expr_to_bracketed, lemma_branch_view, BracketedString, SpecBracketed,
};
use crate::chart::{
    build_tree, copy_args, copy_tree, find_row, push_item, push_under, row_of, spec_build_tree,
    SpecChart, SpecItem,
};
use crate::cid::show_cid;
use crate::equal::{copy_expr, has_expr};
use crate::error::{join, PgfError, SpecPgfError};
use crate::grammar::{
    lemma_views_push, views, Concrete, Expr, Language, Pgf, Production, ProductionSet, SpecConcrete,
    SpecExpr, SpecPgf, SpecProduction, SpecSymbol, SpecType, Symbol, Type,
};
use crate::table::{
    find_cid, find_language, find_productions, lemma_position, lemma_without_repeats_step, position,
    table_get, without_repeats,
};
pub use crate::chart::{ChartRow, Item};

verus! {

/// The state of a parse.
#[derive(Debug)]
pub struct ParseState<'a> {
    pub pgf: &'a Pgf,
    pub lang: &'a Language,
    pub typ: &'a Type,
    pub active_items: Vec<ChartRow>,
    pub passive_items: Vec<ChartRow>,
    pub tokens: Vec<String>,
    pub current_pos: usize,
}

pub struct SpecParseState {
    pub pgf: SpecPgf,
    pub lang: Seq<char>,
    pub typ: SpecType,
    pub active: SpecChart,
    pub passive: SpecChart,
    pub tokens: Seq<Seq<char>>,
    pub current_pos: int,
}

impl<'a> View for ParseState<'a> {
    type V = SpecParseState;

    open spec fn view(&self) -> SpecParseState {
        SpecParseState {
            pgf: self.pgf@,
            lang: self.lang@,
            typ: self.typ@,
            active: views(self.active_items@),
            passive: views(self.passive_items@),
            tokens: views(self.tokens@),
            current_pos: self.current_pos as int,
        }
    }
}

/// One token of the input.
#[derive(Debug)]
pub struct ParseInput {
    pub token: String,
}

/// What a parse has found: trees, or nothing.
#[derive(Debug, PartialEq, Eq)]
pub enum ParseOutput {
    ParseOk(Vec<Expr>),
    ParseFail,
}

pub enum SpecParseOutput {
    ParseOk(Seq<SpecExpr>),
    ParseFail,
}

impl View for ParseOutput {
    type V = SpecParseOutput;

    open spec fn view(&self) -> SpecParseOutput {
        match self {
            ParseOutput::ParseOk(trees) => SpecParseOutput::ParseOk(views(trees@)),
            ParseOutput::ParseFail => SpecParseOutput::ParseFail,
        }
    }
}

/// The sequence in which an item for the function `fid` starts: the first
/// of the function, or sequence 0 where there is no such function or it
/// has no sequence.
pub open spec fn first_lin(cnc: SpecConcrete, fid: i32) -> i32 {
    if 0 <= fid < cnc.cncfuns.len() && cnc.cncfuns[fid as int].lins.len() > 0 {
        cnc.cncfuns[fid as int].lins[0]
    } else {
        0
    }
}

/// The item that a production of the goal starts with.
pub open spec fn seed(cnc: SpecConcrete, fid: i32) -> SpecItem {
    SpecItem { fid, seqid: first_lin(cnc, fid), dot: 0, args: Seq::empty(), tree: None }
}

/// The items that the productions start with: one for each application.
pub open spec fn seeds(cnc: SpecConcrete, prods: Seq<SpecProduction>) -> Seq<SpecItem>
    decreases prods.len(),
{
    if prods.len() == 0 {
        Seq::empty()
    } else {
        match prods.last() {
            SpecProduction::Apply { fid, .. } => seeds(cnc, prods.drop_last()).push(seed(cnc, fid)),
            SpecProduction::Coerce { .. } => seeds(cnc, prods.drop_last()),
        }
    }
}

/// The productions of a fid; none where the table has no such fid.
pub open spec fn productions_of(cnc: SpecConcrete, fid: i32) -> Seq<SpecProduction> {
    match table_get(cnc.productions, fid) {
        Some(prods) => prods,
        None => Seq::empty(),
    }
}

/// The active chart of a fresh state: the seeds of the goal, under the
/// goal.
pub open spec fn initial_chart(cnc: SpecConcrete, goal: i32) -> SpecChart {
    let items = seeds(cnc, productions_of(cnc, goal));
    if items.len() > 0 {
        seq![(goal, items)]
    } else {
        Seq::empty()
    }
}

/// The state that `init_state` makes, or the error.
pub open spec fn spec_init_state(g: SpecPgf, l: Seq<char>, t: SpecType) -> Result<
    SpecParseState,
    SpecPgfError,
> {
    match table_get(g.concretes, l) {
        None => Err(SpecPgfError::UnknownLanguage(l)),
        Some(cnc) => match table_get(cnc.cnccats, t.category) {
            None => Err(SpecPgfError::ParseError("Category not found: "@ + t.category)),
            Some(cat) => Ok(
                SpecParseState {
                    pgf: g,
                    lang: l,
                    typ: t,
                    active: initial_chart(cnc, cat.start),
                    passive: Seq::empty(),
                    tokens: Seq::empty(),
                    current_pos: 0,
                },
            ),
        },
    }
}

/// The item with the dot one symbol further.
pub open spec fn moved(item: SpecItem) -> SpecItem {
    SpecItem { dot: item.dot + 1, ..item }
}

/// The item with the dot past an argument for which a tree was found.
pub open spec fn moved_with(item: SpecItem, child: i32, tree: SpecExpr) -> SpecItem {
    SpecItem { dot: item.dot + 1, args: item.args.push((child, tree)), ..item }
}

/// The passive item of an active one.
pub open spec fn completed(item: SpecItem, tree: SpecExpr) -> SpecItem {
    SpecItem { tree: Some(tree), ..item }
}

/// The active chart after `item`, which has an argument of `child` after
/// its dot, has met each passive item of `row` that has a tree.
pub open spec fn combine(
    active: SpecChart,
    key: i32,
    item: SpecItem,
    child: i32,
    row: Seq<SpecItem>,
) -> SpecChart
    decreases row.len(),
{
    if row.len() == 0 {
        active
    } else {
        let before = combine(active, key, item, child, row.drop_last());
        match row.last().tree {
            Some(tree) => push_under(before, key, moved_with(item, child, tree)),
            None => before,
        }
    }
}

/// The charts (active, passive) after one active item, kept under `key`,
/// has seen the token. An item whose dot stands before the token moves on.
/// An item whose dot stands before an argument moves on once for each tree
/// that the passive chart has for the argument. An item with nothing after
/// its dot becomes passive, with the tree of its function and arguments;
/// it is dropped where the grammar has no function of its number. An item
/// whose sequence the grammar does not have is dropped.
pub open spec fn scan_item(
    cnc: SpecConcrete,
    token: Seq<char>,
    key: i32,
    item: SpecItem,
    charts: (SpecChart, SpecChart),
) -> (SpecChart, SpecChart) {
    if !(0 <= item.seqid < cnc.sequences.len()) {
        charts
    } else {
        let seq = cnc.sequences[item.seqid as int];
        if item.dot < seq.len() {
            match seq[item.dot] {
                SpecSymbol::SymKS(t) => if t == token {
                    (push_under(charts.0, key, moved(item)), charts.1)
                } else {
                    charts
                },
                SpecSymbol::SymCat(_, child) => (
                    combine(charts.0, key, item, child, row_of(charts.1, child)),
                    charts.1,
                ),
                _ => charts,
            }
        } else if 0 <= item.fid < cnc.cncfuns.len() {
            (
                charts.0,
                push_under(
                    charts.1,
                    key,
                    completed(item, spec_build_tree(cnc.cncfuns[item.fid as int], item.args)),
                ),
            )
        } else {
            charts
        }
    }
}

/// The charts after the items of one row have seen the token, in order.
pub open spec fn scan_row(
    cnc: SpecConcrete,
    token: Seq<char>,
    key: i32,
    items: Seq<SpecItem>,
    charts: (SpecChart, SpecChart),
) -> (SpecChart, SpecChart)
    decreases items.len(),
{
    if items.len() == 0 {
        charts
    } else {
        scan_item(cnc, token, key, items.last(), scan_row(cnc, token, key, items.drop_last(), charts))
    }
}

/// The charts after the rows of the active chart have seen the token, in
/// order.
pub open spec fn scan_chart(
    cnc: SpecConcrete,
    token: Seq<char>,
    rows: SpecChart,
    charts: (SpecChart, SpecChart),
) -> (SpecChart, SpecChart)
    decreases rows.len(),
{
    if rows.len() == 0 {
        charts
    } else {
        scan_row(
            cnc,
            token,
            rows.last().0,
            rows.last().1,
            scan_chart(cnc, token, rows.drop_last(), charts),
        )
    }
}

/// The item that a coercion of `key` to `arg` starts with.
pub open spec fn coerced(key: i32, arg: i32, tree: SpecExpr) -> SpecItem {
    SpecItem { fid: key, seqid: 0, dot: 0, args: seq![(arg, tree)], tree: None }
}

/// The active chart after a coercion of `key` to `arg` has met each
/// passive item of `row` that has a tree.
pub open spec fn coerce_row(active: SpecChart, key: i32, arg: i32, row: Seq<SpecItem>) -> SpecChart
    decreases row.len(),
{
    if row.len() == 0 {
        active
    } else {
        let before = coerce_row(active, key, arg, row.drop_last());
        match row.last().tree {
            Some(tree) => push_under(before, key, coerced(key, arg, tree)),
            None => before,
        }
    }
}

/// The active chart after the coercions among the productions of `key`.
pub open spec fn coerce_prods(
    active: SpecChart,
    passive: SpecChart,
    key: i32,
    prods: Seq<SpecProduction>,
) -> SpecChart
    decreases prods.len(),
{
    if prods.len() == 0 {
        active
    } else {
        let before = coerce_prods(active, passive, key, prods.drop_last());
        match prods.last() {
            SpecProduction::Coerce { arg } => coerce_row(before, key, arg, row_of(passive, arg)),
            SpecProduction::Apply { .. } => before,
        }
    }
}

/// The active chart after the coercions of the grammar, set by set.
pub open spec fn coerce_sets(
    active: SpecChart,
    passive: SpecChart,
    sets: Seq<(i32, Seq<SpecProduction>)>,
) -> SpecChart
    decreases sets.len(),
{
    if sets.len() == 0 {
        active
    } else {
        coerce_prods(
            coerce_sets(active, passive, sets.drop_last()),
            passive,
            sets.last().0,
            sets.last().1,
        )
    }
}

/// The state after a token. The token is added to the tokens. Where the
/// grammar has the language of the state, the active items see the token,
/// the coercions of the grammar meet the passive items, and the position
/// moves on; else nothing more changes.
pub open spec fn spec_next_state(s: SpecParseState, token: Seq<char>) -> SpecParseState {
    match table_get(s.pgf.concretes, s.lang) {
        None => SpecParseState { tokens: s.tokens.push(token), ..s },
        Some(cnc) => {
            let charts = scan_chart(cnc, token, s.active, (Seq::empty(), s.passive));
            SpecParseState {
                active: coerce_sets(charts.0, charts.1, cnc.productions),
                passive: charts.1,
                tokens: s.tokens.push(token),
                current_pos: s.current_pos + 1,
                ..s
            }
        },
    }
}

/// Makes the state of a parse of the goal type in the language.
pub fn init_state<'a>(pgf: &'a Pgf, lang: &'a Language, typ: &'a Type) -> (r: Result<
    ParseState<'a>,
    PgfError,
>)
    ensures
        match spec_init_state(pgf@, lang@, typ@) {
            Ok(s) => r matches Ok(state) && state@ == s,
            Err(e) => r matches Err(x) && x@ == e,
        },
{
    proof {
        lemma_position(pgf@.concretes, lang@);
    }
    let cnc = match find_language(&pgf.concretes, lang) {
        Some(i) => &pgf.concretes[i].1,
        None => {
            return Err(PgfError::UnknownLanguage(show_cid(&lang.0)));
        },
    };
    proof {
        lemma_position(cnc@.cnccats, typ@.category);
        crate::grammar::lemma_type_view(*typ);
    }
    let goal = match find_cid(&cnc.cnccats, &typ.category) {
        Some(i) => cnc.cnccats[i].1.start,
        None => {
            return Err(
                PgfError::ParseError(join("Category not found: ", typ.category.0.as_str())),
            );
        },
    };
    let mut active_items: Vec<ChartRow> = Vec::new();
    proof {
        lemma_position(cnc@.productions, goal);
    }
    match find_productions(&cnc.productions, goal) {
        Some(k) => {
            let prods = &cnc.productions[k].prods;
            let items = make_seeds(cnc, prods);
            if items.len() > 0 {
                active_items.push(ChartRow { fid: goal, items });
                assert(views(active_items@) =~= initial_chart(cnc@, goal));
            } else {
                assert(views(active_items@) =~= initial_chart(cnc@, goal));
            }
        },
        None => {
            assert(views(active_items@) =~= initial_chart(cnc@, goal));
        },
    }
    let passive_items: Vec<ChartRow> = Vec::new();
    let tokens: Vec<String> = Vec::new();
    assert(views(passive_items@) =~= Seq::empty());
    assert(views(tokens@) =~= Seq::empty());
    Ok(ParseState { pgf, lang, typ, active_items, passive_items, tokens, current_pos: 0 })
}

/// The sequence in which an item for the function `fid` starts.
fn first_sequence(cnc: &Concrete, fid: i32) -> (r: i32)
    ensures
        r == first_lin(cnc@, fid),
{
    if fid >= 0 && (fid as usize) < cnc.cncfuns.len() {
        let fun = &cnc.cncfuns[fid as usize];
        if fun.lins.len() > 0 {
            fun.lins[0]
        } else {
            0
        }
    } else {
        0
    }
}

/// The items that the productions start with.
fn make_seeds(cnc: &Concrete, prods: &Vec<Production>) -> (items: Vec<Item>)
    ensures
        views(items@) == seeds(cnc@, views(prods@)),
{
    let mut items: Vec<Item> = Vec::new();
    let mut i: usize = 0;
    assert(views(prods@).take(0) =~= Seq::empty());
    assert(views(items@) =~= Seq::empty());
    while i < prods.len()
        invariant
            i <= prods.len(),
            views(items@) == seeds(cnc@, views(prods@).take(i as int)),
        decreases prods.len() - i,
    {
        proof {
            let next = views(prods@).take(i + 1);
            assert(next.drop_last() =~= views(prods@).take(i as int));
            assert(next.last() == prods@[i as int]@);
        }
        match &prods[i] {
            Production::Apply { fid, args: _ } => {
                let args: Vec<(i32, Expr)> = Vec::new();
                let item = Item {
                    fid: *fid,
                    seqid: first_sequence(cnc, *fid),
                    dot: 0,
                    args,
                    tree: None,
                };
                proof {
                    assert(views(args@) =~= Seq::empty());
                    lemma_views_push(items@, item);
                }
                items.push(item);
            },
            Production::Coerce { arg: _ } => {},
        }
        i += 1;
    }
    assert(views(prods@).take(prods.len() as int) =~= views(prods@));
    items
}

/// The items of `fid` in the chart, where it has any.
fn lookup_row(chart: &Vec<ChartRow>, fid: i32) -> (r: Option<usize>)
    ensures
        match r {
            Some(i) => i < chart.len() && views(chart@[i as int].items@) == row_of(
                views(chart@),
                fid,
            ),
            None => row_of(views(chart@), fid) == Seq::<SpecItem>::empty(),
        },
{
    proof {
        lemma_position(views(chart@), fid);
    }
    find_row(chart, fid)
}

fn combine_into(
    active: &mut Vec<ChartRow>,
    key: i32,
    item: &Item,
    child: i32,
    passive: &Vec<ChartRow>,
)
    requires
        item.dot < usize::MAX,
    ensures
        views(final(active)@) == combine(
            views(old(active)@),
            key,
            item@,
            child,
            row_of(views(passive@), child),
        ),
{
    match lookup_row(passive, child) {
        None => {},
        Some(r) => {
            let row = &passive[r].items;
            let mut i: usize = 0;
            assert(views(row@).take(0) =~= Seq::empty());
            while i < row.len()
                invariant
                    i <= row.len(),
                    item.dot < usize::MAX,
                    views(active@) == combine(
                        views(old(active)@),
                        key,
                        item@,
                        child,
                        views(row@).take(i as int),
                    ),
                decreases row.len() - i,
            {
                proof {
                    let next = views(row@).take(i + 1);
                    assert(next.drop_last() =~= views(row@).take(i as int));
                    assert(next.last() == row@[i as int]@);
                }
                match &row[i].tree {
                    Some(tree) => {
                        let mut args = copy_args(&item.args);
                        let x = (child, copy_expr(tree));
                        proof {
                            lemma_views_push(args@, x);
                        }
                        args.push(x);
                        let next = Item {
                            fid: item.fid,
                            seqid: item.seqid,
                            dot: item.dot + 1,
                            args,
                            tree: copy_tree(&item.tree),
                        };
                        assert(next@ == moved_with(item@, child, tree@));
                        push_item(active, key, next);
                    },
                    None => {},
                }
                i += 1;
            }
            assert(views(row@).take(row.len() as int) =~= views(row@));
        },
    }
}

fn scan_item_into(
    cnc: &Concrete,
    token: &String,
    key: i32,
    item: &Item,
    active: &mut Vec<ChartRow>,
    passive: &mut Vec<ChartRow>,
)
    ensures
        (views(final(active)@), views(final(passive)@)) == scan_item(
            cnc@,
            token@,
            key,
            item@,
            (views(old(active)@), views(old(passive)@)),
        ),
{
    if item.seqid < 0 || item.seqid as usize >= cnc.sequences.len() {
        return ;
    }
    let seq = &cnc.sequences[item.seqid as usize];
    assert(cnc@.sequences[item.seqid as int] == views(seq@));
    if item.dot < seq.len() {
        assert(views(seq@)[item.dot as int] == seq@[item.dot as int]@);
        match &seq[item.dot] {
            Symbol::SymKS(t) => {
                if *t == *token {
                    let next = Item {
                        fid: item.fid,
                        seqid: item.seqid,
                        dot: item.dot + 1,
                        args: copy_args(&item.args),
                        tree: copy_tree(&item.tree),
                    };
                    assert(next@ == moved(item@));
                    push_item(active, key, next);
                }
            },
            Symbol::SymCat(_, child) => {
                combine_into(active, key, item, *child, passive);
            },
            Symbol::SymLit(_, _) => {},
            Symbol::SymVar(_, _) => {},
            Symbol::SymKP(_, _) => {},
            Symbol::SymNE => {},
        }
    } else if item.fid >= 0 && (item.fid as usize) < cnc.cncfuns.len() {
        let tree = build_tree(&cnc.cncfuns[item.fid as usize], &item.args);
        let done = Item {
            fid: item.fid,
            seqid: item.seqid,
            dot: item.dot,
            args: copy_args(&item.args),
            tree: Some(tree),
        };
        assert(done@ == completed(item@, tree@));
        push_item(passive, key, done);
    }
}

fn scan_row_into(
    cnc: &Concrete,
    token: &String,
    key: i32,
    items: &Vec<Item>,
    active: &mut Vec<ChartRow>,
    passive: &mut Vec<ChartRow>,
)
    ensures
        (views(final(active)@), views(final(passive)@)) == scan_row(
            cnc@,
            token@,
            key,
            views(items@),
            (views(old(active)@), views(old(passive)@)),
        ),
{
    let mut i: usize = 0;
    assert(views(items@).take(0) =~= Seq::empty());
    while i < items.len()
        invariant
            i <= items.len(),
            (views(active@), views(passive@)) == scan_row(
                cnc@,
                token@,
                key,
                views(items@).take(i as int),
                (views(old(active)@), views(old(passive)@)),
            ),
        decreases items.len() - i,
    {
        proof {
            let next = views(items@).take(i + 1);
            assert(next.drop_last() =~= views(items@).take(i as int));
            assert(next.last() == items@[i as int]@);
        }
        scan_item_into(cnc, token, key, &items[i], active, passive);
        i += 1;
    }
    assert(views(items@).take(items.len() as int) =~= views(items@));
}

fn scan_chart_into(
    cnc: &Concrete,
    token: &String,
    rows: &Vec<ChartRow>,
    active: &mut Vec<ChartRow>,
    passive: &mut Vec<ChartRow>,
)
    ensures
        (views(final(active)@), views(final(passive)@)) == scan_chart(
            cnc@,
            token@,
            views(rows@),
            (views(old(active)@), views(old(passive)@)),
        ),
{
    let mut i: usize = 0;
    assert(views(rows@).take(0) =~= Seq::empty());
    while i < rows.len()
        invariant
            i <= rows.len(),
            (views(active@), views(passive@)) == scan_chart(
                cnc@,
                token@,
                views(rows@).take(i as int),
                (views(old(active)@), views(old(passive)@)),
            ),
        decreases rows.len() - i,
    {
        proof {
            let next = views(rows@).take(i + 1);
            assert(next.drop_last() =~= views(rows@).take(i as int));
            assert(next.last() == rows@[i as int]@);
        }
        scan_row_into(cnc, token, rows[i].fid, &rows[i].items, active, passive);
        i += 1;
    }
    assert(views(rows@).take(rows.len() as int) =~= views(rows@));
}

fn coerce_row_into(active: &mut Vec<ChartRow>, key: i32, arg: i32, passive: &Vec<ChartRow>)
    ensures
        views(final(active)@) == coerce_row(
            views(old(active)@),
            key,
            arg,
            row_of(views(passive@), arg),
        ),
{
    match lookup_row(passive, arg) {
        None => {},
        Some(r) => {
            let row = &passive[r].items;
            let mut i: usize = 0;
            assert(views(row@).take(0) =~= Seq::empty());
            while i < row.len()
                invariant
                    i <= row.len(),
                    views(active@) == coerce_row(
                        views(old(active)@),
                        key,
                        arg,
                        views(row@).take(i as int),
                    ),
                decreases row.len() - i,
            {
                proof {
                    let next = views(row@).take(i + 1);
                    assert(next.drop_last() =~= views(row@).take(i as int));
                    assert(next.last() == row@[i as int]@);
                }
                match &row[i].tree {
                    Some(tree) => {
                        let mut args: Vec<(i32, Expr)> = Vec::new();
                        args.push((arg, copy_expr(tree)));
                        assert(views(args@) =~= seq![(arg, tree@)]);
                        let next = Item { fid: key, seqid: 0, dot: 0, args, tree: None };
                        push_item(active, key, next);
                    },
                    None => {},
                }
                i += 1;
            }
            assert(views(row@).take(row.len() as int) =~= views(row@));
        },
    }
}

fn coerce_prods_into(
    active: &mut Vec<ChartRow>,
    passive: &Vec<ChartRow>,
    key: i32,
    prods: &Vec<Production>,
)
    ensures
        views(final(active)@) == coerce_prods(
            views(old(active)@),
            views(passive@),
            key,
            views(prods@),
        ),
{
    let mut i: usize = 0;
    assert(views(prods@).take(0) =~= Seq::empty());
    while i < prods.len()
        invariant
            i <= prods.len(),
            views(active@) == coerce_prods(
                views(old(active)@),
                views(passive@),
                key,
                views(prods@).take(i as int),
            ),
        decreases prods.len() - i,
    {
        proof {
            let next = views(prods@).take(i + 1);
            assert(next.drop_last() =~= views(prods@).take(i as int));
            assert(next.last() == prods@[i as int]@);
        }
        match &prods[i] {
            Production::Coerce { arg } => {
                coerce_row_into(active, key, *arg, passive);
            },
            Production::Apply { fid: _, args: _ } => {},
        }
        i += 1;
    }
    assert(views(prods@).take(prods.len() as int) =~= views(prods@));
}

fn coerce_sets_into(active: &mut Vec<ChartRow>, passive: &Vec<ChartRow>, sets: &Vec<ProductionSet>)
    ensures
        views(final(active)@) == coerce_sets(views(old(active)@), views(passive@), views(sets@)),
{
    let mut i: usize = 0;
    assert(views(sets@).take(0) =~= Seq::empty());
    while i < sets.len()
        invariant
            i <= sets.len(),
            views(active@) == coerce_sets(
                views(old(active)@),
                views(passive@),
                views(sets@).take(i as int),
            ),
        decreases sets.len() - i,
    {
        proof {
            let next = views(sets@).take(i + 1);
            assert(next.drop_last() =~= views(sets@).take(i as int));
            assert(next.last() == sets@[i as int]@);
        }
        coerce_prods_into(active, passive, sets[i].fid, &sets[i].prods);
        i += 1;
    }
    assert(views(sets@).take(sets.len() as int) =~= views(sets@));
}

/// Feeds one token to the state. Fails, with the token added and nothing
/// else changed, where the grammar does not have the language of the
/// state.
pub fn next_state(state: &mut ParseState<'_>, input: ParseInput) -> (r: Result<(), PgfError>)
    requires
        old(state).current_pos < usize::MAX,
    ensures
        final(state)@ == spec_next_state(old(state)@, input.token@),
        table_get(old(state)@.pgf.concretes, old(state)@.lang) is Some ==> r is Ok,
        table_get(old(state)@.pgf.concretes, old(state)@.lang) is None ==> (r matches Err(e)
            && e@ == SpecPgfError::ParseError("Language not found"@)),
{
    let ghost before = state@;
    let pgf = state.pgf;
    let lang = state.lang;
    proof {
        lemma_views_push(state.tokens@, input.token);
        lemma_position(pgf@.concretes, lang@);
    }
    state.tokens.push(input.token);
    let cnc = match find_language(&pgf.concretes, lang) {
        Some(i) => &pgf.concretes[i].1,
        None => {
            return Err(PgfError::ParseError(String::from_str("Language not found")));
        },
    };
    let mut new_active: Vec<ChartRow> = Vec::new();
    let mut new_passive: Vec<ChartRow> = Vec::new();
    std::mem::swap(&mut new_passive, &mut state.passive_items);
    assert(views(new_active@) =~= Seq::empty());
    let last = state.tokens.len() - 1;
    scan_chart_into(cnc, &state.tokens[last], &state.active_items, &mut new_active, &mut new_passive);
    coerce_sets_into(&mut new_active, &new_passive, &cnc.productions);
    state.active_items = new_active;
    state.passive_items = new_passive;
    state.current_pos = state.current_pos + 1;
    Ok(())
}

/// The length of a sequence; 0 where the grammar has no such sequence.
pub open spec fn sequence_len(cnc: SpecConcrete, seqid: i32) -> int {
    if 0 <= seqid < cnc.sequences.len() {
        cnc.sequences[seqid as int].len() as int
    } else {
        0
    }
}

/// The trees of the items of `row` whose dot stands at the end of their
/// sequence.
pub open spec fn finished(cnc: SpecConcrete, row: Seq<SpecItem>) -> Seq<SpecExpr>
    decreases row.len(),
{
    if row.len() == 0 {
        Seq::empty()
    } else {
        let before = finished(cnc, row.drop_last());
        match row.last().tree {
            Some(tree) => if row.last().dot == sequence_len(cnc, row.last().seqid) {
                before.push(tree)
            } else {
                before
            },
            None => before,
        }
    }
}

/// The fid of the goal: the first fid of the category of the type, or 0
/// where the language has no such category.
pub open spec fn goal_of(cnc: SpecConcrete, t: SpecType) -> i32 {
    match table_get(cnc.cnccats, t.category) {
        Some(cat) => cat.start,
        None => 0,
    }
}

/// The trees that the state has for the goal, each once, in the order in
/// which they were found. There are none where the grammar does not have
/// the language of the state.
pub open spec fn found_trees(s: SpecParseState, t: SpecType) -> Seq<SpecExpr> {
    match table_get(s.pgf.concretes, s.lang) {
        Some(cnc) => without_repeats(finished(cnc, row_of(s.passive, goal_of(cnc, t)))),
        None => Seq::empty(),
    }
}

/// The limit of the bracketed strings for a depth.
pub open spec fn depth_limit(depth: Option<i32>) -> int {
    match depth {
        Some(d) => d as int,
        None => i32::MAX as int,
    }
}

/// The bracketed strings of the trees.
pub open spec fn brackets_of(trees: Seq<SpecExpr>, limit: int) -> Seq<SpecBracketed> {
    Seq::new(trees.len(), |i: int| bracketed(trees[i], limit))
}

/// What a state gives for a goal type: the trees found and their bracketed
/// strings under the category of the type, or a failure and an empty leaf.
pub open spec fn spec_parse_output(s: SpecParseState, t: SpecType, depth: Option<i32>) -> (
    SpecParseOutput,
    SpecBracketed,
) {
    let trees = found_trees(s, t);
    if trees.len() == 0 {
        (SpecParseOutput::ParseFail, SpecBracketed::Leaf(Seq::empty()))
    } else {
        (
            SpecParseOutput::ParseOk(trees),
            SpecBracketed::Branch(t.category, brackets_of(trees, depth_limit(depth))),
        )
    }
}

/// Collects the trees of the finished items of a row, each once.
fn collect_trees(cnc: &Concrete, row: &Vec<Item>) -> (trees: Vec<Expr>)
    ensures
        views(trees@) == without_repeats(finished(cnc@, views(row@))),
{
    let mut trees: Vec<Expr> = Vec::new();
    let mut i: usize = 0;
    assert(views(row@).take(0) =~= Seq::empty());
    assert(views(trees@) =~= Seq::empty());
    while i < row.len()
        invariant
            i <= row.len(),
            views(trees@) == without_repeats(finished(cnc@, views(row@).take(i as int))),
        decreases row.len() - i,
    {
        proof {
            let next = views(row@).take(i + 1);
            assert(next.drop_last() =~= views(row@).take(i as int));
            assert(next.last() == row@[i as int]@);
        }
        let item = &row[i];
        match &item.tree {
            Some(tree) => {
                let len = if item.seqid >= 0 && (item.seqid as usize) < cnc.sequences.len() {
                    cnc.sequences[item.seqid as usize].len()
                } else {
                    0
                };
                assert(len == sequence_len(cnc@, item.seqid));
                if item.dot == len {
                    proof {
                        lemma_without_repeats_step(
                            finished(cnc@, views(row@).take(i as int)),
                            tree@,
                        );
                    }
                    if !has_expr(&trees, tree) {
                        let copy = copy_expr(tree);
                        proof {
                            lemma_views_push(trees@, copy);
                        }
                        trees.push(copy);
                    }
                }
            },
            None => {},
        }
        i += 1;
    }
    assert(views(row@).take(row.len() as int) =~= views(row@));
    trees
}

/// The bracketed strings of the trees, each cut below `limit` levels.
fn bracket_all(trees: &Vec<Expr>, limit: i32) -> (r: Vec<BracketedString>)
    ensures
        views(r@) == brackets_of(views(trees@), limit as int),
{
    let mut r: Vec<BracketedString> = Vec::new();
    let mut i: usize = 0;
    while i < trees.len()
        invariant
            i <= trees.len(),
            r.len() == i,
            forall|j: int| 0 <= j < i ==> r@[j]@ == bracketed(trees@[j]@, limit as int),
        decreases trees.len() - i,
    {
        r.push(expr_to_bracketed(&trees[i], limit));
        i += 1;
    }
    assert(views(r@) =~= brackets_of(views(trees@), limit as int));
    r
}

/// The trees that the state has found for the goal type, with their
/// bracketed strings. `depth` limits the bracketed strings only.
pub fn get_parse_output(state: &ParseState<'_>, typ: &Type, depth: Option<i32>) -> (r: (
    ParseOutput,
    BracketedString,
))
    ensures
        r.0@ == spec_parse_output(state@, typ@, depth).0,
        r.1@ == spec_parse_output(state@, typ@, depth).1,
{
    let limit = match depth {
        Some(d) => d,
        None => i32::MAX,
    };
    proof {
        lemma_position(state.pgf@.concretes, state.lang@);
    }
    let cnc = match find_language(&state.pgf.concretes, state.lang) {
        Some(i) => &state.pgf.concretes[i].1,
        None => {
            return (ParseOutput::ParseFail, empty_leaf());
        },
    };
    proof {
        lemma_position(cnc@.cnccats, typ@.category);
        crate::grammar::lemma_type_view(*typ);
    }
    let goal = match find_cid(&cnc.cnccats, &typ.category) {
        Some(i) => cnc.cnccats[i].1.start,
        None => 0,
    };
    let trees = match lookup_row(&state.passive_items, goal) {
        Some(k) => collect_trees(cnc, &state.passive_items[k].items),
        None => {
            let none: Vec<Expr> = Vec::new();
            assert(views(none@) =~= without_repeats(finished(cnc@, Seq::empty())));
            none
        },
    };
    if trees.len() == 0 {
        (ParseOutput::ParseFail, empty_leaf())
    } else {
        let children = bracket_all(&trees, limit);
        let label = typ.category.clone();
        proof {
            lemma_branch_view(label, children);
        }
        (ParseOutput::ParseOk(trees), BracketedString::Branch(label, children))
    }
}

/// Whether a character is ASCII whitespace: a space, a tab, a line feed, a
/// form feed or a carriage return.
pub open spec fn is_space(c: char) -> bool {
    c == ' ' || c == '\t' || c == '\n' || c == '\x0C' || c == '\r'
}

/// The words that end within the text, and the word that its end stands
/// in, which is empty where the text ends outside a word.
pub open spec fn words_and_rest(s: Seq<char>) -> (Seq<Seq<char>>, Seq<char>)
    decreases s.len(),
{
    if s.len() == 0 {
        (Seq::empty(), Seq::empty())
    } else {
        let (words, rest) = words_and_rest(s.drop_last());
        if is_space(s.last()) {
            if rest.len() > 0 {
                (words.push(rest), Seq::empty())
            } else {
                (words, Seq::empty())
            }
        } else {
            (words, rest.push(s.last()))
        }
    }
}

/// The tokens of a text: its longest stretches without ASCII whitespace.
pub open spec fn tokens_of(s: Seq<char>) -> Seq<Seq<char>> {
    let (words, rest) = words_and_rest(s);
    if rest.len() > 0 {
        words.push(rest)
    } else {
        words
    }
}

fn space(c: char) -> (r: bool)
    ensures
        r == is_space(c),
{
    c == ' ' || c == '\t' || c == '\n' || c == '\x0C' || c == '\r'
}

/// `String::push` of the standard library: the text with the character at
/// its end.
#[verifier::external_body]
fn push_char(s: &mut String, c: char)
    ensures
        final(s)@ == old(s)@.push(c),
{
    s.push(c)
}

/// Splits a text on ASCII whitespace.
pub fn tokenize(input: &str) -> (tokens: Vec<String>)
    ensures
        views(tokens@) == tokens_of(input@),
{
    let mut tokens: Vec<String> = Vec::new();
    let mut word = String::new();
    assert(input@.take(0) =~= Seq::empty());
    assert(views(tokens@) =~= Seq::empty());
    for c in it: input.chars()
        invariant
            it.seq() == input@,
            words_and_rest(input@.take(it.index() as int)) == (views(tokens@), word@),
    {
        proof {
            let i = it.index() as int;
            let next = input@.take(i + 1);
            assert(next.drop_last() =~= input@.take(i));
            assert(next.last() == c);
        }
        if space(c) {
            if !word.as_str().is_empty() {
                proof {
                    lemma_views_push(tokens@, word);
                }
                tokens.push(word);
                word = String::new();
            }
        } else {
            push_char(&mut word, c);
        }
    }
    assert(input@.take(input@.len() as int) =~= input@);
    if !word.as_str().is_empty() {
        proof {
            lemma_views_push(tokens@, word);
        }
        tokens.push(word);
    }
    tokens
}

/// The state after the tokens, one after the other.
pub open spec fn run(s: SpecParseState, tokens: Seq<Seq<char>>) -> SpecParseState
    decreases tokens.len(),
{
    if tokens.len() == 0 {
        s
    } else {
        spec_next_state(run(s, tokens.drop_last()), tokens.last())
    }
}

/// The trees of a text, or the error: the error of the initial state, or
/// that the text has no tree.
pub open spec fn spec_parse(g: SpecPgf, l: Seq<char>, t: SpecType, input: Seq<char>) -> Result<
    Seq<SpecExpr>,
    SpecPgfError,
> {
    match spec_init_state(g, l, t) {
        Err(e) => Err(e),
        Ok(s) => {
            let trees = found_trees(run(s, tokens_of(input)), t);
            if trees.len() == 0 {
                Err(SpecPgfError::ParseError("Parsing failed"@))
            } else {
                Ok(trees)
            }
        },
    }
}

/// Parses a text in a language as the goal type.
pub fn parse(pgf: &Pgf, lang: &Language, typ: &Type, input: &str) -> (r: Result<
    Vec<Expr>,
    PgfError,
>)
    ensures
        match spec_parse(pgf@, lang@, typ@, input@) {
            Ok(trees) => r matches Ok(x) && views(x@) == trees,
            Err(e) => r matches Err(x) && x@ == e,
        },
{
    let tokens = tokenize(input);
    let mut state = match init_state(pgf, lang, typ) {
        Ok(s) => s,
        Err(e) => {
            return Err(e);
        },
    };
    let ghost first = state@;
    let mut i: usize = 0;
    assert(views(tokens@).take(0) =~= Seq::empty());
    while i < tokens.len()
        invariant
            i <= tokens.len(),
            state.current_pos == i,
            state@ == run(first, views(tokens@).take(i as int)),
            first.pgf == pgf@,
            first.lang == lang@,
            table_get(pgf@.concretes, lang@) is Some,
        decreases tokens.len() - i,
    {
        proof {
            let next = views(tokens@).take(i + 1);
            assert(next.drop_last() =~= views(tokens@).take(i as int));
            assert(next.last() == tokens@[i as int]@);
            lemma_run_keeps(first, views(tokens@).take(i as int));
        }
        match next_state(&mut state, ParseInput { token: tokens[i].clone() }) {
            Ok(_) => {},
            Err(e) => {
                return Err(e);
            },
        }
        i += 1;
    }
    assert(views(tokens@).take(tokens.len() as int) =~= views(tokens@));
    let (output, _) = get_parse_output(&state, typ, Some(4));
    match output {
        ParseOutput::ParseOk(trees) => Ok(trees),
        ParseOutput::ParseFail => Err(PgfError::ParseError(String::from_str("Parsing failed"))),
    }
}

/// Tokens change neither the grammar nor the language nor the type of a
/// state.
pub proof fn lemma_run_keeps(s: SpecParseState, tokens: Seq<Seq<char>>)
    ensures
        run(s, tokens).pgf == s.pgf,
        run(s, tokens).lang == s.lang,
        run(s, tokens).typ == s.typ,
    decreases tokens.len(),
{
    if tokens.len() > 0 {
        lemma_run_keeps(s, tokens.drop_last());
    }
}

/// The errors of a fresh state: a language that the grammar does not have
/// gives the error of an unknown language, with the language; a category
/// that the language does not have gives a parse error that begins with
/// `Category not found: ` and goes on with the category. There is no other
/// error.
pub proof fn lemma_init_state_errors(g: SpecPgf, l: Seq<char>, t: SpecType)
    ensures
        table_get(g.concretes, l) is None ==> spec_init_state(g, l, t) == Err::<
            SpecParseState,
            SpecPgfError,
        >(SpecPgfError::UnknownLanguage(l)),
        table_get(g.concretes, l) is Some && table_get(
            table_get(g.concretes, l)->Some_0.cnccats,
            t.category,
        ) is None ==> (spec_init_state(g, l, t) matches Err(SpecPgfError::ParseError(m)) && m.subrange(
            0,
            "Category not found: "@.len() as int,
        ) == "Category not found: "@ && m.subrange(
            "Category not found: "@.len() as int,
            m.len() as int,
        ) == t.category),
        table_get(g.concretes, l) is Some && table_get(
            table_get(g.concretes, l)->Some_0.cnccats,
            t.category,
        ) is Some ==> spec_init_state(g, l, t) is Ok,
{
    let prefix = "Category not found: "@;
    let m = prefix + t.category;
    assert(m.subrange(0, prefix.len() as int) =~= prefix);
    assert(m.subrange(prefix.len() as int, m.len() as int) =~= t.category);
}

} // verus!
