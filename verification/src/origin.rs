//! Where the trees of a parse come from: a tree that is a function alone
//! comes from a production of the goal that applies a function of the
//! name, whose sequence is the tokens of the text up to some point before
//! their end.

use vstd::prelude::*;

use crate::chart::{apply_all, push_under, row_of, spec_build_tree, SpecChart, SpecItem};
use crate::grammar::{SpecConcrete, SpecExpr, SpecProduction, SpecSymbol};
use crate::parse::{
    coerce_prods, coerce_row, coerce_sets, coerced, combine, finished, first_lin, initial_chart,
    lemma_run_keeps, moved, moved_with, productions_of, run, scan_chart, scan_item, scan_row, seed,
    seeds, sequence_len, spec_next_state, SpecParseState,
};
use crate::recall::{at_end, done, has_item};
use crate::table::{lemma_position, position, table_get};

verus! {

/// Every item of the chart, under its fid, is as `p` says.
pub open spec fn all_rows(chart: SpecChart, p: spec_fn(i32, SpecItem) -> bool) -> bool {
    forall|r: int, q: int|
        0 <= r < chart.len() && 0 <= q < chart[r].1.len() ==> p(
            chart[r].0,
            #[trigger] chart[r].1[q],
        )
}

/// An item that the chart has under a fid stands in one of its rows.
pub proof fn lemma_has_item_in_rows(
    chart: SpecChart,
    p: spec_fn(i32, SpecItem) -> bool,
    key: i32,
    x: SpecItem,
)
    requires
        all_rows(chart, p),
        has_item(chart, key, x),
    ensures
        p(key, x),
{
    lemma_position(chart, key);
    if position(chart, key) is None {
        assert(row_of(chart, key) =~= Seq::empty());
    }
    let r = position(chart, key)->Some_0;
    let q = choose|q: int| 0 <= q < chart[r].1.len() && chart[r].1[q] == x;
    assert(p(chart[r].0, chart[r].1[q]));
}

pub proof fn lemma_push_all(
    chart: SpecChart,
    key: i32,
    y: SpecItem,
    p: spec_fn(i32, SpecItem) -> bool,
)
    requires
        all_rows(chart, p),
        p(key, y),
    ensures
        all_rows(push_under(chart, key, y), p),
{
    lemma_position(chart, key);
    let after = push_under(chart, key, y);
    assert forall|r: int, q: int| 0 <= r < after.len() && 0 <= q < after[r].1.len() implies p(
        after[r].0,
        #[trigger] after[r].1[q],
    ) by {
        match position(chart, key) {
            Some(i) => {
                if r == i {
                    if q < chart[i].1.len() {
                        assert(after[r].1[q] == chart[i].1[q]);
                    }
                } else {
                    assert(after[r] == chart[r]);
                }
            },
            None => {
                if r < chart.len() {
                    assert(after[r] == chart[r]);
                }
            },
        }
    }
}

pub proof fn lemma_combine_all(
    active: SpecChart,
    key: i32,
    item: SpecItem,
    child: i32,
    row: Seq<SpecItem>,
    p: spec_fn(i32, SpecItem) -> bool,
)
    requires
        all_rows(active, p),
        forall|t: SpecExpr| p(key, #[trigger] moved_with(item, child, t)),
    ensures
        all_rows(combine(active, key, item, child, row), p),
    decreases row.len(),
{
    if row.len() > 0 {
        lemma_combine_all(active, key, item, child, row.drop_last(), p);
        if let Some(tree) = row.last().tree {
            lemma_push_all(
                combine(active, key, item, child, row.drop_last()),
                key,
                moved_with(item, child, tree),
                p,
            );
        }
    }
}

pub proof fn lemma_coerce_row_all(
    active: SpecChart,
    key: i32,
    arg: i32,
    row: Seq<SpecItem>,
    p: spec_fn(i32, SpecItem) -> bool,
)
    requires
        all_rows(active, p),
        forall|k: i32, a: i32, t: SpecExpr| p(k, #[trigger] coerced(k, a, t)),
    ensures
        all_rows(coerce_row(active, key, arg, row), p),
    decreases row.len(),
{
    if row.len() > 0 {
        lemma_coerce_row_all(active, key, arg, row.drop_last(), p);
        if let Some(tree) = row.last().tree {
            lemma_push_all(
                coerce_row(active, key, arg, row.drop_last()),
                key,
                coerced(key, arg, tree),
                p,
            );
        }
    }
}

pub proof fn lemma_coerce_prods_all(
    active: SpecChart,
    passive: SpecChart,
    key: i32,
    prods: Seq<SpecProduction>,
    p: spec_fn(i32, SpecItem) -> bool,
)
    requires
        all_rows(active, p),
        forall|k: i32, a: i32, t: SpecExpr| p(k, #[trigger] coerced(k, a, t)),
    ensures
        all_rows(coerce_prods(active, passive, key, prods), p),
    decreases prods.len(),
{
    if prods.len() > 0 {
        lemma_coerce_prods_all(active, passive, key, prods.drop_last(), p);
        if let SpecProduction::Coerce { arg } = prods.last() {
            lemma_coerce_row_all(
                coerce_prods(active, passive, key, prods.drop_last()),
                key,
                arg,
                row_of(passive, arg),
                p,
            );
        }
    }
}

pub proof fn lemma_coerce_sets_all(
    active: SpecChart,
    passive: SpecChart,
    sets: Seq<(i32, Seq<SpecProduction>)>,
    p: spec_fn(i32, SpecItem) -> bool,
)
    requires
        all_rows(active, p),
        forall|k: i32, a: i32, t: SpecExpr| p(k, #[trigger] coerced(k, a, t)),
    ensures
        all_rows(coerce_sets(active, passive, sets), p),
    decreases sets.len(),
{
    if sets.len() > 0 {
        lemma_coerce_sets_all(active, passive, sets.drop_last(), p);
        lemma_coerce_prods_all(
            coerce_sets(active, passive, sets.drop_last()),
            passive,
            sets.last().0,
            sets.last().1,
            p,
        );
    }
}

/// What an item that sees a token may leave in the charts is as `pa` says
/// of active items and as `pp` says of passive items.
pub open spec fn leaves_only(
    cnc: SpecConcrete,
    token: Seq<char>,
    key: i32,
    item: SpecItem,
    pa: spec_fn(i32, SpecItem) -> bool,
    pp: spec_fn(i32, SpecItem) -> bool,
) -> bool {
    &&& 0 <= item.seqid < cnc.sequences.len() && item.dot < cnc.sequences[item.seqid as int].len()
        && cnc.sequences[item.seqid as int][item.dot] == SpecSymbol::SymKS(token) ==> pa(
        key,
        moved(item),
    )
    &&& forall|child: i32, t: SpecExpr| pa(key, #[trigger] moved_with(item, child, t))
    &&& at_end(cnc, item) ==> pp(key, done(cnc, item))
}

pub proof fn lemma_scan_item_all(
    cnc: SpecConcrete,
    token: Seq<char>,
    key: i32,
    item: SpecItem,
    charts: (SpecChart, SpecChart),
    pa: spec_fn(i32, SpecItem) -> bool,
    pp: spec_fn(i32, SpecItem) -> bool,
)
    requires
        all_rows(charts.0, pa),
        all_rows(charts.1, pp),
        leaves_only(cnc, token, key, item, pa, pp),
    ensures
        all_rows(scan_item(cnc, token, key, item, charts).0, pa),
        all_rows(scan_item(cnc, token, key, item, charts).1, pp),
{
    if 0 <= item.seqid < cnc.sequences.len() {
        let seq = cnc.sequences[item.seqid as int];
        if item.dot < seq.len() {
            match seq[item.dot] {
                SpecSymbol::SymKS(t) => {
                    if t == token {
                        lemma_push_all(charts.0, key, moved(item), pa);
                    }
                },
                SpecSymbol::SymCat(_, child) => {
                    lemma_combine_all(charts.0, key, item, child, row_of(charts.1, child), pa);
                },
                _ => {},
            }
        } else if 0 <= item.fid < cnc.cncfuns.len() {
            lemma_push_all(charts.1, key, done(cnc, item), pp);
        }
    }
}

pub proof fn lemma_scan_row_all(
    cnc: SpecConcrete,
    token: Seq<char>,
    key: i32,
    items: Seq<SpecItem>,
    charts: (SpecChart, SpecChart),
    pa: spec_fn(i32, SpecItem) -> bool,
    pp: spec_fn(i32, SpecItem) -> bool,
)
    requires
        all_rows(charts.0, pa),
        all_rows(charts.1, pp),
        forall|q: int|
            0 <= q < items.len() ==> leaves_only(cnc, token, key, #[trigger] items[q], pa, pp),
    ensures
        all_rows(scan_row(cnc, token, key, items, charts).0, pa),
        all_rows(scan_row(cnc, token, key, items, charts).1, pp),
    decreases items.len(),
{
    if items.len() > 0 {
        let head = items.drop_last();
        assert forall|q: int| 0 <= q < head.len() implies leaves_only(
            cnc,
            token,
            key,
            #[trigger] head[q],
            pa,
            pp,
        ) by {
            assert(head[q] == items[q]);
        }
        lemma_scan_row_all(cnc, token, key, head, charts, pa, pp);
        assert(leaves_only(cnc, token, key, items[items.len() - 1], pa, pp));
        lemma_scan_item_all(
            cnc,
            token,
            key,
            items.last(),
            scan_row(cnc, token, key, head, charts),
            pa,
            pp,
        );
    }
}

/// What the items of a chart may leave when they see a token is as `pa`
/// and `pp` say.
pub open spec fn rows_leave_only(
    cnc: SpecConcrete,
    token: Seq<char>,
    rows: SpecChart,
    pa: spec_fn(i32, SpecItem) -> bool,
    pp: spec_fn(i32, SpecItem) -> bool,
) -> bool {
    forall|r: int, q: int|
        0 <= r < rows.len() && 0 <= q < rows[r].1.len() ==> leaves_only(
            cnc,
            token,
            rows[r].0,
            #[trigger] rows[r].1[q],
            pa,
            pp,
        )
}

pub proof fn lemma_scan_chart_all(
    cnc: SpecConcrete,
    token: Seq<char>,
    rows: SpecChart,
    charts: (SpecChart, SpecChart),
    pa: spec_fn(i32, SpecItem) -> bool,
    pp: spec_fn(i32, SpecItem) -> bool,
)
    requires
        all_rows(charts.0, pa),
        all_rows(charts.1, pp),
        rows_leave_only(cnc, token, rows, pa, pp),
    ensures
        all_rows(scan_chart(cnc, token, rows, charts).0, pa),
        all_rows(scan_chart(cnc, token, rows, charts).1, pp),
    decreases rows.len(),
{
    if rows.len() > 0 {
        let head = rows.drop_last();
        assert forall|r: int, q: int|
            0 <= r < head.len() && 0 <= q < head[r].1.len() implies leaves_only(
            cnc,
            token,
            head[r].0,
            #[trigger] head[r].1[q],
            pa,
            pp,
        ) by {
            assert(head[r] == rows[r]);
            assert(leaves_only(cnc, token, rows[r].0, rows[r].1[q], pa, pp));
        }
        lemma_scan_chart_all(cnc, token, head, charts, pa, pp);
        let last = rows.len() - 1;
        assert forall|q: int| 0 <= q < rows[last].1.len() implies leaves_only(
            cnc,
            token,
            rows[last].0,
            #[trigger] rows[last].1[q],
            pa,
            pp,
        ) by {}
        lemma_scan_row_all(
            cnc,
            token,
            rows.last().0,
            rows.last().1,
            scan_chart(cnc, token, head, charts),
            pa,
            pp,
        );
    }
}

/// One of the productions of the goal applies the function `fid`.
pub open spec fn applied(cnc: SpecConcrete, goal: i32, fid: i32) -> bool {
    exists|j: int|
        0 <= j < productions_of(cnc, goal).len() && (#[trigger] productions_of(cnc, goal)[j])
            is Apply && productions_of(cnc, goal)[j]->Apply_fid == fid
}

/// The first `k` symbols of the sequence in which the function `fid`
/// starts are the first `k` of the words.
pub open spec fn follows(cnc: SpecConcrete, fid: i32, words: Seq<Seq<char>>, k: int) -> bool {
    &&& 0 <= first_lin(cnc, fid) < cnc.sequences.len()
    &&& k <= cnc.sequences[first_lin(cnc, fid) as int].len()
    &&& forall|i: int|
        0 <= i < k ==> cnc.sequences[first_lin(cnc, fid) as int][i] == SpecSymbol::SymKS(
            #[trigger] words[i],
        )
}

/// What holds of an active item after `k` words: an item without trees of
/// arguments is an item of the goal, for a function that the goal applies,
/// with its dot after `k` symbols, which were the `k` words.
pub open spec fn walked(
    cnc: SpecConcrete,
    goal: i32,
    words: Seq<Seq<char>>,
    k: int,
    key: i32,
    x: SpecItem,
) -> bool {
    x.args.len() == 0 ==> {
        &&& key == goal
        &&& x.tree is None
        &&& x.dot == k
        &&& x.seqid == first_lin(cnc, x.fid)
        &&& applied(cnc, goal, x.fid)
        &&& k > 0 ==> follows(cnc, x.fid, words, k)
    }
}

/// What holds of a passive item after `k` words: it has the tree of its
/// function and arguments, and an item without trees of arguments is an
/// item of the goal, for a function that the goal applies, whose sequence
/// was the words up to some point before the `k`th.
pub open spec fn arrived(
    cnc: SpecConcrete,
    goal: i32,
    words: Seq<Seq<char>>,
    k: int,
    key: i32,
    x: SpecItem,
) -> bool {
    &&& 0 <= x.fid < cnc.cncfuns.len()
    &&& x.tree == Some(spec_build_tree(cnc.cncfuns[x.fid as int], x.args))
    &&& x.args.len() == 0 ==> {
        &&& key == goal
        &&& applied(cnc, goal, x.fid)
        &&& x.seqid == first_lin(cnc, x.fid)
        &&& follows(cnc, x.fid, words, x.dot)
        &&& x.dot == cnc.sequences[first_lin(cnc, x.fid) as int].len()
        &&& x.dot < k
    }
}

/// The seeds of productions are items for functions that the productions
/// apply.
pub proof fn lemma_seeds_are(cnc: SpecConcrete, prods: Seq<SpecProduction>, q: int)
    requires
        0 <= q < seeds(cnc, prods).len(),
    ensures
        exists|j: int|
            0 <= j < prods.len() && (#[trigger] prods[j]) is Apply && seeds(cnc, prods)[q] == seed(
                cnc,
                prods[j]->Apply_fid,
            ),
    decreases prods.len(),
{
    let head = seeds(cnc, prods.drop_last());
    let last = prods.len() - 1;
    if q < head.len() {
        lemma_seeds_are(cnc, prods.drop_last(), q);
        let j = choose|j: int|
            0 <= j < prods.drop_last().len() && (#[trigger] prods.drop_last()[j]) is Apply
                && head[q] == seed(cnc, prods.drop_last()[j]->Apply_fid);
        assert(prods[j] == prods.drop_last()[j]);
        assert(seeds(cnc, prods)[q] == head[q]);
    } else {
        assert(prods[last] is Apply);
    }
}

/// What a token does to the charts of a state whose items are as they must
/// be after `k - 1` words: they are as they must be after `k` words.
pub proof fn lemma_step_all(
    s: SpecParseState,
    cnc: SpecConcrete,
    goal: i32,
    words: Seq<Seq<char>>,
    k: int,
)
    requires
        table_get(s.pgf.concretes, s.lang) == Some(cnc),
        0 < k <= words.len(),
        all_rows(s.active, |key: i32, x: SpecItem| walked(cnc, goal, words, k - 1, key, x)),
        all_rows(s.passive, |key: i32, x: SpecItem| arrived(cnc, goal, words, k - 1, key, x)),
    ensures
        all_rows(
            spec_next_state(s, words[k - 1]).active,
            |key: i32, x: SpecItem| walked(cnc, goal, words, k, key, x),
        ),
        all_rows(
            spec_next_state(s, words[k - 1]).passive,
            |key: i32, x: SpecItem| arrived(cnc, goal, words, k, key, x),
        ),
{
    let token = words[k - 1];
    let pa = |key: i32, x: SpecItem| walked(cnc, goal, words, k, key, x);
    let pp = |key: i32, x: SpecItem| arrived(cnc, goal, words, k, key, x);
    let start = (Seq::<(i32, Seq<SpecItem>)>::empty(), s.passive);
    assert(all_rows(start.0, pa));
    assert(all_rows(start.1, pp));
    assert forall|r: int, q: int|
        0 <= r < s.active.len() && 0 <= q < s.active[r].1.len() implies leaves_only(
        cnc,
        token,
        s.active[r].0,
        #[trigger] s.active[r].1[q],
        pa,
        pp,
    ) by {
        let key = s.active[r].0;
        let item = s.active[r].1[q];
        assert(walked(cnc, goal, words, k - 1, key, item));
        if item.args.len() == 0 && at_end(cnc, item) {
            assert(apply_all(SpecExpr::Fun(cnc.cncfuns[item.fid as int].name), item.args)
                == SpecExpr::Fun(cnc.cncfuns[item.fid as int].name));
        }
    }
    lemma_scan_chart_all(cnc, token, s.active, start, pa, pp);
    let charts = scan_chart(cnc, token, s.active, start);
    lemma_coerce_sets_all(charts.0, charts.1, cnc.productions, pa);
}

/// The items of a state that starts out of the goal and has seen the first
/// `k` words are as they must be after `k` words.
pub proof fn lemma_run_all(
    s: SpecParseState,
    cnc: SpecConcrete,
    goal: i32,
    words: Seq<Seq<char>>,
    k: int,
)
    requires
        table_get(s.pgf.concretes, s.lang) == Some(cnc),
        s.active == initial_chart(cnc, goal),
        s.passive == Seq::<(i32, Seq<SpecItem>)>::empty(),
        0 <= k <= words.len(),
    ensures
        all_rows(
            run(s, words.take(k)).active,
            |key: i32, x: SpecItem| walked(cnc, goal, words, k, key, x),
        ),
        all_rows(
            run(s, words.take(k)).passive,
            |key: i32, x: SpecItem| arrived(cnc, goal, words, k, key, x),
        ),
    decreases k,
{
    if k == 0 {
        assert(words.take(0) =~= Seq::empty());
        let pa = |key: i32, x: SpecItem| walked(cnc, goal, words, 0, key, x);
        let prods = productions_of(cnc, goal);
        assert forall|r: int, q: int|
            0 <= r < s.active.len() && 0 <= q < s.active[r].1.len() implies pa(
            s.active[r].0,
            #[trigger] s.active[r].1[q],
        ) by {
            lemma_seeds_are(cnc, prods, q);
        }
    } else {
        lemma_run_all(s, cnc, goal, words, k - 1);
        lemma_run_keeps(s, words.take(k - 1));
        assert(words.take(k).drop_last() =~= words.take(k - 1));
        assert(words.take(k).last() == words[k - 1]);
        lemma_step_all(run(s, words.take(k - 1)), cnc, goal, words, k);
    }
}

/// A tree among the trees of the finished items of a row is the tree of
/// one of them.
pub proof fn lemma_finished_from(cnc: SpecConcrete, row: Seq<SpecItem>, tree: SpecExpr)
    requires
        finished(cnc, row).contains(tree),
    ensures
        exists|q: int|
            0 <= q < row.len() && (#[trigger] row[q]).tree == Some(tree) && row[q].dot
                == sequence_len(cnc, row[q].seqid),
    decreases row.len(),
{
    if row.len() > 0 {
        let head = row.drop_last();
        let before = finished(cnc, head);
        let last = row.len() - 1;
        let n = choose|n: int| 0 <= n < finished(cnc, row).len() && finished(cnc, row)[n] == tree;
        if n < before.len() && finished(cnc, row)[n] == before[n] {
            assert(before.contains(tree));
            lemma_finished_from(cnc, head, tree);
            let q = choose|q: int|
                0 <= q < head.len() && (#[trigger] head[q]).tree == Some(tree) && head[q].dot
                    == sequence_len(cnc, head[q].seqid);
            assert(row[q] == head[q]);
        } else {
            assert(row[last].tree == Some(tree));
        }
    }
}

/// A function applied to trees is the function alone only where there
/// are no trees.
pub proof fn lemma_apply_all_fun(head: SpecExpr, args: Seq<(i32, SpecExpr)>)
    requires
        head is Fun,
        apply_all(head, args) is Fun,
    ensures
        args.len() == 0,
        apply_all(head, args) == head,
{
}

} // verus!
