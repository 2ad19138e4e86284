//! What the parser finds again: a text whose tokens begin with the tokens
//! of a function of the goal, and go on, has the function among its trees.

use vstd::prelude::*;

use crate::chart::{apply_all, push_under, row_of, spec_build_tree, SpecChart, SpecItem};
use crate::grammar::{SpecConcrete, SpecExpr, SpecPgf, SpecProduction, SpecSymbol, SpecType};
use crate::linearize::{first_field, first_named, joined, spec_linearize, tokens_in};
use crate::origin::{
    arrived, lemma_apply_all_fun, lemma_finished_from, lemma_has_item_in_rows, lemma_run_all,
};
use crate::parse::{
    coerce_prods, coerce_row, coerce_sets, coerced, combine, completed, finished, first_lin,
    initial_chart, is_space, lemma_run_keeps, moved, moved_with, productions_of, run, scan_chart,
    scan_item, scan_row, seed, seeds, sequence_len, spec_init_state, spec_next_state, spec_parse,
    tokens_of, words_and_rest, SpecParseState,
};
use crate::table::{lemma_position, lemma_position_is, lemma_without_repeats, position, table_get};
use crate::types::ground;

verus! {

/// The chart has the item under the fid.
pub open spec fn has_item(chart: SpecChart, key: i32, x: SpecItem) -> bool {
    row_of(chart, key).contains(x)
}

/// An item that is added is in the chart.
pub proof fn lemma_push_has(chart: SpecChart, key: i32, x: SpecItem)
    ensures
        has_item(push_under(chart, key, x), key, x),
{
    lemma_position(chart, key);
    let after = push_under(chart, key, x);
    match position(chart, key) {
        Some(i) => {
            assert forall|j: int| 0 <= j < i implies after[j].0 != key by {
                assert(after[j] == chart[j]);
            }
            lemma_position_is(after, key, i);
            let row = chart[i].1.push(x);
            assert(row[row.len() - 1] == x);
        },
        None => {
            let i = chart.len() as int;
            assert forall|j: int| 0 <= j < i implies after[j].0 != key by {
                assert(after[j] == chart[j]);
            }
            lemma_position_is(after, key, i);
            assert(seq![x][0] == x);
        },
    }
}

/// Adding an item keeps the items of the chart.
pub proof fn lemma_push_keeps(chart: SpecChart, k2: i32, y: SpecItem, key: i32, x: SpecItem)
    requires
        has_item(chart, key, x),
    ensures
        has_item(push_under(chart, k2, y), key, x),
{
    lemma_position(chart, key);
    lemma_position(chart, k2);
    let after = push_under(chart, k2, y);
    let i = position(chart, key)->Some_0;
    assert(position(chart, key) is Some) by {
        if position(chart, key) is None {
            assert(row_of(chart, key) =~= Seq::empty());
        }
    }
    assert forall|j: int| 0 <= j < i implies after[j].0 != key by {
        assert(after[j].0 == chart[j].0);
    }
    assert(after[i].0 == key);
    lemma_position_is(after, key, i);
    let n = choose|n: int| 0 <= n < chart[i].1.len() && chart[i].1[n] == x;
    assert(after[i].1[n] == x);
}

/// Meeting the passive items of a row keeps the items of the active chart.
pub proof fn lemma_combine_keeps(
    active: SpecChart,
    k2: i32,
    item: SpecItem,
    child: i32,
    row: Seq<SpecItem>,
    key: i32,
    x: SpecItem,
)
    requires
        has_item(active, key, x),
    ensures
        has_item(combine(active, k2, item, child, row), key, x),
    decreases row.len(),
{
    if row.len() > 0 {
        lemma_combine_keeps(active, k2, item, child, row.drop_last(), key, x);
        let before = combine(active, k2, item, child, row.drop_last());
        match row.last().tree {
            Some(tree) => {
                lemma_push_keeps(before, k2, moved_with(item, child, tree), key, x);
            },
            None => {},
        }
    }
}

/// A coercion keeps the items of the active chart.
pub proof fn lemma_coerce_row_keeps(
    active: SpecChart,
    k2: i32,
    arg: i32,
    row: Seq<SpecItem>,
    key: i32,
    x: SpecItem,
)
    requires
        has_item(active, key, x),
    ensures
        has_item(coerce_row(active, k2, arg, row), key, x),
    decreases row.len(),
{
    if row.len() > 0 {
        lemma_coerce_row_keeps(active, k2, arg, row.drop_last(), key, x);
        let before = coerce_row(active, k2, arg, row.drop_last());
        match row.last().tree {
            Some(tree) => {
                lemma_push_keeps(before, k2, coerced(k2, arg, tree), key, x);
            },
            None => {},
        }
    }
}

/// The coercions of a set keep the items of the active chart.
pub proof fn lemma_coerce_prods_keeps(
    active: SpecChart,
    passive: SpecChart,
    k2: i32,
    prods: Seq<SpecProduction>,
    key: i32,
    x: SpecItem,
)
    requires
        has_item(active, key, x),
    ensures
        has_item(coerce_prods(active, passive, k2, prods), key, x),
    decreases prods.len(),
{
    if prods.len() > 0 {
        lemma_coerce_prods_keeps(active, passive, k2, prods.drop_last(), key, x);
        let before = coerce_prods(active, passive, k2, prods.drop_last());
        match prods.last() {
            SpecProduction::Coerce { arg } => {
                lemma_coerce_row_keeps(before, k2, arg, row_of(passive, arg), key, x);
            },
            SpecProduction::Apply { .. } => {},
        }
    }
}

/// The coercions of a grammar keep the items of the active chart.
pub proof fn lemma_coerce_sets_keeps(
    active: SpecChart,
    passive: SpecChart,
    sets: Seq<(i32, Seq<SpecProduction>)>,
    key: i32,
    x: SpecItem,
)
    requires
        has_item(active, key, x),
    ensures
        has_item(coerce_sets(active, passive, sets), key, x),
    decreases sets.len(),
{
    if sets.len() > 0 {
        lemma_coerce_sets_keeps(active, passive, sets.drop_last(), key, x);
        lemma_coerce_prods_keeps(
            coerce_sets(active, passive, sets.drop_last()),
            passive,
            sets.last().0,
            sets.last().1,
            key,
            x,
        );
    }
}

/// An item that sees a token keeps the items of both charts.
pub proof fn lemma_scan_item_keeps(
    cnc: SpecConcrete,
    token: Seq<char>,
    k2: i32,
    item: SpecItem,
    charts: (SpecChart, SpecChart),
    key: i32,
    x: SpecItem,
)
    ensures
        has_item(charts.0, key, x) ==> has_item(scan_item(cnc, token, k2, item, charts).0, key, x),
        has_item(charts.1, key, x) ==> has_item(scan_item(cnc, token, k2, item, charts).1, key, x),
{
    if 0 <= item.seqid < cnc.sequences.len() {
        let seq = cnc.sequences[item.seqid as int];
        if item.dot < seq.len() {
            match seq[item.dot] {
                SpecSymbol::SymKS(t) => {
                    if t == token && has_item(charts.0, key, x) {
                        lemma_push_keeps(charts.0, k2, moved(item), key, x);
                    }
                },
                SpecSymbol::SymCat(_, child) => {
                    if has_item(charts.0, key, x) {
                        lemma_combine_keeps(
                            charts.0,
                            k2,
                            item,
                            child,
                            row_of(charts.1, child),
                            key,
                            x,
                        );
                    }
                },
                _ => {},
            }
        } else if 0 <= item.fid < cnc.cncfuns.len() {
            if has_item(charts.1, key, x) {
                lemma_push_keeps(
                    charts.1,
                    k2,
                    completed(item, spec_build_tree(cnc.cncfuns[item.fid as int], item.args)),
                    key,
                    x,
                );
            }
        }
    }
}

/// The items of a row that see a token keep the items of both charts.
pub proof fn lemma_scan_row_keeps(
    cnc: SpecConcrete,
    token: Seq<char>,
    k2: i32,
    items: Seq<SpecItem>,
    charts: (SpecChart, SpecChart),
    key: i32,
    x: SpecItem,
)
    ensures
        has_item(charts.0, key, x) ==> has_item(scan_row(cnc, token, k2, items, charts).0, key, x),
        has_item(charts.1, key, x) ==> has_item(scan_row(cnc, token, k2, items, charts).1, key, x),
    decreases items.len(),
{
    if items.len() > 0 {
        lemma_scan_row_keeps(cnc, token, k2, items.drop_last(), charts, key, x);
        lemma_scan_item_keeps(
            cnc,
            token,
            k2,
            items.last(),
            scan_row(cnc, token, k2, items.drop_last(), charts),
            key,
            x,
        );
    }
}

/// The rows that see a token keep the items of both charts.
pub proof fn lemma_scan_chart_keeps(
    cnc: SpecConcrete,
    token: Seq<char>,
    rows: SpecChart,
    charts: (SpecChart, SpecChart),
    key: i32,
    x: SpecItem,
)
    ensures
        has_item(charts.0, key, x) ==> has_item(scan_chart(cnc, token, rows, charts).0, key, x),
        has_item(charts.1, key, x) ==> has_item(scan_chart(cnc, token, rows, charts).1, key, x),
    decreases rows.len(),
{
    if rows.len() > 0 {
        lemma_scan_chart_keeps(cnc, token, rows.drop_last(), charts, key, x);
        lemma_scan_row_keeps(
            cnc,
            token,
            rows.last().0,
            rows.last().1,
            scan_chart(cnc, token, rows.drop_last(), charts),
            key,
            x,
        );
    }
}

/// The dot of the item stands before the token.
pub open spec fn before_token(cnc: SpecConcrete, item: SpecItem, token: Seq<char>) -> bool {
    &&& 0 <= item.seqid < cnc.sequences.len()
    &&& 0 <= item.dot < cnc.sequences[item.seqid as int].len()
    &&& cnc.sequences[item.seqid as int][item.dot] == SpecSymbol::SymKS(token)
}

/// The dot of the item stands at the end of its sequence, and the grammar
/// has the function of the item.
pub open spec fn at_end(cnc: SpecConcrete, item: SpecItem) -> bool {
    &&& 0 <= item.seqid < cnc.sequences.len()
    &&& item.dot >= cnc.sequences[item.seqid as int].len()
    &&& 0 <= item.fid < cnc.cncfuns.len()
}

/// The passive item that an item at its end becomes.
pub open spec fn done(cnc: SpecConcrete, item: SpecItem) -> SpecItem {
    completed(item, spec_build_tree(cnc.cncfuns[item.fid as int], item.args))
}

/// What an item that sees a token leaves in the charts.
pub proof fn lemma_scan_item_leaves(
    cnc: SpecConcrete,
    token: Seq<char>,
    key: i32,
    item: SpecItem,
    charts: (SpecChart, SpecChart),
)
    ensures
        before_token(cnc, item, token) ==> has_item(
            scan_item(cnc, token, key, item, charts).0,
            key,
            moved(item),
        ),
        at_end(cnc, item) ==> has_item(
            scan_item(cnc, token, key, item, charts).1,
            key,
            done(cnc, item),
        ),
{
    if before_token(cnc, item, token) {
        lemma_push_has(charts.0, key, moved(item));
    }
    if at_end(cnc, item) {
        lemma_push_has(charts.1, key, done(cnc, item));
    }
}

/// What an item of a row leaves in the charts when the row sees a token.
pub proof fn lemma_scan_row_leaves(
    cnc: SpecConcrete,
    token: Seq<char>,
    key: i32,
    items: Seq<SpecItem>,
    charts: (SpecChart, SpecChart),
    item: SpecItem,
)
    requires
        items.contains(item),
    ensures
        before_token(cnc, item, token) ==> has_item(
            scan_row(cnc, token, key, items, charts).0,
            key,
            moved(item),
        ),
        at_end(cnc, item) ==> has_item(
            scan_row(cnc, token, key, items, charts).1,
            key,
            done(cnc, item),
        ),
    decreases items.len(),
{
    let q = choose|q: int| 0 <= q < items.len() && items[q] == item;
    let before = scan_row(cnc, token, key, items.drop_last(), charts);
    if q == items.len() - 1 {
        lemma_scan_item_leaves(cnc, token, key, item, before);
    } else {
        assert(items.drop_last()[q] == item);
        lemma_scan_row_leaves(cnc, token, key, items.drop_last(), charts, item);
        lemma_scan_item_keeps(cnc, token, key, items.last(), before, key, moved(item));
        lemma_scan_item_keeps(cnc, token, key, items.last(), before, key, done(cnc, item));
    }
}

/// What an item of the active chart leaves in the charts when the chart
/// sees a token.
pub proof fn lemma_scan_chart_leaves(
    cnc: SpecConcrete,
    token: Seq<char>,
    rows: SpecChart,
    charts: (SpecChart, SpecChart),
    key: i32,
    item: SpecItem,
)
    requires
        has_item(rows, key, item),
    ensures
        before_token(cnc, item, token) ==> has_item(
            scan_chart(cnc, token, rows, charts).0,
            key,
            moved(item),
        ),
        at_end(cnc, item) ==> has_item(
            scan_chart(cnc, token, rows, charts).1,
            key,
            done(cnc, item),
        ),
    decreases rows.len(),
{
    lemma_position(rows, key);
    assert(position(rows, key) is Some) by {
        if position(rows, key) is None {
            assert(row_of(rows, key) =~= Seq::empty());
        }
    }
    let r = position(rows, key)->Some_0;
    let before = scan_chart(cnc, token, rows.drop_last(), charts);
    if r == rows.len() - 1 {
        lemma_scan_row_leaves(cnc, token, key, rows.last().1, before, item);
    } else {
        let head = rows.drop_last();
        assert(head[r] == rows[r]);
        assert forall|j: int| 0 <= j < r implies head[j].0 != key by {
            assert(head[j] == rows[j]);
        }
        lemma_position_is(head, key, r);
        lemma_scan_chart_leaves(cnc, token, head, charts, key, item);
        lemma_scan_row_keeps(cnc, token, rows.last().0, rows.last().1, before, key, moved(item));
        lemma_scan_row_keeps(
            cnc,
            token,
            rows.last().0,
            rows.last().1,
            before,
            key,
            done(cnc, item),
        );
    }
}

/// What a token does to an item of the active chart of a state, and to the
/// passive items: an item before the token moves on, an item at its end
/// becomes passive, and what is passive stays so.
pub proof fn lemma_step(s: SpecParseState, token: Seq<char>, key: i32, item: SpecItem)
    requires
        table_get(s.pgf.concretes, s.lang) is Some,
    ensures
        has_item(s.active, key, item) && before_token(
            table_get(s.pgf.concretes, s.lang)->Some_0,
            item,
            token,
        ) ==> has_item(spec_next_state(s, token).active, key, moved(item)),
        has_item(s.active, key, item) && at_end(table_get(s.pgf.concretes, s.lang)->Some_0, item)
            ==> has_item(
            spec_next_state(s, token).passive,
            key,
            done(table_get(s.pgf.concretes, s.lang)->Some_0, item),
        ),
        has_item(s.passive, key, item) ==> has_item(spec_next_state(s, token).passive, key, item),
{
    let cnc = table_get(s.pgf.concretes, s.lang)->Some_0;
    let start = (Seq::<(i32, Seq<SpecItem>)>::empty(), s.passive);
    let charts = scan_chart(cnc, token, s.active, start);
    if has_item(s.active, key, item) {
        lemma_scan_chart_leaves(cnc, token, s.active, start, key, item);
        if before_token(cnc, item, token) {
            lemma_coerce_sets_keeps(charts.0, charts.1, cnc.productions, key, moved(item));
        }
    }
    lemma_scan_chart_keeps(cnc, token, s.active, start, key, item);
}

/// The item of the function `fid` with the dot after `k` tokens.
pub open spec fn walker(cnc: SpecConcrete, fid: i32, k: int) -> SpecItem {
    SpecItem { fid, seqid: first_lin(cnc, fid), dot: k, args: Seq::empty(), tree: None }
}

/// The sequence in which the function `fid` starts is the tokens `words`
/// up to some point before their end.
pub open spec fn starts_with_sequence(cnc: SpecConcrete, fid: i32, words: Seq<Seq<char>>) -> bool {
    &&& 0 <= fid < cnc.cncfuns.len()
    &&& 0 <= first_lin(cnc, fid) < cnc.sequences.len()
    &&& cnc.sequences[first_lin(cnc, fid) as int].len() < words.len()
    &&& forall|i: int|
        0 <= i < cnc.sequences[first_lin(cnc, fid) as int].len() ==> cnc.sequences[first_lin(
            cnc,
            fid,
        ) as int][i] == SpecSymbol::SymKS(#[trigger] words[i])
}

/// The seeds of productions have an item for each application.
pub proof fn lemma_seeds_have(cnc: SpecConcrete, prods: Seq<SpecProduction>, j: int)
    requires
        0 <= j < prods.len(),
        prods[j] is Apply,
    ensures
        seeds(cnc, prods).contains(seed(cnc, prods[j]->Apply_fid)),
    decreases prods.len(),
{
    let head = seeds(cnc, prods.drop_last());
    if j == prods.len() - 1 {
        let all = head.push(seed(cnc, prods[j]->Apply_fid));
        assert(all[all.len() - 1] == seed(cnc, prods[j]->Apply_fid));
    } else {
        assert(prods.drop_last()[j] == prods[j]);
        lemma_seeds_have(cnc, prods.drop_last(), j);
        let q = choose|q: int| 0 <= q < head.len() && head[q] == seed(cnc, prods[j]->Apply_fid);
        match prods.last() {
            SpecProduction::Apply { fid, .. } => {
                assert(head.push(seed(cnc, fid))[q] == head[q]);
            },
            SpecProduction::Coerce { .. } => {},
        }
    }
}

/// After the first `k` tokens the item of the function stands with its
/// dot after `k` tokens, as long as the sequence of the function goes.
pub proof fn lemma_walk(
    s: SpecParseState,
    cnc: SpecConcrete,
    goal: i32,
    fid: i32,
    words: Seq<Seq<char>>,
    k: int,
)
    requires
        table_get(s.pgf.concretes, s.lang) == Some(cnc),
        has_item(s.active, goal, walker(cnc, fid, 0)),
        starts_with_sequence(cnc, fid, words),
        0 <= k <= cnc.sequences[first_lin(cnc, fid) as int].len(),
    ensures
        has_item(run(s, words.take(k)).active, goal, walker(cnc, fid, k)),
    decreases k,
{
    if k > 0 {
        lemma_walk(s, cnc, goal, fid, words, k - 1);
        let before = run(s, words.take(k - 1));
        lemma_run_keeps(s, words.take(k - 1));
        assert(words.take(k).drop_last() =~= words.take(k - 1));
        assert(words.take(k).last() == words[k - 1]);
        lemma_step(before, words[k - 1], goal, walker(cnc, fid, k - 1));
        assert(moved(walker(cnc, fid, k - 1)) == walker(cnc, fid, k));
    } else {
        assert(words.take(0) =~= Seq::empty());
    }
}

/// Once an item is passive it stays passive as more tokens come.
pub proof fn lemma_stays_passive(
    s: SpecParseState,
    words: Seq<Seq<char>>,
    from: int,
    to: int,
    key: i32,
    x: SpecItem,
)
    requires
        table_get(s.pgf.concretes, s.lang) is Some,
        0 <= from <= to <= words.len(),
        has_item(run(s, words.take(from)).passive, key, x),
    ensures
        has_item(run(s, words.take(to)).passive, key, x),
    decreases to - from,
{
    if from < to {
        lemma_stays_passive(s, words, from, to - 1, key, x);
        lemma_run_keeps(s, words.take(to - 1));
        assert(words.take(to).drop_last() =~= words.take(to - 1));
        assert(words.take(to).last() == words[to - 1]);
        lemma_step(run(s, words.take(to - 1)), words[to - 1], key, x);
    }
}

/// The trees of the finished items of a row have the tree of each of them.
pub proof fn lemma_finished_has(cnc: SpecConcrete, row: Seq<SpecItem>, x: SpecItem)
    requires
        row.contains(x),
        x.tree is Some,
        x.dot == sequence_len(cnc, x.seqid),
    ensures
        finished(cnc, row).contains(x.tree->Some_0),
    decreases row.len(),
{
    let q = choose|q: int| 0 <= q < row.len() && row[q] == x;
    let before = finished(cnc, row.drop_last());
    if q == row.len() - 1 {
        let all = before.push(x.tree->Some_0);
        assert(all[all.len() - 1] == x.tree->Some_0);
    } else {
        assert(row.drop_last()[q] == x);
        lemma_finished_has(cnc, row.drop_last(), x);
        let n = choose|n: int| 0 <= n < before.len() && before[n] == x.tree->Some_0;
        match row.last().tree {
            Some(tree) => {
                assert(before.push(tree)[n] == before[n]);
            },
            None => {},
        }
    }
}

/// A word: a text that is not empty and has no ASCII whitespace.
pub open spec fn is_word(w: Seq<char>) -> bool {
    w.len() > 0 && forall|i: int| 0 <= i < w.len() ==> !is_space(#[trigger] w[i])
}

/// Text without whitespace goes on the word that a text ends in.
pub proof fn lemma_words_append(s: Seq<char>, w: Seq<char>)
    requires
        forall|i: int| 0 <= i < w.len() ==> !is_space(#[trigger] w[i]),
    ensures
        words_and_rest(s + w) == (words_and_rest(s).0, words_and_rest(s).1 + w),
    decreases w.len(),
{
    if w.len() > 0 {
        let head = w.drop_last();
        lemma_words_append(s, head);
        assert((s + w).drop_last() =~= s + head);
        assert((s + w).last() == w.last());
        assert(!is_space(w[w.len() - 1]));
        assert((words_and_rest(s).1 + head).push(w.last()) =~= words_and_rest(s).1 + w);
    } else {
        assert(s + w =~= s);
        assert(words_and_rest(s).1 + w =~= words_and_rest(s).1);
    }
}

/// The words of words that are joined with spaces: all but the last have
/// ended, and the text ends in the last.
pub proof fn lemma_words_of_joined(words: Seq<Seq<char>>)
    requires
        words.len() > 0,
        forall|i: int| 0 <= i < words.len() ==> is_word(#[trigger] words[i]),
    ensures
        words_and_rest(joined(words)) == (words.drop_last(), words.last()),
    decreases words.len(),
{
    reveal_strlit(" ");
    if words.len() == 1 {
        lemma_words_append(Seq::empty(), words[0]);
        assert(Seq::<char>::empty() + words[0] =~= words[0]);
        assert(words.drop_last() =~= Seq::empty());
    } else {
        let init = words.drop_last();
        assert forall|i: int| 0 <= i < init.len() implies is_word(#[trigger] init[i]) by {
            assert(init[i] == words[i]);
        }
        lemma_words_of_joined(init);
        let spaced = joined(init) + " "@;
        assert(spaced.drop_last() =~= joined(init));
        assert(spaced.last() == ' ');
        assert(is_word(init[init.len() - 1]));
        assert(words_and_rest(spaced) == (init.drop_last().push(init.last()), Seq::<char>::empty()));
        assert(init.drop_last().push(init.last()) =~= init);
        assert(is_word(words[words.len() - 1]));
        lemma_words_append(spaced, words.last());
        assert(Seq::<char>::empty() + words.last() =~= words.last());
    }
}

/// The tokens of words that are joined with spaces are the words.
pub proof fn lemma_tokens_of_joined(words: Seq<Seq<char>>)
    requires
        forall|i: int| 0 <= i < words.len() ==> is_word(#[trigger] words[i]),
    ensures
        tokens_of(joined(words)) == words,
{
    if words.len() > 0 {
        lemma_words_of_joined(words);
        assert(is_word(words[words.len() - 1]));
        assert(words.drop_last().push(words.last()) =~= words);
    } else {
        assert(tokens_of(joined(words)) =~= words);
    }
}

/// One of the productions of the goal applies a function of the name whose
/// sequence is the words up to some point before their end.
pub open spec fn goal_starts_with(
    cnc: SpecConcrete,
    goal: i32,
    f: Seq<char>,
    words: Seq<Seq<char>>,
) -> bool {
    exists|j: int|
        0 <= j < productions_of(cnc, goal).len() && (#[trigger] productions_of(cnc, goal)[j])
            is Apply && starts_with_sequence(cnc, productions_of(cnc, goal)[j]->Apply_fid, words)
            && cnc.cncfuns[productions_of(cnc, goal)[j]->Apply_fid as int].name == f
}

/// Where the parser finds a function: let the language have the category
/// of the goal type, and let one of the productions of the first fid of
/// the category apply a function of the name `f` whose sequence is the
/// tokens of the text up to some point before their end. Then the trees of
/// the text have `f` among them.
pub proof fn lemma_parse_finds(g: SpecPgf, l: Seq<char>, t: SpecType, f: Seq<char>, text: Seq<char>)
    requires
        table_get(g.concretes, l) is Some,
        table_get(table_get(g.concretes, l)->Some_0.cnccats, t.category) is Some,
        goal_starts_with(
            table_get(g.concretes, l)->Some_0,
            table_get(table_get(g.concretes, l)->Some_0.cnccats, t.category)->Some_0.start,
            f,
            tokens_of(text),
        ),
    ensures
        spec_parse(g, l, t, text) is Ok,
        spec_parse(g, l, t, text)->Ok_0.contains(SpecExpr::Fun(f)),
{
    let cnc = table_get(g.concretes, l)->Some_0;
    let words = tokens_of(text);
    let goal = table_get(cnc.cnccats, t.category)->Some_0.start;
    let prods = productions_of(cnc, goal);
    let j = choose|j: int|
        0 <= j < prods.len() && (#[trigger] prods[j]) is Apply && starts_with_sequence(
            cnc,
            prods[j]->Apply_fid,
            words,
        ) && cnc.cncfuns[prods[j]->Apply_fid as int].name == f;
    let fid = prods[j]->Apply_fid;
    let m = cnc.sequences[first_lin(cnc, fid) as int].len() as int;
    let s0 = spec_init_state(g, l, t)->Ok_0;
    // The item of the function is among the seeds.
    lemma_seeds_have(cnc, prods, j);
    assert(has_item(s0.active, goal, walker(cnc, fid, 0))) by {
        let chart = initial_chart(cnc, goal);
        assert(chart[0].0 == goal);
        lemma_position_is(chart, goal, 0);
        assert(seed(cnc, fid) == walker(cnc, fid, 0));
    }
    // It walks to the end of its sequence, and is passive one token later.
    lemma_walk(s0, cnc, goal, fid, words, m);
    let at_m = run(s0, words.take(m));
    lemma_run_keeps(s0, words.take(m));
    lemma_step(at_m, words[m], goal, walker(cnc, fid, m));
    assert(words.take(m + 1).drop_last() =~= words.take(m));
    assert(words.take(m + 1).last() == words[m]);
    let x = done(cnc, walker(cnc, fid, m));
    assert(x.tree == Some(SpecExpr::Fun(f))) by {
        assert(apply_all(SpecExpr::Fun(f), Seq::empty()) == SpecExpr::Fun(f));
    }
    lemma_stays_passive(s0, words, m + 1, words.len() as int, goal, x);
    assert(words.take(words.len() as int) =~= words);
    // Its tree is among the trees of the goal.
    let last = run(s0, words);
    lemma_run_keeps(s0, words);
    lemma_finished_has(cnc, row_of(last.passive, goal), x);
    lemma_without_repeats(finished(cnc, row_of(last.passive, goal)));
}

/// Where the parser has found a function: if the trees of a text have the
/// function `f` among them, then the language has the category of the goal
/// type, and one of the productions of the first fid of the category
/// applies a function of the name `f` whose sequence is the tokens of the
/// text up to some point before their end.
pub proof fn lemma_parse_found(g: SpecPgf, l: Seq<char>, t: SpecType, f: Seq<char>, text: Seq<char>)
    requires
        spec_parse(g, l, t, text) is Ok,
        spec_parse(g, l, t, text)->Ok_0.contains(SpecExpr::Fun(f)),
    ensures
        table_get(g.concretes, l) is Some,
        table_get(table_get(g.concretes, l)->Some_0.cnccats, t.category) is Some,
        goal_starts_with(
            table_get(g.concretes, l)->Some_0,
            table_get(table_get(g.concretes, l)->Some_0.cnccats, t.category)->Some_0.start,
            f,
            tokens_of(text),
        ),
{
    let cnc = table_get(g.concretes, l)->Some_0;
    let words = tokens_of(text);
    let goal = table_get(cnc.cnccats, t.category)->Some_0.start;
    let s0 = spec_init_state(g, l, t)->Ok_0;
    let n = words.len() as int;
    lemma_run_all(s0, cnc, goal, words, n);
    assert(words.take(n) =~= words);
    let last = run(s0, words);
    lemma_run_keeps(s0, words);
    let row = row_of(last.passive, goal);
    lemma_without_repeats(finished(cnc, row));
    lemma_finished_from(cnc, row, SpecExpr::Fun(f));
    let q = choose|q: int|
        0 <= q < row.len() && (#[trigger] row[q]).tree == Some(SpecExpr::Fun(f)) && row[q].dot
            == sequence_len(cnc, row[q].seqid);
    let x = row[q];
    assert(has_item(last.passive, goal, x));
    lemma_has_item_in_rows(
        last.passive,
        |key: i32, x: SpecItem| arrived(cnc, goal, words, n, key, x),
        goal,
        x,
    );
    lemma_apply_all_fun(SpecExpr::Fun(cnc.cncfuns[x.fid as int].name), x.args);
    let prods = productions_of(cnc, goal);
    let j = choose|j: int|
        0 <= j < prods.len() && (#[trigger] prods[j]) is Apply && prods[j]->Apply_fid == x.fid;
    assert(starts_with_sequence(cnc, prods[j]->Apply_fid, words));
}

/// The function `f` is among the trees of a text.
pub open spec fn parse_has(
    g: SpecPgf,
    l: Seq<char>,
    t: SpecType,
    f: Seq<char>,
    text: Seq<char>,
) -> bool {
    spec_parse(g, l, t, text) is Ok && spec_parse(g, l, t, text)->Ok_0.contains(SpecExpr::Fun(f))
}

/// The production of the goal that lets the parser find the function `f`
/// in a text.
pub open spec fn reading_of(
    g: SpecPgf,
    l: Seq<char>,
    t: SpecType,
    f: Seq<char>,
    text: Seq<char>,
) -> bool {
    &&& table_get(g.concretes, l) is Some
    &&& table_get(table_get(g.concretes, l)->Some_0.cnccats, t.category) is Some
    &&& goal_starts_with(
        table_get(g.concretes, l)->Some_0,
        table_get(table_get(g.concretes, l)->Some_0.cnccats, t.category)->Some_0.start,
        f,
        tokens_of(text),
    )
}

/// The parser finds a function in a text in exactly one way: the trees of
/// a text have the function `f` among them if and only if the language has
/// the category of the goal type and one of the productions of the first
/// fid of the category applies a function of the name `f` whose sequence
/// is the tokens of the text up to some point before their end.
pub proof fn lemma_parse_finds_exactly(
    g: SpecPgf,
    l: Seq<char>,
    t: SpecType,
    f: Seq<char>,
    text: Seq<char>,
)
    ensures
        parse_has(g, l, t, f, text) <==> reading_of(g, l, t, f, text),
{
    if parse_has(g, l, t, f, text) {
        lemma_parse_found(g, l, t, f, text);
    }
    if reading_of(g, l, t, f, text) {
        lemma_parse_finds(g, l, t, f, text);
    }
}

/// The parser finds a function again in its own text, where one more
/// token follows a function of its name: let the first field of the first
/// concrete function of the name `f` be tokens only, each of them a word,
/// so that the text of `f` is these words with spaces between. If the
/// language has the start category, and one of the productions of its
/// first fid applies a function of the name `f` whose sequence is these
/// words up to some point before their end, then the trees of the text
/// have `f` among them. They have it in no other case.
pub proof fn lemma_parse_finds_function(g: SpecPgf, l: Seq<char>, f: Seq<char>)
    requires
        table_get(g.concretes, l) is Some,
        first_named(table_get(g.concretes, l)->Some_0.cncfuns, f) is Some,
        ({
            let cnc = table_get(g.concretes, l)->Some_0;
            let field = first_field(cnc, cnc.cncfuns[first_named(cnc.cncfuns, f)->Some_0]);
            &&& field.len() > 0
            &&& forall|i: int| 0 <= i < field.len() ==> (#[trigger] field[i]) is SymKS
            &&& forall|i: int|
                0 <= i < tokens_in(field).len() ==> is_word(#[trigger] tokens_in(field)[i])
        }),
    ensures
        spec_linearize(g, l, SpecExpr::Fun(f)) is Ok,
        ({
            let cnc = table_get(g.concretes, l)->Some_0;
            let field = first_field(cnc, cnc.cncfuns[first_named(cnc.cncfuns, f)->Some_0]);
            parse_has(
                g,
                l,
                ground(g.startcat),
                f,
                spec_linearize(g, l, SpecExpr::Fun(f))->Ok_0,
            ) <==> table_get(cnc.cnccats, g.startcat) is Some && goal_starts_with(
                cnc,
                table_get(cnc.cnccats, g.startcat)->Some_0.start,
                f,
                tokens_in(field),
            )
        }),
{
    let cnc = table_get(g.concretes, l)->Some_0;
    let field = first_field(cnc, cnc.cncfuns[first_named(cnc.cncfuns, f)->Some_0]);
    let text = joined(tokens_in(field));
    lemma_tokens_of_joined(tokens_in(field));
    lemma_parse_finds_exactly(g, l, ground(g.startcat), f, text);
}

} // verus!
