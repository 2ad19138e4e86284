//! What holds of a grammar after it is loaded.
//!
//! In every language, each concrete function has a name of the abstract
//! syntax; each of its fields is a sequence of the language; the symbols of
//! its fields name arguments that the function has, going by the type of
//! the abstract function; every fid lies within the fids of the language;
//! and the coercions do not go in a circle.

use vstd::prelude::*;

use crate::grammar::{
    lemma_alt_view, lemma_symkp_view, lemma_type_view, views, CId, CncCat, Concrete, Function, PArg,
    Pgf, Production, ProductionSet, SpecAlt, SpecConcrete, SpecFunction, SpecPArg, SpecPgf,
    SpecProduction, SpecSymbol, Symbol,
};
use crate::table::{distinct_keys, find_cid, find_productions, lemma_position, position, table_get};
use crate::wire::Cause;

verus! {

/// Each concrete function has a name of the abstract syntax.
pub open spec fn names_known(funs: Seq<(Seq<char>, SpecFunction)>, cnc: SpecConcrete) -> bool {
    forall|i: int|
        0 <= i < cnc.cncfuns.len() ==> position(funs, (#[trigger] cnc.cncfuns[i]).name) is Some
}

/// Each field of each concrete function is a sequence of the language.
pub open spec fn lins_in_range(cnc: SpecConcrete) -> bool {
    forall|i: int, k: int|
        0 <= i < cnc.cncfuns.len() && 0 <= k < cnc.cncfuns[i].lins.len() ==> 0
            <= #[trigger] cnc.cncfuns[i].lins[k] < cnc.sequences.len()
}

/// The number of arguments of the function of a name: the number of
/// hypotheses of its type, and 0 where there is no such function.
pub open spec fn arity(funs: Seq<(Seq<char>, SpecFunction)>, name: Seq<char>) -> int {
    match table_get(funs, name) {
        Some(f) => f.ty.hypos.len() as int,
        None => 0,
    }
}

/// The symbol names only arguments below `n`, at every depth.
pub open spec fn symbol_within(sym: SpecSymbol, n: int) -> bool
    decreases sym,
{
    match sym {
        SpecSymbol::SymCat(d, _) => 0 <= d < n,
        SpecSymbol::SymLit(d, _) => 0 <= d < n,
        SpecSymbol::SymVar(d, _) => 0 <= d < n,
        SpecSymbol::SymKS(_) => true,
        SpecSymbol::SymKP(symbols, alts) => symbols_within(symbols, symbols.len(), n)
            && alts_within(alts, alts.len(), n),
        SpecSymbol::SymNE => true,
    }
}

/// The first `k` symbols name only arguments below `n`.
pub open spec fn symbols_within(s: Seq<SpecSymbol>, k: nat, n: int) -> bool
    decreases s, k,
{
    if k == 0 || k > s.len() {
        true
    } else {
        symbols_within(s, (k - 1) as nat, n) && symbol_within(s[k - 1], n)
    }
}

/// The first `k` variants name only arguments below `n`.
pub open spec fn alts_within(s: Seq<SpecAlt>, k: nat, n: int) -> bool
    decreases s, k,
{
    if k == 0 || k > s.len() {
        true
    } else {
        alts_within(s, (k - 1) as nat, n) && symbols_within(
            s[k - 1].symbols,
            s[k - 1].symbols.len(),
            n,
        )
    }
}

/// The symbols of a sequence name only arguments below `n`.
pub open spec fn sequence_within(s: Seq<SpecSymbol>, n: int) -> bool {
    symbols_within(s, s.len(), n)
}

/// The symbols of the fields of each concrete function name arguments
/// that the function has.
pub open spec fn slots_in_arity(funs: Seq<(Seq<char>, SpecFunction)>, cnc: SpecConcrete) -> bool {
    forall|i: int, k: int|
        0 <= i < cnc.cncfuns.len() && 0 <= k < cnc.cncfuns[i].lins.len() && 0
            <= #[trigger] cnc.cncfuns[i].lins[k] < cnc.sequences.len() ==> sequence_within(
            cnc.sequences[cnc.cncfuns[i].lins[k] as int],
            arity(funs, cnc.cncfuns[i].name),
        )
}

/// A fid of a language with `n` fids.
pub open spec fn fid_in_range(f: i32, n: i32) -> bool {
    0 <= f < n
}

/// The fids of a production argument lie within the `n` fids.
pub open spec fn parg_in_range(a: SpecPArg, n: i32) -> bool {
    fid_in_range(a.fid, n) && forall|h: int|
        0 <= h < a.hypos.len() ==> fid_in_range(#[trigger] a.hypos[h], n)
}

/// The fids of the production arguments lie within the `n` fids.
pub open spec fn pargs_in_range(args: Seq<SpecPArg>, n: i32) -> bool {
    forall|a: int| 0 <= a < args.len() ==> parg_in_range(#[trigger] args[a], n)
}

/// The fids of the arguments of a production, or the fid that it coerces to,
/// lie within the `n` fids.
pub open spec fn production_in_range(p: SpecProduction, n: i32) -> bool {
    match p {
        SpecProduction::Apply { args, .. } => pargs_in_range(args, n),
        SpecProduction::Coerce { arg } => fid_in_range(arg, n),
    }
}

/// The fid of a set of productions and the fids of its productions lie within
/// the `n` fids.
pub open spec fn set_in_range(e: (i32, Seq<SpecProduction>), n: i32) -> bool {
    fid_in_range(e.0, n) && forall|p: int|
        0 <= p < e.1.len() ==> production_in_range(#[trigger] e.1[p], n)
}

/// The range of a category lies within the fids: it starts at a fid or at
/// their end, and ends no earlier and no later than their end.
pub open spec fn range_in_range(c: CncCat, n: i32) -> bool {
    0 <= c.start <= c.end <= n
}

/// Every fid of the language lies within its fids: the ranges of the
/// categories, the fids that have productions, the fids that productions
/// coerce to, and the fids of the arguments of productions.
pub open spec fn fids_in_range(cnc: SpecConcrete) -> bool {
    &&& forall|i: int|
        0 <= i < cnc.cnccats.len() ==> range_in_range((#[trigger] cnc.cnccats[i]).1, cnc.total_cats)
    &&& forall|i: int|
        0 <= i < cnc.productions.len() ==> set_in_range(
            #[trigger] cnc.productions[i],
            cnc.total_cats,
        )
}

/// Whether each concrete function has a name of the abstract syntax.
pub fn check_names(funs: &Vec<(CId, Function)>, cnc: &Concrete) -> (r: bool)
    ensures
        r == names_known(views(funs@), cnc@),
{
    let mut i: usize = 0;
    while i < cnc.cncfuns.len()
        invariant
            i <= cnc.cncfuns.len(),
            forall|j: int| 0 <= j < i ==> position(views(funs@), cnc@.cncfuns[j].name) is Some,
        decreases cnc.cncfuns.len() - i,
    {
        if find_cid(funs, &cnc.cncfuns[i].name).is_none() {
            assert(position(views(funs@), cnc@.cncfuns[i as int].name) is None);
            return false;
        }
        i += 1;
    }
    true
}

/// Whether each field of each concrete function is a sequence of the
/// language.
pub fn check_lins(cnc: &Concrete) -> (r: bool)
    ensures
        r == lins_in_range(cnc@),
{
    let n = cnc.sequences.len();
    let mut i: usize = 0;
    while i < cnc.cncfuns.len()
        invariant
            i <= cnc.cncfuns.len(),
            n == cnc@.sequences.len(),
            forall|j: int, k: int|
                0 <= j < i && 0 <= k < cnc@.cncfuns[j].lins.len() ==> 0
                    <= #[trigger] cnc@.cncfuns[j].lins[k] < n,
        decreases cnc.cncfuns.len() - i,
    {
        let lins = &cnc.cncfuns[i].lins;
        let mut k: usize = 0;
        while k < lins.len()
            invariant
                k <= lins.len(),
                i < cnc.cncfuns.len(),
                lins@ == cnc@.cncfuns[i as int].lins,
                n == cnc@.sequences.len(),
                forall|q: int| 0 <= q < k ==> 0 <= #[trigger] lins@[q] < n,
            decreases lins.len() - k,
        {
            if lins[k] < 0 || lins[k] as usize >= n {
                assert(!(0 <= cnc@.cncfuns[i as int].lins[k as int] < n));
                return false;
            }
            k += 1;
        }
        i += 1;
    }
    true
}

/// Whether the symbol names only arguments below `n`.
pub fn check_symbol(sym: &Symbol, n: usize) -> (r: bool)
    ensures
        r == symbol_within(sym@, n as int),
    decreases sym, 0nat,
{
    match sym {
        Symbol::SymCat(d, _) => *d >= 0 && (*d as usize) < n,
        Symbol::SymLit(d, _) => *d >= 0 && (*d as usize) < n,
        Symbol::SymVar(d, _) => *d >= 0 && (*d as usize) < n,
        Symbol::SymKS(_) => true,
        Symbol::SymKP(symbols, alts) => {
            proof {
                lemma_symkp_view(*symbols, *alts);
            }
            if !check_symbols(symbols, n) {
                return false;
            }
            let mut i: usize = 0;
            while i < alts.len()
                invariant
                    i <= alts.len(),
                    *sym == Symbol::SymKP(*symbols, *alts),
                    sym@ == SpecSymbol::SymKP(views(symbols@), views(alts@)),
                    symbols_within(views(symbols@), symbols@.len(), n as int),
                    alts_within(views(alts@), i as nat, n as int),
                decreases alts.len() - i,
            {
                proof {
                    lemma_alt_view(alts@[i as int]);
                }
                if !check_symbols(&alts[i].symbols, n) {
                    proof {
                        if alts_within(views(alts@), alts@.len(), n as int) {
                            lemma_alts_within_all(views(alts@), alts@.len(), i as int, n as int);
                        }
                    }
                    return false;
                }
                i += 1;
            }
            true
        },
        Symbol::SymNE => true,
    }
}

/// Where the first `k` variants are within, each of them is.
pub proof fn lemma_alts_within_all(s: Seq<SpecAlt>, k: nat, i: int, n: int)
    requires
        k <= s.len(),
        0 <= i < k,
        alts_within(s, k, n),
    ensures
        symbols_within(s[i].symbols, s[i].symbols.len(), n),
    decreases k,
{
    if i < k - 1 {
        lemma_alts_within_all(s, (k - 1) as nat, i, n);
    }
}

/// Where the first `k` symbols are within, each of them is.
pub proof fn lemma_symbols_within_all(s: Seq<SpecSymbol>, k: nat, i: int, n: int)
    requires
        k <= s.len(),
        0 <= i < k,
        symbols_within(s, k, n),
    ensures
        symbol_within(s[i], n),
    decreases k,
{
    if i < k - 1 {
        lemma_symbols_within_all(s, (k - 1) as nat, i, n);
    }
}

/// Whether the symbols name only arguments below `n`.
pub fn check_symbols(symbols: &Vec<Symbol>, n: usize) -> (r: bool)
    ensures
        r == symbols_within(views(symbols@), symbols@.len(), n as int),
    decreases symbols, 1nat,
{
    let mut i: usize = 0;
    while i < symbols.len()
        invariant
            i <= symbols.len(),
            symbols_within(views(symbols@), i as nat, n as int),
        decreases symbols.len() - i,
    {
        if !check_symbol(&symbols[i], n) {
            proof {
                if symbols_within(views(symbols@), symbols@.len(), n as int) {
                    lemma_symbols_within_all(views(symbols@), symbols@.len(), i as int, n as int);
                }
            }
            return false;
        }
        i += 1;
    }
    true
}

/// The number of arguments of the function of a name.
fn arity_of(funs: &Vec<(CId, Function)>, name: &CId) -> (r: usize)
    ensures
        r == arity(views(funs@), name@),
{
    proof {
        lemma_position(views(funs@), name@);
    }
    match find_cid(funs, name) {
        Some(i) => {
            proof {
                lemma_type_view(funs@[i as int].1.ty);
            }
            funs[i].1.ty.hypos.len()
        },
        None => 0,
    }
}

/// Whether the symbols of the fields of each concrete function name
/// arguments that the function has.
pub fn check_slots(funs: &Vec<(CId, Function)>, cnc: &Concrete) -> (r: bool)
    ensures
        r == slots_in_arity(views(funs@), cnc@),
{
    let mut i: usize = 0;
    while i < cnc.cncfuns.len()
        invariant
            i <= cnc.cncfuns.len(),
            forall|j: int, k: int|
                0 <= j < i && 0 <= k < cnc@.cncfuns[j].lins.len() && 0
                    <= #[trigger] cnc@.cncfuns[j].lins[k] < cnc@.sequences.len()
                    ==> sequence_within(
                    cnc@.sequences[cnc@.cncfuns[j].lins[k] as int],
                    arity(views(funs@), cnc@.cncfuns[j].name),
                ),
        decreases cnc.cncfuns.len() - i,
    {
        let fun = &cnc.cncfuns[i];
        let n = arity_of(funs, &fun.name);
        let mut k: usize = 0;
        while k < fun.lins.len()
            invariant
                k <= fun.lins.len(),
                i < cnc.cncfuns.len(),
                *fun == cnc.cncfuns@[i as int],
                n == arity(views(funs@), cnc@.cncfuns[i as int].name),
                forall|q: int|
                    0 <= q < k && 0 <= #[trigger] cnc@.cncfuns[i as int].lins[q]
                        < cnc@.sequences.len() ==> sequence_within(
                        cnc@.sequences[cnc@.cncfuns[i as int].lins[q] as int],
                        n as int,
                    ),
            decreases fun.lins.len() - k,
        {
            let lin = fun.lins[k];
            if lin >= 0 && (lin as usize) < cnc.sequences.len() {
                assert(cnc@.sequences[lin as int] == views(cnc.sequences@[lin as int]@));
                if !check_symbols(&cnc.sequences[lin as usize], n) {
                    assert(cnc@.cncfuns[i as int].lins[k as int] == lin);
                    return false;
                }
            }
            k += 1;
        }
        i += 1;
    }
    true
}

fn check_parg(a: &PArg, n: i32) -> (r: bool)
    ensures
        r == parg_in_range(a@, n),
{
    if a.fid < 0 || a.fid >= n {
        return false;
    }
    let mut h: usize = 0;
    while h < a.hypos.len()
        invariant
            h <= a.hypos.len(),
            forall|q: int| 0 <= q < h ==> fid_in_range(#[trigger] a@.hypos[q], n),
        decreases a.hypos.len() - h,
    {
        if a.hypos[h] < 0 || a.hypos[h] >= n {
            assert(!fid_in_range(a@.hypos[h as int], n));
            return false;
        }
        h += 1;
    }
    true
}

fn check_pargs(args: &Vec<PArg>, n: i32) -> (r: bool)
    ensures
        r == pargs_in_range(views(args@), n),
{
    let mut a: usize = 0;
    while a < args.len()
        invariant
            a <= args.len(),
            forall|q: int| 0 <= q < a ==> parg_in_range(#[trigger] views(args@)[q], n),
        decreases args.len() - a,
    {
        if !check_parg(&args[a], n) {
            assert(!parg_in_range(views(args@)[a as int], n));
            return false;
        }
        a += 1;
    }
    true
}

fn check_production(p: &Production, n: i32) -> (r: bool)
    ensures
        r == production_in_range(p@, n),
{
    match p {
        Production::Coerce { arg } => 0 <= *arg && *arg < n,
        Production::Apply { fid: _, args } => check_pargs(args, n),
    }
}

fn check_set(set: &ProductionSet, n: i32) -> (r: bool)
    ensures
        r == set_in_range(set@, n),
{
    if set.fid < 0 || set.fid >= n {
        return false;
    }
    let mut p: usize = 0;
    while p < set.prods.len()
        invariant
            p <= set.prods.len(),
            forall|q: int| 0 <= q < p ==> production_in_range(#[trigger] set@.1[q], n),
        decreases set.prods.len() - p,
    {
        if !check_production(&set.prods[p], n) {
            assert(!production_in_range(set@.1[p as int], n));
            return false;
        }
        p += 1;
    }
    true
}

/// Whether every fid of the language lies within its fids.
pub fn check_fids(cnc: &Concrete) -> (r: bool)
    ensures
        r == fids_in_range(cnc@),
{
    let n = cnc.total_cats;
    let mut i: usize = 0;
    while i < cnc.cnccats.len()
        invariant
            i <= cnc.cnccats.len(),
            n == cnc@.total_cats,
            forall|j: int| 0 <= j < i ==> range_in_range((#[trigger] cnc@.cnccats[j]).1, n),
        decreases cnc.cnccats.len() - i,
    {
        let c = cnc.cnccats[i].1;
        if !(0 <= c.start && c.start <= c.end && c.end <= n) {
            assert(!range_in_range(cnc@.cnccats[i as int].1, n));
            return false;
        }
        i += 1;
    }
    let mut k: usize = 0;
    while k < cnc.productions.len()
        invariant
            k <= cnc.productions.len(),
            n == cnc@.total_cats,
            forall|j: int|
                0 <= j < cnc@.cnccats.len() ==> range_in_range((#[trigger] cnc@.cnccats[j]).1, n),
            forall|j: int| 0 <= j < k ==> set_in_range(#[trigger] cnc@.productions[j], n),
        decreases cnc.productions.len() - k,
    {
        if !check_set(&cnc.productions[k], n) {
            assert(!set_in_range(cnc@.productions[k as int], n));
            return false;
        }
        k += 1;
    }
    true
}

/// The ranks fall along every coercion: the fid that a production coerces
/// to has a lower rank than the fid of the production.
pub open spec fn ranked(sets: Seq<(i32, Seq<SpecProduction>)>, rank: spec_fn(i32) -> nat) -> bool {
    forall|i: int, p: int|
        0 <= i < sets.len() && 0 <= p < sets[i].1.len() && (#[trigger] sets[i].1[p]) is Coerce
            ==> rank(sets[i].1[p]->Coerce_arg) < rank(sets[i].0)
}

/// The coercions do not go in a circle: the fids can be ranked so that
/// the ranks fall along every coercion.
pub open spec fn acyclic(sets: Seq<(i32, Seq<SpecProduction>)>) -> bool {
    exists|rank: spec_fn(i32) -> nat| ranked(sets, rank)
}

/// The set `i` has a coercion to a fid whose set `j` is not settled.
pub open spec fn blocked_by(
    sets: Seq<(i32, Seq<SpecProduction>)>,
    settled: Seq<bool>,
    i: int,
    p: int,
    j: int,
) -> bool {
    &&& 0 <= p < sets[i].1.len()
    &&& sets[i].1[p] is Coerce
    &&& 0 <= j < sets.len()
    &&& sets[j].0 == sets[i].1[p]->Coerce_arg
    &&& !settled[j]
}

/// The set `i` has a coercion to a fid whose set is not settled.
pub open spec fn blocked(sets: Seq<(i32, Seq<SpecProduction>)>, settled: Seq<bool>, i: int) -> bool {
    exists|p: int, j: int| blocked_by(sets, settled, i, p, j)
}

/// Every coercion of the set `i` leads to a fid without productions or to
/// one whose set was settled at a lower level.
pub open spec fn rests_on_settled(
    sets: Seq<(i32, Seq<SpecProduction>)>,
    settled: Seq<bool>,
    level: Seq<nat>,
    i: int,
) -> bool {
    forall|p: int|
        0 <= p < sets[i].1.len() && (#[trigger] sets[i].1[p]) is Coerce ==> match position(
            sets,
            sets[i].1[p]->Coerce_arg,
        ) {
            None => true,
            Some(j) => settled[j] && level[j] < level[i],
        }
}

/// Where every set that is not settled is blocked, no set that is not
/// settled can have a rank.
proof fn lemma_descent(
    sets: Seq<(i32, Seq<SpecProduction>)>,
    settled: Seq<bool>,
    rank: spec_fn(i32) -> nat,
    i: int,
    k: nat,
)
    requires
        ranked(sets, rank),
        settled.len() == sets.len(),
        forall|q: int| 0 <= q < sets.len() && !settled[q] ==> blocked(sets, settled, q),
        0 <= i < sets.len(),
        !settled[i],
    ensures
        rank(sets[i].0) >= k,
    decreases k,
{
    if k > 0 {
        assert(blocked(sets, settled, i));
        let (p, j) = choose|p: int, j: int| blocked_by(sets, settled, i, p, j);
        lemma_descent(sets, settled, rank, j, (k - 1) as nat);
        assert(sets[i].1[p] is Coerce);
        assert(rank(sets[i].1[p]->Coerce_arg) < rank(sets[i].0));
    }
}

/// Whether every coercion of the set `i` leads to a fid without
/// productions or to one whose set is settled.
fn is_free(sets: &Vec<ProductionSet>, settled: &Vec<bool>, i: usize) -> (r: bool)
    requires
        i < sets.len(),
        settled.len() == sets.len(),
    ensures
        r ==> forall|p: int|
            0 <= p < views(sets@)[i as int].1.len() && (#[trigger] views(sets@)[i as int].1[p])
                is Coerce ==> match position(
                views(sets@),
                views(sets@)[i as int].1[p]->Coerce_arg,
            ) {
                None => true,
                Some(j) => settled@[j],
            },
        !r ==> blocked(views(sets@), settled@, i as int),
{
    let prods = &sets[i].prods;
    let mut p: usize = 0;
    while p < prods.len()
        invariant
            p <= prods.len(),
            i < sets.len(),
            settled.len() == sets.len(),
            views(prods@) == views(sets@)[i as int].1,
            forall|q: int|
                0 <= q < p && (#[trigger] views(sets@)[i as int].1[q]) is Coerce ==> match position(
                    views(sets@),
                    views(sets@)[i as int].1[q]->Coerce_arg,
                ) {
                    None => true,
                    Some(j) => settled@[j],
                },
        decreases prods.len() - p,
    {
        match &prods[p] {
            Production::Coerce { arg } => {
                assert(views(prods@)[p as int] == SpecProduction::Coerce { arg: *arg });
                proof {
                    lemma_position(views(sets@), *arg);
                }
                match find_productions(sets, *arg) {
                    Some(j) => {
                        if !settled[j] {
                            assert(blocked_by(
                                views(sets@),
                                settled@,
                                i as int,
                                p as int,
                                j as int,
                            ));
                            return false;
                        }
                    },
                    None => {},
                }
            },
            Production::Apply { fid: _, args: _ } => {},
        }
        p += 1;
    }
    true
}

/// The number of sets that are settled.
pub open spec fn trues(s: Seq<bool>) -> nat
    decreases s.len(),
{
    if s.len() == 0 {
        0
    } else {
        trues(s.drop_last()) + if s.last() {
            1nat
        } else {
            0nat
        }
    }
}

proof fn lemma_trues_bound(s: Seq<bool>)
    ensures
        trues(s) <= s.len(),
    decreases s.len(),
{
    if s.len() > 0 {
        lemma_trues_bound(s.drop_last());
    }
}

proof fn lemma_trues_set(s: Seq<bool>, k: int)
    requires
        0 <= k < s.len(),
        !s[k],
    ensures
        trues(s.update(k, true)) == trues(s) + 1,
        trues(s) < s.len(),
    decreases s.len(),
{
    let t = s.update(k, true);
    if k == s.len() - 1 {
        assert(t.drop_last() =~= s.drop_last());
    } else {
        lemma_trues_set(s.drop_last(), k);
        assert(t.drop_last() =~= s.drop_last().update(k, true));
    }
    lemma_trues_bound(t);
}

/// Whether the coercions of a table go in no circle.
#[verifier::rlimit(40)]
pub(crate) fn check_acyclic(sets: &Vec<ProductionSet>) -> (r: bool)
    requires
        distinct_keys(views(sets@)),
    ensures
        r == acyclic(views(sets@)),
{
    let n = sets.len();
    let ghost table = views(sets@);
    let mut settled: Vec<bool> = Vec::new();
    let mut i: usize = 0;
    while i < n
        invariant
            i <= n,
            settled.len() == i,
            forall|q: int| 0 <= q < i ==> !settled@[q],
        decreases n - i,
    {
        settled.push(false);
        i += 1;
    }
    let ghost mut level: Seq<nat> = Seq::new(n as nat, |q: int| 0nat);
    let ghost mut clock: nat = 0;
    let mut progress = true;
    proof {
        lemma_trues_bound(settled@);
    }
    while progress
        invariant
            n == sets.len(),
            table == views(sets@),
            distinct_keys(table),
            settled.len() == n,
            level.len() == n,
            trues(settled@) <= n,
            forall|q: int| 0 <= q < n ==> level[q] <= clock,
            forall|q: int| 0 <= q < n && settled@[q] ==> level[q] >= 1,
            forall|q: int| 0 <= q < n && settled@[q] ==> rests_on_settled(table, settled@, level, q),
            !progress ==> forall|q: int| 0 <= q < n && !settled@[q] ==> blocked(table, settled@, q),
        decreases (n - trues(settled@)) + (if progress { 1int } else { 0int }),
    {
        progress = false;
        let ghost at_start = settled@;
        let mut k: usize = 0;
        while k < n
            invariant
                k <= n,
                n == sets.len(),
                table == views(sets@),
                distinct_keys(table),
                settled.len() == n,
                level.len() == n,
                trues(settled@) <= n,
                at_start.len() == n,
                forall|q: int| 0 <= q < n ==> level[q] <= clock,
                forall|q: int| 0 <= q < n && settled@[q] ==> level[q] >= 1,
                forall|q: int|
                    0 <= q < n && settled@[q] ==> rests_on_settled(table, settled@, level, q),
                !progress ==> settled@ == at_start,
                !progress ==> forall|q: int|
                    0 <= q < k && !settled@[q] ==> blocked(table, settled@, q),
                progress ==> trues(settled@) > trues(at_start),
            decreases n - k,
        {
            if !settled[k] {
                if is_free(sets, &settled, k) {
                    let ghost before = settled@;
                    let ghost old_level = level;
                    let ghost old_clock = clock;
                    settled.set(k, true);
                    proof {
                        lemma_trues_set(before, k as int);
                        level = level.update(k as int, clock + 1);
                        clock = clock + 1;
                        assert forall|q: int| 0 <= q < n && settled@[q] implies rests_on_settled(
                            table,
                            settled@,
                            level,
                            q,
                        ) by {
                            assert forall|p: int|
                                0 <= p < table[q].1.len() && (#[trigger] table[q].1[p])
                                    is Coerce implies match position(
                                table,
                                table[q].1[p]->Coerce_arg,
                            ) {
                                None => true,
                                Some(j) => settled@[j] && level[j] < level[q],
                            } by {
                                lemma_position(table, table[q].1[p]->Coerce_arg);
                                if q != k {
                                    assert(rests_on_settled(table, before, old_level, q));
                                }
                            }
                        }
                    }
                    progress = true;
                }
            }
            k += 1;
        }
    }
    let mut all = true;
    let mut m: usize = 0;
    while m < n
        invariant
            m <= n,
            n == sets.len(),
            table == views(sets@),
            distinct_keys(table),
            settled.len() == n,
            level.len() == n,
            forall|q: int| 0 <= q < n && settled@[q] ==> level[q] >= 1,
            forall|q: int| 0 <= q < n && settled@[q] ==> rests_on_settled(table, settled@, level, q),
            forall|q: int| 0 <= q < n && !settled@[q] ==> blocked(table, settled@, q),
            all ==> forall|q: int| 0 <= q < m ==> settled@[q],
            !all ==> exists|q: int| 0 <= q < n && !settled@[q],
        decreases n - m,
    {
        if !settled[m] {
            all = false;
        }
        m += 1;
    }
    proof {
        if all {
            let rank = |x: i32|
                match position(table, x) {
                    Some(j) => level[j],
                    None => 0nat,
                };
            assert forall|q: int, p: int|
                0 <= q < table.len() && 0 <= p < table[q].1.len() && (#[trigger] table[q].1[p])
                    is Coerce implies rank(table[q].1[p]->Coerce_arg) < rank(table[q].0) by {
                assert(settled@[q]);
                assert(rests_on_settled(table, settled@, level, q));
                lemma_position(table, table[q].0);
                lemma_position(table, table[q].1[p]->Coerce_arg);
                let here = position(table, table[q].0)->Some_0;
                if here < q {
                    assert(table[here].0 != table[q].0);
                }
                if q < here {
                    assert(table[q].0 != table[here].0);
                }
            }
            assert(ranked(table, rank));
        } else {
            if acyclic(table) {
                let rank = choose|rank: spec_fn(i32) -> nat| ranked(table, rank);
                let q = choose|q: int| 0 <= q < n && !settled@[q];
                lemma_descent(table, settled@, rank, q, rank(table[q].0) + 1);
            }
        }
    }
    all
}

/// What is wrong with a language, if anything: the first of the things
/// that must hold of it that does not.
pub open spec fn concrete_violation(
    funs: Seq<(Seq<char>, SpecFunction)>,
    cnc: SpecConcrete,
) -> Option<Cause> {
    if !names_known(funs, cnc) {
        Some(Cause::UnknownFunction)
    } else if !lins_in_range(cnc) {
        Some(Cause::SequenceOutOfRange)
    } else if !slots_in_arity(funs, cnc) {
        Some(Cause::ArgumentOutOfArity)
    } else if !fids_in_range(cnc) {
        Some(Cause::FidOutOfRange)
    } else if !acyclic(cnc.productions) {
        Some(Cause::CoercionCycle)
    } else {
        None
    }
}

/// What is wrong with the first language with which something is wrong.
pub open spec fn first_violation(
    funs: Seq<(Seq<char>, SpecFunction)>,
    concretes: Seq<(Seq<char>, SpecConcrete)>,
) -> Option<Cause>
    decreases concretes.len(),
{
    if concretes.len() == 0 {
        None
    } else {
        match first_violation(funs, concretes.drop_last()) {
            Some(c) => Some(c),
            None => concrete_violation(funs, concretes.last().1),
        }
    }
}

/// What is wrong with a grammar, if anything.
pub open spec fn violation(g: SpecPgf) -> Option<Cause> {
    first_violation(g.abstract_syntax.funs, g.concretes)
}

/// In every language, no fid has its productions in two places.
pub open spec fn sets_distinct(g: SpecPgf) -> bool {
    forall|c: int| 0 <= c < g.concretes.len() ==> distinct_keys((#[trigger] g.concretes[c]).1.productions)
}

fn find_concrete_violation(funs: &Vec<(CId, Function)>, cnc: &Concrete) -> (r: Option<Cause>)
    requires
        distinct_keys(cnc@.productions),
    ensures
        r == concrete_violation(views(funs@), cnc@),
{
    if !check_names(funs, cnc) {
        Some(Cause::UnknownFunction)
    } else if !check_lins(cnc) {
        Some(Cause::SequenceOutOfRange)
    } else if !check_slots(funs, cnc) {
        Some(Cause::ArgumentOutOfArity)
    } else if !check_fids(cnc) {
        Some(Cause::FidOutOfRange)
    } else if !check_acyclic(&cnc.productions) {
        Some(Cause::CoercionCycle)
    } else {
        None
    }
}

/// Finds what is wrong with a grammar, if anything.
pub(crate) fn find_violation(pgf: &Pgf) -> (r: Option<Cause>)
    requires
        sets_distinct(pgf@),
    ensures
        r == violation(pgf@),
{
    let funs = &pgf.abstract_syntax.funs;
    let mut i: usize = 0;
    assert(pgf@.concretes.take(0) =~= Seq::empty());
    while i < pgf.concretes.len()
        invariant
            i <= pgf.concretes.len(),
            sets_distinct(pgf@),
            *funs == pgf.abstract_syntax.funs,
            first_violation(views(funs@), pgf@.concretes.take(i as int)) is None,
        decreases pgf.concretes.len() - i,
    {
        proof {
            let next = pgf@.concretes.take(i + 1);
            assert(next.drop_last() =~= pgf@.concretes.take(i as int));
            assert(next.last() == pgf@.concretes[i as int]);
            assert(pgf@.concretes.take(pgf.concretes.len() as int) =~= pgf@.concretes);
        }
        match find_concrete_violation(funs, &pgf.concretes[i].1) {
            Some(c) => {
                proof {
                    assert(pgf@.concretes[i as int].1 == pgf.concretes@[i as int].1@);
                    assert(first_violation(views(funs@), pgf@.concretes.take(i + 1)) == Some(c));
                    lemma_violation_stays(
                        views(funs@),
                        pgf@.concretes,
                        i + 1,
                        pgf.concretes.len() as int,
                    );
                }
                return Some(c);
            },
            None => {
                assert(pgf@.concretes[i as int].1 == pgf.concretes@[i as int].1@);
            },
        }
        i += 1;
    }
    assert(pgf@.concretes.take(pgf.concretes.len() as int) =~= pgf@.concretes);
    None
}

/// What is wrong with the first languages is what is wrong with more of
/// them.
pub proof fn lemma_violation_stays(
    funs: Seq<(Seq<char>, SpecFunction)>,
    concretes: Seq<(Seq<char>, SpecConcrete)>,
    from: int,
    to: int,
)
    requires
        0 <= from <= to <= concretes.len(),
        first_violation(funs, concretes.take(from)) is Some,
    ensures
        first_violation(funs, concretes.take(to)) == first_violation(funs, concretes.take(from)),
    decreases to - from,
{
    if from < to {
        lemma_violation_stays(funs, concretes, from, to - 1);
        assert(concretes.take(to).drop_last() =~= concretes.take(to - 1));
    }
}

} // verus!
