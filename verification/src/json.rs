//! The projection of a grammar onto a JSON document.
//!
//! The document is built as a tree of values; writing the tree as text is
//! left to the caller. The members of an object are kept in the order in
//! which they are stated here. A float is held as its bit pattern.

use vstd::prelude::*;
use vstd::string::*;

use crate::error::{decimal, decimal_text};
use crate::grammar::{
    lemma_alt_view, lemma_symkp_view, lemma_type_view, lemma_views_push, nested_views, views,
    Abstract, Alt, CId, CncCat, CncFun, Concrete, Function, Language, Literal, PArg, Pgf,
    Production, ProductionSet, SpecAbstract, SpecAlt, SpecCncFun, SpecConcrete, SpecFunction,
    SpecLiteral, SpecPArg, SpecPgf, SpecProduction, SpecSymbol, Symbol,
};

verus! {

/// A JSON value.
#[derive(Debug, PartialEq, Eq)]
pub enum Json {
    Null,
    Bool(bool),
    Int(i64),
    /// The bits of a 64-bit float.
    Double(u64),
    Str(String),
    Array(Vec<Json>),
    Object(Vec<(String, Json)>),
}

pub enum SpecJson {
    Null,
    Bool(bool),
    Int(int),
    Double(u64),
    Str(Seq<char>),
    Array(Seq<SpecJson>),
    Object(Seq<(Seq<char>, SpecJson)>),
}

/// The views of the first `n` values of `s`.
pub open spec fn json_views(s: Seq<Json>, n: nat) -> Seq<SpecJson>
    decreases s, n,
{
    if n == 0 || n > s.len() {
        Seq::empty()
    } else {
        json_views(s, (n - 1) as nat).push(s[n - 1].view())
    }
}

/// The views of the first `n` members of `s`.
pub open spec fn member_views(s: Seq<(String, Json)>, n: nat) -> Seq<(Seq<char>, SpecJson)>
    decreases s, n,
{
    if n == 0 || n > s.len() {
        Seq::empty()
    } else {
        member_views(s, (n - 1) as nat).push((s[n - 1].0@, s[n - 1].1.view()))
    }
}

impl View for Json {
    type V = SpecJson;

    open spec fn view(&self) -> SpecJson
        decreases self,
    {
        match self {
            Json::Null => SpecJson::Null,
            Json::Bool(b) => SpecJson::Bool(*b),
            Json::Int(n) => SpecJson::Int(*n as int),
            Json::Double(b) => SpecJson::Double(*b),
            Json::Str(s) => SpecJson::Str(s@),
            Json::Array(items) => SpecJson::Array(json_views(items@, items@.len())),
            Json::Object(members) => SpecJson::Object(member_views(members@, members@.len())),
        }
    }
}

proof fn lemma_json_views(s: Seq<Json>, n: nat)
    requires
        n <= s.len(),
    ensures
        json_views(s, n) == views(s.take(n as int)),
    decreases n,
{
    if n > 0 {
        lemma_json_views(s, (n - 1) as nat);
        assert(s.take(n as int) =~= s.take(n - 1).push(s[n - 1]));
        lemma_views_push(s.take(n - 1), s[n - 1]);
    } else {
        assert(json_views(s, n) =~= views(s.take(n as int)));
    }
}

proof fn lemma_member_views(s: Seq<(String, Json)>, n: nat)
    requires
        n <= s.len(),
    ensures
        member_views(s, n) == views(s.take(n as int)),
    decreases n,
{
    if n > 0 {
        lemma_member_views(s, (n - 1) as nat);
        assert(s.take(n as int) =~= s.take(n - 1).push(s[n - 1]));
        lemma_views_push(s.take(n - 1), s[n - 1]);
    } else {
        assert(member_views(s, n) =~= views(s.take(n as int)));
    }
}

/// The array of the values.
pub fn array(items: Vec<Json>) -> (r: Json)
    ensures
        r@ == SpecJson::Array(views(items@)),
{
    proof {
        lemma_json_views(items@, items@.len());
        assert(items@.take(items@.len() as int) =~= items@);
    }
    Json::Array(items)
}

/// The object of the members.
pub fn object(members: Vec<(String, Json)>) -> (r: Json)
    ensures
        r@ == SpecJson::Object(views(members@)),
{
    proof {
        lemma_member_views(members@, members@.len());
        assert(members@.take(members@.len() as int) =~= members@);
    }
    Json::Object(members)
}

/// The string of a text.
pub fn text(s: &str) -> (r: Json)
    ensures
        r@ == SpecJson::Str(s@),
{
    Json::Str(String::from_str(s))
}

/// The number of an integer.
pub fn number(n: i32) -> (r: Json)
    ensures
        r@ == SpecJson::Int(n as int),
{
    Json::Int(n as i64)
}

/// A member of an object.
pub fn member(name: &str, value: Json) -> (r: (String, Json))
    ensures
        r@ == (name@, value@),
{
    (String::from_str(name), value)
}

/// An integer in decimal digits, with a minus sign where it is negative.
pub open spec fn signed_decimal(n: int) -> Seq<char> {
    if n < 0 {
        "-"@ + decimal((-n) as nat)
    } else {
        decimal(n as nat)
    }
}

/// Writes an integer in decimal digits.
pub fn signed_decimal_text(n: i32) -> (r: String)
    ensures
        r@ == signed_decimal(n as int),
{
    if n < 0 {
        let m: i64 = -(n as i64);
        let mut s = String::from_str("-");
        s.append(decimal_text(m as usize).as_str());
        s
    } else {
        decimal_text(n as usize)
    }
}

/// The array of the integers.
pub open spec fn ints_json(s: Seq<i32>) -> SpecJson {
    SpecJson::Array(Seq::new(s.len(), |i: int| SpecJson::Int(s[i] as int)))
}

/// The array of the texts.
pub open spec fn texts_json(s: Seq<Seq<char>>) -> SpecJson {
    SpecJson::Array(Seq::new(s.len(), |i: int| SpecJson::Str(s[i])))
}

/// The value of a literal: a string, an integer or a float.
pub open spec fn spec_literal_json(l: SpecLiteral) -> SpecJson {
    match l {
        SpecLiteral::Str(s) => SpecJson::Str(s),
        SpecLiteral::Int(n) => SpecJson::Int(n as int),
        SpecLiteral::Flt(b) => SpecJson::Double(b),
    }
}

/// The object of a concrete category: its first and its last fid.
pub open spec fn spec_cnc_cat_json(cat: CncCat) -> SpecJson {
    SpecJson::Object(
        seq![("start"@, SpecJson::Int(cat.start as int)), ("end"@, SpecJson::Int(cat.end as int))],
    )
}

/// The object of a concrete function: its name and its sequence indices.
pub open spec fn spec_cnc_fun_json(fun: SpecCncFun) -> SpecJson {
    SpecJson::Object(seq![("name"@, SpecJson::Str(fun.name)), ("lins"@, ints_json(fun.lins))])
}

/// The object of a production argument.
pub open spec fn spec_p_arg_json(arg: SpecPArg) -> SpecJson {
    SpecJson::Object(
        seq![
            ("type"@, SpecJson::Str("PArg"@)),
            ("hypos"@, ints_json(arg.hypos)),
            ("fid"@, SpecJson::Int(arg.fid as int)),
        ],
    )
}

/// The array of the production arguments.
pub open spec fn p_args_json(args: Seq<SpecPArg>) -> SpecJson {
    SpecJson::Array(Seq::new(args.len(), |i: int| spec_p_arg_json(args[i])))
}

/// The object of a production.
pub open spec fn spec_production_json(prod: SpecProduction) -> SpecJson {
    match prod {
        SpecProduction::Apply { fid, args } => SpecJson::Object(
            seq![
                ("type"@, SpecJson::Str("Apply"@)),
                ("fid"@, SpecJson::Int(fid as int)),
                ("args"@, p_args_json(args)),
            ],
        ),
        SpecProduction::Coerce { arg } => SpecJson::Object(
            seq![("type"@, SpecJson::Str("Coerce"@)), ("arg"@, SpecJson::Int(arg as int))],
        ),
    }
}

/// A value with a type and arguments.
pub open spec fn tagged(name: Seq<char>, args: Seq<SpecJson>) -> SpecJson {
    SpecJson::Object(seq![("type"@, SpecJson::Str(name)), ("args"@, SpecJson::Array(args))])
}

/// The object of a slot: its type and its two integers.
pub open spec fn slot_json(name: Seq<char>, d: i32, r: i32) -> SpecJson {
    tagged(name, seq![SpecJson::Int(d as int), SpecJson::Int(r as int)])
}

/// The object of a symbol: its type and its arguments.
pub open spec fn spec_symbol_json(sym: SpecSymbol) -> SpecJson
    decreases sym,
{
    match sym {
        SpecSymbol::SymCat(d, r) => slot_json("SymCat"@, d, r),
        SpecSymbol::SymLit(d, r) => slot_json("SymLit"@, d, r),
        SpecSymbol::SymVar(d, r) => slot_json("SymVar"@, d, r),
        SpecSymbol::SymKS(t) => tagged("SymKS"@, seq![SpecJson::Str(t)]),
        SpecSymbol::SymKP(symbols, alts) => tagged(
            "SymKP"@,
            seq![
                SpecJson::Array(symbols_json(symbols, symbols.len())),
                SpecJson::Array(alts_json(alts, alts.len())),
            ],
        ),
        SpecSymbol::SymNE => tagged("SymNE"@, Seq::empty()),
    }
}

/// The values of the first `n` symbols of `s`.
pub open spec fn symbols_json(s: Seq<SpecSymbol>, n: nat) -> Seq<SpecJson>
    decreases s, n,
{
    if n == 0 || n > s.len() {
        Seq::empty()
    } else {
        symbols_json(s, (n - 1) as nat).push(spec_symbol_json(s[n - 1]))
    }
}

/// The object of a variant: its symbols and its tokens.
pub open spec fn spec_alt_json(alt: SpecAlt) -> SpecJson
    decreases alt,
{
    tagged(
        "Alt"@,
        seq![
            SpecJson::Array(symbols_json(alt.symbols, alt.symbols.len())),
            texts_json(alt.tokens),
        ],
    )
}

/// The values of the first `n` variants of `s`.
pub open spec fn alts_json(s: Seq<SpecAlt>, n: nat) -> Seq<SpecJson>
    decreases s, n,
{
    if n == 0 || n > s.len() {
        Seq::empty()
    } else {
        alts_json(s, (n - 1) as nat).push(spec_alt_json(s[n - 1]))
    }
}

/// The array of the symbols of a sequence.
pub open spec fn spec_sequence_json(seq: Seq<SpecSymbol>) -> SpecJson {
    SpecJson::Array(symbols_json(seq, seq.len()))
}

/// The object of the flags, each under its name.
pub open spec fn flags_json(flags: Seq<(Seq<char>, SpecLiteral)>) -> SpecJson {
    SpecJson::Object(Seq::new(flags.len(), |i: int| (flags[i].0, spec_literal_json(flags[i].1))))
}

/// The array of the productions.
pub open spec fn production_list_json(prods: Seq<SpecProduction>) -> SpecJson {
    SpecJson::Array(Seq::new(prods.len(), |i: int| spec_production_json(prods[i])))
}

/// The object of the productions, each set under its fid in decimal digits.
pub open spec fn productions_json(sets: Seq<(i32, Seq<SpecProduction>)>) -> SpecJson {
    SpecJson::Object(
        Seq::new(
            sets.len(),
            |i: int| (signed_decimal(sets[i].0 as int), production_list_json(sets[i].1)),
        ),
    )
}

/// The array of the concrete functions.
pub open spec fn cnc_funs_json(funs: Seq<SpecCncFun>) -> SpecJson {
    SpecJson::Array(Seq::new(funs.len(), |i: int| spec_cnc_fun_json(funs[i])))
}

/// The array of the sequences.
pub open spec fn sequences_json(seqs: Seq<Seq<SpecSymbol>>) -> SpecJson {
    SpecJson::Array(Seq::new(seqs.len(), |i: int| spec_sequence_json(seqs[i])))
}

/// The object of the concrete categories, each under its name.
pub open spec fn cnc_cats_json(cats: Seq<(Seq<char>, CncCat)>) -> SpecJson {
    SpecJson::Object(Seq::new(cats.len(), |i: int| (cats[i].0, spec_cnc_cat_json(cats[i].1))))
}

/// The object of a concrete syntax.
pub open spec fn spec_concrete_json(cnc: SpecConcrete) -> SpecJson {
    SpecJson::Object(
        seq![
            ("flags"@, flags_json(cnc.cflags)),
            ("productions"@, productions_json(cnc.productions)),
            ("functions"@, cnc_funs_json(cnc.cncfuns)),
            ("sequences"@, sequences_json(cnc.sequences)),
            ("categories"@, cnc_cats_json(cnc.cnccats)),
            ("totalfids"@, SpecJson::Int(cnc.total_cats as int)),
        ],
    )
}

/// The object of the concrete syntaxes, each under its language.
pub open spec fn spec_concretes_json(concretes: Seq<(Seq<char>, SpecConcrete)>) -> SpecJson {
    SpecJson::Object(
        Seq::new(concretes.len(), |i: int| (concretes[i].0, spec_concrete_json(concretes[i].1))),
    )
}

/// The signature of a function: the categories of its arguments and its
/// own.
pub open spec fn signature_json(fun: SpecFunction) -> SpecJson {
    SpecJson::Object(
        seq![
            (
                "args"@,
                SpecJson::Array(
                    Seq::new(
                        fun.ty.hypos.len(),
                        |i: int| SpecJson::Str(fun.ty.hypos[i].ty.category),
                    ),
                ),
            ),
            ("cat"@, SpecJson::Str(fun.ty.category)),
        ],
    )
}

/// The object of the abstract syntax: its name, its start category, and the
/// signatures of its functions.
pub open spec fn spec_abstract_json(
    name: Seq<char>,
    startcat: Seq<char>,
    abs: SpecAbstract,
) -> SpecJson {
    SpecJson::Object(
        seq![
            ("name"@, SpecJson::Str(name)),
            ("startcat"@, SpecJson::Str(startcat)),
            (
                "funs"@,
                SpecJson::Object(
                    Seq::new(abs.funs.len(), |i: int| (abs.funs[i].0, signature_json(abs.funs[i].1))),
                ),
            ),
        ],
    )
}

/// The document of a grammar: its abstract syntax and its concrete
/// syntaxes.
pub open spec fn spec_pgf_json(g: SpecPgf) -> SpecJson {
    SpecJson::Object(
        seq![
            ("abstract"@, spec_abstract_json(g.absname, g.startcat, g.abstract_syntax)),
            ("concretes"@, spec_concretes_json(g.concretes)),
        ],
    )
}

proof fn lemma_symbols_json(s: Seq<SpecSymbol>, n: nat)
    requires
        n <= s.len(),
    ensures
        symbols_json(s, n) == Seq::new(n, |i: int| spec_symbol_json(s[i])),
    decreases n,
{
    if n > 0 {
        lemma_symbols_json(s, (n - 1) as nat);
    }
    assert(symbols_json(s, n) =~= Seq::new(n, |i: int| spec_symbol_json(s[i])));
}

proof fn lemma_alts_json(s: Seq<SpecAlt>, n: nat)
    requires
        n <= s.len(),
    ensures
        alts_json(s, n) == Seq::new(n, |i: int| spec_alt_json(s[i])),
    decreases n,
{
    if n > 0 {
        lemma_alts_json(s, (n - 1) as nat);
    }
    assert(alts_json(s, n) =~= Seq::new(n, |i: int| spec_alt_json(s[i])));
}

fn ints_to_json(v: &Vec<i32>) -> (r: Json)
    ensures
        r@ == ints_json(v@),
{
    let mut items: Vec<Json> = Vec::new();
    let mut i: usize = 0;
    while i < v.len()
        invariant
            i <= v.len(),
            items.len() == i,
            forall|j: int| 0 <= j < i ==> items@[j]@ == SpecJson::Int(v@[j] as int),
        decreases v.len() - i,
    {
        items.push(number(v[i]));
        i += 1;
    }
    assert(views(items@) =~= Seq::new(v@.len(), |i: int| SpecJson::Int(v@[i] as int)));
    array(items)
}

fn texts_to_json(v: &Vec<String>) -> (r: Json)
    ensures
        r@ == texts_json(views(v@)),
{
    let mut items: Vec<Json> = Vec::new();
    let mut i: usize = 0;
    while i < v.len()
        invariant
            i <= v.len(),
            items.len() == i,
            forall|j: int| 0 <= j < i ==> items@[j]@ == SpecJson::Str(v@[j]@),
        decreases v.len() - i,
    {
        items.push(text(v[i].as_str()));
        i += 1;
    }
    assert(views(items@) =~= Seq::new(views(v@).len(), |i: int| SpecJson::Str(views(v@)[i])));
    array(items)
}

/// Projects a literal.
pub fn literal_to_json(lit: &Literal) -> (r: Json)
    ensures
        r@ == spec_literal_json(lit@),
{
    match lit {
        Literal::Str(s) => text(s.as_str()),
        Literal::Int(n) => number(*n),
        Literal::Flt(d) => Json::Double(*d),
    }
}

/// Projects a concrete category.
pub fn cnc_cat_to_json(cat: &CncCat) -> (r: Json)
    ensures
        r@ == spec_cnc_cat_json(*cat),
{
    let mut members: Vec<(String, Json)> = Vec::new();
    members.push(member("start", number(cat.start)));
    members.push(member("end", number(cat.end)));
    assert(views(members@) =~= seq![
        ("start"@, SpecJson::Int(cat.start as int)),
        ("end"@, SpecJson::Int(cat.end as int)),
    ]);
    object(members)
}

/// Projects a concrete function.
pub fn cnc_fun_to_json(fun: &CncFun) -> (r: Json)
    ensures
        r@ == spec_cnc_fun_json(fun@),
{
    let mut members: Vec<(String, Json)> = Vec::new();
    members.push(member("name", text(fun.name.0.as_str())));
    members.push(member("lins", ints_to_json(&fun.lins)));
    assert(views(members@) =~= seq![
        ("name"@, SpecJson::Str(fun@.name)),
        ("lins"@, ints_json(fun@.lins)),
    ]);
    object(members)
}

/// Projects a production argument.
pub fn p_arg_to_json(arg: &PArg) -> (r: Json)
    ensures
        r@ == spec_p_arg_json(arg@),
{
    let mut members: Vec<(String, Json)> = Vec::new();
    members.push(member("type", text("PArg")));
    members.push(member("hypos", ints_to_json(&arg.hypos)));
    members.push(member("fid", number(arg.fid)));
    assert(views(members@) =~= seq![
        ("type"@, SpecJson::Str("PArg"@)),
        ("hypos"@, ints_json(arg@.hypos)),
        ("fid"@, SpecJson::Int(arg@.fid as int)),
    ]);
    object(members)
}

fn p_args_to_json(args: &Vec<PArg>) -> (r: Json)
    ensures
        r@ == p_args_json(views(args@)),
{
    let mut items: Vec<Json> = Vec::new();
    let mut i: usize = 0;
    while i < args.len()
        invariant
            i <= args.len(),
            items.len() == i,
            forall|j: int| 0 <= j < i ==> items@[j]@ == spec_p_arg_json(args@[j]@),
        decreases args.len() - i,
    {
        items.push(p_arg_to_json(&args[i]));
        i += 1;
    }
    assert(views(items@) =~= Seq::new(
        views(args@).len(),
        |i: int| spec_p_arg_json(views(args@)[i]),
    ));
    array(items)
}

/// Projects a production.
pub fn production_to_json(prod: &Production) -> (r: Json)
    ensures
        r@ == spec_production_json(prod@),
{
    let mut members: Vec<(String, Json)> = Vec::new();
    match prod {
        Production::Apply { fid, args } => {
            members.push(member("type", text("Apply")));
            members.push(member("fid", number(*fid)));
            members.push(member("args", p_args_to_json(args)));
            assert(views(members@) =~= seq![
                ("type"@, SpecJson::Str("Apply"@)),
                ("fid"@, SpecJson::Int(*fid as int)),
                ("args"@, p_args_json(views(args@))),
            ]);
        },
        Production::Coerce { arg } => {
            members.push(member("type", text("Coerce")));
            members.push(member("arg", number(*arg)));
            assert(views(members@) =~= seq![
                ("type"@, SpecJson::Str("Coerce"@)),
                ("arg"@, SpecJson::Int(*arg as int)),
            ]);
        },
    }
    object(members)
}

/// A value with a type and arguments.
fn tagged_value(name: &str, args: Vec<Json>) -> (r: Json)
    ensures
        r@ == tagged(name@, views(args@)),
{
    let mut members: Vec<(String, Json)> = Vec::new();
    members.push(member("type", text(name)));
    members.push(member("args", array(args)));
    assert(views(members@) =~= seq![
        ("type"@, SpecJson::Str(name@)),
        ("args"@, SpecJson::Array(views(args@))),
    ]);
    object(members)
}

fn slot_to_json(name: &str, d: i32, r: i32) -> (j: Json)
    ensures
        j@ == slot_json(name@, d, r),
{
    let mut args: Vec<Json> = Vec::new();
    args.push(number(d));
    args.push(number(r));
    assert(views(args@) =~= seq![SpecJson::Int(d as int), SpecJson::Int(r as int)]);
    tagged_value(name, args)
}

fn symbols_to_json(symbols: &Vec<Symbol>) -> (r: Json)
    ensures
        r@ == SpecJson::Array(symbols_json(views(symbols@), symbols@.len())),
    decreases symbols,
{
    let mut items: Vec<Json> = Vec::new();
    let mut i: usize = 0;
    while i < symbols.len()
        invariant
            i <= symbols.len(),
            items.len() == i,
            forall|j: int| 0 <= j < i ==> items@[j]@ == spec_symbol_json(symbols@[j]@),
        decreases symbols.len() - i,
    {
        items.push(symbol_to_json(&symbols[i]));
        i += 1;
    }
    proof {
        lemma_symbols_json(views(symbols@), symbols@.len());
        assert(views(items@) =~= symbols_json(views(symbols@), symbols@.len()));
    }
    array(items)
}

fn alts_to_json(alts: &Vec<Alt>) -> (r: Json)
    ensures
        r@ == SpecJson::Array(alts_json(views(alts@), alts@.len())),
    decreases alts,
{
    let mut items: Vec<Json> = Vec::new();
    let mut i: usize = 0;
    while i < alts.len()
        invariant
            i <= alts.len(),
            items.len() == i,
            forall|j: int| 0 <= j < i ==> items@[j]@ == spec_alt_json(alts@[j]@),
        decreases alts.len() - i,
    {
        items.push(alt_to_json(&alts[i]));
        i += 1;
    }
    proof {
        lemma_alts_json(views(alts@), alts@.len());
        assert(views(items@) =~= alts_json(views(alts@), alts@.len()));
    }
    array(items)
}

/// Projects a symbol.
pub fn symbol_to_json(sym: &Symbol) -> (r: Json)
    ensures
        r@ == spec_symbol_json(sym@),
    decreases sym,
{
    match sym {
        Symbol::SymCat(n, l) => slot_to_json("SymCat", *n, *l),
        Symbol::SymLit(n, l) => slot_to_json("SymLit", *n, *l),
        Symbol::SymVar(n, l) => slot_to_json("SymVar", *n, *l),
        Symbol::SymKS(t) => {
            let mut args: Vec<Json> = Vec::new();
            args.push(text(t.as_str()));
            assert(views(args@) =~= seq![SpecJson::Str(t@)]);
            tagged_value("SymKS", args)
        },
        Symbol::SymKP(symbols, alts) => {
            proof {
                lemma_symkp_view(*symbols, *alts);
            }
            let mut args: Vec<Json> = Vec::new();
            args.push(symbols_to_json(symbols));
            args.push(alts_to_json(alts));
            assert(views(args@) =~= seq![
                SpecJson::Array(symbols_json(views(symbols@), symbols@.len())),
                SpecJson::Array(alts_json(views(alts@), alts@.len())),
            ]);
            tagged_value("SymKP", args)
        },
        Symbol::SymNE => {
            let args: Vec<Json> = Vec::new();
            assert(views(args@) =~= Seq::<SpecJson>::empty());
            tagged_value("SymNE", args)
        },
    }
}

/// Projects a variant.
pub fn alt_to_json(alt: &Alt) -> (r: Json)
    ensures
        r@ == spec_alt_json(alt@),
    decreases alt,
{
    proof {
        lemma_alt_view(*alt);
    }
    let mut args: Vec<Json> = Vec::new();
    args.push(symbols_to_json(&alt.symbols));
    args.push(texts_to_json(&alt.tokens));
    assert(views(args@) =~= seq![
        SpecJson::Array(symbols_json(alt@.symbols, alt@.symbols.len())),
        texts_json(alt@.tokens),
    ]);
    tagged_value("Alt", args)
}

/// Projects a sequence.
pub fn sequence_to_json(seq: &Vec<Symbol>) -> (r: Json)
    ensures
        r@ == spec_sequence_json(views(seq@)),
{
    symbols_to_json(seq)
}

fn flags_to_json(flags: &Vec<(CId, Literal)>) -> (r: Json)
    ensures
        r@ == flags_json(views(flags@)),
{
    let mut members: Vec<(String, Json)> = Vec::new();
    let mut i: usize = 0;
    while i < flags.len()
        invariant
            i <= flags.len(),
            members.len() == i,
            forall|j: int|
                0 <= j < i ==> members@[j]@ == (flags@[j].0@, spec_literal_json(flags@[j].1@)),
        decreases flags.len() - i,
    {
        members.push(member(flags[i].0.0.as_str(), literal_to_json(&flags[i].1)));
        i += 1;
    }
    assert(views(members@) =~= Seq::new(
        views(flags@).len(),
        |i: int| (views(flags@)[i].0, spec_literal_json(views(flags@)[i].1)),
    ));
    object(members)
}

fn production_list_to_json(prods: &Vec<Production>) -> (r: Json)
    ensures
        r@ == production_list_json(views(prods@)),
{
    let mut items: Vec<Json> = Vec::new();
    let mut i: usize = 0;
    while i < prods.len()
        invariant
            i <= prods.len(),
            items.len() == i,
            forall|j: int| 0 <= j < i ==> items@[j]@ == spec_production_json(prods@[j]@),
        decreases prods.len() - i,
    {
        items.push(production_to_json(&prods[i]));
        i += 1;
    }
    assert(views(items@) =~= Seq::new(
        views(prods@).len(),
        |i: int| spec_production_json(views(prods@)[i]),
    ));
    array(items)
}

fn productions_to_json(sets: &Vec<ProductionSet>) -> (r: Json)
    ensures
        r@ == productions_json(views(sets@)),
{
    let mut members: Vec<(String, Json)> = Vec::new();
    let mut i: usize = 0;
    while i < sets.len()
        invariant
            i <= sets.len(),
            members.len() == i,
            forall|j: int|
                0 <= j < i ==> members@[j]@ == (
                    signed_decimal(sets@[j].fid as int),
                    production_list_json(views(sets@[j].prods@)),
                ),
        decreases sets.len() - i,
    {
        members.push((signed_decimal_text(sets[i].fid), production_list_to_json(&sets[i].prods)));
        i += 1;
    }
    assert(views(members@) =~= Seq::new(
        views(sets@).len(),
        |i: int|
            (signed_decimal(views(sets@)[i].0 as int), production_list_json(views(sets@)[i].1)),
    ));
    object(members)
}

fn cnc_funs_to_json(funs: &Vec<CncFun>) -> (r: Json)
    ensures
        r@ == cnc_funs_json(views(funs@)),
{
    let mut items: Vec<Json> = Vec::new();
    let mut i: usize = 0;
    while i < funs.len()
        invariant
            i <= funs.len(),
            items.len() == i,
            forall|j: int| 0 <= j < i ==> items@[j]@ == spec_cnc_fun_json(funs@[j]@),
        decreases funs.len() - i,
    {
        items.push(cnc_fun_to_json(&funs[i]));
        i += 1;
    }
    assert(views(items@) =~= Seq::new(
        views(funs@).len(),
        |i: int| spec_cnc_fun_json(views(funs@)[i]),
    ));
    array(items)
}

fn sequences_to_json(seqs: &Vec<Vec<Symbol>>) -> (r: Json)
    ensures
        r@ == sequences_json(nested_views(seqs@)),
{
    let mut items: Vec<Json> = Vec::new();
    let mut i: usize = 0;
    while i < seqs.len()
        invariant
            i <= seqs.len(),
            items.len() == i,
            forall|j: int| 0 <= j < i ==> items@[j]@ == spec_sequence_json(views(seqs@[j]@)),
        decreases seqs.len() - i,
    {
        items.push(sequence_to_json(&seqs[i]));
        i += 1;
    }
    assert(views(items@) =~= Seq::new(
        nested_views(seqs@).len(),
        |i: int| spec_sequence_json(nested_views(seqs@)[i]),
    ));
    array(items)
}

fn cnc_cats_to_json(cats: &Vec<(CId, CncCat)>) -> (r: Json)
    ensures
        r@ == cnc_cats_json(views(cats@)),
{
    let mut members: Vec<(String, Json)> = Vec::new();
    let mut i: usize = 0;
    while i < cats.len()
        invariant
            i <= cats.len(),
            members.len() == i,
            forall|j: int|
                0 <= j < i ==> members@[j]@ == (cats@[j].0@, spec_cnc_cat_json(cats@[j].1)),
        decreases cats.len() - i,
    {
        members.push(member(cats[i].0.0.as_str(), cnc_cat_to_json(&cats[i].1)));
        i += 1;
    }
    assert(views(members@) =~= Seq::new(
        views(cats@).len(),
        |i: int| (views(cats@)[i].0, spec_cnc_cat_json(views(cats@)[i].1)),
    ));
    object(members)
}

/// Projects a concrete syntax.
pub fn concrete_to_json(cnc: &Concrete) -> (r: Json)
    ensures
        r@ == spec_concrete_json(cnc@),
{
    let mut members: Vec<(String, Json)> = Vec::new();
    members.push(member("flags", flags_to_json(&cnc.cflags)));
    members.push(member("productions", productions_to_json(&cnc.productions)));
    members.push(member("functions", cnc_funs_to_json(&cnc.cncfuns)));
    members.push(member("sequences", sequences_to_json(&cnc.sequences)));
    members.push(member("categories", cnc_cats_to_json(&cnc.cnccats)));
    members.push(member("totalfids", number(cnc.total_cats)));
    assert(views(members@) =~= seq![
        ("flags"@, flags_json(cnc@.cflags)),
        ("productions"@, productions_json(cnc@.productions)),
        ("functions"@, cnc_funs_json(cnc@.cncfuns)),
        ("sequences"@, sequences_json(cnc@.sequences)),
        ("categories"@, cnc_cats_json(cnc@.cnccats)),
        ("totalfids"@, SpecJson::Int(cnc@.total_cats as int)),
    ]);
    object(members)
}

/// Projects the concrete syntaxes.
pub fn concretes_to_json(concretes: &Vec<(Language, Concrete)>) -> (r: Json)
    ensures
        r@ == spec_concretes_json(views(concretes@)),
{
    let mut members: Vec<(String, Json)> = Vec::new();
    let mut i: usize = 0;
    while i < concretes.len()
        invariant
            i <= concretes.len(),
            members.len() == i,
            forall|j: int|
                0 <= j < i ==> members@[j]@ == (
                    concretes@[j].0@,
                    spec_concrete_json(concretes@[j].1@),
                ),
        decreases concretes.len() - i,
    {
        members.push(member(concretes[i].0.0.0.as_str(), concrete_to_json(&concretes[i].1)));
        i += 1;
    }
    assert(views(members@) =~= Seq::new(
        views(concretes@).len(),
        |i: int| (views(concretes@)[i].0, spec_concrete_json(views(concretes@)[i].1)),
    ));
    object(members)
}

fn signature_to_json(fun: &Function) -> (r: Json)
    ensures
        r@ == signature_json(fun@),
{
    proof {
        lemma_type_view(fun.ty);
    }
    let hypos = &fun.ty.hypos;
    let mut items: Vec<Json> = Vec::new();
    let mut i: usize = 0;
    while i < hypos.len()
        invariant
            i <= hypos.len(),
            items.len() == i,
            forall|j: int| 0 <= j < i ==> items@[j]@ == SpecJson::Str(hypos@[j]@.ty.category),
        decreases hypos.len() - i,
    {
        proof {
            lemma_type_view(hypos@[i as int].ty);
        }
        items.push(text(hypos[i].ty.category.0.as_str()));
        i += 1;
    }
    assert(views(items@) =~= Seq::new(
        fun@.ty.hypos.len(),
        |i: int| SpecJson::Str(fun@.ty.hypos[i].ty.category),
    ));
    let mut members: Vec<(String, Json)> = Vec::new();
    members.push(member("args", array(items)));
    members.push(member("cat", text(fun.ty.category.0.as_str())));
    assert(views(members@) =~= seq![
        ("args"@, SpecJson::Array(views(items@))),
        ("cat"@, SpecJson::Str(fun@.ty.category)),
    ]);
    object(members)
}

/// Projects the abstract syntax under its name and start category.
pub fn abstract_to_json(name: &CId, startcat: &CId, abs: &Abstract) -> (r: Json)
    ensures
        r@ == spec_abstract_json(name@, startcat@, abs@),
{
    let mut funs: Vec<(String, Json)> = Vec::new();
    let mut i: usize = 0;
    while i < abs.funs.len()
        invariant
            i <= abs.funs.len(),
            funs.len() == i,
            forall|j: int|
                0 <= j < i ==> funs@[j]@ == (abs.funs@[j].0@, signature_json(abs.funs@[j].1@)),
        decreases abs.funs.len() - i,
    {
        funs.push(member(abs.funs[i].0.0.as_str(), signature_to_json(&abs.funs[i].1)));
        i += 1;
    }
    assert(views(funs@) =~= Seq::new(
        abs@.funs.len(),
        |i: int| (abs@.funs[i].0, signature_json(abs@.funs[i].1)),
    ));
    let mut members: Vec<(String, Json)> = Vec::new();
    members.push(member("name", text(name.0.as_str())));
    members.push(member("startcat", text(startcat.0.as_str())));
    members.push(member("funs", object(funs)));
    assert(views(members@) =~= seq![
        ("name"@, SpecJson::Str(name@)),
        ("startcat"@, SpecJson::Str(startcat@)),
        ("funs"@, SpecJson::Object(views(funs@))),
    ]);
    object(members)
}

/// Projects a grammar onto its JSON document.
pub fn pgf_to_json(pgf: &Pgf) -> (r: Json)
    ensures
        r@ == spec_pgf_json(pgf@),
{
    let mut members: Vec<(String, Json)> = Vec::new();
    members.push(
        member("abstract", abstract_to_json(&pgf.absname, &pgf.startcat, &pgf.abstract_syntax)),
    );
    members.push(member("concretes", concretes_to_json(&pgf.concretes)));
    assert(views(members@) =~= seq![
        ("abstract"@, spec_abstract_json(pgf@.absname, pgf@.startcat, pgf@.abstract_syntax)),
        ("concretes"@, spec_concretes_json(pgf@.concretes)),
    ]);
    object(members)
}

/// The document of every grammar is an object with the two members
/// `abstract` and `concretes`, and its `abstract` is an object that names
/// the abstract syntax and the start category.
pub proof fn lemma_document_shape(g: SpecPgf)
    ensures
        spec_pgf_json(g) is Object,
        spec_pgf_json(g)->Object_0.len() == 2,
        spec_pgf_json(g)->Object_0[0].0 == "abstract"@,
        spec_pgf_json(g)->Object_0[1].0 == "concretes"@,
        spec_pgf_json(g)->Object_0[0].1 is Object,
        spec_pgf_json(g)->Object_0[0].1->Object_0[0] == ("name"@, SpecJson::Str(g.absname)),
        spec_pgf_json(g)->Object_0[0].1->Object_0[1] == ("startcat"@, SpecJson::Str(g.startcat)),
        spec_pgf_json(g)->Object_0[1].1 is Object,
{
}

} // verus!
