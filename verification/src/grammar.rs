//! The grammar model: abstract syntax (categories and typed functions) and
//! concrete syntaxes (productions, sequences, linearization functions),
//! together with the mathematical view of every type.
//!
//! Tables that are keyed by an identifier are kept as vectors of entries in
//! insertion order; a lookup finds the first entry with the key.
//! Floating-point payloads are held as their IEEE-754 bit patterns.

use vstd::prelude::*;

verus! {

/// The element-wise view of a sequence.
pub open spec fn views<T: View>(s: Seq<T>) -> Seq<T::V> {
    Seq::new(s.len(), |i: int| s[i]@)
}

/// The element-wise view of a sequence of vectors.
pub open spec fn nested_views<T: View>(s: Seq<Vec<T>>) -> Seq<Seq<T::V>> {
    Seq::new(s.len(), |i: int| views(s[i]@))
}

/// The views of a sequence with one item more.
pub proof fn lemma_views_push<T: View>(s: Seq<T>, x: T)
    ensures
        views(s.push(x)) == views(s).push(x@),
{
    assert(views(s.push(x)) =~= views(s).push(x@));
}

/// The views of a sequence of vectors with one vector more.
pub proof fn lemma_nested_views_push<T: View>(s: Seq<Vec<T>>, x: Vec<T>)
    ensures
        nested_views(s.push(x)) == nested_views(s).push(views(x@)),
{
    assert(nested_views(s.push(x)) =~= nested_views(s).push(views(x@)));
}

/// An identifier: an opaque name, compared text for text.
#[derive(Debug, PartialEq, Eq, Hash)]
pub struct CId(pub String);

impl View for CId {
    type V = Seq<char>;

    open spec fn view(&self) -> Seq<char> {
        self.0@
    }
}

impl Clone for CId {
    fn clone(&self) -> (r: Self)
        ensures
            r@ == self@,
    {
        CId(self.0.clone())
    }
}

/// The name of a concrete syntax.
#[derive(Debug, PartialEq, Eq, Hash)]
pub struct Language(pub CId);

impl View for Language {
    type V = Seq<char>;

    open spec fn view(&self) -> Seq<char> {
        self.0@
    }
}

impl Clone for Language {
    fn clone(&self) -> (r: Self)
        ensures
            r@ == self@,
    {
        Language(self.0.clone())
    }
}

/// How a variable is bound: explicitly or implicitly.
#[derive(Debug, PartialEq, Eq)]
pub enum Binding {
    Explicit(String),
    Implicit(String),
}

pub enum SpecBinding {
    Explicit(Seq<char>),
    Implicit(Seq<char>),
}

impl View for Binding {
    type V = SpecBinding;

    open spec fn view(&self) -> SpecBinding {
        match self {
            Binding::Explicit(x) => SpecBinding::Explicit(x@),
            Binding::Implicit(x) => SpecBinding::Implicit(x@),
        }
    }
}

/// A tagged scalar: a string, a 32-bit integer, or the bits of a 64-bit float.
#[derive(Debug, PartialEq, Eq)]
pub enum Literal {
    Str(String),
    Int(i32),
    Flt(u64),
}

pub enum SpecLiteral {
    Str(Seq<char>),
    Int(i32),
    Flt(u64),
}

impl View for Literal {
    type V = SpecLiteral;

    open spec fn view(&self) -> SpecLiteral {
        match self {
            Literal::Str(s) => SpecLiteral::Str(s@),
            Literal::Int(n) => SpecLiteral::Int(*n),
            Literal::Flt(b) => SpecLiteral::Flt(*b),
        }
    }
}

/// The type of one argument of a dependent function.
#[derive(Debug, PartialEq, Eq)]
pub struct Hypo {
    pub binding: Binding,
    pub ty: Type,
}

pub struct SpecHypo {
    pub binding: SpecBinding,
    pub ty: SpecType,
}

/// A type: hypotheses, the category, and expression arguments.
#[derive(Debug, PartialEq, Eq)]
pub struct Type {
    pub hypos: Vec<Hypo>,
    pub category: CId,
    pub exprs: Vec<Expr>,
}

pub struct SpecType {
    pub hypos: Seq<SpecHypo>,
    pub category: Seq<char>,
    pub exprs: Seq<SpecExpr>,
}

/// An abstract syntax tree. `Float` and `Double` hold bit patterns.
#[derive(Debug, PartialEq, Eq)]
pub enum Expr {
    Abs(Binding, CId, Box<Expr>),
    App(Box<Expr>, Box<Expr>),
    Fun(CId),
    Str(String),
    Int(i32),
    Float(u32),
    Double(u64),
    Meta,
    Typed(Box<Expr>, Type),
    ImplArg(Box<Expr>),
}

pub enum SpecExpr {
    Abs(SpecBinding, Seq<char>, Box<SpecExpr>),
    App(Box<SpecExpr>, Box<SpecExpr>),
    Fun(Seq<char>),
    Str(Seq<char>),
    Int(i32),
    Float(u32),
    Double(u64),
    Meta,
    Typed(Box<SpecExpr>, SpecType),
    ImplArg(Box<SpecExpr>),
}

impl View for Hypo {
    type V = SpecHypo;

    open spec fn view(&self) -> SpecHypo
        decreases self,
    {
        SpecHypo { binding: self.binding@, ty: self.ty.view() }
    }
}

/// The views of the first `n` hypotheses of `s`.
pub open spec fn hypos_view(s: Seq<Hypo>, n: nat) -> Seq<SpecHypo>
    decreases s, n,
{
    if n == 0 || n > s.len() {
        Seq::empty()
    } else {
        hypos_view(s, (n - 1) as nat).push(s[n - 1].view())
    }
}

/// The views of the first `n` expressions of `s`.
pub open spec fn exprs_view(s: Seq<Expr>, n: nat) -> Seq<SpecExpr>
    decreases s, n,
{
    if n == 0 || n > s.len() {
        Seq::empty()
    } else {
        exprs_view(s, (n - 1) as nat).push(s[n - 1].view())
    }
}

impl View for Type {
    type V = SpecType;

    open spec fn view(&self) -> SpecType
        decreases self,
    {
        SpecType {
            hypos: hypos_view(self.hypos@, self.hypos@.len()),
            category: self.category@,
            exprs: exprs_view(self.exprs@, self.exprs@.len()),
        }
    }
}

impl View for Expr {
    type V = SpecExpr;

    open spec fn view(&self) -> SpecExpr
        decreases self,
    {
        match self {
            Expr::Abs(b, x, body) => SpecExpr::Abs(b@, x@, Box::new((**body).view())),
            Expr::App(f, a) => SpecExpr::App(Box::new((**f).view()), Box::new((**a).view())),
            Expr::Fun(f) => SpecExpr::Fun(f@),
            Expr::Str(s) => SpecExpr::Str(s@),
            Expr::Int(n) => SpecExpr::Int(*n),
            Expr::Float(b) => SpecExpr::Float(*b),
            Expr::Double(b) => SpecExpr::Double(*b),
            Expr::Meta => SpecExpr::Meta,
            Expr::Typed(e, t) => SpecExpr::Typed(Box::new((**e).view()), t.view()),
            Expr::ImplArg(e) => SpecExpr::ImplArg(Box::new((**e).view())),
        }
    }
}

/// `hypos_view` is the element-wise view.
pub proof fn lemma_hypos_view(s: Seq<Hypo>, n: nat)
    requires
        n <= s.len(),
    ensures
        hypos_view(s, n) == views(s.take(n as int)),
    decreases n,
{
    if n > 0 {
        lemma_hypos_view(s, (n - 1) as nat);
        assert(s.take(n as int) =~= s.take(n - 1).push(s[n - 1]));
        lemma_views_push(s.take(n - 1), s[n - 1]);
    } else {
        assert(hypos_view(s, n) =~= views(s.take(n as int)));
    }
}

/// `exprs_view` is the element-wise view.
pub proof fn lemma_exprs_view(s: Seq<Expr>, n: nat)
    requires
        n <= s.len(),
    ensures
        exprs_view(s, n) == views(s.take(n as int)),
    decreases n,
{
    if n > 0 {
        lemma_exprs_view(s, (n - 1) as nat);
        assert(s.take(n as int) =~= s.take(n - 1).push(s[n - 1]));
        lemma_views_push(s.take(n - 1), s[n - 1]);
    } else {
        assert(exprs_view(s, n) =~= views(s.take(n as int)));
    }
}

/// The view of a type, field by field.
pub proof fn lemma_type_view(t: Type)
    ensures
        t@.hypos == views(t.hypos@),
        t@.category == t.category@,
        t@.exprs == views(t.exprs@),
{
    lemma_hypos_view(t.hypos@, t.hypos@.len());
    lemma_exprs_view(t.exprs@, t.exprs@.len());
    assert(t.hypos@.take(t.hypos@.len() as int) =~= t.hypos@);
    assert(t.exprs@.take(t.exprs@.len() as int) =~= t.exprs@);
}

/// One element of a linearization sequence.
#[derive(Debug, PartialEq, Eq, Hash)]
pub enum Symbol {
    SymCat(i32, i32),
    SymLit(i32, i32),
    SymVar(i32, i32),
    SymKS(String),
    SymKP(Vec<Symbol>, Vec<Alt>),
    SymNE,
}

pub enum SpecSymbol {
    SymCat(i32, i32),
    SymLit(i32, i32),
    SymVar(i32, i32),
    SymKS(Seq<char>),
    SymKP(Seq<SpecSymbol>, Seq<SpecAlt>),
    SymNE,
}

/// A context-dependent variant of a token: the symbols to use when the
/// next token starts with one of the trigger tokens.
#[derive(Debug, PartialEq, Eq, Hash)]
pub struct Alt {
    pub symbols: Vec<Symbol>,
    pub tokens: Vec<String>,
}

pub struct SpecAlt {
    pub symbols: Seq<SpecSymbol>,
    pub tokens: Seq<Seq<char>>,
}

/// The views of the first `n` symbols of `s`.
pub open spec fn symbols_view(s: Seq<Symbol>, n: nat) -> Seq<SpecSymbol>
    decreases s, n,
{
    if n == 0 || n > s.len() {
        Seq::empty()
    } else {
        symbols_view(s, (n - 1) as nat).push(s[n - 1].view())
    }
}

/// The views of the first `n` variants of `s`.
pub open spec fn alts_view(s: Seq<Alt>, n: nat) -> Seq<SpecAlt>
    decreases s, n,
{
    if n == 0 || n > s.len() {
        Seq::empty()
    } else {
        alts_view(s, (n - 1) as nat).push(s[n - 1].view())
    }
}

impl View for Symbol {
    type V = SpecSymbol;

    open spec fn view(&self) -> SpecSymbol
        decreases self,
    {
        match self {
            Symbol::SymCat(d, r) => SpecSymbol::SymCat(*d, *r),
            Symbol::SymLit(d, r) => SpecSymbol::SymLit(*d, *r),
            Symbol::SymVar(d, r) => SpecSymbol::SymVar(*d, *r),
            Symbol::SymKS(t) => SpecSymbol::SymKS(t@),
            Symbol::SymKP(syms, alts) => SpecSymbol::SymKP(
                symbols_view(syms@, syms@.len()),
                alts_view(alts@, alts@.len()),
            ),
            Symbol::SymNE => SpecSymbol::SymNE,
        }
    }
}

impl View for Alt {
    type V = SpecAlt;

    open spec fn view(&self) -> SpecAlt
        decreases self,
    {
        SpecAlt {
            symbols: symbols_view(self.symbols@, self.symbols@.len()),
            tokens: views(self.tokens@),
        }
    }
}

/// `symbols_view` is the element-wise view.
pub proof fn lemma_symbols_view(s: Seq<Symbol>, n: nat)
    requires
        n <= s.len(),
    ensures
        symbols_view(s, n) == views(s.take(n as int)),
    decreases n,
{
    if n > 0 {
        lemma_symbols_view(s, (n - 1) as nat);
        assert(s.take(n as int) =~= s.take(n - 1).push(s[n - 1]));
        lemma_views_push(s.take(n - 1), s[n - 1]);
    } else {
        assert(symbols_view(s, n) =~= views(s.take(n as int)));
    }
}

/// `alts_view` is the element-wise view.
pub proof fn lemma_alts_view(s: Seq<Alt>, n: nat)
    requires
        n <= s.len(),
    ensures
        alts_view(s, n) == views(s.take(n as int)),
    decreases n,
{
    if n > 0 {
        lemma_alts_view(s, (n - 1) as nat);
        assert(s.take(n as int) =~= s.take(n - 1).push(s[n - 1]));
        lemma_views_push(s.take(n - 1), s[n - 1]);
    } else {
        assert(alts_view(s, n) =~= views(s.take(n as int)));
    }
}

/// The view of a symbol with variants, field by field.
pub proof fn lemma_symkp_view(syms: Vec<Symbol>, alts: Vec<Alt>)
    ensures
        Symbol::SymKP(syms, alts)@ == SpecSymbol::SymKP(views(syms@), views(alts@)),
{
    lemma_symbols_view(syms@, syms@.len());
    lemma_alts_view(alts@, alts@.len());
    assert(syms@.take(syms@.len() as int) =~= syms@);
    assert(alts@.take(alts@.len() as int) =~= alts@);
}

/// The view of a variant, field by field.
pub proof fn lemma_alt_view(a: Alt)
    ensures
        a@.symbols == views(a.symbols@),
        a@.tokens == views(a.tokens@),
{
    lemma_symbols_view(a.symbols@, a.symbols@.len());
    assert(a.symbols@.take(a.symbols@.len() as int) =~= a.symbols@);
}

/// The argument of a production: the fids bound by hypotheses, and the
/// fid of the argument itself.
#[derive(Debug, PartialEq, Eq, Hash)]
pub struct PArg {
    pub hypos: Vec<i32>,
    pub fid: i32,
}

pub struct SpecPArg {
    pub hypos: Seq<i32>,
    pub fid: i32,
}

impl View for PArg {
    type V = SpecPArg;

    open spec fn view(&self) -> SpecPArg {
        SpecPArg { hypos: self.hypos@, fid: self.fid }
    }
}

/// A rule of a concrete syntax.
#[derive(Debug, PartialEq, Eq, Hash)]
pub enum Production {
    Apply { fid: i32, args: Vec<PArg> },
    Coerce { arg: i32 },
}

pub enum SpecProduction {
    Apply { fid: i32, args: Seq<SpecPArg> },
    Coerce { arg: i32 },
}

impl View for Production {
    type V = SpecProduction;

    open spec fn view(&self) -> SpecProduction {
        match self {
            Production::Apply { fid, args } => SpecProduction::Apply {
                fid: *fid,
                args: views(args@),
            },
            Production::Coerce { arg } => SpecProduction::Coerce { arg: *arg },
        }
    }
}

/// The range of fids that realize a category.
#[derive(Debug, Clone, Copy, PartialEq, Eq, Hash)]
pub struct CncCat {
    pub start: i32,
    pub end: i32,
}

impl View for CncCat {
    type V = CncCat;

    open spec fn view(&self) -> CncCat {
        *self
    }
}

/// A concrete function: its name and, for each output field, the index of
/// a sequence.
#[derive(Debug, PartialEq, Eq, Hash)]
pub struct CncFun {
    pub name: CId,
    pub lins: Vec<i32>,
}

pub struct SpecCncFun {
    pub name: Seq<char>,
    pub lins: Seq<i32>,
}

impl View for CncFun {
    type V = SpecCncFun;

    open spec fn view(&self) -> SpecCncFun {
        SpecCncFun { name: self.name@, lins: self.lins@ }
    }
}

/// A pattern of an equation.
#[derive(Debug, PartialEq, Eq)]
pub enum Pattern {
    PVar(CId),
    PApp(CId, Vec<Pattern>),
}

pub enum SpecPattern {
    PVar(Seq<char>),
    PApp(Seq<char>, Seq<SpecPattern>),
}

/// The views of the first `n` patterns of `s`.
pub open spec fn patterns_view(s: Seq<Pattern>, n: nat) -> Seq<SpecPattern>
    decreases s, n,
{
    if n == 0 || n > s.len() {
        Seq::empty()
    } else {
        patterns_view(s, (n - 1) as nat).push(s[n - 1].view())
    }
}

impl View for Pattern {
    type V = SpecPattern;

    open spec fn view(&self) -> SpecPattern
        decreases self,
    {
        match self {
            Pattern::PVar(x) => SpecPattern::PVar(x@),
            Pattern::PApp(f, args) => SpecPattern::PApp(f@, patterns_view(args@, args@.len())),
        }
    }
}

/// One defining equation of a function: patterns and the result.
#[derive(Debug, PartialEq, Eq)]
pub struct Equation {
    pub patterns: Vec<Pattern>,
    pub result: Expr,
}

pub struct SpecEquation {
    pub patterns: Seq<SpecPattern>,
    pub result: SpecExpr,
}

impl View for Equation {
    type V = SpecEquation;

    open spec fn view(&self) -> SpecEquation {
        SpecEquation { patterns: views(self.patterns@), result: self.result@ }
    }
}

/// An instruction of the evaluator. The instructions are kept for a later
/// evaluator; so far there is one, which does nothing.
#[derive(Debug, Clone, Copy, PartialEq, Eq)]
pub enum Instr {
    Reserved,
}

impl View for Instr {
    type V = Instr;

    open spec fn view(&self) -> Instr {
        *self
    }
}

/// An abstract function: its type, weight, definition and the bits of its
/// probability.
#[derive(Debug, PartialEq, Eq)]
pub struct Function {
    pub ty: Type,
    pub weight: i32,
    pub equations: Option<(Vec<Equation>, Vec<Vec<Instr>>)>,
    pub prob: u64,
}

pub struct SpecFunction {
    pub ty: SpecType,
    pub weight: i32,
    pub equations: Option<(Seq<SpecEquation>, Seq<Seq<Instr>>)>,
    pub prob: u64,
}

impl View for Function {
    type V = SpecFunction;

    open spec fn view(&self) -> SpecFunction {
        SpecFunction {
            ty: self.ty@,
            weight: self.weight,
            equations: match self.equations {
                Some(d) => Some((views(d.0@), nested_views(d.1@))),
                None => None,
            },
            prob: self.prob,
        }
    }
}

/// An abstract category: its context and the functions that produce it.
#[derive(Debug, PartialEq, Eq)]
pub struct Category {
    pub hypos: Vec<Hypo>,
    pub funs: Vec<(usize, CId)>,
}

pub struct SpecCategory {
    pub hypos: Seq<SpecHypo>,
    pub funs: Seq<(usize, Seq<char>)>,
}

impl View for Category {
    type V = SpecCategory;

    open spec fn view(&self) -> SpecCategory {
        SpecCategory { hypos: views(self.hypos@), funs: views(self.funs@) }
    }
}

/// The abstract syntax: functions and categories, in insertion order.
#[derive(Debug, PartialEq, Eq)]
pub struct Abstract {
    pub funs: Vec<(CId, Function)>,
    pub cats: Vec<(CId, Category)>,
}

pub struct SpecAbstract {
    pub funs: Seq<(Seq<char>, SpecFunction)>,
    pub cats: Seq<(Seq<char>, SpecCategory)>,
}

impl View for Abstract {
    type V = SpecAbstract;

    open spec fn view(&self) -> SpecAbstract {
        SpecAbstract { funs: views(self.funs@), cats: views(self.cats@) }
    }
}

/// The productions of one category instance, without repetition.
#[derive(Debug, PartialEq, Eq)]
pub struct ProductionSet {
    pub fid: i32,
    pub prods: Vec<Production>,
}

impl View for ProductionSet {
    type V = (i32, Seq<SpecProduction>);

    open spec fn view(&self) -> (i32, Seq<SpecProduction>) {
        (self.fid, views(self.prods@))
    }
}

/// A concrete syntax.
#[derive(Debug, PartialEq, Eq)]
pub struct Concrete {
    pub cflags: Vec<(CId, Literal)>,
    pub productions: Vec<ProductionSet>,
    pub cncfuns: Vec<CncFun>,
    pub sequences: Vec<Vec<Symbol>>,
    pub cnccats: Vec<(CId, CncCat)>,
    pub total_cats: i32,
}

pub struct SpecConcrete {
    pub cflags: Seq<(Seq<char>, SpecLiteral)>,
    pub productions: Seq<(i32, Seq<SpecProduction>)>,
    pub cncfuns: Seq<SpecCncFun>,
    pub sequences: Seq<Seq<SpecSymbol>>,
    pub cnccats: Seq<(Seq<char>, CncCat)>,
    pub total_cats: i32,
}

impl View for Concrete {
    type V = SpecConcrete;

    open spec fn view(&self) -> SpecConcrete {
        SpecConcrete {
            cflags: views(self.cflags@),
            productions: views(self.productions@),
            cncfuns: views(self.cncfuns@),
            sequences: nested_views(self.sequences@),
            cnccats: views(self.cnccats@),
            total_cats: self.total_cats,
        }
    }
}

/// A grammar: one abstract syntax and its concrete syntaxes.
#[derive(Debug, PartialEq, Eq)]
pub struct Pgf {
    pub absname: CId,
    pub concretes: Vec<(Language, Concrete)>,
    pub abstract_syntax: Abstract,
    pub startcat: CId,
    pub flags: Vec<(CId, Literal)>,
}

pub struct SpecPgf {
    pub absname: Seq<char>,
    pub concretes: Seq<(Seq<char>, SpecConcrete)>,
    pub abstract_syntax: SpecAbstract,
    pub startcat: Seq<char>,
    pub flags: Seq<(Seq<char>, SpecLiteral)>,
}

impl View for Pgf {
    type V = SpecPgf;

    open spec fn view(&self) -> SpecPgf {
        SpecPgf {
            absname: self.absname@,
            concretes: views(self.concretes@),
            abstract_syntax: self.abstract_syntax@,
            startcat: self.startcat@,
            flags: views(self.flags@),
        }
    }
}

} // verus!
