//! The encoding of types and expressions.

use vstd::prelude::*;

use crate::binary::terms::{
    spec_read_binding, spec_read_expr, spec_read_exprs, spec_read_hypo, spec_read_hypos,
    spec_read_type,
};
use crate::grammar::{SpecBinding, SpecExpr, SpecHypo, SpecType};
use crate::wire::{
    encode_i32, encode_string, encode_u32, encode_u64, encode_u8, lemma_i32_returns,
    lemma_stored_split, lemma_string_returns, lemma_string_short, lemma_u32_returns,
    lemma_u64_returns, lemma_u8_returns, spec_read_i32, spec_read_string, spec_read_u32,
    spec_read_u64, spec_read_u8, stored_at, Failure,
};

verus! {

/// The encoding of a binding.
pub open spec fn encode_binding(b: SpecBinding) -> Seq<u8> {
    match b {
        SpecBinding::Explicit(x) => encode_u8(0) + encode_string(x),
        SpecBinding::Implicit(x) => encode_u8(1) + encode_string(x),
    }
}

/// The encoding of a hypothesis that is nested less than `depth` deep.
pub open spec fn encode_hypo(h: SpecHypo, depth: nat) -> Seq<u8>
    decreases depth, 0nat,
{
    if depth == 0 {
        Seq::empty()
    } else {
        encode_binding(h.binding) + encode_type(h.ty, (depth - 1) as nat)
    }
}

/// The encoding of hypotheses, one after the other.
pub open spec fn encode_hypos(hs: Seq<SpecHypo>, depth: nat) -> Seq<u8>
    decreases depth, hs.len() + 1,
{
    if hs.len() == 0 {
        Seq::empty()
    } else {
        encode_hypo(hs[0], depth) + encode_hypos(hs.drop_first(), depth)
    }
}

/// The encoding of a type that is nested less than `depth` deep.
pub open spec fn encode_type(t: SpecType, depth: nat) -> Seq<u8>
    decreases depth, 0nat,
{
    if depth == 0 {
        Seq::empty()
    } else {
        let d = (depth - 1) as nat;
        encode_u32(t.hypos.len() as u32) + (encode_hypos(t.hypos, d) + (encode_string(t.category)
            + (encode_u32(t.exprs.len() as u32) + encode_exprs(t.exprs, d))))
    }
}

/// The encoding of expressions, one after the other.
pub open spec fn encode_exprs(es: Seq<SpecExpr>, depth: nat) -> Seq<u8>
    decreases depth, es.len() + 1,
{
    if es.len() == 0 {
        Seq::empty()
    } else {
        encode_expr(es[0], depth) + encode_exprs(es.drop_first(), depth)
    }
}

/// The encoding of an expression that is nested less than `depth` deep.
pub open spec fn encode_expr(e: SpecExpr, depth: nat) -> Seq<u8>
    decreases depth, 0nat,
{
    if depth == 0 {
        Seq::empty()
    } else {
        let d = (depth - 1) as nat;
        match e {
            SpecExpr::Abs(b, x, body) => encode_u8(0) + (encode_binding(b) + (encode_string(x)
                + encode_expr(*body, d))),
            SpecExpr::App(f, a) => encode_u8(1) + (encode_expr(*f, d) + encode_expr(*a, d)),
            SpecExpr::Fun(f) => encode_u8(2) + encode_string(f),
            SpecExpr::Str(s) => encode_u8(3) + encode_string(s),
            SpecExpr::Int(n) => encode_u8(4) + encode_i32(n),
            SpecExpr::Float(b) => encode_u8(5) + encode_u32(b),
            SpecExpr::Double(b) => encode_u8(6) + encode_u64(b),
            SpecExpr::Meta => encode_u8(7),
            SpecExpr::Typed(x, t) => encode_u8(8) + (encode_expr(*x, d) + encode_type(t, d)),
            SpecExpr::ImplArg(x) => encode_u8(9) + encode_expr(*x, d),
        }
    }
}

/// Where the encoding of a binding that was read stands, the same is read.
pub proof fn lemma_binding_again(data: Seq<u8>, pos: int, out: Seq<u8>, at: int)
    requires
        spec_read_binding(data, pos) is Ok,
        stored_at(out, at, encode_binding(spec_read_binding(data, pos)->Ok_0.0)),
    ensures
        spec_read_binding(out, at) == Ok::<(SpecBinding, int), Failure>(
            (
                spec_read_binding(data, pos)->Ok_0.0,
                at + encode_binding(spec_read_binding(data, pos)->Ok_0.0).len(),
            ),
        ),
{
    let (tag, p) = spec_read_u8(data, pos, "binding tag")->Ok_0;
    lemma_string_short(data, p, "binding name");
    let x = spec_read_string(data, p, "binding name")->Ok_0.0;
    lemma_stored_split(out, at, encode_u8(tag), encode_string(x));
    lemma_u8_returns(tag, out, at, "binding tag");
    lemma_string_returns(x, out, at + 1, "binding name");
}

/// Where the encoding of a hypothesis that was read stands, the same is read.
pub proof fn lemma_hypo_again(data: Seq<u8>, pos: int, depth: nat, out: Seq<u8>, at: int)
    requires
        spec_read_hypo(data, pos, depth) is Ok,
        stored_at(out, at, encode_hypo(spec_read_hypo(data, pos, depth)->Ok_0.0, depth)),
    ensures
        spec_read_hypo(out, at, depth) == Ok::<(SpecHypo, int), Failure>(
            (
                spec_read_hypo(data, pos, depth)->Ok_0.0,
                at + encode_hypo(spec_read_hypo(data, pos, depth)->Ok_0.0, depth).len(),
            ),
        ),
    decreases depth, 0nat,
{
    let d = (depth - 1) as nat;
    let (binding, p) = spec_read_binding(data, pos)->Ok_0;
    let ty = spec_read_type(data, p, d)->Ok_0.0;
    lemma_stored_split(out, at, encode_binding(binding), encode_type(ty, d));
    lemma_binding_again(data, pos, out, at);
    lemma_type_again(data, p, d, out, at + encode_binding(binding).len());
}

/// Where the encoding of hypotheses that was read stands, the same is read.
pub proof fn lemma_hypos_again(data: Seq<u8>, pos: int, n: nat, depth: nat, out: Seq<u8>, at: int)
    requires
        spec_read_hypos(data, pos, n, depth) is Ok,
        stored_at(out, at, encode_hypos(spec_read_hypos(data, pos, n, depth)->Ok_0.0, depth)),
    ensures
        spec_read_hypos(out, at, n, depth) == Ok::<(Seq<SpecHypo>, int), Failure>(
            (
                spec_read_hypos(data, pos, n, depth)->Ok_0.0,
                at + encode_hypos(spec_read_hypos(data, pos, n, depth)->Ok_0.0, depth).len(),
            ),
        ),
        spec_read_hypos(data, pos, n, depth)->Ok_0.0.len() == n,
    decreases depth, n + 1,
{
    if n > 0 {
        let (x, p) = spec_read_hypo(data, pos, depth)->Ok_0;
        let rest = spec_read_hypos(data, p, (n - 1) as nat, depth)->Ok_0.0;
        let all = seq![x] + rest;
        assert(all.drop_first() =~= rest);
        lemma_stored_split(out, at, encode_hypo(x, depth), encode_hypos(rest, depth));
        lemma_hypo_again(data, pos, depth, out, at);
        lemma_hypos_again(data, p, (n - 1) as nat, depth, out, at + encode_hypo(x, depth).len());
    }
}

/// Where the encoding of a type that was read stands, the same is read.
pub proof fn lemma_type_again(data: Seq<u8>, pos: int, depth: nat, out: Seq<u8>, at: int)
    requires
        spec_read_type(data, pos, depth) is Ok,
        stored_at(out, at, encode_type(spec_read_type(data, pos, depth)->Ok_0.0, depth)),
    ensures
        spec_read_type(out, at, depth) == Ok::<(SpecType, int), Failure>(
            (
                spec_read_type(data, pos, depth)->Ok_0.0,
                at + encode_type(spec_read_type(data, pos, depth)->Ok_0.0, depth).len(),
            ),
        ),
    decreases depth, 0nat,
{
    let d = (depth - 1) as nat;
    let (nh, p1) = spec_read_u32(data, pos, "hypothesis count")->Ok_0;
    let (hypos, p2) = spec_read_hypos(data, p1, nh as nat, d)->Ok_0;
    let (category, p3) = spec_read_string(data, p2, "category")->Ok_0;
    let (ne, p4) = spec_read_u32(data, p3, "expression count")->Ok_0;
    let (exprs, p5) = spec_read_exprs(data, p4, ne as nat, d)->Ok_0;
    let e1 = encode_u32(nh);
    let e2 = encode_hypos(hypos, d);
    let e3 = encode_string(category);
    let e4 = encode_u32(ne);
    let e5 = encode_exprs(exprs, d);
    lemma_hypos_len(data, p1, nh as nat, d);
    lemma_exprs_len(data, p4, ne as nat, d);
    lemma_string_short(data, p2, "category");
    lemma_stored_split(out, at, e1, e2 + (e3 + (e4 + e5)));
    lemma_u32_returns(nh, out, at, "hypothesis count");
    let a1 = at + 4;
    lemma_stored_split(out, a1, e2, e3 + (e4 + e5));
    lemma_hypos_again(data, p1, nh as nat, d, out, a1);
    let a2 = a1 + e2.len();
    lemma_stored_split(out, a2, e3, e4 + e5);
    lemma_string_returns(category, out, a2, "category");
    let a3 = a2 + e3.len();
    lemma_stored_split(out, a3, e4, e5);
    lemma_u32_returns(ne, out, a3, "expression count");
    lemma_exprs_again(data, p4, ne as nat, d, out, a3 + 4);
}

/// A list that was read has the length that was asked for.
pub proof fn lemma_hypos_len(data: Seq<u8>, pos: int, n: nat, depth: nat)
    requires
        spec_read_hypos(data, pos, n, depth) is Ok,
    ensures
        spec_read_hypos(data, pos, n, depth)->Ok_0.0.len() == n,
    decreases n,
{
    if n > 0 {
        let p = spec_read_hypo(data, pos, depth)->Ok_0.1;
        lemma_hypos_len(data, p, (n - 1) as nat, depth);
    }
}

/// A list that was read has the length that was asked for.
pub proof fn lemma_exprs_len(data: Seq<u8>, pos: int, n: nat, depth: nat)
    requires
        spec_read_exprs(data, pos, n, depth) is Ok,
    ensures
        spec_read_exprs(data, pos, n, depth)->Ok_0.0.len() == n,
    decreases n,
{
    if n > 0 {
        let p = spec_read_expr(data, pos, depth)->Ok_0.1;
        lemma_exprs_len(data, p, (n - 1) as nat, depth);
    }
}

/// Where the encoding of expressions that was read stands, the same is read.
pub proof fn lemma_exprs_again(data: Seq<u8>, pos: int, n: nat, depth: nat, out: Seq<u8>, at: int)
    requires
        spec_read_exprs(data, pos, n, depth) is Ok,
        stored_at(out, at, encode_exprs(spec_read_exprs(data, pos, n, depth)->Ok_0.0, depth)),
    ensures
        spec_read_exprs(out, at, n, depth) == Ok::<(Seq<SpecExpr>, int), Failure>(
            (
                spec_read_exprs(data, pos, n, depth)->Ok_0.0,
                at + encode_exprs(spec_read_exprs(data, pos, n, depth)->Ok_0.0, depth).len(),
            ),
        ),
    decreases depth, n + 1,
{
    if n > 0 {
        let (x, p) = spec_read_expr(data, pos, depth)->Ok_0;
        let rest = spec_read_exprs(data, p, (n - 1) as nat, depth)->Ok_0.0;
        let all = seq![x] + rest;
        assert(all.drop_first() =~= rest);
        lemma_stored_split(out, at, encode_expr(x, depth), encode_exprs(rest, depth));
        lemma_expr_again(data, pos, depth, out, at);
        lemma_exprs_again(data, p, (n - 1) as nat, depth, out, at + encode_expr(x, depth).len());
    }
}

proof fn lemma_expr_abs_again(data: Seq<u8>, pos: int, depth: nat, out: Seq<u8>, at: int)
    requires
        spec_read_expr(data, pos, depth) is Ok,
        spec_read_u8(data, pos, "expression tag")->Ok_0.0 == 0,
        stored_at(out, at, encode_expr(spec_read_expr(data, pos, depth)->Ok_0.0, depth)),
    ensures
        spec_read_expr(out, at, depth) == Ok::<(SpecExpr, int), Failure>(
            (
                spec_read_expr(data, pos, depth)->Ok_0.0,
                at + encode_expr(spec_read_expr(data, pos, depth)->Ok_0.0, depth).len(),
            ),
        ),
    decreases depth, 0nat,
{
    let d = (depth - 1) as nat;
    let p = pos + 1;
    let a = at + 1;
    let (b, p1) = spec_read_binding(data, p)->Ok_0;
    let (x, p2) = spec_read_string(data, p1, "variable")->Ok_0;
    let body = spec_read_expr(data, p2, d)->Ok_0.0;
    lemma_string_short(data, p1, "variable");
    lemma_stored_split(
        out,
        at,
        encode_u8(0),
        encode_binding(b) + (encode_string(x) + encode_expr(body, d)),
    );
    lemma_u8_returns(0, out, at, "expression tag");
    lemma_stored_split(out, a, encode_binding(b), encode_string(x) + encode_expr(body, d));
    lemma_binding_again(data, p, out, a);
    let a1 = a + encode_binding(b).len();
    lemma_stored_split(out, a1, encode_string(x), encode_expr(body, d));
    lemma_string_returns(x, out, a1, "variable");
    lemma_expr_again(data, p2, d, out, a1 + encode_string(x).len());
}

proof fn lemma_expr_app_again(data: Seq<u8>, pos: int, depth: nat, out: Seq<u8>, at: int)
    requires
        spec_read_expr(data, pos, depth) is Ok,
        spec_read_u8(data, pos, "expression tag")->Ok_0.0 == 1,
        stored_at(out, at, encode_expr(spec_read_expr(data, pos, depth)->Ok_0.0, depth)),
    ensures
        spec_read_expr(out, at, depth) == Ok::<(SpecExpr, int), Failure>(
            (
                spec_read_expr(data, pos, depth)->Ok_0.0,
                at + encode_expr(spec_read_expr(data, pos, depth)->Ok_0.0, depth).len(),
            ),
        ),
    decreases depth, 0nat,
{
    let d = (depth - 1) as nat;
    let p = pos + 1;
    let a = at + 1;
    let (f, p1) = spec_read_expr(data, p, d)->Ok_0;
    let x = spec_read_expr(data, p1, d)->Ok_0.0;
    lemma_stored_split(out, at, encode_u8(1), encode_expr(f, d) + encode_expr(x, d));
    lemma_u8_returns(1, out, at, "expression tag");
    lemma_stored_split(out, a, encode_expr(f, d), encode_expr(x, d));
    lemma_expr_again(data, p, d, out, a);
    lemma_expr_again(data, p1, d, out, a + encode_expr(f, d).len());
}

proof fn lemma_expr_typed_again(data: Seq<u8>, pos: int, depth: nat, out: Seq<u8>, at: int)
    requires
        spec_read_expr(data, pos, depth) is Ok,
        spec_read_u8(data, pos, "expression tag")->Ok_0.0 == 8,
        stored_at(out, at, encode_expr(spec_read_expr(data, pos, depth)->Ok_0.0, depth)),
    ensures
        spec_read_expr(out, at, depth) == Ok::<(SpecExpr, int), Failure>(
            (
                spec_read_expr(data, pos, depth)->Ok_0.0,
                at + encode_expr(spec_read_expr(data, pos, depth)->Ok_0.0, depth).len(),
            ),
        ),
    decreases depth, 0nat,
{
    let d = (depth - 1) as nat;
    let p = pos + 1;
    let a = at + 1;
    let (x, p1) = spec_read_expr(data, p, d)->Ok_0;
    let t = spec_read_type(data, p1, d)->Ok_0.0;
    lemma_stored_split(out, at, encode_u8(8), encode_expr(x, d) + encode_type(t, d));
    lemma_u8_returns(8, out, at, "expression tag");
    lemma_stored_split(out, a, encode_expr(x, d), encode_type(t, d));
    lemma_expr_again(data, p, d, out, a);
    lemma_type_again(data, p1, d, out, a + encode_expr(x, d).len());
}

proof fn lemma_expr_implarg_again(data: Seq<u8>, pos: int, depth: nat, out: Seq<u8>, at: int)
    requires
        spec_read_expr(data, pos, depth) is Ok,
        spec_read_u8(data, pos, "expression tag")->Ok_0.0 == 9,
        stored_at(out, at, encode_expr(spec_read_expr(data, pos, depth)->Ok_0.0, depth)),
    ensures
        spec_read_expr(out, at, depth) == Ok::<(SpecExpr, int), Failure>(
            (
                spec_read_expr(data, pos, depth)->Ok_0.0,
                at + encode_expr(spec_read_expr(data, pos, depth)->Ok_0.0, depth).len(),
            ),
        ),
    decreases depth, 0nat,
{
    let d = (depth - 1) as nat;
    let p = pos + 1;
    let a = at + 1;
    let x = spec_read_expr(data, p, d)->Ok_0.0;
    lemma_stored_split(out, at, encode_u8(9), encode_expr(x, d));
    lemma_u8_returns(9, out, at, "expression tag");
    lemma_expr_again(data, p, d, out, a);
}

proof fn lemma_expr_text_again(data: Seq<u8>, pos: int, depth: nat, out: Seq<u8>, at: int)
    requires
        spec_read_expr(data, pos, depth) is Ok,
        spec_read_u8(data, pos, "expression tag")->Ok_0.0 == 2 || spec_read_u8(data, pos, "expression tag")->Ok_0.0 == 3,
        stored_at(out, at, encode_expr(spec_read_expr(data, pos, depth)->Ok_0.0, depth)),
    ensures
        spec_read_expr(out, at, depth) == Ok::<(SpecExpr, int), Failure>(
            (
                spec_read_expr(data, pos, depth)->Ok_0.0,
                at + encode_expr(spec_read_expr(data, pos, depth)->Ok_0.0, depth).len(),
            ),
        ),
    decreases depth, 0nat,
{
    let d = (depth - 1) as nat;
    let p = pos + 1;
    let a = at + 1;
    if spec_read_u8(data, pos, "expression tag")->Ok_0.0 == 2 {
        let f = spec_read_string(data, p, "function")->Ok_0.0;
        lemma_string_short(data, p, "function");
        lemma_stored_split(out, at, encode_u8(2), encode_string(f));
        lemma_u8_returns(2, out, at, "expression tag");
        lemma_string_returns(f, out, a, "function");
    } else {
        let s = spec_read_string(data, p, "string")->Ok_0.0;
        lemma_string_short(data, p, "string");
        lemma_stored_split(out, at, encode_u8(3), encode_string(s));
        lemma_u8_returns(3, out, at, "expression tag");
        lemma_string_returns(s, out, a, "string");
    }
}

proof fn lemma_expr_number_again(data: Seq<u8>, pos: int, depth: nat, out: Seq<u8>, at: int)
    requires
        spec_read_expr(data, pos, depth) is Ok,
        4 <= spec_read_u8(data, pos, "expression tag")->Ok_0.0 <= 7,
        stored_at(out, at, encode_expr(spec_read_expr(data, pos, depth)->Ok_0.0, depth)),
    ensures
        spec_read_expr(out, at, depth) == Ok::<(SpecExpr, int), Failure>(
            (
                spec_read_expr(data, pos, depth)->Ok_0.0,
                at + encode_expr(spec_read_expr(data, pos, depth)->Ok_0.0, depth).len(),
            ),
        ),
    decreases depth, 0nat,
{
    let d = (depth - 1) as nat;
    let p = pos + 1;
    let a = at + 1;
    let tag = spec_read_u8(data, pos, "expression tag")->Ok_0.0;
    if tag == 4 {
        let n = spec_read_i32(data, p, "integer")->Ok_0.0;
        lemma_stored_split(out, at, encode_u8(4), encode_i32(n));
        lemma_u8_returns(4, out, at, "expression tag");
        lemma_i32_returns(n, out, a, "integer");
    } else if tag == 5 {
        let n = spec_read_u32(data, p, "float")->Ok_0.0;
        lemma_stored_split(out, at, encode_u8(5), encode_u32(n));
        lemma_u8_returns(5, out, at, "expression tag");
        lemma_u32_returns(n, out, a, "float");
    } else if tag == 6 {
        let n = spec_read_u64(data, p, "double")->Ok_0.0;
        lemma_stored_split(out, at, encode_u8(6), encode_u64(n));
        lemma_u8_returns(6, out, at, "expression tag");
        lemma_u64_returns(n, out, a, "double");
    } else {
        lemma_u8_returns(7, out, at, "expression tag");
    }
}

/// Where the encoding of an expression that was read stands, the same is read.
pub proof fn lemma_expr_again(data: Seq<u8>, pos: int, depth: nat, out: Seq<u8>, at: int)
    requires
        spec_read_expr(data, pos, depth) is Ok,
        stored_at(out, at, encode_expr(spec_read_expr(data, pos, depth)->Ok_0.0, depth)),
    ensures
        spec_read_expr(out, at, depth) == Ok::<(SpecExpr, int), Failure>(
            (
                spec_read_expr(data, pos, depth)->Ok_0.0,
                at + encode_expr(spec_read_expr(data, pos, depth)->Ok_0.0, depth).len(),
            ),
        ),
    decreases depth, 1nat,
{
    let tag = spec_read_u8(data, pos, "expression tag")->Ok_0.0;
    if tag == 0 {
        lemma_expr_abs_again(data, pos, depth, out, at);
    } else if tag == 1 {
        lemma_expr_app_again(data, pos, depth, out, at);
    } else if tag == 2 || tag == 3 {
        lemma_expr_text_again(data, pos, depth, out, at);
    } else if tag <= 7 {
        lemma_expr_number_again(data, pos, depth, out, at);
    } else if tag == 8 {
        lemma_expr_typed_again(data, pos, depth, out, at);
    } else {
        lemma_expr_implarg_again(data, pos, depth, out, at);
    }
}

} // verus!
