//! The encoding of concrete syntaxes.

use vstd::prelude::*;

use crate::binary::concrete::{
    spec_read_cnccat, spec_read_cnccat_list, spec_read_cnccats, spec_read_cncfun,
    spec_read_cncfun_list, spec_read_cncfuns, spec_read_concrete, spec_read_fid, spec_read_fids,
    spec_read_flag, spec_read_flag_list, spec_read_flags, spec_read_lin, spec_read_lins,
    spec_read_literal, spec_read_parg, spec_read_pargs, spec_read_production,
    spec_read_production_list, spec_read_production_set, spec_read_production_sets,
    spec_read_productions,
};
use crate::binary::symbols::spec_read_sequences;
use crate::encode::symbols::{encode_sequences, lemma_sequences_again};
use crate::grammar::{
    CncCat, SpecCncFun, SpecConcrete, SpecLiteral, SpecPArg, SpecProduction, SpecSymbol,
};
use crate::table::{
    distinct_keys, lemma_table_of_distinct, lemma_table_of_len, lemma_table_of_members,
    lemma_table_of_table, lemma_without_repeats, lemma_without_repeats_same, table_of,
    without_repeats,
};
use crate::wire::{
    encode_i32, encode_string, encode_u16, encode_u32, encode_u64, encode_u8, lemma_i32_returns,
    lemma_stored_split, lemma_string_returns, lemma_string_short, lemma_u16_returns,
    lemma_u32_returns, lemma_u64_returns, lemma_u8_returns, short_text, spec_read_i32,
    spec_read_string, spec_read_u16, spec_read_u32, spec_read_u8, stored_at, Failure,
};

verus! {

/// The encoding of a literal.
pub open spec fn encode_literal(v: SpecLiteral) -> Seq<u8> {
    match v {
        SpecLiteral::Str(s) => encode_u8(0) + encode_string(s),
        SpecLiteral::Int(n) => encode_u8(1) + encode_i32(n),
        SpecLiteral::Flt(b) => encode_u8(2) + encode_u64(b),
    }
}

/// A literal can be encoded: its text, if it is one, is short.
pub open spec fn literal_fits(v: SpecLiteral) -> bool {
    v matches SpecLiteral::Str(s) ==> short_text(s)
}

/// A literal that was read can be encoded.
pub proof fn lemma_literal_fits(data: Seq<u8>, pos: int)
    requires
        spec_read_literal(data, pos) is Ok,
    ensures
        literal_fits(spec_read_literal(data, pos)->Ok_0.0),
{
    let (tag, p) = spec_read_u8(data, pos, "literal tag")->Ok_0;
    if tag == 0 {
        lemma_string_short(data, p, "string literal");
    }
}

/// Where the encoding of a literal stands, it is read.
pub proof fn lemma_literal_returns(v: SpecLiteral, out: Seq<u8>, at: int)
    requires
        literal_fits(v),
        stored_at(out, at, encode_literal(v)),
    ensures
        spec_read_literal(out, at) == Ok::<(SpecLiteral, int), Failure>(
            (v, at + encode_literal(v).len()),
        ),
{
    match v {
        SpecLiteral::Str(s) => {
            lemma_stored_split(out, at, encode_u8(0), encode_string(s));
            lemma_u8_returns(0, out, at, "literal tag");
            lemma_string_returns(s, out, at + 1, "string literal");
        },
        SpecLiteral::Int(n) => {
            lemma_stored_split(out, at, encode_u8(1), encode_i32(n));
            lemma_u8_returns(1, out, at, "literal tag");
            lemma_i32_returns(n, out, at + 1, "integer literal");
        },
        SpecLiteral::Flt(b) => {
            lemma_stored_split(out, at, encode_u8(2), encode_u64(b));
            lemma_u8_returns(2, out, at, "literal tag");
            lemma_u64_returns(b, out, at + 1, "float literal");
        },
    }
}

/// The encoding of a flag.
pub open spec fn encode_flag(e: (Seq<char>, SpecLiteral)) -> Seq<u8> {
    encode_string(e.0) + encode_literal(e.1)
}

/// Whether a flag can be encoded.
pub open spec fn flag_fits(e: (Seq<char>, SpecLiteral)) -> bool {
    short_text(e.0) && literal_fits(e.1)
}

/// A flag that was read can be encoded.
pub proof fn lemma_flag_fits(data: Seq<u8>, pos: int)
    requires
        spec_read_flag(data, pos) is Ok,
    ensures
        flag_fits(spec_read_flag(data, pos)->Ok_0.0),
{
    lemma_string_short(data, pos, "flag name");
    let p = spec_read_string(data, pos, "flag name")->Ok_0.1;
    lemma_literal_fits(data, p);
}

/// Where the encoding of a flag stands, it is read.
pub proof fn lemma_flag_returns(e: (Seq<char>, SpecLiteral), out: Seq<u8>, at: int)
    requires
        flag_fits(e),
        stored_at(out, at, encode_flag(e)),
    ensures
        spec_read_flag(out, at) == Ok::<((Seq<char>, SpecLiteral), int), Failure>(
            (e, at + encode_flag(e).len()),
        ),
{
    lemma_stored_split(out, at, encode_string(e.0), encode_literal(e.1));
    lemma_string_returns(e.0, out, at, "flag name");
    lemma_literal_returns(e.1, out, at + encode_string(e.0).len());
}

/// The encoding of flags, one after the other.
pub open spec fn encode_flag_list(vs: Seq<(Seq<char>, SpecLiteral)>) -> Seq<u8>
    decreases vs.len(),
{
    if vs.len() == 0 {
        Seq::empty()
    } else {
        encode_flag(vs[0]) + encode_flag_list(vs.drop_first())
    }
}

/// Each of the flags can be encoded.
pub open spec fn flag_list_fit(vs: Seq<(Seq<char>, SpecLiteral)>) -> bool {
    forall|i: int| 0 <= i < vs.len() ==> flag_fits(#[trigger] vs[i])
}

/// A list that was read has the length that was asked for, and each of
/// its items can be encoded.
pub proof fn lemma_flag_list_fit(data: Seq<u8>, pos: int, n: nat)
    requires
        spec_read_flag_list(data, pos, n) is Ok,
    ensures
        spec_read_flag_list(data, pos, n)->Ok_0.0.len() == n,
        flag_list_fit(spec_read_flag_list(data, pos, n)->Ok_0.0),
    decreases n,
{
    if n > 0 {
        let (x, p) = spec_read_flag(data, pos)->Ok_0;
        let rest = spec_read_flag_list(data, p, (n - 1) as nat)->Ok_0.0;
        lemma_flag_fits(data, pos);
        lemma_flag_list_fit(data, p, (n - 1) as nat);
        let all = seq![x] + rest;
        assert forall|i: int| 0 <= i < all.len() implies flag_fits(#[trigger] all[i]) by {
            if i > 0 {
                assert(all[i] == rest[i - 1]);
            }
        }
    }
}

/// A list of items that can be encoded is read from its encoding.
pub proof fn lemma_flag_list_returns(vs: Seq<(Seq<char>, SpecLiteral)>, out: Seq<u8>, at: int)
    requires
        flag_list_fit(vs),
        stored_at(out, at, encode_flag_list(vs)),
    ensures
        spec_read_flag_list(out, at, vs.len()) == Ok::<(Seq<(Seq<char>, SpecLiteral)>, int), Failure>(
            (vs, at + encode_flag_list(vs).len()),
        ),
    decreases vs.len(),
{
    if vs.len() > 0 {
        let x = vs[0];
        let rest = vs.drop_first();
        lemma_stored_split(out, at, encode_flag(x), encode_flag_list(rest));
        lemma_flag_returns(x, out, at);
        assert forall|i: int| 0 <= i < rest.len() implies flag_fits(#[trigger] rest[i]) by {
            assert(rest[i] == vs[i + 1]);
        }
        lemma_flag_list_returns(rest, out, at + encode_flag(x).len());
        assert(seq![x] + rest =~= vs);
    } else {
        assert(vs =~= Seq::empty());
    }
}

/// A table of flags: the count and the flags.
pub open spec fn encode_flags(t: Seq<(Seq<char>, SpecLiteral)>) -> Seq<u8> {
    encode_u16(t.len() as u16) + encode_flag_list(t)
}

/// The table can be encoded: its count fits, no key stands twice, and each
/// entry can be encoded.
#[verifier::opaque]
pub open spec fn flags_fit(t: Seq<(Seq<char>, SpecLiteral)>) -> bool {
    t.len() <= 0xffff && distinct_keys(t) && flag_list_fit(t)
}

/// A table that was read can be encoded.
pub proof fn lemma_flags_fit(data: Seq<u8>, pos: int)
    requires
        spec_read_flags(data, pos) is Ok,
    ensures
        flags_fit(spec_read_flags(data, pos)->Ok_0.0),
{
    reveal(flags_fit);
    let (n, p) = spec_read_u16(data, pos, "flag count")->Ok_0;
    let list = spec_read_flag_list(data, p, n as nat)->Ok_0.0;
    let t = table_of(list);
    lemma_flag_list_fit(data, p, n as nat);
    lemma_table_of_distinct(list);
    lemma_table_of_len(list);
    assert forall|i: int| 0 <= i < t.len() implies flag_fits(#[trigger] t[i]) by {
        lemma_table_of_members(list, i);
        let a = choose|a: int| 0 <= a < list.len() && list[a].0 == t[i].0;
        let b = choose|b: int| 0 <= b < list.len() && list[b].1 == t[i].1;
        assert(flag_fits(list[a]));
        assert(flag_fits(list[b]));
    }
}

/// A table that can be encoded is read from its encoding.
pub proof fn lemma_flags_returns(t: Seq<(Seq<char>, SpecLiteral)>, out: Seq<u8>, at: int)
    requires
        flags_fit(t),
        stored_at(out, at, encode_flags(t)),
    ensures
        spec_read_flags(out, at) == Ok::<(Seq<(Seq<char>, SpecLiteral)>, int), Failure>(
            (t, at + encode_flags(t).len()),
        ),
{
    reveal(flags_fit);
    lemma_stored_split(out, at, encode_u16(t.len() as u16), encode_flag_list(t));
    lemma_u16_returns(t.len() as u16, out, at, "flag count");
    lemma_flag_list_returns(t, out, at + 2);
    lemma_table_of_table(t);
}

/// The encoding of a fid.
pub open spec fn encode_fid(v: i32) -> Seq<u8> {
    encode_i32(v)
}

/// Whether a fid can be encoded.
pub open spec fn fid_fits(v: i32) -> bool {
    true
}

/// A fid that was read can be encoded.
pub proof fn lemma_fid_fits(data: Seq<u8>, pos: int)
    requires
        spec_read_fid(data, pos) is Ok,
    ensures
        fid_fits(spec_read_fid(data, pos)->Ok_0.0),
{
}

/// Where the encoding of a fid stands, it is read.
pub proof fn lemma_fid_returns(v: i32, out: Seq<u8>, at: int)
    requires
        fid_fits(v),
        stored_at(out, at, encode_fid(v)),
    ensures
        spec_read_fid(out, at) == Ok::<(i32, int), Failure>((v, at + encode_fid(v).len())),
{
    lemma_i32_returns(v, out, at, "fid");
}

/// The encoding of fids, one after the other.
pub open spec fn encode_fids(vs: Seq<i32>) -> Seq<u8>
    decreases vs.len(),
{
    if vs.len() == 0 {
        Seq::empty()
    } else {
        encode_fid(vs[0]) + encode_fids(vs.drop_first())
    }
}

/// Each of the fids can be encoded.
pub open spec fn fids_fit(vs: Seq<i32>) -> bool {
    forall|i: int| 0 <= i < vs.len() ==> fid_fits(#[trigger] vs[i])
}

/// A list that was read has the length that was asked for, and each of
/// its items can be encoded.
pub proof fn lemma_fids_fit(data: Seq<u8>, pos: int, n: nat)
    requires
        spec_read_fids(data, pos, n) is Ok,
    ensures
        spec_read_fids(data, pos, n)->Ok_0.0.len() == n,
        fids_fit(spec_read_fids(data, pos, n)->Ok_0.0),
    decreases n,
{
    if n > 0 {
        let (x, p) = spec_read_fid(data, pos)->Ok_0;
        let rest = spec_read_fids(data, p, (n - 1) as nat)->Ok_0.0;
        lemma_fid_fits(data, pos);
        lemma_fids_fit(data, p, (n - 1) as nat);
        let all = seq![x] + rest;
        assert forall|i: int| 0 <= i < all.len() implies fid_fits(#[trigger] all[i]) by {
            if i > 0 {
                assert(all[i] == rest[i - 1]);
            }
        }
    }
}

/// A list of items that can be encoded is read from its encoding.
pub proof fn lemma_fids_returns(vs: Seq<i32>, out: Seq<u8>, at: int)
    requires
        fids_fit(vs),
        stored_at(out, at, encode_fids(vs)),
    ensures
        spec_read_fids(out, at, vs.len()) == Ok::<(Seq<i32>, int), Failure>(
            (vs, at + encode_fids(vs).len()),
        ),
    decreases vs.len(),
{
    if vs.len() > 0 {
        let x = vs[0];
        let rest = vs.drop_first();
        lemma_stored_split(out, at, encode_fid(x), encode_fids(rest));
        lemma_fid_returns(x, out, at);
        assert forall|i: int| 0 <= i < rest.len() implies fid_fits(#[trigger] rest[i]) by {
            assert(rest[i] == vs[i + 1]);
        }
        lemma_fids_returns(rest, out, at + encode_fid(x).len());
        assert(seq![x] + rest =~= vs);
    } else {
        assert(vs =~= Seq::empty());
    }
}

/// The encoding of a production argument.
pub open spec fn encode_parg(a: SpecPArg) -> Seq<u8> {
    encode_u32(a.hypos.len() as u32) + (encode_fids(a.hypos) + encode_i32(a.fid))
}

/// Whether a production argument can be encoded.
pub open spec fn parg_fits(a: SpecPArg) -> bool {
    a.hypos.len() <= 0xffff_ffff
}

/// A production argument that was read can be encoded.
pub proof fn lemma_parg_fits(data: Seq<u8>, pos: int)
    requires
        spec_read_parg(data, pos) is Ok,
    ensures
        parg_fits(spec_read_parg(data, pos)->Ok_0.0),
{
    let (n, p) = spec_read_u32(data, pos, "hypothesis count")->Ok_0;
    lemma_fids_fit(data, p, n as nat);
}

/// Where the encoding of a production argument stands, it is read.
pub proof fn lemma_parg_returns(a: SpecPArg, out: Seq<u8>, at: int)
    requires
        parg_fits(a),
        stored_at(out, at, encode_parg(a)),
    ensures
        spec_read_parg(out, at) == Ok::<(SpecPArg, int), Failure>((a, at + encode_parg(a).len())),
{
    let e1 = encode_u32(a.hypos.len() as u32);
    let e2 = encode_fids(a.hypos);
    lemma_stored_split(out, at, e1, e2 + encode_i32(a.fid));
    lemma_u32_returns(a.hypos.len() as u32, out, at, "hypothesis count");
    lemma_stored_split(out, at + 4, e2, encode_i32(a.fid));
    lemma_fids_returns(a.hypos, out, at + 4);
    lemma_i32_returns(a.fid, out, at + 4 + e2.len(), "argument fid");
}

/// The encoding of production arguments, one after the other.
pub open spec fn encode_pargs(vs: Seq<SpecPArg>) -> Seq<u8>
    decreases vs.len(),
{
    if vs.len() == 0 {
        Seq::empty()
    } else {
        encode_parg(vs[0]) + encode_pargs(vs.drop_first())
    }
}

/// Each of the arguments can be encoded.
pub open spec fn pargs_fit(vs: Seq<SpecPArg>) -> bool {
    forall|i: int| 0 <= i < vs.len() ==> parg_fits(#[trigger] vs[i])
}

/// A list that was read has the length that was asked for, and each of
/// its items can be encoded.
pub proof fn lemma_pargs_fit(data: Seq<u8>, pos: int, n: nat)
    requires
        spec_read_pargs(data, pos, n) is Ok,
    ensures
        spec_read_pargs(data, pos, n)->Ok_0.0.len() == n,
        pargs_fit(spec_read_pargs(data, pos, n)->Ok_0.0),
    decreases n,
{
    if n > 0 {
        let (x, p) = spec_read_parg(data, pos)->Ok_0;
        let rest = spec_read_pargs(data, p, (n - 1) as nat)->Ok_0.0;
        lemma_parg_fits(data, pos);
        lemma_pargs_fit(data, p, (n - 1) as nat);
        let all = seq![x] + rest;
        assert forall|i: int| 0 <= i < all.len() implies parg_fits(#[trigger] all[i]) by {
            if i > 0 {
                assert(all[i] == rest[i - 1]);
            }
        }
    }
}

/// A list of items that can be encoded is read from its encoding.
pub proof fn lemma_pargs_returns(vs: Seq<SpecPArg>, out: Seq<u8>, at: int)
    requires
        pargs_fit(vs),
        stored_at(out, at, encode_pargs(vs)),
    ensures
        spec_read_pargs(out, at, vs.len()) == Ok::<(Seq<SpecPArg>, int), Failure>(
            (vs, at + encode_pargs(vs).len()),
        ),
    decreases vs.len(),
{
    if vs.len() > 0 {
        let x = vs[0];
        let rest = vs.drop_first();
        lemma_stored_split(out, at, encode_parg(x), encode_pargs(rest));
        lemma_parg_returns(x, out, at);
        assert forall|i: int| 0 <= i < rest.len() implies parg_fits(#[trigger] rest[i]) by {
            assert(rest[i] == vs[i + 1]);
        }
        lemma_pargs_returns(rest, out, at + encode_parg(x).len());
        assert(seq![x] + rest =~= vs);
    } else {
        assert(vs =~= Seq::empty());
    }
}

/// The encoding of a production.
pub open spec fn encode_production(p: SpecProduction) -> Seq<u8> {
    match p {
        SpecProduction::Apply { fid, args } => encode_u8(0) + (encode_i32(fid) + (encode_u32(
            args.len() as u32,
        ) + encode_pargs(args))),
        SpecProduction::Coerce { arg } => encode_u8(1) + encode_i32(arg),
    }
}

/// Whether a production can be encoded.
pub open spec fn production_fits(p: SpecProduction) -> bool {
    p matches SpecProduction::Apply { args, .. } ==> args.len() <= 0xffff_ffff && pargs_fit(args)
}

/// A production that was read can be encoded.
pub proof fn lemma_production_fits(data: Seq<u8>, pos: int)
    requires
        spec_read_production(data, pos) is Ok,
    ensures
        production_fits(spec_read_production(data, pos)->Ok_0.0),
{
    let (tag, p) = spec_read_u8(data, pos, "production tag")->Ok_0;
    if tag == 0 {
        let p1 = spec_read_i32(data, p, "function id")->Ok_0.1;
        let (n, p2) = spec_read_u32(data, p1, "argument count")->Ok_0;
        lemma_pargs_fit(data, p2, n as nat);
    }
}

/// Where the encoding of a production stands, it is read.
pub proof fn lemma_production_returns(p: SpecProduction, out: Seq<u8>, at: int)
    requires
        production_fits(p),
        stored_at(out, at, encode_production(p)),
    ensures
        spec_read_production(out, at) == Ok::<(SpecProduction, int), Failure>(
            (p, at + encode_production(p).len()),
        ),
{
    match p {
        SpecProduction::Apply { fid, args } => {
            let e2 = encode_i32(fid);
            let e3 = encode_u32(args.len() as u32);
            let e4 = encode_pargs(args);
            lemma_stored_split(out, at, encode_u8(0), e2 + (e3 + e4));
            lemma_u8_returns(0, out, at, "production tag");
            lemma_stored_split(out, at + 1, e2, e3 + e4);
            lemma_i32_returns(fid, out, at + 1, "function id");
            lemma_stored_split(out, at + 5, e3, e4);
            lemma_u32_returns(args.len() as u32, out, at + 5, "argument count");
            lemma_pargs_returns(args, out, at + 9);
        },
        SpecProduction::Coerce { arg } => {
            lemma_stored_split(out, at, encode_u8(1), encode_i32(arg));
            lemma_u8_returns(1, out, at, "production tag");
            lemma_i32_returns(arg, out, at + 1, "coerced fid");
        },
    }
}

/// The encoding of productions, one after the other.
pub open spec fn encode_production_list(vs: Seq<SpecProduction>) -> Seq<u8>
    decreases vs.len(),
{
    if vs.len() == 0 {
        Seq::empty()
    } else {
        encode_production(vs[0]) + encode_production_list(vs.drop_first())
    }
}

/// Each of the productions can be encoded.
pub open spec fn production_list_fit(vs: Seq<SpecProduction>) -> bool {
    forall|i: int| 0 <= i < vs.len() ==> production_fits(#[trigger] vs[i])
}

/// A list that was read has the length that was asked for, and each of
/// its items can be encoded.
pub proof fn lemma_production_list_fit(data: Seq<u8>, pos: int, n: nat)
    requires
        spec_read_production_list(data, pos, n) is Ok,
    ensures
        spec_read_production_list(data, pos, n)->Ok_0.0.len() == n,
        production_list_fit(spec_read_production_list(data, pos, n)->Ok_0.0),
    decreases n,
{
    if n > 0 {
        let (x, p) = spec_read_production(data, pos)->Ok_0;
        let rest = spec_read_production_list(data, p, (n - 1) as nat)->Ok_0.0;
        lemma_production_fits(data, pos);
        lemma_production_list_fit(data, p, (n - 1) as nat);
        let all = seq![x] + rest;
        assert forall|i: int| 0 <= i < all.len() implies production_fits(#[trigger] all[i]) by {
            if i > 0 {
                assert(all[i] == rest[i - 1]);
            }
        }
    }
}

/// A list of items that can be encoded is read from its encoding.
pub proof fn lemma_production_list_returns(vs: Seq<SpecProduction>, out: Seq<u8>, at: int)
    requires
        production_list_fit(vs),
        stored_at(out, at, encode_production_list(vs)),
    ensures
        spec_read_production_list(out, at, vs.len()) == Ok::<(Seq<SpecProduction>, int), Failure>(
            (vs, at + encode_production_list(vs).len()),
        ),
    decreases vs.len(),
{
    if vs.len() > 0 {
        let x = vs[0];
        let rest = vs.drop_first();
        lemma_stored_split(out, at, encode_production(x), encode_production_list(rest));
        lemma_production_returns(x, out, at);
        assert forall|i: int| 0 <= i < rest.len() implies production_fits(#[trigger] rest[i]) by {
            assert(rest[i] == vs[i + 1]);
        }
        lemma_production_list_returns(rest, out, at + encode_production(x).len());
        assert(seq![x] + rest =~= vs);
    } else {
        assert(vs =~= Seq::empty());
    }
}

/// The encoding of the productions of a fid.
pub open spec fn encode_production_set(e: (i32, Seq<SpecProduction>)) -> Seq<u8> {
    encode_i32(e.0) + (encode_u32(e.1.len() as u32) + encode_production_list(e.1))
}

/// A set of productions can be encoded: its count fits, no production
/// stands twice, and each production can be encoded.
pub open spec fn productions_fit(ps: Seq<SpecProduction>) -> bool {
    ps.len() <= 0xffff_ffff && ps.no_duplicates() && production_list_fit(ps)
}

/// Whether the productions of a fid can be encoded.
pub open spec fn production_set_fits(e: (i32, Seq<SpecProduction>)) -> bool {
    productions_fit(e.1)
}

/// The productions of a fid that was read can be encoded.
#[verifier::rlimit(40)]
pub proof fn lemma_production_set_fits(data: Seq<u8>, pos: int)
    requires
        spec_read_production_set(data, pos) is Ok,
    ensures
        production_set_fits(spec_read_production_set(data, pos)->Ok_0.0),
{
    let p1 = spec_read_i32(data, pos, "production fid")->Ok_0.1;
    let (n, p2) = spec_read_u32(data, p1, "production count")->Ok_0;
    let list = spec_read_production_list(data, p2, n as nat)->Ok_0.0;
    lemma_production_list_fit(data, p2, n as nat);
    lemma_without_repeats(list);
    let kept = without_repeats(list);
    assert forall|i: int| 0 <= i < kept.len() implies production_fits(#[trigger] kept[i]) by {
        assert(kept.contains(kept[i]));
        assert(list.contains(kept[i]));
        let j = choose|j: int| 0 <= j < list.len() && list[j] == kept[i];
        assert(production_fits(list[j]));
    }
}

/// Where the encoding of the productions of a fid stands, it is read.
pub proof fn lemma_production_set_returns(e: (i32, Seq<SpecProduction>), out: Seq<u8>, at: int)
    requires
        production_set_fits(e),
        stored_at(out, at, encode_production_set(e)),
    ensures
        spec_read_production_set(out, at) == Ok::<((i32, Seq<SpecProduction>), int), Failure>(
            (e, at + encode_production_set(e).len()),
        ),
{
    let e2 = encode_u32(e.1.len() as u32);
    let e3 = encode_production_list(e.1);
    lemma_stored_split(out, at, encode_i32(e.0), e2 + e3);
    lemma_i32_returns(e.0, out, at, "production fid");
    lemma_stored_split(out, at + 4, e2, e3);
    lemma_u32_returns(e.1.len() as u32, out, at + 4, "production count");
    lemma_production_list_returns(e.1, out, at + 8);
    lemma_without_repeats_same(e.1);
}

/// The encoding of the productions of several fids, one after the other.
pub open spec fn encode_production_sets(vs: Seq<(i32, Seq<SpecProduction>)>) -> Seq<u8>
    decreases vs.len(),
{
    if vs.len() == 0 {
        Seq::empty()
    } else {
        encode_production_set(vs[0]) + encode_production_sets(vs.drop_first())
    }
}

/// Each of the sets can be encoded.
pub open spec fn production_sets_fit(vs: Seq<(i32, Seq<SpecProduction>)>) -> bool {
    forall|i: int| 0 <= i < vs.len() ==> production_set_fits(#[trigger] vs[i])
}

/// A list that was read has the length that was asked for, and each of
/// its items can be encoded.
pub proof fn lemma_production_sets_fit(data: Seq<u8>, pos: int, n: nat)
    requires
        spec_read_production_sets(data, pos, n) is Ok,
    ensures
        spec_read_production_sets(data, pos, n)->Ok_0.0.len() == n,
        production_sets_fit(spec_read_production_sets(data, pos, n)->Ok_0.0),
    decreases n,
{
    if n > 0 {
        let (x, p) = spec_read_production_set(data, pos)->Ok_0;
        let rest = spec_read_production_sets(data, p, (n - 1) as nat)->Ok_0.0;
        lemma_production_set_fits(data, pos);
        lemma_production_sets_fit(data, p, (n - 1) as nat);
        let all = seq![x] + rest;
        assert forall|i: int| 0 <= i < all.len() implies production_set_fits(#[trigger] all[i]) by {
            if i > 0 {
                assert(all[i] == rest[i - 1]);
            }
        }
    }
}

/// A list of items that can be encoded is read from its encoding.
pub proof fn lemma_production_sets_returns(vs: Seq<(i32, Seq<SpecProduction>)>, out: Seq<u8>, at: int)
    requires
        production_sets_fit(vs),
        stored_at(out, at, encode_production_sets(vs)),
    ensures
        spec_read_production_sets(out, at, vs.len()) == Ok::<(Seq<(i32, Seq<SpecProduction>)>, int), Failure>(
            (vs, at + encode_production_sets(vs).len()),
        ),
    decreases vs.len(),
{
    if vs.len() > 0 {
        let x = vs[0];
        let rest = vs.drop_first();
        lemma_stored_split(out, at, encode_production_set(x), encode_production_sets(rest));
        lemma_production_set_returns(x, out, at);
        assert forall|i: int| 0 <= i < rest.len() implies production_set_fits(#[trigger] rest[i]) by {
            assert(rest[i] == vs[i + 1]);
        }
        lemma_production_sets_returns(rest, out, at + encode_production_set(x).len());
        assert(seq![x] + rest =~= vs);
    } else {
        assert(vs =~= Seq::empty());
    }
}

/// The table of productions: the count and the sets.
pub open spec fn encode_productions(t: Seq<(i32, Seq<SpecProduction>)>) -> Seq<u8> {
    encode_u32(t.len() as u32) + encode_production_sets(t)
}

/// The table can be encoded: its count fits, no key stands twice, and each
/// entry can be encoded.
#[verifier::opaque]
pub open spec fn productions_table_fit(t: Seq<(i32, Seq<SpecProduction>)>) -> bool {
    t.len() <= 0xffff_ffff && distinct_keys(t) && production_sets_fit(t)
}

/// A table that was read can be encoded.
pub proof fn lemma_productions_table_fit(data: Seq<u8>, pos: int)
    requires
        spec_read_productions(data, pos) is Ok,
    ensures
        productions_table_fit(spec_read_productions(data, pos)->Ok_0.0),
{
    reveal(productions_table_fit);
    let (n, p) = spec_read_u32(data, pos, "production set count")->Ok_0;
    let list = spec_read_production_sets(data, p, n as nat)->Ok_0.0;
    let t = table_of(list);
    lemma_production_sets_fit(data, p, n as nat);
    lemma_table_of_distinct(list);
    lemma_table_of_len(list);
    assert forall|i: int| 0 <= i < t.len() implies production_set_fits(#[trigger] t[i]) by {
        lemma_table_of_members(list, i);
        let a = choose|a: int| 0 <= a < list.len() && list[a].0 == t[i].0;
        let b = choose|b: int| 0 <= b < list.len() && list[b].1 == t[i].1;
        assert(production_set_fits(list[a]));
        assert(production_set_fits(list[b]));
    }
}

/// A table that can be encoded is read from its encoding.
pub proof fn lemma_productions_table_returns(t: Seq<(i32, Seq<SpecProduction>)>, out: Seq<u8>, at: int)
    requires
        productions_table_fit(t),
        stored_at(out, at, encode_productions(t)),
    ensures
        spec_read_productions(out, at) == Ok::<(Seq<(i32, Seq<SpecProduction>)>, int), Failure>(
            (t, at + encode_productions(t).len()),
        ),
{
    reveal(productions_table_fit);
    lemma_stored_split(out, at, encode_u32(t.len() as u32), encode_production_sets(t));
    lemma_u32_returns(t.len() as u32, out, at, "production set count");
    lemma_production_sets_returns(t, out, at + 4);
    lemma_table_of_table(t);
}

/// The encoding of a sequence index.
pub open spec fn encode_lin(v: i32) -> Seq<u8> {
    encode_i32(v)
}

/// Whether a sequence index can be encoded.
pub open spec fn lin_fits(v: i32) -> bool {
    true
}

/// A sequence index that was read can be encoded.
pub proof fn lemma_lin_fits(data: Seq<u8>, pos: int)
    requires
        spec_read_lin(data, pos) is Ok,
    ensures
        lin_fits(spec_read_lin(data, pos)->Ok_0.0),
{
}

/// Where the encoding of a sequence index stands, it is read.
pub proof fn lemma_lin_returns(v: i32, out: Seq<u8>, at: int)
    requires
        lin_fits(v),
        stored_at(out, at, encode_lin(v)),
    ensures
        spec_read_lin(out, at) == Ok::<(i32, int), Failure>((v, at + encode_lin(v).len())),
{
    lemma_i32_returns(v, out, at, "sequence index");
}

/// The encoding of sequence indices, one after the other.
pub open spec fn encode_lins(vs: Seq<i32>) -> Seq<u8>
    decreases vs.len(),
{
    if vs.len() == 0 {
        Seq::empty()
    } else {
        encode_lin(vs[0]) + encode_lins(vs.drop_first())
    }
}

/// Each of the indices can be encoded.
pub open spec fn lins_fit(vs: Seq<i32>) -> bool {
    forall|i: int| 0 <= i < vs.len() ==> lin_fits(#[trigger] vs[i])
}

/// A list that was read has the length that was asked for, and each of
/// its items can be encoded.
pub proof fn lemma_lins_fit(data: Seq<u8>, pos: int, n: nat)
    requires
        spec_read_lins(data, pos, n) is Ok,
    ensures
        spec_read_lins(data, pos, n)->Ok_0.0.len() == n,
        lins_fit(spec_read_lins(data, pos, n)->Ok_0.0),
    decreases n,
{
    if n > 0 {
        let (x, p) = spec_read_lin(data, pos)->Ok_0;
        let rest = spec_read_lins(data, p, (n - 1) as nat)->Ok_0.0;
        lemma_lin_fits(data, pos);
        lemma_lins_fit(data, p, (n - 1) as nat);
        let all = seq![x] + rest;
        assert forall|i: int| 0 <= i < all.len() implies lin_fits(#[trigger] all[i]) by {
            if i > 0 {
                assert(all[i] == rest[i - 1]);
            }
        }
    }
}

/// A list of items that can be encoded is read from its encoding.
pub proof fn lemma_lins_returns(vs: Seq<i32>, out: Seq<u8>, at: int)
    requires
        lins_fit(vs),
        stored_at(out, at, encode_lins(vs)),
    ensures
        spec_read_lins(out, at, vs.len()) == Ok::<(Seq<i32>, int), Failure>(
            (vs, at + encode_lins(vs).len()),
        ),
    decreases vs.len(),
{
    if vs.len() > 0 {
        let x = vs[0];
        let rest = vs.drop_first();
        lemma_stored_split(out, at, encode_lin(x), encode_lins(rest));
        lemma_lin_returns(x, out, at);
        assert forall|i: int| 0 <= i < rest.len() implies lin_fits(#[trigger] rest[i]) by {
            assert(rest[i] == vs[i + 1]);
        }
        lemma_lins_returns(rest, out, at + encode_lin(x).len());
        assert(seq![x] + rest =~= vs);
    } else {
        assert(vs =~= Seq::empty());
    }
}

/// The encoding of a concrete function.
pub open spec fn encode_cncfun(f: SpecCncFun) -> Seq<u8> {
    encode_string(f.name) + (encode_u32(f.lins.len() as u32) + encode_lins(f.lins))
}

/// Whether a concrete function can be encoded.
pub open spec fn cncfun_fits(f: SpecCncFun) -> bool {
    short_text(f.name) && f.lins.len() <= 0xffff_ffff
}

/// A concrete function that was read can be encoded.
pub proof fn lemma_cncfun_fits(data: Seq<u8>, pos: int)
    requires
        spec_read_cncfun(data, pos) is Ok,
    ensures
        cncfun_fits(spec_read_cncfun(data, pos)->Ok_0.0),
{
    lemma_string_short(data, pos, "concrete function name");
    let p1 = spec_read_string(data, pos, "concrete function name")->Ok_0.1;
    let (n, p2) = spec_read_u32(data, p1, "sequence index count")->Ok_0;
    lemma_lins_fit(data, p2, n as nat);
}

/// Where the encoding of a concrete function stands, it is read.
pub proof fn lemma_cncfun_returns(f: SpecCncFun, out: Seq<u8>, at: int)
    requires
        cncfun_fits(f),
        stored_at(out, at, encode_cncfun(f)),
    ensures
        spec_read_cncfun(out, at) == Ok::<(SpecCncFun, int), Failure>(
            (f, at + encode_cncfun(f).len()),
        ),
{
    let e1 = encode_string(f.name);
    let e2 = encode_u32(f.lins.len() as u32);
    let e3 = encode_lins(f.lins);
    lemma_stored_split(out, at, e1, e2 + e3);
    lemma_string_returns(f.name, out, at, "concrete function name");
    lemma_stored_split(out, at + e1.len(), e2, e3);
    lemma_u32_returns(f.lins.len() as u32, out, at + e1.len(), "sequence index count");
    lemma_lins_returns(f.lins, out, at + e1.len() + 4);
}

/// The encoding of concrete functions, one after the other.
pub open spec fn encode_cncfun_list(vs: Seq<SpecCncFun>) -> Seq<u8>
    decreases vs.len(),
{
    if vs.len() == 0 {
        Seq::empty()
    } else {
        encode_cncfun(vs[0]) + encode_cncfun_list(vs.drop_first())
    }
}

/// Each of the functions can be encoded.
pub open spec fn cncfun_list_fit(vs: Seq<SpecCncFun>) -> bool {
    forall|i: int| 0 <= i < vs.len() ==> cncfun_fits(#[trigger] vs[i])
}

/// A list that was read has the length that was asked for, and each of
/// its items can be encoded.
pub proof fn lemma_cncfun_list_fit(data: Seq<u8>, pos: int, n: nat)
    requires
        spec_read_cncfun_list(data, pos, n) is Ok,
    ensures
        spec_read_cncfun_list(data, pos, n)->Ok_0.0.len() == n,
        cncfun_list_fit(spec_read_cncfun_list(data, pos, n)->Ok_0.0),
    decreases n,
{
    if n > 0 {
        let (x, p) = spec_read_cncfun(data, pos)->Ok_0;
        let rest = spec_read_cncfun_list(data, p, (n - 1) as nat)->Ok_0.0;
        lemma_cncfun_fits(data, pos);
        lemma_cncfun_list_fit(data, p, (n - 1) as nat);
        let all = seq![x] + rest;
        assert forall|i: int| 0 <= i < all.len() implies cncfun_fits(#[trigger] all[i]) by {
            if i > 0 {
                assert(all[i] == rest[i - 1]);
            }
        }
    }
}

/// A list of items that can be encoded is read from its encoding.
pub proof fn lemma_cncfun_list_returns(vs: Seq<SpecCncFun>, out: Seq<u8>, at: int)
    requires
        cncfun_list_fit(vs),
        stored_at(out, at, encode_cncfun_list(vs)),
    ensures
        spec_read_cncfun_list(out, at, vs.len()) == Ok::<(Seq<SpecCncFun>, int), Failure>(
            (vs, at + encode_cncfun_list(vs).len()),
        ),
    decreases vs.len(),
{
    if vs.len() > 0 {
        let x = vs[0];
        let rest = vs.drop_first();
        lemma_stored_split(out, at, encode_cncfun(x), encode_cncfun_list(rest));
        lemma_cncfun_returns(x, out, at);
        assert forall|i: int| 0 <= i < rest.len() implies cncfun_fits(#[trigger] rest[i]) by {
            assert(rest[i] == vs[i + 1]);
        }
        lemma_cncfun_list_returns(rest, out, at + encode_cncfun(x).len());
        assert(seq![x] + rest =~= vs);
    } else {
        assert(vs =~= Seq::empty());
    }
}

/// The encoding of the table of concrete functions.
pub open spec fn encode_cncfuns(funs: Seq<SpecCncFun>) -> Seq<u8> {
    encode_u32(funs.len() as u32) + encode_cncfun_list(funs)
}

/// Whether the table of concrete functions can be encoded.
#[verifier::opaque]
pub open spec fn cncfuns_fit(funs: Seq<SpecCncFun>) -> bool {
    funs.len() <= 0xffff_ffff && cncfun_list_fit(funs)
}

/// The table of concrete functions that was read can be encoded.
pub proof fn lemma_cncfuns_fit(data: Seq<u8>, pos: int)
    requires
        spec_read_cncfuns(data, pos) is Ok,
    ensures
        cncfuns_fit(spec_read_cncfuns(data, pos)->Ok_0.0),
{
    reveal(cncfuns_fit);
    let (n, p) = spec_read_u32(data, pos, "concrete function count")->Ok_0;
    lemma_cncfun_list_fit(data, p, n as nat);
}

/// Where the encoding of the table of concrete functions stands, it is read.
pub proof fn lemma_cncfuns_returns(funs: Seq<SpecCncFun>, out: Seq<u8>, at: int)
    requires
        cncfuns_fit(funs),
        stored_at(out, at, encode_cncfuns(funs)),
    ensures
        spec_read_cncfuns(out, at) == Ok::<(Seq<SpecCncFun>, int), Failure>(
            (funs, at + encode_cncfuns(funs).len()),
        ),
{
    reveal(cncfuns_fit);
    lemma_stored_split(out, at, encode_u32(funs.len() as u32), encode_cncfun_list(funs));
    lemma_u32_returns(funs.len() as u32, out, at, "concrete function count");
    lemma_cncfun_list_returns(funs, out, at + 4);
}

/// The encoding of a concrete category.
pub open spec fn encode_cnccat(e: (Seq<char>, CncCat)) -> Seq<u8> {
    encode_string(e.0) + (encode_i32(e.1.start) + encode_i32(e.1.end))
}

/// Whether a concrete category can be encoded.
pub open spec fn cnccat_fits(e: (Seq<char>, CncCat)) -> bool {
    short_text(e.0)
}

/// A concrete category that was read can be encoded.
pub proof fn lemma_cnccat_fits(data: Seq<u8>, pos: int)
    requires
        spec_read_cnccat(data, pos) is Ok,
    ensures
        cnccat_fits(spec_read_cnccat(data, pos)->Ok_0.0),
{
    lemma_string_short(data, pos, "concrete category name");
}

/// Where the encoding of a concrete category stands, it is read.
pub proof fn lemma_cnccat_returns(e: (Seq<char>, CncCat), out: Seq<u8>, at: int)
    requires
        cnccat_fits(e),
        stored_at(out, at, encode_cnccat(e)),
    ensures
        spec_read_cnccat(out, at) == Ok::<((Seq<char>, CncCat), int), Failure>(
            (e, at + encode_cnccat(e).len()),
        ),
{
    let e1 = encode_string(e.0);
    lemma_stored_split(out, at, e1, encode_i32(e.1.start) + encode_i32(e.1.end));
    lemma_string_returns(e.0, out, at, "concrete category name");
    lemma_stored_split(out, at + e1.len(), encode_i32(e.1.start), encode_i32(e.1.end));
    lemma_i32_returns(e.1.start, out, at + e1.len(), "first fid");
    lemma_i32_returns(e.1.end, out, at + e1.len() + 4, "last fid");
}

/// The encoding of concrete categories, one after the other.
pub open spec fn encode_cnccat_list(vs: Seq<(Seq<char>, CncCat)>) -> Seq<u8>
    decreases vs.len(),
{
    if vs.len() == 0 {
        Seq::empty()
    } else {
        encode_cnccat(vs[0]) + encode_cnccat_list(vs.drop_first())
    }
}

/// Each of the categories can be encoded.
pub open spec fn cnccat_list_fit(vs: Seq<(Seq<char>, CncCat)>) -> bool {
    forall|i: int| 0 <= i < vs.len() ==> cnccat_fits(#[trigger] vs[i])
}

/// A list that was read has the length that was asked for, and each of
/// its items can be encoded.
pub proof fn lemma_cnccat_list_fit(data: Seq<u8>, pos: int, n: nat)
    requires
        spec_read_cnccat_list(data, pos, n) is Ok,
    ensures
        spec_read_cnccat_list(data, pos, n)->Ok_0.0.len() == n,
        cnccat_list_fit(spec_read_cnccat_list(data, pos, n)->Ok_0.0),
    decreases n,
{
    if n > 0 {
        let (x, p) = spec_read_cnccat(data, pos)->Ok_0;
        let rest = spec_read_cnccat_list(data, p, (n - 1) as nat)->Ok_0.0;
        lemma_cnccat_fits(data, pos);
        lemma_cnccat_list_fit(data, p, (n - 1) as nat);
        let all = seq![x] + rest;
        assert forall|i: int| 0 <= i < all.len() implies cnccat_fits(#[trigger] all[i]) by {
            if i > 0 {
                assert(all[i] == rest[i - 1]);
            }
        }
    }
}

/// A list of items that can be encoded is read from its encoding.
pub proof fn lemma_cnccat_list_returns(vs: Seq<(Seq<char>, CncCat)>, out: Seq<u8>, at: int)
    requires
        cnccat_list_fit(vs),
        stored_at(out, at, encode_cnccat_list(vs)),
    ensures
        spec_read_cnccat_list(out, at, vs.len()) == Ok::<(Seq<(Seq<char>, CncCat)>, int), Failure>(
            (vs, at + encode_cnccat_list(vs).len()),
        ),
    decreases vs.len(),
{
    if vs.len() > 0 {
        let x = vs[0];
        let rest = vs.drop_first();
        lemma_stored_split(out, at, encode_cnccat(x), encode_cnccat_list(rest));
        lemma_cnccat_returns(x, out, at);
        assert forall|i: int| 0 <= i < rest.len() implies cnccat_fits(#[trigger] rest[i]) by {
            assert(rest[i] == vs[i + 1]);
        }
        lemma_cnccat_list_returns(rest, out, at + encode_cnccat(x).len());
        assert(seq![x] + rest =~= vs);
    } else {
        assert(vs =~= Seq::empty());
    }
}

/// The table of concrete categories: the count and the categories.
pub open spec fn encode_cnccats(t: Seq<(Seq<char>, CncCat)>) -> Seq<u8> {
    encode_u32(t.len() as u32) + encode_cnccat_list(t)
}

/// The table can be encoded: its count fits, no key stands twice, and each
/// entry can be encoded.
#[verifier::opaque]
pub open spec fn cnccats_fit(t: Seq<(Seq<char>, CncCat)>) -> bool {
    t.len() <= 0xffff_ffff && distinct_keys(t) && cnccat_list_fit(t)
}

/// A table that was read can be encoded.
pub proof fn lemma_cnccats_fit(data: Seq<u8>, pos: int)
    requires
        spec_read_cnccats(data, pos) is Ok,
    ensures
        cnccats_fit(spec_read_cnccats(data, pos)->Ok_0.0),
{
    reveal(cnccats_fit);
    let (n, p) = spec_read_u32(data, pos, "concrete category count")->Ok_0;
    let list = spec_read_cnccat_list(data, p, n as nat)->Ok_0.0;
    let t = table_of(list);
    lemma_cnccat_list_fit(data, p, n as nat);
    lemma_table_of_distinct(list);
    lemma_table_of_len(list);
    assert forall|i: int| 0 <= i < t.len() implies cnccat_fits(#[trigger] t[i]) by {
        lemma_table_of_members(list, i);
        let a = choose|a: int| 0 <= a < list.len() && list[a].0 == t[i].0;
        let b = choose|b: int| 0 <= b < list.len() && list[b].1 == t[i].1;
        assert(cnccat_fits(list[a]));
        assert(cnccat_fits(list[b]));
    }
}

/// A table that can be encoded is read from its encoding.
pub proof fn lemma_cnccats_returns(t: Seq<(Seq<char>, CncCat)>, out: Seq<u8>, at: int)
    requires
        cnccats_fit(t),
        stored_at(out, at, encode_cnccats(t)),
    ensures
        spec_read_cnccats(out, at) == Ok::<(Seq<(Seq<char>, CncCat)>, int), Failure>(
            (t, at + encode_cnccats(t).len()),
        ),
{
    reveal(cnccats_fit);
    lemma_stored_split(out, at, encode_u32(t.len() as u32), encode_cnccat_list(t));
    lemma_u32_returns(t.len() as u32, out, at, "concrete category count");
    lemma_cnccat_list_returns(t, out, at + 4);
    lemma_table_of_table(t);
}

/// The sequences are read from their encoding, wherever it stands.
pub open spec fn sequences_return(seqs: Seq<Seq<SpecSymbol>>) -> bool {
    forall|out: Seq<u8>, at: int| #[trigger]
        stored_at(out, at, encode_sequences(seqs)) ==> spec_read_sequences(out, at) == Ok::<
            (Seq<Seq<SpecSymbol>>, int),
            Failure,
        >((seqs, at + encode_sequences(seqs).len()))
}

/// The encoding of a concrete syntax.
#[verifier::opaque]
pub open spec fn encode_concrete(c: SpecConcrete) -> Seq<u8> {
    encode_flags(c.cflags) + (encode_productions(c.productions) + (encode_cncfuns(c.cncfuns) + (
    encode_sequences(c.sequences) + (encode_cnccats(c.cnccats) + encode_i32(c.total_cats)))))
}

/// A concrete syntax can be encoded: each of its tables can.
#[verifier::opaque]
pub open spec fn concrete_fits(c: SpecConcrete) -> bool {
    &&& flags_fit(c.cflags)
    &&& productions_table_fit(c.productions)
    &&& cncfuns_fit(c.cncfuns)
    &&& sequences_return(c.sequences)
    &&& cnccats_fit(c.cnccats)
}

/// A concrete syntax that was read can be encoded.
#[verifier::rlimit(40)]
pub proof fn lemma_concrete_fits(data: Seq<u8>, pos: int)
    requires
        spec_read_concrete(data, pos) is Ok,
    ensures
        concrete_fits(spec_read_concrete(data, pos)->Ok_0.0),
{
    reveal(spec_read_concrete);
    reveal(encode_concrete);
    reveal(concrete_fits);
    let p1 = spec_read_flags(data, pos)->Ok_0.1;
    let p2 = spec_read_productions(data, p1)->Ok_0.1;
    let p3 = spec_read_cncfuns(data, p2)->Ok_0.1;
    let (seqs, p4) = spec_read_sequences(data, p3)->Ok_0;
    lemma_flags_fit(data, pos);
    lemma_productions_table_fit(data, p1);
    lemma_cncfuns_fit(data, p2);
    lemma_cnccats_fit(data, p4);
    assert forall|out: Seq<u8>, at: int| #[trigger]
        stored_at(out, at, encode_sequences(seqs)) implies spec_read_sequences(out, at) == Ok::<
        (Seq<Seq<SpecSymbol>>, int),
        Failure,
    >((seqs, at + encode_sequences(seqs).len())) by {
        lemma_sequences_again(data, p3, out, at);
    }
}

/// Where the parts of a concrete syntax stand in a buffer that holds it.
#[verifier::rlimit(40)]
proof fn lemma_concrete_layout(c: SpecConcrete, out: Seq<u8>, at: int)
    requires
        stored_at(out, at, encode_concrete(c)),
    ensures
        stored_at(out, at, encode_flags(c.cflags)),
        stored_at(out, at + encode_flags(c.cflags).len(), encode_productions(c.productions)),
        stored_at(
            out,
            at + encode_flags(c.cflags).len() + encode_productions(c.productions).len(),
            encode_cncfuns(c.cncfuns),
        ),
        stored_at(
            out,
            at + encode_flags(c.cflags).len() + encode_productions(c.productions).len()
                + encode_cncfuns(c.cncfuns).len(),
            encode_sequences(c.sequences),
        ),
        stored_at(
            out,
            at + encode_flags(c.cflags).len() + encode_productions(c.productions).len()
                + encode_cncfuns(c.cncfuns).len() + encode_sequences(c.sequences).len(),
            encode_cnccats(c.cnccats),
        ),
        stored_at(
            out,
            at + encode_flags(c.cflags).len() + encode_productions(c.productions).len()
                + encode_cncfuns(c.cncfuns).len() + encode_sequences(c.sequences).len()
                + encode_cnccats(c.cnccats).len(),
            encode_i32(c.total_cats),
        ),
        encode_concrete(c).len() == encode_flags(c.cflags).len() + encode_productions(
            c.productions,
        ).len() + encode_cncfuns(c.cncfuns).len() + encode_sequences(c.sequences).len()
            + encode_cnccats(c.cnccats).len() + encode_i32(c.total_cats).len(),
{
    reveal(spec_read_concrete);
    reveal(encode_concrete);
    let e1 = encode_flags(c.cflags);
    let e2 = encode_productions(c.productions);
    let e3 = encode_cncfuns(c.cncfuns);
    let e4 = encode_sequences(c.sequences);
    let e5 = encode_cnccats(c.cnccats);
    let e6 = encode_i32(c.total_cats);
    lemma_stored_split(out, at, e1, e2 + (e3 + (e4 + (e5 + e6))));
    let a1 = at + e1.len();
    lemma_stored_split(out, a1, e2, e3 + (e4 + (e5 + e6)));
    let a2 = a1 + e2.len();
    lemma_stored_split(out, a2, e3, e4 + (e5 + e6));
    let a3 = a2 + e3.len();
    lemma_stored_split(out, a3, e4, e5 + e6);
    let a4 = a3 + e4.len();
    lemma_stored_split(out, a4, e5, e6);
}

/// Where the encoding of a concrete syntax stands, it is read.
#[verifier::rlimit(40)]
pub proof fn lemma_concrete_returns(c: SpecConcrete, out: Seq<u8>, at: int)
    requires
        concrete_fits(c),
        stored_at(out, at, encode_concrete(c)),
    ensures
        spec_read_concrete(out, at) == Ok::<(SpecConcrete, int), Failure>(
            (c, at + encode_concrete(c).len()),
        ),
{
    reveal(spec_read_concrete);
    reveal(encode_concrete);
    reveal(concrete_fits);
    lemma_concrete_layout(c, out, at);
    let a1 = at + encode_flags(c.cflags).len();
    let a2 = a1 + encode_productions(c.productions).len();
    let a3 = a2 + encode_cncfuns(c.cncfuns).len();
    let a4 = a3 + encode_sequences(c.sequences).len();
    let a5 = a4 + encode_cnccats(c.cnccats).len();
    assert(spec_read_flags(out, at) == Ok::<(Seq<(Seq<char>, SpecLiteral)>, int), Failure>(
        (c.cflags, a1),
    )) by {
        lemma_flags_returns(c.cflags, out, at);
    }
    assert(spec_read_productions(out, a1) == Ok::<
        (Seq<(i32, Seq<SpecProduction>)>, int),
        Failure,
    >((c.productions, a2))) by {
        lemma_productions_table_returns(c.productions, out, a1);
    }
    assert(spec_read_cncfuns(out, a2) == Ok::<(Seq<SpecCncFun>, int), Failure>(
        (c.cncfuns, a3),
    )) by {
        lemma_cncfuns_returns(c.cncfuns, out, a2);
    }
    assert(spec_read_sequences(out, a3) == Ok::<(Seq<Seq<SpecSymbol>>, int), Failure>(
        (c.sequences, a4),
    ));
    assert(spec_read_cnccats(out, a4) == Ok::<(Seq<(Seq<char>, CncCat)>, int), Failure>(
        (c.cnccats, a5),
    )) by {
        lemma_cnccats_returns(c.cnccats, out, a4);
    }
    assert(spec_read_i32(out, a5, "fid total") == Ok::<(i32, int), Failure>(
        (c.total_cats, a5 + 4),
    ) && encode_i32(c.total_cats).len() == 4) by {
        lemma_i32_returns(c.total_cats, out, a5, "fid total");
    }
}

} // verus!
