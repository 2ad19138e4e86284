//! The encoding of a grammar, and the law of the decoder and the encoding.

use vstd::prelude::*;

use crate::binary::concrete::spec_read_flags;
use crate::binary::file::{
    categories_of, spec_decode_pgf, spec_parse_pgf, spec_read_abstract, spec_read_concretes,
    spec_read_fun, spec_read_fun_list, spec_read_header, spec_read_language,
    spec_read_language_list, start_category, VERSION,
};
use crate::binary::terms::{spec_read_type, MAX_DEPTH};
use crate::encode::concrete::{
    concrete_fits, encode_concrete, encode_flags, flags_fit, lemma_concrete_fits,
    lemma_concrete_returns, lemma_flags_fit, lemma_flags_returns, productions_table_fit,
};
use crate::encode::terms::{encode_type, lemma_type_again};
use crate::grammar::{SpecAbstract, SpecConcrete, SpecFunction, SpecLiteral, SpecPgf, SpecType};
use crate::table::{
    distinct_keys, lemma_position_is, lemma_table_of_distinct, lemma_table_of_len,
    lemma_table_of_members, lemma_table_of_table, position, table_get, table_of,
};
use crate::valid::{
    acyclic, concrete_violation, fids_in_range, first_violation, lins_in_range, names_known,
    sets_distinct, slots_in_arity,
};
use crate::wire::{
    encode_i32, encode_string, encode_string_16, encode_u16, encode_u32, encode_u64,
    lemma_be_bytes_len, lemma_i32_returns, lemma_stored_split, lemma_string_16_medium,
    lemma_string_16_returns, lemma_string_returns, lemma_string_short, lemma_u16_returns,
    lemma_u32_returns, lemma_u64_returns, medium_text, short_text, spec_read_string,
    spec_read_string_16, spec_read_u32, stored_at, Failure,
};

verus! {

/// The type is read from its encoding, wherever it stands.
pub open spec fn type_returns(ty: SpecType) -> bool {
    forall|out: Seq<u8>, at: int| #[trigger]
        stored_at(out, at, encode_type(ty, MAX_DEPTH as nat)) ==> spec_read_type(
            out,
            at,
            MAX_DEPTH as nat,
        ) == Ok::<(SpecType, int), Failure>((ty, at + encode_type(ty, MAX_DEPTH as nat).len()))
}

/// The encoding of a function.
pub open spec fn encode_fun(e: (Seq<char>, SpecFunction)) -> Seq<u8> {
    encode_string(e.0) + (encode_type(e.1.ty, MAX_DEPTH as nat) + (encode_i32(e.1.weight)
        + encode_u64(e.1.prob)))
}

/// A function can be encoded: its type can, and it has no definition.
pub open spec fn function_fits(f: SpecFunction) -> bool {
    type_returns(f.ty) && f.equations is None
}

/// Whether a function can be encoded.
pub open spec fn fun_fits(e: (Seq<char>, SpecFunction)) -> bool {
    short_text(e.0) && function_fits(e.1)
}

/// A function that was read can be encoded.
pub proof fn lemma_fun_fits(data: Seq<u8>, pos: int)
    requires
        spec_read_fun(data, pos) is Ok,
    ensures
        fun_fits(spec_read_fun(data, pos)->Ok_0.0),
{
    lemma_string_short(data, pos, "function name");
    let p1 = spec_read_string(data, pos, "function name")->Ok_0.1;
    let ty = spec_read_type(data, p1, MAX_DEPTH as nat)->Ok_0.0;
    assert forall|out: Seq<u8>, at: int| #[trigger]
        stored_at(out, at, encode_type(ty, MAX_DEPTH as nat)) implies spec_read_type(
        out,
        at,
        MAX_DEPTH as nat,
    ) == Ok::<(SpecType, int), Failure>((ty, at + encode_type(ty, MAX_DEPTH as nat).len())) by {
        lemma_type_again(data, p1, MAX_DEPTH as nat, out, at);
    }
}

/// Where the encoding of a function stands, it is read.
pub proof fn lemma_fun_returns(e: (Seq<char>, SpecFunction), out: Seq<u8>, at: int)
    requires
        fun_fits(e),
        stored_at(out, at, encode_fun(e)),
    ensures
        spec_read_fun(out, at) == Ok::<((Seq<char>, SpecFunction), int), Failure>(
            (e, at + encode_fun(e).len()),
        ),
{
    let e1 = encode_string(e.0);
    let e2 = encode_type(e.1.ty, MAX_DEPTH as nat);
    let e3 = encode_i32(e.1.weight);
    let e4 = encode_u64(e.1.prob);
    lemma_stored_split(out, at, e1, e2 + (e3 + e4));
    lemma_string_returns(e.0, out, at, "function name");
    let a1 = at + e1.len();
    lemma_stored_split(out, a1, e2, e3 + e4);
    assert(stored_at(out, a1, encode_type(e.1.ty, MAX_DEPTH as nat)));
    let a2 = a1 + e2.len();
    lemma_stored_split(out, a2, e3, e4);
    lemma_i32_returns(e.1.weight, out, a2, "weight");
    lemma_u64_returns(e.1.prob, out, a2 + 4, "probability");
}

/// The encoding of functions, one after the other.
pub open spec fn encode_fun_list(vs: Seq<(Seq<char>, SpecFunction)>) -> Seq<u8>
    decreases vs.len(),
{
    if vs.len() == 0 {
        Seq::empty()
    } else {
        encode_fun(vs[0]) + encode_fun_list(vs.drop_first())
    }
}

/// Each of the functions can be encoded.
pub open spec fn fun_list_fit(vs: Seq<(Seq<char>, SpecFunction)>) -> bool {
    forall|i: int| 0 <= i < vs.len() ==> fun_fits(#[trigger] vs[i])
}

/// A list that was read has the length that was asked for, and each of
/// its items can be encoded.
pub proof fn lemma_fun_list_fit(data: Seq<u8>, pos: int, n: nat)
    requires
        spec_read_fun_list(data, pos, n) is Ok,
    ensures
        spec_read_fun_list(data, pos, n)->Ok_0.0.len() == n,
        fun_list_fit(spec_read_fun_list(data, pos, n)->Ok_0.0),
    decreases n,
{
    if n > 0 {
        let (x, p) = spec_read_fun(data, pos)->Ok_0;
        let rest = spec_read_fun_list(data, p, (n - 1) as nat)->Ok_0.0;
        lemma_fun_fits(data, pos);
        lemma_fun_list_fit(data, p, (n - 1) as nat);
        let all = seq![x] + rest;
        assert forall|i: int| 0 <= i < all.len() implies fun_fits(#[trigger] all[i]) by {
            if i > 0 {
                assert(all[i] == rest[i - 1]);
            }
        }
    }
}

/// A list of items that can be encoded is read from its encoding.
#[verifier::rlimit(40)]
pub proof fn lemma_fun_list_returns(vs: Seq<(Seq<char>, SpecFunction)>, out: Seq<u8>, at: int)
    requires
        fun_list_fit(vs),
        stored_at(out, at, encode_fun_list(vs)),
    ensures
        spec_read_fun_list(out, at, vs.len()) == Ok::<(Seq<(Seq<char>, SpecFunction)>, int), Failure>(
            (vs, at + encode_fun_list(vs).len()),
        ),
    decreases vs.len(),
{
    if vs.len() > 0 {
        let x = vs[0];
        let rest = vs.drop_first();
        lemma_stored_split(out, at, encode_fun(x), encode_fun_list(rest));
        lemma_fun_returns(x, out, at);
        assert forall|i: int| 0 <= i < rest.len() implies fun_fits(#[trigger] rest[i]) by {
            assert(rest[i] == vs[i + 1]);
        }
        lemma_fun_list_returns(rest, out, at + encode_fun(x).len());
        assert(seq![x] + rest =~= vs);
    } else {
        assert(vs =~= Seq::empty());
    }
}

/// The abstract syntax: the count and the functions. The categories are
/// not written.
pub open spec fn encode_abstract(a: SpecAbstract) -> Seq<u8> {
    encode_u32(a.funs.len() as u32) + encode_fun_list(a.funs)
}

/// An abstract syntax can be encoded: the count of its functions fits, no
/// function stands twice, each function can be encoded, and its categories
/// are those of its functions.
#[verifier::opaque]
pub open spec fn abstract_fits(a: SpecAbstract) -> bool {
    &&& a.funs.len() <= 0xffff_ffff
    &&& distinct_keys(a.funs)
    &&& fun_list_fit(a.funs)
    &&& a.cats == categories_of(a.funs)
}

/// An abstract syntax that was read can be encoded.
#[verifier::rlimit(40)]
pub proof fn lemma_abstract_fits(data: Seq<u8>, pos: int)
    requires
        spec_read_abstract(data, pos) is Ok,
    ensures
        abstract_fits(spec_read_abstract(data, pos)->Ok_0.0),
{
    reveal(abstract_fits);
    let (n, p) = spec_read_u32(data, pos, "function count")->Ok_0;
    let list = spec_read_fun_list(data, p, n as nat)->Ok_0.0;
    let t = table_of(list);
    lemma_fun_list_fit(data, p, n as nat);
    lemma_table_of_distinct(list);
    lemma_table_of_len(list);
    assert forall|i: int| 0 <= i < t.len() implies fun_fits(#[trigger] t[i]) by {
        lemma_table_of_members(list, i);
        let a = choose|a: int| 0 <= a < list.len() && list[a].0 == t[i].0;
        let b = choose|b: int| 0 <= b < list.len() && list[b].1 == t[i].1;
        assert(fun_fits(list[a]));
        assert(fun_fits(list[b]));
    }
}

/// Where the encoding of an abstract syntax stands, it is read.
pub proof fn lemma_abstract_returns(a: SpecAbstract, out: Seq<u8>, at: int)
    requires
        abstract_fits(a),
        stored_at(out, at, encode_abstract(a)),
    ensures
        spec_read_abstract(out, at) == Ok::<(SpecAbstract, int), Failure>(
            (a, at + encode_abstract(a).len()),
        ),
{
    reveal(abstract_fits);
    lemma_stored_split(out, at, encode_u32(a.funs.len() as u32), encode_fun_list(a.funs));
    lemma_u32_returns(a.funs.len() as u32, out, at, "function count");
    lemma_fun_list_returns(a.funs, out, at + 4);
    lemma_table_of_table(a.funs);
}

/// The encoding of a language.
pub open spec fn encode_language(e: (Seq<char>, SpecConcrete)) -> Seq<u8> {
    encode_string(e.0) + encode_concrete(e.1)
}

/// Whether a language can be encoded.
pub open spec fn language_fits(e: (Seq<char>, SpecConcrete)) -> bool {
    short_text(e.0) && concrete_fits(e.1)
}

/// A language that was read can be encoded.
pub proof fn lemma_language_fits(data: Seq<u8>, pos: int)
    requires
        spec_read_language(data, pos) is Ok,
    ensures
        language_fits(spec_read_language(data, pos)->Ok_0.0),
{
    lemma_string_short(data, pos, "language name");
    let p = spec_read_string(data, pos, "language name")->Ok_0.1;
    lemma_concrete_fits(data, p);
}

/// Where the encoding of a language stands, it is read.
pub proof fn lemma_language_returns(e: (Seq<char>, SpecConcrete), out: Seq<u8>, at: int)
    requires
        language_fits(e),
        stored_at(out, at, encode_language(e)),
    ensures
        spec_read_language(out, at) == Ok::<((Seq<char>, SpecConcrete), int), Failure>(
            (e, at + encode_language(e).len()),
        ),
{
    lemma_stored_split(out, at, encode_string(e.0), encode_concrete(e.1));
    lemma_string_returns(e.0, out, at, "language name");
    lemma_concrete_returns(e.1, out, at + encode_string(e.0).len());
}

/// The encoding of languages, one after the other.
pub open spec fn encode_language_list(vs: Seq<(Seq<char>, SpecConcrete)>) -> Seq<u8>
    decreases vs.len(),
{
    if vs.len() == 0 {
        Seq::empty()
    } else {
        encode_language(vs[0]) + encode_language_list(vs.drop_first())
    }
}

/// Each of the languages can be encoded.
pub open spec fn language_list_fit(vs: Seq<(Seq<char>, SpecConcrete)>) -> bool {
    forall|i: int| 0 <= i < vs.len() ==> language_fits(#[trigger] vs[i])
}

/// A list that was read has the length that was asked for, and each of
/// its items can be encoded.
#[verifier::rlimit(40)]
pub proof fn lemma_language_list_fit(data: Seq<u8>, pos: int, n: nat)
    requires
        spec_read_language_list(data, pos, n) is Ok,
    ensures
        spec_read_language_list(data, pos, n)->Ok_0.0.len() == n,
        language_list_fit(spec_read_language_list(data, pos, n)->Ok_0.0),
    decreases n,
{
    if n > 0 {
        let (x, p) = spec_read_language(data, pos)->Ok_0;
        let rest = spec_read_language_list(data, p, (n - 1) as nat)->Ok_0.0;
        lemma_language_fits(data, pos);
        lemma_language_list_fit(data, p, (n - 1) as nat);
        let all = seq![x] + rest;
        assert forall|i: int| 0 <= i < all.len() implies language_fits(#[trigger] all[i]) by {
            if i > 0 {
                assert(all[i] == rest[i - 1]);
            }
        }
    }
}

/// A list of items that can be encoded is read from its encoding.
#[verifier::rlimit(40)]
pub proof fn lemma_language_list_returns(vs: Seq<(Seq<char>, SpecConcrete)>, out: Seq<u8>, at: int)
    requires
        language_list_fit(vs),
        stored_at(out, at, encode_language_list(vs)),
    ensures
        spec_read_language_list(out, at, vs.len()) == Ok::<(Seq<(Seq<char>, SpecConcrete)>, int), Failure>(
            (vs, at + encode_language_list(vs).len()),
        ),
    decreases vs.len(),
{
    if vs.len() > 0 {
        let x = vs[0];
        let rest = vs.drop_first();
        lemma_stored_split(out, at, encode_language(x), encode_language_list(rest));
        lemma_language_returns(x, out, at);
        assert forall|i: int| 0 <= i < rest.len() implies language_fits(#[trigger] rest[i]) by {
            assert(rest[i] == vs[i + 1]);
        }
        lemma_language_list_returns(rest, out, at + encode_language(x).len());
        assert(seq![x] + rest =~= vs);
    } else {
        assert(vs =~= Seq::empty());
    }
}

/// The concrete syntaxes: the count and the languages.
pub open spec fn encode_concretes(t: Seq<(Seq<char>, SpecConcrete)>) -> Seq<u8> {
    encode_u32(t.len() as u32) + encode_language_list(t)
}

/// The table can be encoded: its count fits, no key stands twice, and each
/// entry can be encoded.
#[verifier::opaque]
pub open spec fn concretes_fit(t: Seq<(Seq<char>, SpecConcrete)>) -> bool {
    t.len() <= 0xffff_ffff && distinct_keys(t) && language_list_fit(t)
}

/// A table that was read can be encoded.
#[verifier::rlimit(40)]
pub proof fn lemma_concretes_fit(data: Seq<u8>, pos: int)
    requires
        spec_read_concretes(data, pos) is Ok,
    ensures
        concretes_fit(spec_read_concretes(data, pos)->Ok_0.0),
{
    reveal(concretes_fit);
    let (n, p) = spec_read_u32(data, pos, "concrete count")->Ok_0;
    let list = spec_read_language_list(data, p, n as nat)->Ok_0.0;
    let t = table_of(list);
    lemma_language_list_fit(data, p, n as nat);
    lemma_table_of_distinct(list);
    lemma_table_of_len(list);
    assert forall|i: int| 0 <= i < t.len() implies language_fits(#[trigger] t[i]) by {
        lemma_table_of_members(list, i);
        let a = choose|a: int| 0 <= a < list.len() && list[a].0 == t[i].0;
        let b = choose|b: int| 0 <= b < list.len() && list[b].1 == t[i].1;
        assert(language_fits(list[a]));
        assert(language_fits(list[b]));
    }
}

/// A table that can be encoded is read from its encoding.
#[verifier::rlimit(40)]
pub proof fn lemma_concretes_returns(t: Seq<(Seq<char>, SpecConcrete)>, out: Seq<u8>, at: int)
    requires
        concretes_fit(t),
        stored_at(out, at, encode_concretes(t)),
    ensures
        spec_read_concretes(out, at) == Ok::<(Seq<(Seq<char>, SpecConcrete)>, int), Failure>(
            (t, at + encode_concretes(t).len()),
        ),
{
    reveal(concretes_fit);
    lemma_stored_split(out, at, encode_u32(t.len() as u32), encode_language_list(t));
    lemma_u32_returns(t.len() as u32, out, at, "concrete count");
    lemma_language_list_returns(t, out, at + 4);
    lemma_table_of_table(t);
}

/// The file of a grammar: the header, the abstract name, the flags, the
/// abstract syntax and the concrete syntaxes.
pub open spec fn encode_pgf(g: SpecPgf) -> Seq<u8> {
    encode_u16(VERSION) + (encode_u16(1) + (encode_string_16(g.absname) + (encode_flags(g.flags)
        + (encode_abstract(g.abstract_syntax) + encode_concretes(g.concretes)))))
}

/// A grammar can be encoded: each of its parts can, and its start category
/// is the one that its flags and categories give.
pub open spec fn encodable(g: SpecPgf) -> bool {
    &&& medium_text(g.absname)
    &&& flags_fit(g.flags)
    &&& abstract_fits(g.abstract_syntax)
    &&& concretes_fit(g.concretes)
    &&& start_category(g.flags, g.abstract_syntax.cats) == Some(g.startcat)
}

/// A grammar that the decoder has produced can be encoded.
pub proof fn lemma_decoded_encodable(data: Seq<u8>)
    requires
        spec_decode_pgf(data) is Ok,
    ensures
        encodable(spec_decode_pgf(data)->Ok_0),
{
    let p2 = spec_read_header(data)->Ok_0.1;
    let p3 = spec_read_string_16(data, p2, "abstract name")->Ok_0.1;
    let p4 = spec_read_flags(data, p3)->Ok_0.1;
    let p5 = spec_read_abstract(data, p4)->Ok_0.1;
    lemma_string_16_medium(data, p2, "abstract name");
    lemma_flags_fit(data, p3);
    lemma_abstract_fits(data, p4);
    lemma_concretes_fit(data, p5);
}

/// Where the parts of a file stand in a buffer that holds the file.
#[verifier::rlimit(40)]
proof fn lemma_file_layout(g: SpecPgf, out: Seq<u8>)
    requires
        stored_at(out, 0, encode_pgf(g)),
    ensures
        stored_at(out, 0, encode_u16(VERSION)),
        stored_at(out, 2, encode_u16(1)),
        stored_at(out, 4, encode_string_16(g.absname)),
        stored_at(out, 4int + encode_string_16(g.absname).len(), encode_flags(g.flags)),
        stored_at(
            out,
            4int + encode_string_16(g.absname).len() + encode_flags(g.flags).len(),
            encode_abstract(g.abstract_syntax),
        ),
        stored_at(
            out,
            4int + encode_string_16(g.absname).len() + encode_flags(g.flags).len() + encode_abstract(
                g.abstract_syntax,
            ).len(),
            encode_concretes(g.concretes),
        ),
        encode_pgf(g).len() == 4int + encode_string_16(g.absname).len() + encode_flags(g.flags).len()
            + encode_abstract(g.abstract_syntax).len() + encode_concretes(g.concretes).len(),
{
    let e1 = encode_u16(VERSION);
    let e2 = encode_u16(1);
    let e3 = encode_string_16(g.absname);
    let e4 = encode_flags(g.flags);
    let e5 = encode_abstract(g.abstract_syntax);
    let e6 = encode_concretes(g.concretes);
    lemma_be_bytes_len(VERSION as nat, 2);
    lemma_be_bytes_len(1, 2);
    lemma_stored_split(out, 0, e1, e2 + (e3 + (e4 + (e5 + e6))));
    lemma_stored_split(out, 2, e2, e3 + (e4 + (e5 + e6)));
    lemma_stored_split(out, 4, e3, e4 + (e5 + e6));
    let a3: int = 4int + e3.len();
    lemma_stored_split(out, a3, e4, e5 + e6);
    let a4: int = a3 + e4.len();
    lemma_stored_split(out, a4, e5, e6);
}

/// The decoder reads a grammar that can be encoded from a buffer that
/// holds its encoding and nothing else.
#[verifier::rlimit(40)]
proof fn lemma_file_returns(g: SpecPgf, out: Seq<u8>)
    requires
        encodable(g),
        stored_at(out, 0, encode_pgf(g)),
        out.len() == encode_pgf(g).len(),
    ensures
        spec_decode_pgf(out) == Ok::<SpecPgf, Failure>(g),
{
    lemma_file_layout(g, out);
    let a3: int = 4int + encode_string_16(g.absname).len();
    let a4: int = a3 + encode_flags(g.flags).len();
    let a5: int = a4 + encode_abstract(g.abstract_syntax).len();
    let a6: int = a5 + encode_concretes(g.concretes).len();
    assert(spec_read_header(out) == Ok::<((), int), Failure>(((), 4))) by {
        lemma_u16_returns(VERSION, out, 0, "version");
        lemma_u16_returns(1, out, 2, "grammar count");
    }
    assert(spec_read_string_16(out, 4, "abstract name") == Ok::<(Seq<char>, int), Failure>(
        (g.absname, a3),
    )) by {
        lemma_string_16_returns(g.absname, out, 4, "abstract name");
    }
    assert(spec_read_flags(out, a3) == Ok::<(Seq<(Seq<char>, crate::grammar::SpecLiteral)>, int), Failure>(
        (g.flags, a4),
    )) by {
        lemma_flags_returns(g.flags, out, a3);
    }
    assert(spec_read_abstract(out, a4) == Ok::<(SpecAbstract, int), Failure>(
        (g.abstract_syntax, a5),
    )) by {
        lemma_abstract_returns(g.abstract_syntax, out, a4);
    }
    assert(spec_read_concretes(out, a5) == Ok::<(Seq<(Seq<char>, SpecConcrete)>, int), Failure>(
        (g.concretes, a6),
    )) by {
        lemma_concretes_returns(g.concretes, out, a5);
    }
    assert(a6 == out.len());
}

/// The decoder reads a grammar that can be encoded from its encoding.
pub proof fn lemma_encodable_returns(g: SpecPgf)
    requires
        encodable(g),
    ensures
        spec_decode_pgf(encode_pgf(g)) == Ok::<SpecPgf, Failure>(g),
{
    let out = encode_pgf(g);
    assert(out.subrange(0, out.len() as int) =~= out);
    lemma_file_returns(g, out);
}

/// A grammar that was decoded has, in every language, the productions of
/// each fid in one place.
pub proof fn lemma_decoded_distinct(data: Seq<u8>)
    requires
        spec_decode_pgf(data) is Ok,
    ensures
        sets_distinct(spec_decode_pgf(data)->Ok_0),
{
    let g = spec_decode_pgf(data)->Ok_0;
    lemma_decoded_encodable(data);
    reveal(concretes_fit);
    assert forall|c: int| 0 <= c < g.concretes.len() implies distinct_keys(
        (#[trigger] g.concretes[c]).1.productions,
    ) by {
        assert(language_fits(g.concretes[c]));
        reveal(concrete_fits);
        reveal(productions_table_fit);
    }
}

/// The law of loading and encoding: from the encoding of a grammar that
/// was loaded from a file, the same grammar is loaded.
pub proof fn lemma_round_trip(data: Seq<u8>)
    requires
        spec_parse_pgf(data) is Ok,
    ensures
        spec_parse_pgf(encode_pgf(spec_parse_pgf(data)->Ok_0)) == spec_parse_pgf(data),
{
    lemma_decoded_encodable(data);
    lemma_encodable_returns(spec_decode_pgf(data)->Ok_0);
}

/// What holds of a grammar that was loaded: its start category is named
/// by the flag `startcat` or is one of its categories, and nothing is wrong
/// with any of its languages.
#[verifier::rlimit(40)]
pub proof fn lemma_loaded_grammar(data: Seq<u8>)
    requires
        spec_parse_pgf(data) is Ok,
    ensures
        ({
            let g = spec_parse_pgf(data)->Ok_0;
            &&& table_get(g.flags, "startcat"@) == Some(SpecLiteral::Str(g.startcat)) || position(
                g.abstract_syntax.cats,
                g.startcat,
            ) is Some
            &&& forall|c: int|
                0 <= c < g.concretes.len() ==> {
                    let cnc = (#[trigger] g.concretes[c]).1;
                    &&& names_known(g.abstract_syntax.funs, cnc)
                    &&& lins_in_range(cnc)
                    &&& slots_in_arity(g.abstract_syntax.funs, cnc)
                    &&& fids_in_range(cnc)
                    &&& acyclic(cnc.productions)
                }
        }),
{
    let g = spec_parse_pgf(data)->Ok_0;
    if !(table_get(g.flags, "startcat"@) == Some(SpecLiteral::Str(g.startcat))) {
        assert(g.abstract_syntax.cats.len() > 0);
        assert(g.startcat == g.abstract_syntax.cats[0].0);
        lemma_position_is(g.abstract_syntax.cats, g.startcat, 0);
    }
    assert forall|c: int| 0 <= c < g.concretes.len() implies concrete_violation(
        g.abstract_syntax.funs,
        (#[trigger] g.concretes[c]).1,
    ) is None by {
        lemma_nothing_wrong(g.abstract_syntax.funs, g.concretes, c);
    }
}

/// Where nothing is wrong with the first language with which something is
/// wrong, nothing is wrong with any.
pub proof fn lemma_nothing_wrong(
    funs: Seq<(Seq<char>, SpecFunction)>,
    concretes: Seq<(Seq<char>, SpecConcrete)>,
    c: int,
)
    requires
        first_violation(funs, concretes) is None,
        0 <= c < concretes.len(),
    ensures
        concrete_violation(funs, concretes[c].1) is None,
    decreases concretes.len(),
{
    if c < concretes.len() - 1 {
        lemma_nothing_wrong(funs, concretes.drop_last(), c);
    }
}

} // verus!
