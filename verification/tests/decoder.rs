use bytes::Bytes;
use pgf2json::binary::concrete::{read_literal, read_production};
use pgf2json::binary::symbols::{read_symbol, read_alt};
use pgf2json::binary::terms::{read_binding, read_expr, read_hypo, read_type, MAX_DEPTH};
use pgf2json::cid::mk_cid;
use pgf2json::wire::{
    read_i32, read_string, read_string_16, read_u16, read_u32, read_u64, read_u8, Cause, Failure,
};
use pgf2json::{
    parse_pgf, parse_pgf_binary, Abstract, Alt, Binding, CId, Category, CncCat, CncFun, Concrete,
    Expr, Function, Hypo, Language, Literal, PArg, Pgf, PgfError, Production, ProductionSet,
    Symbol, Type,
};

fn put_u16(out: &mut Vec<u8>, v: u16) {
    out.extend_from_slice(&v.to_be_bytes());
}

fn put_u32(out: &mut Vec<u8>, v: u32) {
    out.extend_from_slice(&v.to_be_bytes());
}

fn put_i32(out: &mut Vec<u8>, v: i32) {
    out.extend_from_slice(&v.to_be_bytes());
}

fn put_u64(out: &mut Vec<u8>, v: u64) {
    out.extend_from_slice(&v.to_be_bytes());
}

fn put_str(out: &mut Vec<u8>, s: &str) {
    out.push(s.len() as u8);
    out.extend_from_slice(s.as_bytes());
}

fn put_literal(out: &mut Vec<u8>, l: &Literal) {
    match l {
        Literal::Str(s) => {
            out.push(0);
            put_str(out, s);
        }
        Literal::Int(n) => {
            out.push(1);
            put_i32(out, *n);
        }
        Literal::Flt(b) => {
            out.push(2);
            put_u64(out, *b);
        }
    }
}

fn put_flags(out: &mut Vec<u8>, flags: &[(CId, Literal)]) {
    put_u16(out, flags.len() as u16);
    for (k, v) in flags {
        put_str(out, &k.0);
        put_literal(out, v);
    }
}

fn put_binding(out: &mut Vec<u8>, b: &Binding) {
    match b {
        Binding::Explicit(x) => {
            out.push(0);
            put_str(out, x);
        }
        Binding::Implicit(x) => {
            out.push(1);
            put_str(out, x);
        }
    }
}

fn put_type(out: &mut Vec<u8>, t: &Type) {
    put_u32(out, t.hypos.len() as u32);
    for h in &t.hypos {
        put_binding(out, &h.binding);
        put_type(out, &h.ty);
    }
    put_str(out, &t.category.0);
    put_u32(out, t.exprs.len() as u32);
    for e in &t.exprs {
        put_expr(out, e);
    }
}

fn put_expr(out: &mut Vec<u8>, e: &Expr) {
    match e {
        Expr::Abs(b, x, body) => {
            out.push(0);
            put_binding(out, b);
            put_str(out, &x.0);
            put_expr(out, body);
        }
        Expr::App(f, a) => {
            out.push(1);
            put_expr(out, f);
            put_expr(out, a);
        }
        Expr::Fun(f) => {
            out.push(2);
            put_str(out, &f.0);
        }
        Expr::Str(s) => {
            out.push(3);
            put_str(out, s);
        }
        Expr::Int(n) => {
            out.push(4);
            put_i32(out, *n);
        }
        Expr::Float(b) => {
            out.push(5);
            put_u32(out, *b);
        }
        Expr::Double(b) => {
            out.push(6);
            put_u64(out, *b);
        }
        Expr::Meta => out.push(7),
        Expr::Typed(x, t) => {
            out.push(8);
            put_expr(out, x);
            put_type(out, t);
        }
        Expr::ImplArg(x) => {
            out.push(9);
            put_expr(out, x);
        }
    }
}

fn put_symbol(out: &mut Vec<u8>, s: &Symbol) {
    match s {
        Symbol::SymCat(d, r) => {
            out.push(0);
            put_i32(out, *d);
            put_i32(out, *r);
        }
        Symbol::SymLit(d, r) => {
            out.push(1);
            put_i32(out, *d);
            put_i32(out, *r);
        }
        Symbol::SymVar(d, r) => {
            out.push(2);
            put_i32(out, *d);
            put_i32(out, *r);
        }
        Symbol::SymKS(t) => {
            out.push(3);
            put_str(out, t);
        }
        Symbol::SymKP(symbols, alts) => {
            out.push(4);
            put_u32(out, symbols.len() as u32);
            for x in symbols {
                put_symbol(out, x);
            }
            put_u32(out, alts.len() as u32);
            for a in alts {
                put_u32(out, a.symbols.len() as u32);
                for x in &a.symbols {
                    put_symbol(out, x);
                }
                put_u32(out, a.tokens.len() as u32);
                for t in &a.tokens {
                    put_str(out, t);
                }
            }
        }
        Symbol::SymNE => out.push(5),
    }
}

fn put_production(out: &mut Vec<u8>, p: &Production) {
    match p {
        Production::Apply { fid, args } => {
            out.push(0);
            put_i32(out, *fid);
            put_u32(out, args.len() as u32);
            for a in args {
                put_u32(out, a.hypos.len() as u32);
                for h in &a.hypos {
                    put_i32(out, *h);
                }
                put_i32(out, a.fid);
            }
        }
        Production::Coerce { arg } => {
            out.push(1);
            put_i32(out, *arg);
        }
    }
}

fn put_concrete(out: &mut Vec<u8>, c: &Concrete) {
    put_flags(out, &c.cflags);
    put_u32(out, c.productions.len() as u32);
    for set in &c.productions {
        put_i32(out, set.fid);
        put_u32(out, set.prods.len() as u32);
        for p in &set.prods {
            put_production(out, p);
        }
    }
    put_u32(out, c.cncfuns.len() as u32);
    for f in &c.cncfuns {
        put_str(out, &f.name.0);
        put_u32(out, f.lins.len() as u32);
        for l in &f.lins {
            put_i32(out, *l);
        }
    }
    put_u32(out, c.sequences.len() as u32);
    for s in &c.sequences {
        put_u32(out, s.len() as u32);
        for x in s {
            put_symbol(out, x);
        }
    }
    put_u32(out, c.cnccats.len() as u32);
    for (name, cat) in &c.cnccats {
        put_str(out, &name.0);
        put_i32(out, cat.start);
        put_i32(out, cat.end);
    }
    put_i32(out, c.total_cats);
}

/// Writes a grammar as a file: what the decoder is expected to read back.
fn file_of(g: &Pgf) -> Vec<u8> {
    let mut out = Vec::new();
    put_u16(&mut out, 2);
    put_u16(&mut out, 1);
    put_u16(&mut out, g.absname.0.len() as u16);
    out.extend_from_slice(g.absname.0.as_bytes());
    put_flags(&mut out, &g.flags);
    put_u32(&mut out, g.abstract_syntax.funs.len() as u32);
    for (name, f) in &g.abstract_syntax.funs {
        put_str(&mut out, &name.0);
        put_type(&mut out, &f.ty);
        put_i32(&mut out, f.weight);
        put_u64(&mut out, f.prob);
    }
    put_u32(&mut out, g.concretes.len() as u32);
    for (lang, c) in &g.concretes {
        put_str(&mut out, &lang.0 .0);
        put_concrete(&mut out, c);
    }
    out
}

fn ground(cat: &str) -> Type {
    Type { hypos: vec![], category: mk_cid(cat), exprs: vec![] }
}

fn fun(cat: &str) -> Function {
    Function { ty: ground(cat), weight: 1, equations: None, prob: 1.0f64.to_bits() }
}

fn listed(names: &[&str]) -> Category {
    Category { hypos: vec![], funs: names.iter().map(|n| (0usize, mk_cid(n))).collect() }
}

/// A small grammar as the decoder produces it.
fn sample() -> Pgf {
    let dependent = Type {
        hypos: vec![Hypo { binding: Binding::Explicit("x".to_string()), ty: ground("Item") }],
        category: mk_cid("Comment"),
        exprs: vec![
            Expr::App(Box::new(Expr::Fun(mk_cid("This"))), Box::new(Expr::Int(-7))),
            Expr::Abs(
                Binding::Implicit("y".to_string()),
                mk_cid("v"),
                Box::new(Expr::Typed(Box::new(Expr::Meta), ground("Item"))),
            ),
            Expr::ImplArg(Box::new(Expr::Str("s".to_string()))),
            Expr::Float(1.5f32.to_bits()),
            Expr::Double(2.5f64.to_bits()),
        ],
    };
    let funs = vec![
        (mk_cid("Pred"), Function { ty: dependent, weight: -3, equations: None, prob: 0.25f64.to_bits() }),
        (mk_cid("This"), fun("Item")),
        (mk_cid("Is"), fun("Comment")),
    ];
    let cats = vec![
        (mk_cid("Comment"), listed(&["Pred", "Is"])),
        (mk_cid("Item"), listed(&["This"])),
    ];
    let concrete = Concrete {
        cflags: vec![
            (mk_cid("language"), Literal::Str("en_US".to_string())),
            (mk_cid("level"), Literal::Int(-2)),
            (mk_cid("scale"), Literal::Flt(0.5f64.to_bits())),
        ],
        productions: vec![
            ProductionSet {
                fid: 0,
                prods: vec![
                    Production::Apply { fid: 0, args: vec![PArg { hypos: vec![0, 1], fid: 1 }] },
                    Production::Coerce { arg: 1 },
                ],
            },
            ProductionSet { fid: 1, prods: vec![Production::Apply { fid: 1, args: vec![] }] },
        ],
        cncfuns: vec![
            CncFun { name: mk_cid("Pred"), lins: vec![0, 2] },
            CncFun { name: mk_cid("This"), lins: vec![1] },
        ],
        sequences: vec![
            vec![Symbol::SymCat(0, 1), Symbol::SymKS("is".to_string())],
            vec![Symbol::SymKS("this".to_string())],
            vec![
                Symbol::SymLit(0, 2),
                Symbol::SymVar(0, 4),
                Symbol::SymNE,
                Symbol::SymKP(
                    vec![Symbol::SymKS("a".to_string())],
                    vec![Alt {
                        symbols: vec![Symbol::SymKS("an".to_string())],
                        tokens: vec!["e".to_string(), "i".to_string()],
                    }],
                ),
            ],
        ],
        cnccats: vec![
            (mk_cid("Comment"), CncCat { start: 0, end: 1 }),
            (mk_cid("Item"), CncCat { start: 1, end: 2 }),
        ],
        total_cats: 2,
    };
    Pgf {
        absname: mk_cid("Food"),
        concretes: vec![(Language(mk_cid("FoodEng")), concrete)],
        abstract_syntax: Abstract { funs, cats },
        startcat: mk_cid("Comment"),
        flags: vec![(mk_cid("beam"), Literal::Int(3))],
    }
}

fn failure_of(data: &[u8]) -> Failure {
    match parse_pgf_binary(data) {
        Ok(_) => panic!("the buffer was decoded"),
        Err(f) => f,
    }
}

fn message_of(data: Vec<u8>) -> String {
    match parse_pgf(Bytes::from(data)) {
        Err(PgfError::DeserializeError(m)) => m,
        _ => panic!("no deserialization error"),
    }
}

/// The bytes of a file with no flags, the given functions, and no concrete
/// syntax.
fn header_and_funs(funs: &[(&str, &str)]) -> Vec<u8> {
    let mut out = Vec::new();
    put_u16(&mut out, 2);
    put_u16(&mut out, 1);
    put_u16(&mut out, 4);
    out.extend_from_slice(b"Food");
    put_u16(&mut out, 0);
    put_u32(&mut out, funs.len() as u32);
    for (name, cat) in funs {
        put_str(&mut out, name);
        put_type(&mut out, &ground(cat));
        put_i32(&mut out, 0);
        put_u64(&mut out, 0);
    }
    out
}

#[test]
fn test_invalid_pgf() {
    let invalid_data = Bytes::from(vec![0, 1, 2, 3]);
    let result = parse_pgf(invalid_data);
    assert!(matches!(result, Err(PgfError::DeserializeError(_))), "Expected deserialization error");
}

#[test]
fn invalid_bytes_name_the_version() {
    assert_eq!(
        failure_of(&[0, 1, 2, 3]),
        Failure { field: "version", cause: Cause::UnsupportedVersion(1), offset: 0 }
    );
    assert_eq!(message_of(vec![0, 1, 2, 3]), "version: unsupported version 1 at offset 0");
}

#[test]
fn error_message_has_kind_and_detail() {
    let e = parse_pgf(Bytes::from(vec![0, 1, 2, 3])).unwrap_err();
    assert_eq!(e.message(), "Deserialization error: version: unsupported version 1 at offset 0");
}

#[test]
fn empty_buffer_is_truncated() {
    assert_eq!(failure_of(&[]), Failure { field: "version", cause: Cause::Truncated, offset: 0 });
    assert_eq!(message_of(vec![]), "version: unexpected end of input at offset 0");
    assert_eq!(failure_of(&[0]), Failure { field: "version", cause: Cause::Truncated, offset: 0 });
}

#[test]
fn grammar_count_must_be_one() {
    assert_eq!(
        failure_of(&[0, 2, 0, 3]),
        Failure { field: "grammar count", cause: Cause::GrammarCount(3), offset: 2 }
    );
    assert_eq!(message_of(vec![0, 2, 0, 3]), "grammar count: expected 1 grammar, got 3 at offset 2");
    assert_eq!(
        failure_of(&[0, 2, 0]),
        Failure { field: "grammar count", cause: Cause::Truncated, offset: 2 }
    );
}

#[test]
fn sample_file_is_decoded() {
    let g = sample();
    let decoded = parse_pgf_binary(&file_of(&g)).expect("the file is valid");
    assert_eq!(decoded, g);
}

#[test]
fn decoding_the_file_of_a_decoded_grammar_gives_the_grammar() {
    let first = parse_pgf_binary(&file_of(&sample())).expect("the file is valid");
    let second = parse_pgf_binary(&file_of(&first)).expect("the file is valid");
    assert_eq!(second, first);
}

#[test]
fn buffer_and_slice_agree() {
    let bytes = file_of(&sample());
    let from_slice = parse_pgf_binary(&bytes).expect("the file is valid");
    let from_buffer = parse_pgf(Bytes::from(bytes)).expect("the file is valid");
    assert_eq!(from_buffer, from_slice);
}

#[test]
fn header_gives_name_and_first_category() {
    let data = {
        let mut d = header_and_funs(&[("This", "Item"), ("Pred", "Comment"), ("That", "Item")]);
        put_u32(&mut d, 0);
        d
    };
    let g = parse_pgf_binary(&data).expect("the file is valid");
    assert_eq!(g.absname, mk_cid("Food"));
    assert_eq!(g.startcat, mk_cid("Item"));
    assert_eq!(
        g.abstract_syntax.cats,
        vec![(mk_cid("Item"), listed(&["This", "That"])), (mk_cid("Comment"), listed(&["Pred"]))]
    );
    assert!(g.concretes.is_empty());
}

#[test]
fn startcat_flag_names_the_start_category() {
    let mut g = sample();
    g.flags = vec![(mk_cid("startcat"), Literal::Str("Item".to_string()))];
    g.startcat = mk_cid("Item");
    assert_eq!(parse_pgf_binary(&file_of(&g)).expect("the file is valid"), g);
}

#[test]
fn startcat_flag_that_is_no_text_is_passed_over() {
    let mut g = sample();
    g.flags = vec![(mk_cid("startcat"), Literal::Int(1))];
    let decoded = parse_pgf_binary(&file_of(&g)).expect("the file is valid");
    assert_eq!(decoded.startcat, mk_cid("Comment"));
}

#[test]
fn file_without_categories_has_no_start_category() {
    let mut data = header_and_funs(&[]);
    let at = data.len();
    put_u32(&mut data, 0);
    assert_eq!(
        failure_of(&data),
        Failure { field: "start category", cause: Cause::NoStartCategory, offset: at }
    );
    assert_eq!(message_of(data), "start category: no start category at offset 16");
}

#[test]
fn trailing_bytes_are_rejected() {
    let mut data = file_of(&sample());
    let at = data.len();
    data.push(0);
    assert_eq!(
        failure_of(&data),
        Failure { field: "end of file", cause: Cause::TrailingBytes, offset: at }
    );
}

#[test]
fn every_proper_prefix_of_a_file_is_rejected() {
    let data = file_of(&sample());
    for n in 0..data.len() {
        assert!(parse_pgf_binary(&data[..n]).is_err(), "a prefix of {} bytes was decoded", n);
    }
}

#[test]
fn later_entry_of_a_key_replaces_the_value_in_place() {
    let mut data = Vec::new();
    put_u16(&mut data, 2);
    put_u16(&mut data, 1);
    put_u16(&mut data, 1);
    data.push(b'A');
    put_flags(
        &mut data,
        &[
            (mk_cid("a"), Literal::Int(1)),
            (mk_cid("b"), Literal::Int(2)),
            (mk_cid("a"), Literal::Int(3)),
        ],
    );
    put_u32(&mut data, 2);
    for cat in ["C", "D"] {
        put_str(&mut data, "f");
        put_type(&mut data, &ground(cat));
        put_i32(&mut data, 0);
        put_u64(&mut data, 0);
    }
    put_u32(&mut data, 0);
    let g = parse_pgf_binary(&data).expect("the file is valid");
    assert_eq!(g.flags, vec![(mk_cid("a"), Literal::Int(3)), (mk_cid("b"), Literal::Int(2))]);
    assert_eq!(g.abstract_syntax.funs.len(), 1);
    assert_eq!(g.abstract_syntax.funs[0].1.ty, ground("D"));
    assert_eq!(g.abstract_syntax.cats, vec![(mk_cid("D"), listed(&["f"]))]);
    assert_eq!(parse_pgf_binary(&file_of(&g)).expect("the file is valid"), g);
}

#[test]
fn repeated_production_is_kept_once() {
    let mut g = sample();
    let twice = vec![
        Production::Coerce { arg: 0 },
        Production::Apply { fid: 1, args: vec![] },
        Production::Coerce { arg: 0 },
    ];
    g.concretes[0].1.productions = vec![ProductionSet { fid: 1, prods: twice }];
    let decoded = parse_pgf_binary(&file_of(&g)).expect("the file is valid");
    assert_eq!(
        decoded.concretes[0].1.productions,
        vec![ProductionSet {
            fid: 1,
            prods: vec![Production::Coerce { arg: 0 }, Production::Apply { fid: 1, args: vec![] }],
        }]
    );
}

#[test]
fn big_endian_integers() {
    assert_eq!(read_u8(&[7, 8], 1, "x"), Ok((8, 2)));
    assert_eq!(read_u16(&[2, 5, 3, 0], 0, "x"), Ok((517, 2)));
    assert_eq!(read_u16(&[2, 5, 3, 0], 2, "x"), Ok((768, 4)));
    assert_eq!(read_u32(&[0, 0x12, 0x34, 0x56, 0x78], 1, "x"), Ok((0x1234_5678, 5)));
    assert_eq!(read_i32(&[0xff, 0xff, 0xff, 0xfe], 0, "x"), Ok((-2, 4)));
    assert_eq!(read_i32(&[0x80, 0, 0, 0], 0, "x"), Ok((i32::MIN, 4)));
    assert_eq!(read_i32(&[0x7f, 0xff, 0xff, 0xff], 0, "x"), Ok((i32::MAX, 4)));
    assert_eq!(
        read_u64(&[0x40, 0x09, 0x21, 0xfb, 0x54, 0x44, 0x2d, 0x18], 0, "x"),
        Ok((std::f64::consts::PI.to_bits(), 8))
    );
}

#[test]
fn short_reads_name_field_and_offset() {
    assert_eq!(
        read_u8(&[1], 1, "tag"),
        Err(Failure { field: "tag", cause: Cause::Truncated, offset: 1 })
    );
    assert_eq!(
        read_u16(&[1], 0, "count"),
        Err(Failure { field: "count", cause: Cause::Truncated, offset: 0 })
    );
    assert_eq!(
        read_u32(&[1, 2, 3], 0, "count"),
        Err(Failure { field: "count", cause: Cause::Truncated, offset: 0 })
    );
    assert_eq!(
        read_i32(&[1, 2, 3, 4], 1, "fid"),
        Err(Failure { field: "fid", cause: Cause::Truncated, offset: 1 })
    );
    assert_eq!(
        read_u64(&[0; 7], 0, "bits"),
        Err(Failure { field: "bits", cause: Cause::Truncated, offset: 0 })
    );
    assert_eq!(
        read_u16(&[1, 2], 9, "count"),
        Err(Failure { field: "count", cause: Cause::Truncated, offset: 9 })
    );
}

#[test]
fn strings_with_both_length_widths() {
    assert_eq!(read_string(&[3, b'a', b'b', b'c', 9], 0, "name"), Ok((mk_cid("abc"), 4)));
    assert_eq!(read_string(&[0], 0, "name"), Ok((mk_cid(""), 1)));
    assert_eq!(read_string_16(&[0, 2, 0xc3, 0xa9], 0, "name"), Ok((mk_cid("é"), 4)));
    assert_eq!(
        read_string(&[3, b'a', b'b'], 0, "name"),
        Err(Failure { field: "name", cause: Cause::Truncated, offset: 1 })
    );
    assert_eq!(
        read_string(&[2, 0xff, 0xfe], 0, "name"),
        Err(Failure { field: "name", cause: Cause::InvalidUtf8, offset: 1 })
    );
    assert_eq!(
        read_string(&[1, 0xc3], 0, "name"),
        Err(Failure { field: "name", cause: Cause::InvalidUtf8, offset: 1 })
    );
}

#[test]
fn invalid_utf8_in_a_file_is_reported() {
    let mut data = Vec::new();
    put_u16(&mut data, 2);
    put_u16(&mut data, 1);
    put_u16(&mut data, 2);
    data.extend_from_slice(&[0xc0, 0x80]);
    assert_eq!(
        failure_of(&data),
        Failure { field: "abstract name", cause: Cause::InvalidUtf8, offset: 6 }
    );
    assert_eq!(message_of(data), "abstract name: invalid UTF-8 at offset 6");
}

#[test]
fn literal_tags() {
    assert_eq!(read_literal(&[0, 1, b'x'], 0), Ok((Literal::Str("x".to_string()), 3)));
    assert_eq!(read_literal(&[1, 0, 0, 0, 9], 0), Ok((Literal::Int(9), 5)));
    assert_eq!(read_literal(&[2, 0, 0, 0, 0, 0, 0, 0, 1], 0), Ok((Literal::Flt(1), 9)));
    assert_eq!(
        read_literal(&[3], 0),
        Err(Failure { field: "literal tag", cause: Cause::UnknownTag(3), offset: 0 })
    );
}

#[test]
fn binding_tags() {
    assert_eq!(read_binding(&[0, 1, b'x'], 0), Ok((Binding::Explicit("x".to_string()), 3)));
    assert_eq!(read_binding(&[1, 1, b'y'], 0), Ok((Binding::Implicit("y".to_string()), 3)));
    assert_eq!(
        read_binding(&[2, 1, b'y'], 0),
        Err(Failure { field: "binding tag", cause: Cause::UnknownTag(2), offset: 0 })
    );
}

#[test]
fn expression_tags() {
    for e in [
        Expr::Abs(Binding::Explicit("x".to_string()), mk_cid("v"), Box::new(Expr::Meta)),
        Expr::App(Box::new(Expr::Fun(mk_cid("f"))), Box::new(Expr::Meta)),
        Expr::Fun(mk_cid("f")),
        Expr::Str("text".to_string()),
        Expr::Int(-1),
        Expr::Float(0x3fc0_0000),
        Expr::Double(0x4004_0000_0000_0000),
        Expr::Meta,
        Expr::Typed(Box::new(Expr::Meta), ground("C")),
        Expr::ImplArg(Box::new(Expr::Meta)),
    ] {
        let mut data = Vec::new();
        put_expr(&mut data, &e);
        let n = data.len();
        assert_eq!(read_expr(&data, 0, MAX_DEPTH), Ok((e, n)));
    }
    assert_eq!(
        read_expr(&[10], 0, MAX_DEPTH),
        Err(Failure { field: "expression tag", cause: Cause::UnknownTag(10), offset: 0 })
    );
}

#[test]
fn hypothesis_is_binding_and_type() {
    let h = Hypo { binding: Binding::Implicit("x".to_string()), ty: ground("C") };
    let mut data = Vec::new();
    put_binding(&mut data, &h.binding);
    put_type(&mut data, &h.ty);
    let n = data.len();
    assert_eq!(read_hypo(&data, 0, MAX_DEPTH), Ok((h, n)));
    assert_eq!(read_type(&data, 3, MAX_DEPTH), Ok((ground("C"), n)));
}

#[test]
fn symbol_tags() {
    assert_eq!(
        read_symbol(&[6], 0, MAX_DEPTH),
        Err(Failure { field: "symbol tag", cause: Cause::UnknownTag(6), offset: 0 })
    );
    assert_eq!(read_symbol(&[5], 0, MAX_DEPTH), Ok((Symbol::SymNE, 1)));
    assert_eq!(
        read_symbol(&[0, 0, 0, 0, 1, 0, 0, 0, 2], 0, MAX_DEPTH),
        Ok((Symbol::SymCat(1, 2), 9))
    );
    let alt = Alt { symbols: vec![Symbol::SymNE], tokens: vec!["t".to_string()] };
    let data = [0, 0, 0, 1, 5, 0, 0, 0, 1, 1, b't'];
    assert_eq!(read_alt(&data, 0, MAX_DEPTH), Ok((alt, data.len())));
}

#[test]
fn production_tags() {
    assert_eq!(read_production(&[1, 0, 0, 0, 4], 0), Ok((Production::Coerce { arg: 4 }, 5)));
    assert_eq!(
        read_production(&[2], 0),
        Err(Failure { field: "production tag", cause: Cause::UnknownTag(2), offset: 0 })
    );
    assert_eq!(
        read_production(&[0, 0, 0, 0, 4, 0, 0, 0, 1], 0),
        Err(Failure { field: "hypothesis count", cause: Cause::Truncated, offset: 9 })
    );
}

#[test]
fn nesting_is_limited() {
    let mut deep = Expr::Meta;
    for _ in 0..MAX_DEPTH - 1 {
        deep = Expr::ImplArg(Box::new(deep));
    }
    let mut data = Vec::new();
    put_expr(&mut data, &deep);
    let n = data.len();
    assert_eq!(read_expr(&data, 0, MAX_DEPTH), Ok((deep, n)));
    let mut too_deep = vec![9u8];
    too_deep.extend_from_slice(&data);
    assert_eq!(
        read_expr(&too_deep, 0, MAX_DEPTH),
        Err(Failure { field: "expression", cause: Cause::TooDeep, offset: MAX_DEPTH })
    );
    assert_eq!(
        read_symbol(&[5], 0, 0),
        Err(Failure { field: "symbol", cause: Cause::TooDeep, offset: 0 })
    );
}

fn violation_of(g: &Pgf) -> Failure {
    failure_of(&file_of(g))
}

fn grammar_failure(g: &Pgf, cause: Cause) -> Failure {
    Failure { field: "grammar", cause, offset: file_of(g).len() }
}

#[test]
fn concrete_function_must_be_in_the_abstract_syntax() {
    let mut g = sample();
    g.concretes[0].1.cncfuns.push(CncFun { name: mk_cid("That"), lins: vec![] });
    assert_eq!(violation_of(&g), grammar_failure(&g, Cause::UnknownFunction));
    let at = file_of(&g).len();
    assert_eq!(
        message_of(file_of(&g)),
        format!("grammar: function not in the abstract syntax at offset {}", at)
    );
}

#[test]
fn field_must_be_a_sequence_of_the_language() {
    for lin in [3, -1, i32::MAX, i32::MIN] {
        let mut g = sample();
        g.concretes[0].1.cncfuns[1].lins = vec![1, lin];
        assert_eq!(violation_of(&g), grammar_failure(&g, Cause::SequenceOutOfRange));
    }
    let mut g = sample();
    g.concretes[0].1.cncfuns[1].lins = vec![2, 1, 0];
    // `This` has no argument, and sequence 0 names one.
    assert_eq!(violation_of(&g), grammar_failure(&g, Cause::ArgumentOutOfArity));
}

#[test]
fn symbols_must_name_arguments_of_the_function() {
    for sym in [
        Symbol::SymCat(1, 0),
        Symbol::SymLit(1, 0),
        Symbol::SymVar(-1, 0),
        Symbol::SymKP(vec![Symbol::SymCat(1, 0)], vec![]),
        Symbol::SymKP(vec![], vec![Alt { symbols: vec![Symbol::SymVar(2, 0)], tokens: vec![] }]),
        Symbol::SymKP(
            vec![],
            vec![Alt {
                symbols: vec![Symbol::SymKP(vec![Symbol::SymNE, Symbol::SymLit(1, 1)], vec![])],
                tokens: vec![],
            }],
        ),
    ] {
        let mut g = sample();
        g.concretes[0].1.sequences[0].push(sym);
        assert_eq!(violation_of(&g), grammar_failure(&g, Cause::ArgumentOutOfArity));
    }
    // A sequence that no function has as a field may name any argument.
    let mut g = sample();
    g.concretes[0].1.sequences.push(vec![Symbol::SymCat(9, 9)]);
    assert_eq!(parse_pgf_binary(&file_of(&g)).expect("the file is valid"), g);
}

#[test]
fn fids_must_lie_within_the_fids_of_the_language() {
    let outside: Vec<Box<dyn Fn(&mut Concrete)>> = vec![
        Box::new(|c| c.cnccats[1].1 = CncCat { start: 1, end: 3 }),
        Box::new(|c| c.cnccats[0].1 = CncCat { start: -1, end: 1 }),
        Box::new(|c| c.cnccats[0].1 = CncCat { start: 2, end: 1 }),
        Box::new(|c| c.productions[1].fid = 2),
        Box::new(|c| c.productions[1].fid = -1),
        Box::new(|c| c.productions[0].prods[1] = Production::Coerce { arg: 2 }),
        Box::new(|c| {
            c.productions[1].prods[0] =
                Production::Apply { fid: 1, args: vec![PArg { hypos: vec![], fid: 2 }] }
        }),
        Box::new(|c| {
            c.productions[1].prods[0] =
                Production::Apply { fid: 1, args: vec![PArg { hypos: vec![0, 2], fid: 0 }] }
        }),
        Box::new(|c| c.total_cats = 1),
    ];
    for change in outside {
        let mut g = sample();
        change(&mut g.concretes[0].1);
        assert_eq!(violation_of(&g), grammar_failure(&g, Cause::FidOutOfRange));
    }
    // The number of a function in an application is no fid.
    let mut g = sample();
    g.concretes[0].1.productions[1].prods[0] = Production::Apply { fid: 77, args: vec![] };
    assert_eq!(parse_pgf_binary(&file_of(&g)).expect("the file is valid"), g);
}

fn with_coercions(edges: &[(i32, i32)], total: i32) -> Pgf {
    let mut g = sample();
    let mut sets: Vec<ProductionSet> = Vec::new();
    for (from, to) in edges {
        match sets.iter_mut().find(|s| s.fid == *from) {
            Some(s) => s.prods.push(Production::Coerce { arg: *to }),
            None => sets.push(ProductionSet { fid: *from, prods: vec![Production::Coerce { arg: *to }] }),
        }
    }
    g.concretes[0].1.productions = sets;
    g.concretes[0].1.total_cats = total;
    g
}

#[test]
fn coercions_must_not_go_in_a_circle() {
    for edges in [
        vec![(0, 0)],
        vec![(0, 1), (1, 0)],
        vec![(3, 2), (2, 1), (1, 3)],
        vec![(0, 1), (1, 2), (2, 3), (3, 4), (4, 2)],
        vec![(5, 0), (1, 2), (2, 1)],
    ] {
        let g = with_coercions(&edges, 6);
        assert_eq!(violation_of(&g), grammar_failure(&g, Cause::CoercionCycle));
    }
    assert_eq!(
        message_of(file_of(&with_coercions(&[(0, 0)], 6))),
        format!("grammar: coercions in a circle at offset {}", file_of(&with_coercions(&[(0, 0)], 6)).len())
    );
}

#[test]
fn coercions_without_a_circle_are_accepted() {
    for edges in [
        vec![],
        vec![(1, 0)],
        vec![(0, 1), (1, 2), (2, 3), (3, 4), (4, 5)],
        vec![(5, 4), (4, 3), (3, 2), (2, 1), (1, 0)],
        vec![(0, 1), (0, 2), (1, 3), (2, 3), (3, 4), (0, 4)],
        vec![(2, 5), (0, 2), (1, 2), (0, 1)],
    ] {
        let g = with_coercions(&edges, 6);
        assert_eq!(parse_pgf_binary(&file_of(&g)).expect("the file is valid"), g);
    }
}

#[test]
fn first_thing_wrong_in_the_first_language_is_reported() {
    let mut g = sample();
    let mut second = sample().concretes.remove(0).1;
    second.total_cats = 0;
    g.concretes.push((Language(mk_cid("FoodSwe")), second));
    assert_eq!(violation_of(&g), grammar_failure(&g, Cause::FidOutOfRange));
    g.concretes[0].1.cncfuns[0].lins = vec![8];
    assert_eq!(violation_of(&g), grammar_failure(&g, Cause::SequenceOutOfRange));
    g.concretes[0].1.cncfuns[0].name = mk_cid("Nobody");
    assert_eq!(violation_of(&g), grammar_failure(&g, Cause::UnknownFunction));
}
