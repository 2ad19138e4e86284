use pgf2json::bracketed::expr_to_bracketed;
use pgf2json::chart::build_tree;
use pgf2json::cid::mk_cid;
use pgf2json::language::read_language;
use pgf2json::parse::{
    get_parse_output, init_state, next_state, tokenize, ParseInput, ParseOutput,
};
use pgf2json::types::start_cat;
use pgf2json::{
    parse, Abstract, BracketedString, Category, CncCat, CncFun, Concrete, Expr, Function,
    Language, PArg, Pgf, PgfError, Production, ProductionSet, Symbol, Type,
};

fn ground_type(cat: &str) -> Type {
    Type { hypos: vec![], category: mk_cid(cat), exprs: vec![] }
}

fn plain_fun(cat: &str) -> Function {
    Function { ty: ground_type(cat), weight: 1, equations: None, prob: 1.0f64.to_bits() }
}

fn ks(t: &str) -> Symbol {
    Symbol::SymKS(t.to_string())
}

fn create_test_pgf() -> Pgf {
    let funs = vec![(mk_cid("Pred"), plain_fun("Comment")), (mk_cid("This"), plain_fun("Item"))];
    let cats = vec![
        (mk_cid("Comment"), Category { hypos: vec![], funs: vec![] }),
        (mk_cid("Item"), Category { hypos: vec![], funs: vec![] }),
    ];
    let concrete = Concrete {
        cflags: vec![],
        productions: vec![],
        cncfuns: vec![
            CncFun { name: mk_cid("Pred"), lins: vec![0] },
            CncFun { name: mk_cid("This"), lins: vec![1] },
        ],
        sequences: vec![vec![ks("is")], vec![ks("this")]],
        cnccats: vec![
            (mk_cid("Comment"), CncCat { start: 0, end: 1 }),
            (mk_cid("Item"), CncCat { start: 1, end: 2 }),
        ],
        total_cats: 2,
    };
    Pgf {
        absname: mk_cid("Food"),
        concretes: vec![(Language(mk_cid("FoodEng")), concrete)],
        abstract_syntax: Abstract { funs, cats },
        startcat: mk_cid("Comment"),
        flags: vec![],
    }
}

/// A grammar with productions: sentences are `this is good` and the like.
///
/// Functions: 0 `Pred` (item, "is", quality), 1 `This` ("this"), 2 `Good`
/// ("good"), 3 `Hm` (no symbol), 4 `Pause` (gap). Fids: 0 the sentence, 1
/// the item, 2 the quality, 3 a synonym of the item.
fn create_sentence_pgf() -> Pgf {
    let names = ["Pred", "This", "Good", "Hm", "Pause"];
    let concrete = Concrete {
        cflags: vec![],
        productions: vec![
            ProductionSet {
                fid: 0,
                prods: vec![
                    Production::Apply {
                        fid: 0,
                        args: vec![
                            PArg { hypos: vec![], fid: 1 },
                            PArg { hypos: vec![], fid: 2 },
                        ],
                    },
                    Production::Apply { fid: 3, args: vec![] },
                    Production::Apply { fid: 4, args: vec![] },
                    Production::Apply { fid: 9, args: vec![] },
                ],
            },
            ProductionSet { fid: 1, prods: vec![Production::Apply { fid: 1, args: vec![] }] },
            ProductionSet { fid: 2, prods: vec![Production::Apply { fid: 2, args: vec![] }] },
            ProductionSet { fid: 3, prods: vec![Production::Coerce { arg: 0 }] },
        ],
        cncfuns: vec![
            CncFun { name: mk_cid("Pred"), lins: vec![0] },
            CncFun { name: mk_cid("This"), lins: vec![1] },
            CncFun { name: mk_cid("Good"), lins: vec![2] },
            CncFun { name: mk_cid("Hm"), lins: vec![3] },
            CncFun { name: mk_cid("Pause"), lins: vec![4] },
        ],
        sequences: vec![
            vec![Symbol::SymCat(0, 1), ks("is"), Symbol::SymCat(1, 2)],
            vec![ks("this")],
            vec![ks("good")],
            vec![],
            vec![Symbol::SymNE],
        ],
        cnccats: vec![
            (mk_cid("S"), CncCat { start: 0, end: 0 }),
            (mk_cid("Item"), CncCat { start: 1, end: 1 }),
            (mk_cid("Quality"), CncCat { start: 2, end: 2 }),
        ],
        total_cats: 4,
    };
    Pgf {
        absname: mk_cid("Talk"),
        concretes: vec![(Language(mk_cid("TalkEng")), concrete)],
        abstract_syntax: Abstract {
            funs: names.iter().map(|n| (mk_cid(n), plain_fun("S"))).collect(),
            cats: vec![(mk_cid("S"), Category { hypos: vec![], funs: vec![] })],
        },
        startcat: mk_cid("S"),
        flags: vec![],
    }
}

fn named(f: &str) -> Expr {
    Expr::Fun(mk_cid(f))
}

fn token(t: &str) -> ParseInput {
    ParseInput { token: t.to_string() }
}

#[test]
fn test_synthetic_parse_sentence() {
    let pgf = create_test_pgf();
    let lang = read_language("FoodEng").expect("Invalid language");
    let typ = start_cat(&pgf);

    let state = init_state(&pgf, &lang, &typ).expect("Failed to initialize parse state");

    let (output, bracketed) = get_parse_output(&state, &typ, Some(4));
    match output {
        ParseOutput::ParseOk(_trees) => {
            println!("Parse succeeded");
        }
        ParseOutput::ParseFail => {
            println!("Parse failed as expected for empty input");
        }
    }

    match &bracketed {
        BracketedString::Branch(_cid, _children) => {
            println!("Got branch bracketed string");
        }
        BracketedString::Leaf(_s) => {
            println!("Got leaf bracketed string");
        }
    }
}

#[test]
fn test_unknown_language() {
    let pgf = create_test_pgf();
    let lang = read_language("NonExistentLang").expect("Invalid language");
    let typ = start_cat(&pgf);
    let result = init_state(&pgf, &lang, &typ);
    assert!(result.is_err(), "Expected unknown language error");
}

#[test]
fn test_invalid_category() {
    let pgf = create_test_pgf();
    let lang = read_language("FoodEng").expect("Invalid language");
    let typ = Type { hypos: vec![], category: mk_cid("NonExistentCat"), exprs: vec![] };
    let result = init_state(&pgf, &lang, &typ);
    assert!(result.is_err(), "Expected category not found error");
}

#[test]
fn unknown_language_is_named_in_the_error() {
    let pgf = create_test_pgf();
    let lang = read_language("NonExistentLang").unwrap();
    let typ = start_cat(&pgf);
    match init_state(&pgf, &lang, &typ) {
        Err(e) => {
            assert_eq!(e, PgfError::UnknownLanguage("NonExistentLang".to_string()));
            assert_eq!(e.message(), "Unknown language: NonExistentLang");
        }
        Ok(_) => panic!("a state was made"),
    }
}

#[test]
fn unknown_category_is_named_in_the_error() {
    let pgf = create_test_pgf();
    let lang = read_language("FoodEng").unwrap();
    let typ = ground_type("NonExistentCat");
    match init_state(&pgf, &lang, &typ) {
        Err(e) => {
            assert_eq!(e, PgfError::ParseError("Category not found: NonExistentCat".to_string()));
            assert_eq!(e.message(), "Parsing error: Category not found: NonExistentCat");
        }
        Ok(_) => panic!("a state was made"),
    }
}

#[test]
fn unknown_language_comes_before_unknown_category() {
    let pgf = create_test_pgf();
    let lang = read_language("Nowhere").unwrap();
    let typ = ground_type("NonExistentCat");
    assert_eq!(
        init_state(&pgf, &lang, &typ).err(),
        Some(PgfError::UnknownLanguage("Nowhere".to_string()))
    );
}

#[test]
fn fresh_state_without_productions_is_empty() {
    let pgf = create_test_pgf();
    let lang = read_language("FoodEng").unwrap();
    let typ = start_cat(&pgf);
    let state = init_state(&pgf, &lang, &typ).unwrap();
    assert!(state.active_items.is_empty());
    assert!(state.passive_items.is_empty());
    assert!(state.tokens.is_empty());
    assert_eq!(state.current_pos, 0);
    let (output, bracketed) = get_parse_output(&state, &typ, Some(4));
    assert_eq!(output, ParseOutput::ParseFail);
    assert_eq!(bracketed, BracketedString::Leaf(String::new()));
}

#[test]
fn fresh_state_has_an_item_for_each_application() {
    let pgf = create_sentence_pgf();
    let lang = read_language("TalkEng").unwrap();
    let typ = start_cat(&pgf);
    let state = init_state(&pgf, &lang, &typ).unwrap();
    assert_eq!(state.active_items.len(), 1);
    let row = &state.active_items[0];
    assert_eq!(row.fid, 0);
    let seeds: Vec<(i32, i32, usize)> = row.items.iter().map(|i| (i.fid, i.seqid, i.dot)).collect();
    assert_eq!(seeds, vec![(0, 0, 0), (3, 3, 0), (4, 4, 0), (9, 0, 0)]);
    assert!(row.items.iter().all(|i| i.args.is_empty() && i.tree.is_none()));
}

#[test]
fn a_step_adds_the_token_and_moves_the_position() {
    let pgf = create_sentence_pgf();
    let lang = read_language("TalkEng").unwrap();
    let typ = ground_type("Item");
    let mut state = init_state(&pgf, &lang, &typ).unwrap();
    assert_eq!(next_state(&mut state, token("this")), Ok(()));
    assert_eq!(state.tokens, vec!["this".to_string()]);
    assert_eq!(state.current_pos, 1);
    assert_eq!(state.active_items.len(), 1);
    assert_eq!(state.active_items[0].fid, 1);
    assert_eq!(state.active_items[0].items.len(), 1);
    assert_eq!(state.active_items[0].items[0].dot, 1);
    assert!(state.passive_items.is_empty());
    assert_eq!(get_parse_output(&state, &typ, None).0, ParseOutput::ParseFail);
}

#[test]
fn an_item_at_its_end_becomes_passive_at_the_next_token() {
    let pgf = create_sentence_pgf();
    let lang = read_language("TalkEng").unwrap();
    let typ = ground_type("Item");
    let mut state = init_state(&pgf, &lang, &typ).unwrap();
    next_state(&mut state, token("this")).unwrap();
    next_state(&mut state, token("is")).unwrap();
    assert!(state.active_items.is_empty());
    assert_eq!(state.passive_items.len(), 1);
    assert_eq!(state.passive_items[0].fid, 1);
    assert_eq!(state.passive_items[0].items[0].tree, Some(named("This")));
    let (output, bracketed) = get_parse_output(&state, &typ, Some(4));
    assert_eq!(output, ParseOutput::ParseOk(vec![named("This")]));
    assert_eq!(
        bracketed,
        BracketedString::Branch(mk_cid("Item"), vec![BracketedString::Leaf("This".to_string())])
    );
}

#[test]
fn a_token_that_does_not_match_drops_the_item() {
    let pgf = create_sentence_pgf();
    let lang = read_language("TalkEng").unwrap();
    let typ = ground_type("Item");
    let mut state = init_state(&pgf, &lang, &typ).unwrap();
    next_state(&mut state, token("that")).unwrap();
    assert!(state.active_items.is_empty());
    assert!(state.passive_items.is_empty());
    assert_eq!(state.tokens, vec!["that".to_string()]);
}

#[test]
fn items_without_symbols_and_coercions() {
    let pgf = create_sentence_pgf();
    let lang = read_language("TalkEng").unwrap();
    let typ = start_cat(&pgf);
    let mut state = init_state(&pgf, &lang, &typ).unwrap();
    next_state(&mut state, token("x")).unwrap();
    // `Hm` has no symbol and is passive at once; `Pred` waits for an item,
    // `Pause` stands before a gap, and function 9 does not exist: all three
    // are gone. The synonym 3 of the sentence starts with the tree of `Hm`.
    assert_eq!(state.passive_items.len(), 1);
    assert_eq!(state.passive_items[0].fid, 0);
    assert_eq!(state.passive_items[0].items.len(), 1);
    assert_eq!(state.passive_items[0].items[0].tree, Some(named("Hm")));
    assert_eq!(state.active_items.len(), 1);
    assert_eq!(state.active_items[0].fid, 3);
    let coerced = &state.active_items[0].items[0];
    assert_eq!((coerced.fid, coerced.seqid, coerced.dot), (3, 0, 0));
    assert_eq!(coerced.args, vec![(0, named("Hm"))]);
    assert_eq!(coerced.tree, None);
    assert_eq!(get_parse_output(&state, &typ, Some(4)).0, ParseOutput::ParseOk(vec![named("Hm")]));

    next_state(&mut state, token("y")).unwrap();
    // The coerced item stands before the argument 1 of sequence 0, for which
    // nothing is passive; the passive item of `Hm` brings the synonym again.
    assert_eq!(state.passive_items[0].items.len(), 1);
    assert_eq!(state.active_items.len(), 1);
    assert_eq!(state.active_items[0].items.len(), 1);
}

#[test]
fn an_argument_is_taken_from_the_passive_items() {
    let pgf = create_sentence_pgf();
    let lang = read_language("TalkEng").unwrap();
    let sentence = start_cat(&pgf);
    let item = ground_type("Item");
    // Find the item first, then hand its passive items to a sentence state.
    let mut first = init_state(&pgf, &lang, &item).unwrap();
    next_state(&mut first, token("this")).unwrap();
    next_state(&mut first, token("is")).unwrap();
    let mut state = init_state(&pgf, &lang, &sentence).unwrap();
    state.passive_items = first.passive_items;
    next_state(&mut state, token("is")).unwrap();
    let moved: Vec<_> = state.active_items[0].items.iter().filter(|i| i.fid == 0).collect();
    assert_eq!(moved.len(), 1);
    assert_eq!(moved[0].dot, 1);
    assert_eq!(moved[0].args, vec![(1, named("This"))]);
}

#[test]
fn equal_trees_are_given_once() {
    let pgf = create_sentence_pgf();
    let lang = read_language("TalkEng").unwrap();
    let typ = start_cat(&pgf);
    let mut state = init_state(&pgf, &lang, &typ).unwrap();
    next_state(&mut state, token("x")).unwrap();
    // Seed the state with the item of `Hm` once more.
    let again = init_state(&pgf, &lang, &typ).unwrap();
    state.active_items = again.active_items;
    next_state(&mut state, token("y")).unwrap();
    assert_eq!(state.passive_items[0].items.len(), 2);
    assert_eq!(get_parse_output(&state, &typ, Some(4)).0, ParseOutput::ParseOk(vec![named("Hm")]));
}

#[test]
fn output_for_a_type_without_category_uses_fid_zero() {
    let pgf = create_sentence_pgf();
    let lang = read_language("TalkEng").unwrap();
    let typ = start_cat(&pgf);
    let mut state = init_state(&pgf, &lang, &typ).unwrap();
    next_state(&mut state, token("x")).unwrap();
    let other = ground_type("Nothing");
    let (output, bracketed) = get_parse_output(&state, &other, Some(1));
    assert_eq!(output, ParseOutput::ParseOk(vec![named("Hm")]));
    assert_eq!(
        bracketed,
        BracketedString::Branch(mk_cid("Nothing"), vec![BracketedString::Leaf("Hm".to_string())])
    );
}

#[test]
fn tokens_are_split_on_ascii_whitespace() {
    assert_eq!(tokenize(""), Vec::<String>::new());
    assert_eq!(tokenize(" \t\n\r\x0c"), Vec::<String>::new());
    assert_eq!(tokenize("this"), vec!["this"]);
    assert_eq!(tokenize("  this is\tgood\n"), vec!["this", "is", "good"]);
    assert_eq!(tokenize("a\u{a0}b c"), vec!["a\u{a0}b", "c"]);
    assert_eq!(tokenize("é  ü"), vec!["é", "ü"]);
}

#[test]
fn parse_reports_the_errors_of_the_state() {
    let pgf = create_test_pgf();
    let typ = start_cat(&pgf);
    assert_eq!(
        parse(&pgf, &read_language("NonExistentLang").unwrap(), &typ, "is"),
        Err(PgfError::UnknownLanguage("NonExistentLang".to_string()))
    );
    assert_eq!(
        parse(&pgf, &read_language("FoodEng").unwrap(), &ground_type("NonExistentCat"), "is"),
        Err(PgfError::ParseError("Category not found: NonExistentCat".to_string()))
    );
}

#[test]
fn parse_without_a_tree_fails() {
    let pgf = create_test_pgf();
    let lang = read_language("FoodEng").unwrap();
    let typ = start_cat(&pgf);
    assert_eq!(
        parse(&pgf, &lang, &typ, "is"),
        Err(PgfError::ParseError("Parsing failed".to_string()))
    );
    assert_eq!(parse(&pgf, &lang, &typ, ""), Err(PgfError::ParseError("Parsing failed".to_string())));
}

#[test]
fn parse_finds_what_is_passive_after_the_last_token() {
    let pgf = create_sentence_pgf();
    let lang = read_language("TalkEng").unwrap();
    let item = ground_type("Item");
    // The item of `This` is at its end after `this`, and passive only after
    // one more token.
    assert_eq!(
        parse(&pgf, &lang, &item, "this"),
        Err(PgfError::ParseError("Parsing failed".to_string()))
    );
    assert_eq!(parse(&pgf, &lang, &item, "this is"), Ok(vec![named("This")]));
    assert_eq!(parse(&pgf, &lang, &start_cat(&pgf), " x "), Ok(vec![named("Hm")]));
}

#[test]
fn build_tree_applies_the_function_to_the_arguments_in_order() {
    let f = CncFun { name: mk_cid("Pred"), lins: vec![0] };
    assert_eq!(build_tree(&f, &vec![]), named("Pred"));
    assert_eq!(
        build_tree(&f, &vec![(1, named("This")), (2, named("Good"))]),
        Expr::App(
            Box::new(Expr::App(Box::new(named("Pred")), Box::new(named("This")))),
            Box::new(named("Good")),
        )
    );
}

#[test]
fn bracketed_strings_are_cut_at_the_limit() {
    let tree = Expr::App(
        Box::new(Expr::App(Box::new(named("Pred")), Box::new(named("This")))),
        Box::new(Expr::Meta),
    );
    let star = || mk_cid("*");
    let leaf = |s: &str| BracketedString::Leaf(s.to_string());
    assert_eq!(
        expr_to_bracketed(&tree, 3),
        BracketedString::Branch(
            star(),
            vec![BracketedString::Branch(star(), vec![leaf("Pred"), leaf("This")]), leaf("")],
        )
    );
    assert_eq!(
        expr_to_bracketed(&tree, 2),
        BracketedString::Branch(
            star(),
            vec![BracketedString::Branch(star(), vec![leaf(""), leaf("")]), leaf("")],
        )
    );
    assert_eq!(expr_to_bracketed(&tree, 1), BracketedString::Branch(star(), vec![leaf(""), leaf("")]));
    assert_eq!(expr_to_bracketed(&tree, 0), leaf(""));
    assert_eq!(expr_to_bracketed(&tree, -1), leaf(""));
    assert_eq!(expr_to_bracketed(&named("This"), 1), leaf("This"));
    assert_eq!(expr_to_bracketed(&Expr::Int(3), 5), leaf(""));
}

/// Two concrete functions of the name `Greet`: the first says `hello
/// world`, the second, which the goal applies, says `hello` only.
fn create_greeting_pgf(second: Vec<Symbol>) -> Pgf {
    let concrete = Concrete {
        cflags: vec![],
        productions: vec![ProductionSet {
            fid: 0,
            prods: vec![Production::Apply { fid: 1, args: vec![] }],
        }],
        cncfuns: vec![
            CncFun { name: mk_cid("Greet"), lins: vec![0] },
            CncFun { name: mk_cid("Greet"), lins: vec![1] },
        ],
        sequences: vec![vec![ks("hello"), ks("world")], second],
        cnccats: vec![(mk_cid("S"), CncCat { start: 0, end: 1 })],
        total_cats: 1,
    };
    Pgf {
        absname: mk_cid("Hello"),
        concretes: vec![(Language(mk_cid("HelloEng")), concrete)],
        abstract_syntax: Abstract {
            funs: vec![(mk_cid("Greet"), plain_fun("S"))],
            cats: vec![(mk_cid("S"), Category { hypos: vec![], funs: vec![(0, mk_cid("Greet"))] })],
        },
        startcat: mk_cid("S"),
        flags: vec![],
    }
}

#[test]
fn a_function_is_found_in_its_text_where_a_token_follows_a_reading() {
    let lang = read_language("HelloEng").unwrap();
    for reading in [vec![ks("hello")], vec![]] {
        let pgf = create_greeting_pgf(reading);
        let text = pgf2json::linearize(&pgf, &lang, &named("Greet")).unwrap();
        assert_eq!(text, "hello world");
        let trees = parse(&pgf, &lang, &start_cat(&pgf), &text).unwrap();
        assert!(trees.contains(&named("Greet")));
    }
}

#[test]
fn a_function_is_not_found_in_its_text_where_no_token_follows() {
    let lang = read_language("HelloEng").unwrap();
    for reading in [
        vec![ks("hello"), ks("world")],
        vec![ks("world")],
        vec![ks("hello"), Symbol::SymNE],
        vec![ks("hello"), ks("world"), ks("again")],
    ] {
        let pgf = create_greeting_pgf(reading);
        let text = pgf2json::linearize(&pgf, &lang, &named("Greet")).unwrap();
        assert_eq!(
            parse(&pgf, &lang, &start_cat(&pgf), &text),
            Err(PgfError::ParseError("Parsing failed".to_string()))
        );
    }
}
