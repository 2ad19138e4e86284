use pgf2json::cid::{mk_cid, read_cid, show_cid, wild_cid};
use pgf2json::language::{
    abstract_name, language_code, languages, read_language, show_language,
};
use pgf2json::types::{mk_hypo, mk_type, start_cat};
use pgf2json::equal::{
    copy_binding, copy_expr, copy_hypo, copy_type, has_expr, has_production, same_binding,
    same_expr, same_hypo, same_i32s, same_parg, same_production, same_type,
};
use pgf2json::table::{find_cid, find_language, find_productions, insert_cid};
use pgf2json::valid::{check_fids, check_lins, check_names, check_slots, check_symbol};
use pgf2json::{PArg, Production, ProductionSet};
use pgf2json::{
    categories, category_context, check_expr, function_type, functions, functions_by_cat,
    linearize, Abstract, Alt, Binding, Category, CncCat, CncFun, Concrete, Expr, Function, Hypo,
    Language, Literal, Pgf, PgfError, Symbol, Type,
};

fn ground_of(cat: &str) -> Type {
    Type { hypos: vec![], category: mk_cid(cat), exprs: vec![] }
}

fn fun_of(ty: Type) -> Function {
    Function { ty, weight: 1, equations: None, prob: 1.0f64.to_bits() }
}

fn token_of(t: &str) -> Symbol {
    Symbol::SymKS(t.to_string())
}

fn hypo_of(cat: &str) -> Hypo {
    Hypo { binding: Binding::Explicit("_".to_string()), ty: ground_of(cat) }
}

fn english(flags: Vec<(pgf2json::CId, Literal)>) -> Concrete {
    Concrete {
        cflags: flags,
        productions: vec![],
        cncfuns: vec![
            CncFun { name: mk_cid("Pred"), lins: vec![0] },
            CncFun { name: mk_cid("This"), lins: vec![1] },
            CncFun { name: mk_cid("Very"), lins: vec![2, 0] },
            CncFun { name: mk_cid("This"), lins: vec![0] },
            CncFun { name: mk_cid("Silent"), lins: vec![] },
            CncFun { name: mk_cid("Lost"), lins: vec![7] },
            CncFun { name: mk_cid("Back"), lins: vec![-1] },
        ],
        sequences: vec![
            vec![token_of("is")],
            vec![token_of("this")],
            vec![
                Symbol::SymCat(0, 0),
                token_of("very"),
                Symbol::SymNE,
                token_of("very"),
                Symbol::SymKP(vec![token_of("a")], vec![Alt { symbols: vec![], tokens: vec![] }]),
                token_of("much"),
            ],
        ],
        cnccats: vec![
            (mk_cid("Comment"), CncCat { start: 0, end: 1 }),
            (mk_cid("Item"), CncCat { start: 1, end: 2 }),
        ],
        total_cats: 2,
    }
}

fn food() -> Pgf {
    let pred = Type { hypos: vec![hypo_of("Item"), hypo_of("Quality")], category: mk_cid("Comment"), exprs: vec![] };
    Pgf {
        absname: mk_cid("Food"),
        concretes: vec![
            (
                Language(mk_cid("FoodEng")),
                english(vec![
                    (mk_cid("coding"), Literal::Str("utf_8".to_string())),
                    (mk_cid("language"), Literal::Str("en_US_x".to_string())),
                ]),
            ),
            (Language(mk_cid("FoodSwe")), english(vec![(mk_cid("language"), Literal::Int(46))])),
            (Language(mk_cid("FoodFin")), english(vec![])),
        ],
        abstract_syntax: Abstract {
            funs: vec![
                (mk_cid("Pred"), fun_of(pred)),
                (mk_cid("This"), fun_of(ground_of("Item"))),
                (mk_cid("Good"), fun_of(ground_of("Quality"))),
            ],
            cats: vec![
                (
                    mk_cid("Comment"),
                    Category { hypos: vec![hypo_of("Item")], funs: vec![(0, mk_cid("Pred"))] },
                ),
                (
                    mk_cid("Item"),
                    Category { hypos: vec![], funs: vec![(0, mk_cid("This")), (0, mk_cid("That"))] },
                ),
            ],
        },
        startcat: mk_cid("Comment"),
        flags: vec![],
    }
}

fn name(f: &str) -> Expr {
    Expr::Fun(mk_cid(f))
}

fn app(f: Expr, a: Expr) -> Expr {
    Expr::App(Box::new(f), Box::new(a))
}

fn lang(l: &str) -> Language {
    read_language(l).unwrap()
}

#[test]
fn identifiers() {
    assert_eq!(mk_cid("Pred").0, "Pred");
    assert_eq!(mk_cid("").0, "");
    assert_eq!(wild_cid(), mk_cid("*"));
    assert_eq!(show_cid(&mk_cid("Pred")), "Pred");
    assert_eq!(read_cid(""), None);
    assert_eq!(read_cid("Pred"), Some(mk_cid("Pred")));
    assert_eq!(read_cid(" "), Some(mk_cid(" ")));
}

#[test]
fn language_names() {
    assert_eq!(read_language(""), None);
    assert_eq!(read_language("FoodEng"), Some(Language(mk_cid("FoodEng"))));
    assert_eq!(show_language(&lang("FoodEng")), "FoodEng");
    assert_eq!(abstract_name(&food()), Language(mk_cid("Food")));
}

#[test]
fn languages_come_in_the_order_of_the_grammar() {
    let g = food();
    assert_eq!(languages(&g), vec![lang("FoodEng"), lang("FoodSwe"), lang("FoodFin")]);
    assert_eq!(languages(&g), languages(&g));
}

#[test]
fn language_code_has_hyphens_for_underscores() {
    let g = food();
    assert_eq!(language_code(&g, &lang("FoodEng")), Some("en-US-x".to_string()));
}

#[test]
fn language_code_is_absent_without_a_text_flag() {
    let g = food();
    assert_eq!(language_code(&g, &lang("FoodSwe")), None);
    assert_eq!(language_code(&g, &lang("FoodFin")), None);
    assert_eq!(language_code(&g, &lang("FoodGer")), None);
}

#[test]
fn language_code_without_underscores_is_the_flag() {
    let mut g = food();
    g.concretes[0].1.cflags = vec![(mk_cid("language"), Literal::Str("sv".to_string()))];
    assert_eq!(language_code(&g, &lang("FoodEng")), Some("sv".to_string()));
    g.concretes[0].1.cflags = vec![(mk_cid("language"), Literal::Str("__".to_string()))];
    assert_eq!(language_code(&g, &lang("FoodEng")), Some("--".to_string()));
}

#[test]
fn types_and_hypotheses() {
    assert_eq!(mk_type(vec![], mk_cid("Item"), vec![]), ground_of("Item"));
    let h = mk_hypo(Binding::Implicit("x".to_string()), ground_of("Item"));
    assert_eq!(h, Hypo { binding: Binding::Implicit("x".to_string()), ty: ground_of("Item") });
    let t = mk_type(vec![hypo_of("Item")], mk_cid("Comment"), vec![Expr::Meta]);
    assert_eq!(t.hypos, vec![hypo_of("Item")]);
    assert_eq!(t.category, mk_cid("Comment"));
    assert_eq!(t.exprs, vec![Expr::Meta]);
    assert_eq!(start_cat(&food()), ground_of("Comment"));
}

#[test]
fn categories_and_functions_come_in_the_order_of_the_grammar() {
    let g = food();
    assert_eq!(categories(&g), vec![mk_cid("Comment"), mk_cid("Item")]);
    assert_eq!(functions(&g), vec![mk_cid("Pred"), mk_cid("This"), mk_cid("Good")]);
    assert_eq!(functions_by_cat(&g, &mk_cid("Item")), vec![mk_cid("This"), mk_cid("That")]);
    assert_eq!(functions_by_cat(&g, &mk_cid("Comment")), vec![mk_cid("Pred")]);
    assert_eq!(functions_by_cat(&g, &mk_cid("Quality")), Vec::new());
}

#[test]
fn stored_types_and_contexts() {
    let g = food();
    assert_eq!(function_type(&g, &mk_cid("This")), Some(ground_of("Item")));
    assert_eq!(function_type(&g, &mk_cid("Pred")).map(|t| t.hypos.len()), Some(2));
    assert_eq!(function_type(&g, &mk_cid("That")), None);
    assert_eq!(category_context(&g, &mk_cid("Comment")), Some(vec![hypo_of("Item")]));
    assert_eq!(category_context(&g, &mk_cid("Item")), Some(vec![]));
    assert_eq!(category_context(&g, &mk_cid("Quality")), None);
}

#[test]
fn linearize_gives_the_tokens_of_the_first_field() {
    let g = food();
    let eng = lang("FoodEng");
    assert_eq!(linearize(&g, &eng, &name("Pred")), Ok("is".to_string()));
    assert_eq!(linearize(&g, &eng, &name("This")), Ok("this".to_string()));
    assert_eq!(linearize(&g, &eng, &name("Very")), Ok("very very much".to_string()));
}

#[test]
fn linearize_without_a_sequence_is_empty() {
    let g = food();
    let eng = lang("FoodEng");
    assert_eq!(linearize(&g, &eng, &name("Silent")), Ok(String::new()));
    assert_eq!(linearize(&g, &eng, &name("Lost")), Ok(String::new()));
    assert_eq!(linearize(&g, &eng, &name("Back")), Ok(String::new()));
}

#[test]
fn linearize_puts_a_space_between_function_and_argument() {
    let g = food();
    let eng = lang("FoodEng");
    assert_eq!(
        linearize(&g, &eng, &app(app(name("Pred"), name("This")), name("Very"))),
        Ok("is this very very much".to_string())
    );
    assert_eq!(linearize(&g, &eng, &app(name("Silent"), name("This"))), Ok(" this".to_string()));
    assert_eq!(linearize(&g, &eng, &app(name("This"), name("Silent"))), Ok("this ".to_string()));
}

#[test]
fn linearize_errors() {
    let g = food();
    let eng = lang("FoodEng");
    assert_eq!(
        linearize(&g, &lang("FoodGer"), &name("Pred")),
        Err(PgfError::UnknownLanguage("FoodGer".to_string()))
    );
    assert_eq!(
        linearize(&g, &lang("FoodGer"), &Expr::Meta),
        Err(PgfError::UnknownLanguage("FoodGer".to_string()))
    );
    assert_eq!(
        linearize(&g, &eng, &name("Good")),
        Err(PgfError::ParseError("Function not found in concrete syntax".to_string()))
    );
    for e in [
        Expr::Meta,
        Expr::Int(1),
        Expr::Str("s".to_string()),
        Expr::Float(0),
        Expr::Double(0),
        Expr::ImplArg(Box::new(name("Pred"))),
        Expr::Typed(Box::new(name("Pred")), ground_of("Comment")),
        Expr::Abs(Binding::Explicit("x".to_string()), mk_cid("x"), Box::new(name("Pred"))),
    ] {
        assert_eq!(
            linearize(&g, &eng, &e),
            Err(PgfError::ParseError("Unsupported expression for linearization".to_string()))
        );
    }
    assert_eq!(
        linearize(&g, &eng, &app(name("Good"), Expr::Meta)),
        Err(PgfError::ParseError("Function not found in concrete syntax".to_string()))
    );
    assert_eq!(
        linearize(&g, &eng, &app(name("Pred"), Expr::Meta)),
        Err(PgfError::ParseError("Unsupported expression for linearization".to_string()))
    );
}

#[test]
fn check_of_a_function() {
    let g = food();
    assert_eq!(
        check_expr(&g, &name("This"), &ground_of("Item")),
        Ok((name("This"), ground_of("Item")))
    );
    let (e, t) = check_expr(&g, &name("Pred"), &ground_of("Comment")).unwrap();
    assert_eq!(e, name("Pred"));
    assert_eq!(Some(t), function_type(&g, &mk_cid("Pred")));
    assert_eq!(
        check_expr(&g, &name("That"), &ground_of("Item")),
        Err(PgfError::TypeCheckError("Unknown function: That".to_string()))
    );
    assert_eq!(
        check_expr(&g, &name("This"), &ground_of("Comment")),
        Err(PgfError::TypeCheckError("Type mismatch: expected Comment, got Item".to_string()))
    );
}

#[test]
fn check_of_an_application() {
    let g = food();
    let comment = ground_of("Comment");
    assert_eq!(
        check_expr(&g, &app(name("Pred"), name("This")), &comment),
        Ok((app(name("Pred"), name("This")), ground_of("Comment")))
    );
    assert_eq!(
        check_expr(&g, &app(name("Pred"), name("Good")), &comment),
        Err(PgfError::TypeCheckError("Type mismatch: expected Item, got Quality".to_string()))
    );
    assert_eq!(
        check_expr(&g, &app(name("This"), name("This")), &ground_of("Item")),
        Err(PgfError::TypeCheckError("Invalid application".to_string()))
    );
    // The type of an application is the expected type: a second argument is
    // checked against the hypotheses of the expected type.
    assert_eq!(
        check_expr(&g, &app(app(name("Pred"), name("This")), name("Good")), &comment),
        Err(PgfError::TypeCheckError("Invalid application".to_string()))
    );
    let expecting = Type { hypos: vec![hypo_of("Quality")], category: mk_cid("Comment"), exprs: vec![] };
    let tree = app(app(name("Pred"), name("This")), name("Good"));
    assert_eq!(check_expr(&g, &tree, &expecting), Ok((app(app(name("Pred"), name("This")), name("Good")), expecting)));
}

#[test]
fn check_of_other_expressions() {
    let g = food();
    for e in [Expr::Meta, Expr::Int(1), Expr::Str("s".to_string()), Expr::ImplArg(Box::new(name("This")))] {
        assert_eq!(
            check_expr(&g, &e, &ground_of("Item")),
            Err(PgfError::TypeCheckError("Unsupported expression for type checking".to_string()))
        );
    }
    assert_eq!(
        check_expr(&g, &app(Expr::Meta, name("This")), &ground_of("Item")),
        Err(PgfError::TypeCheckError("Unsupported expression for type checking".to_string()))
    );
}

#[test]
fn error_texts() {
    let s = |t: &str| t.to_string();
    assert_eq!(PgfError::Io(s("gone")).message(), "IO error: gone");
    assert_eq!(PgfError::UnknownLanguage(s("X")).message(), "Unknown language: X");
    assert_eq!(PgfError::DeserializeError(s("d")).message(), "Deserialization error: d");
    assert_eq!(PgfError::SerializeError(s("s")).message(), "Serialization error: s");
    assert_eq!(PgfError::TypeCheckError(s("t")).message(), "Type checking error: t");
    assert_eq!(PgfError::ParseError(s("")).message(), "Parsing error: ");
}

#[test]
fn structural_equality_and_copies() {
    let dependent = Type {
        hypos: vec![hypo_of("Item")],
        category: mk_cid("Comment"),
        exprs: vec![Expr::Typed(Box::new(Expr::Meta), ground_of("Item")), Expr::Double(9)],
    };
    let trees = vec![
        Expr::Meta,
        Expr::Int(1),
        Expr::Int(2),
        Expr::Float(1),
        Expr::Double(1),
        Expr::Str("Pred".to_string()),
        name("Pred"),
        name("This"),
        app(name("Pred"), name("This")),
        app(name("This"), name("Pred")),
        Expr::ImplArg(Box::new(name("Pred"))),
        Expr::Typed(Box::new(name("Pred")), ground_of("Comment")),
        Expr::Typed(Box::new(name("Pred")), dependent),
        Expr::Abs(Binding::Explicit("x".to_string()), mk_cid("x"), Box::new(Expr::Meta)),
        Expr::Abs(Binding::Implicit("x".to_string()), mk_cid("x"), Box::new(Expr::Meta)),
        Expr::Abs(Binding::Explicit("x".to_string()), mk_cid("y"), Box::new(Expr::Meta)),
    ];
    for (i, a) in trees.iter().enumerate() {
        assert_eq!(&copy_expr(a), a);
        assert!(has_expr(&trees, a));
        for (j, b) in trees.iter().enumerate() {
            assert_eq!(same_expr(a, b), i == j, "trees {} and {}", i, j);
        }
    }
    assert!(!has_expr(&trees, &name("Good")));
    assert!(!has_expr(&vec![], &Expr::Meta));

    let t1 = Type { hypos: vec![hypo_of("Item")], category: mk_cid("C"), exprs: vec![Expr::Meta] };
    let t2 = Type { hypos: vec![hypo_of("Kind")], category: mk_cid("C"), exprs: vec![Expr::Meta] };
    let t3 = Type { hypos: vec![hypo_of("Item")], category: mk_cid("C"), exprs: vec![] };
    assert!(same_type(&t1, &copy_type(&t1)));
    assert!(!same_type(&t1, &t2));
    assert!(!same_type(&t1, &t3));
    assert!(!same_type(&t1, &ground_of("C")));
    assert!(same_hypo(&hypo_of("Item"), &copy_hypo(&hypo_of("Item"))));
    assert!(!same_hypo(&hypo_of("Item"), &hypo_of("Kind")));
    let explicit = Binding::Explicit("x".to_string());
    assert!(same_binding(&explicit, &copy_binding(&explicit)));
    assert!(!same_binding(&explicit, &Binding::Implicit("x".to_string())));
    assert!(!same_binding(&explicit, &Binding::Explicit("y".to_string())));

    assert!(same_i32s(&vec![], &vec![]));
    assert!(same_i32s(&vec![1, -2], &vec![1, -2]));
    assert!(!same_i32s(&vec![1, -2], &vec![1, 2]));
    assert!(!same_i32s(&vec![1], &vec![1, 1]));
    let arg = |hypos: Vec<i32>, fid: i32| PArg { hypos, fid };
    assert!(same_parg(&arg(vec![1], 2), &arg(vec![1], 2)));
    assert!(!same_parg(&arg(vec![1], 2), &arg(vec![1], 3)));
    assert!(!same_parg(&arg(vec![1], 2), &arg(vec![], 2)));
    let prods = vec![
        Production::Coerce { arg: 1 },
        Production::Coerce { arg: 2 },
        Production::Apply { fid: 1, args: vec![] },
        Production::Apply { fid: 2, args: vec![] },
        Production::Apply { fid: 1, args: vec![arg(vec![], 0)] },
        Production::Apply { fid: 1, args: vec![arg(vec![0], 0)] },
    ];
    for (i, a) in prods.iter().enumerate() {
        assert!(has_production(&prods, a));
        for (j, b) in prods.iter().enumerate() {
            assert_eq!(same_production(a, b), i == j, "productions {} and {}", i, j);
        }
    }
    assert!(!has_production(&prods, &Production::Coerce { arg: 3 }));
}

#[test]
fn tables_keep_the_order_of_insertion() {
    let mut table: Vec<(pgf2json::CId, i32)> = Vec::new();
    insert_cid(&mut table, mk_cid("a"), 1);
    insert_cid(&mut table, mk_cid("b"), 2);
    insert_cid(&mut table, mk_cid("a"), 3);
    insert_cid(&mut table, mk_cid("c"), 4);
    assert_eq!(table, vec![(mk_cid("a"), 3), (mk_cid("b"), 2), (mk_cid("c"), 4)]);
    assert_eq!(find_cid(&table, &mk_cid("a")), Some(0));
    assert_eq!(find_cid(&table, &mk_cid("c")), Some(2));
    assert_eq!(find_cid(&table, &mk_cid("d")), None);
    table.push((mk_cid("b"), 5));
    assert_eq!(find_cid(&table, &mk_cid("b")), Some(1));
    let langs = vec![(lang("X"), 1), (lang("Y"), 2), (lang("X"), 3)];
    assert_eq!(find_language(&langs, &lang("X")), Some(0));
    assert_eq!(find_language(&langs, &lang("Y")), Some(1));
    assert_eq!(find_language(&langs, &lang("Z")), None);
    let sets = vec![
        ProductionSet { fid: 4, prods: vec![] },
        ProductionSet { fid: -1, prods: vec![] },
        ProductionSet { fid: 4, prods: vec![] },
    ];
    assert_eq!(find_productions(&sets, 4), Some(0));
    assert_eq!(find_productions(&sets, -1), Some(1));
    assert_eq!(find_productions(&sets, 0), None);
}

#[test]
fn things_wrong_with_a_grammar() {
    let mut g = food();
    // The food grammar has concrete functions that its abstract syntax
    // lacks, with fields that are no sequences.
    {
        let funs = &g.abstract_syntax.funs;
        let cnc = &g.concretes[0].1;
        assert!(!check_names(funs, cnc));
        assert!(!check_lins(cnc));
        assert!(!check_slots(funs, cnc));
        assert!(check_fids(cnc));
    }
    for c in g.concretes.iter_mut() {
        c.1.cncfuns.truncate(2);
    }
    let funs = &g.abstract_syntax.funs;
    let cnc = &g.concretes[0].1;
    assert!(check_names(funs, cnc));
    assert!(check_lins(cnc));
    assert!(check_slots(funs, cnc));
    assert!(check_symbol(&Symbol::SymCat(1, 5), 2));
    assert!(!check_symbol(&Symbol::SymCat(2, 0), 2));
    assert!(!check_symbol(&Symbol::SymVar(-1, 0), 2));
    assert!(check_symbol(&token_of("x"), 0));
}
