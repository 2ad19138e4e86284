use pgf2json::cid::mk_cid;
use pgf2json::json::{
    cnc_cat_to_json, cnc_fun_to_json, literal_to_json, p_arg_to_json, production_to_json,
    signed_decimal_text, symbol_to_json,
};
use pgf2json::error::decimal_text;
use pgf2json::{
    pgf_to_json, Abstract, Alt, Binding, Category, CncCat, CncFun, Concrete, Function, Hypo,
    Json, Language, Literal, PArg, Pgf, Production, ProductionSet, Symbol, Type,
};
use serde_json::Value;

/// The `serde_json` value of a document.
fn value_of(j: &Json) -> Value {
    match j {
        Json::Null => Value::Null,
        Json::Bool(b) => Value::Bool(*b),
        Json::Int(n) => Value::from(*n),
        Json::Double(bits) => Value::from(f64::from_bits(*bits)),
        Json::Str(s) => Value::String(s.clone()),
        Json::Array(items) => Value::Array(items.iter().map(value_of).collect()),
        Json::Object(members) => {
            Value::Object(members.iter().map(|(k, v)| (k.clone(), value_of(v))).collect())
        }
    }
}

fn parsed(text: &str) -> Value {
    serde_json::from_str(text).expect("Invalid JSON")
}

fn ground_ty(cat: &str) -> Type {
    Type { hypos: vec![], category: mk_cid(cat), exprs: vec![] }
}

fn function(cat: &str) -> Function {
    Function { ty: ground_ty(cat), weight: 1, equations: None, prob: 1.0f64.to_bits() }
}

fn word(t: &str) -> Symbol {
    Symbol::SymKS(t.to_string())
}

fn synthetic() -> Pgf {
    let concrete = Concrete {
        cflags: vec![],
        productions: vec![],
        cncfuns: vec![
            CncFun { name: mk_cid("Pred"), lins: vec![0] },
            CncFun { name: mk_cid("This"), lins: vec![1] },
        ],
        sequences: vec![vec![word("is")], vec![word("this")]],
        cnccats: vec![
            (mk_cid("Comment"), CncCat { start: 0, end: 1 }),
            (mk_cid("Item"), CncCat { start: 1, end: 2 }),
        ],
        total_cats: 2,
    };
    Pgf {
        absname: mk_cid("Food"),
        concretes: vec![(Language(mk_cid("FoodEng")), concrete)],
        abstract_syntax: Abstract {
            funs: vec![(mk_cid("Pred"), function("Comment")), (mk_cid("This"), function("Item"))],
            cats: vec![
                (mk_cid("Comment"), Category { hypos: vec![], funs: vec![] }),
                (mk_cid("Item"), Category { hypos: vec![], funs: vec![] }),
            ],
        },
        startcat: mk_cid("Comment"),
        flags: vec![],
    }
}

#[test]
fn synthetic_document_is_valid_json_with_both_parts() {
    let json = serde_json::to_string(&value_of(&pgf_to_json(&synthetic()))).expect("no text");
    let json_value: Value = serde_json::from_str(&json).expect("Invalid JSON");
    assert!(json_value.get("abstract").is_some(), "JSON missing 'abstract' field");
    assert!(json_value.get("concretes").is_some(), "JSON missing 'concretes' field");

    let abs = json_value.get("abstract").unwrap();
    assert!(abs.get("name").is_some(), "Abstract missing 'name' field");
    assert!(abs.get("startcat").is_some(), "Abstract missing 'startcat' field");
    assert!(abs.get("funs").is_some(), "Abstract missing 'funs' field");
}

#[test]
fn synthetic_document_names_the_grammar_and_lists_the_functions() {
    let json = serde_json::to_string(&value_of(&pgf_to_json(&synthetic()))).expect("no text");
    assert!(json.contains("\"name\":\"Food\""));
    assert!(json.contains("\"startcat\":\"Comment\""));
    let funs = parsed(&json)["abstract"]["funs"].clone();
    assert_eq!(funs, parsed(r#"{"Pred":{"args":[],"cat":"Comment"},"This":{"args":[],"cat":"Item"}}"#));
}

#[test]
fn synthetic_document_in_full() {
    let expected = parsed(
        r#"{
        "abstract": {
            "name": "Food", "startcat": "Comment",
            "funs": {"Pred": {"args": [], "cat": "Comment"}, "This": {"args": [], "cat": "Item"}}
        },
        "concretes": {"FoodEng": {
            "flags": {},
            "productions": {},
            "functions": [{"name": "Pred", "lins": [0]}, {"name": "This", "lins": [1]}],
            "sequences": [[{"type": "SymKS", "args": ["is"]}], [{"type": "SymKS", "args": ["this"]}]],
            "categories": {"Comment": {"start": 0, "end": 1}, "Item": {"start": 1, "end": 2}},
            "totalfids": 2
        }}
    }"#,
    );
    assert_eq!(value_of(&pgf_to_json(&synthetic())), expected);
}

#[test]
fn document_members_stand_in_the_stated_order() {
    let names = |j: &Json| match j {
        Json::Object(members) => members.iter().map(|(k, _)| k.clone()).collect::<Vec<_>>(),
        _ => panic!("no object"),
    };
    let member = |j: &Json, n: usize| match j {
        Json::Object(members) => members.into_iter().nth(n).map(|(_, v)| names(v)).unwrap(),
        _ => panic!("no object"),
    };
    let doc = pgf_to_json(&synthetic());
    assert_eq!(names(&doc), vec!["abstract", "concretes"]);
    assert_eq!(member(&doc, 0), vec!["name", "startcat", "funs"]);
    assert_eq!(member(&doc, 1), vec!["FoodEng"]);
    match &doc {
        Json::Object(members) => assert_eq!(
            member(&members[1].1, 0),
            vec!["flags", "productions", "functions", "sequences", "categories", "totalfids"]
        ),
        _ => panic!("no object"),
    }
}

#[test]
fn flags_productions_and_arguments_in_the_document() {
    let mut g = synthetic();
    g.abstract_syntax.funs[0].1.ty.hypos = vec![
        Hypo { binding: Binding::Explicit("x".to_string()), ty: ground_ty("Item") },
        Hypo { binding: Binding::Implicit("y".to_string()), ty: ground_ty("Kind") },
    ];
    g.concretes[0].1.cflags = vec![
        (mk_cid("language"), Literal::Str("en_US".to_string())),
        (mk_cid("n"), Literal::Int(-4)),
        (mk_cid("x"), Literal::Flt(0.5f64.to_bits())),
    ];
    g.concretes[0].1.productions = vec![
        ProductionSet {
            fid: 10,
            prods: vec![
                Production::Apply { fid: 0, args: vec![PArg { hypos: vec![3, 4], fid: 1 }] },
                Production::Coerce { arg: 2 },
            ],
        },
        ProductionSet { fid: -2, prods: vec![] },
    ];
    let doc = value_of(&pgf_to_json(&g));
    assert_eq!(doc["abstract"]["funs"]["Pred"], parsed(r#"{"args":["Item","Kind"],"cat":"Comment"}"#));
    let cnc = &doc["concretes"]["FoodEng"];
    assert_eq!(cnc["flags"], parsed(r#"{"language":"en_US","n":-4,"x":0.5}"#));
    assert_eq!(
        cnc["productions"],
        parsed(
            r#"{"10":[{"type":"Apply","fid":0,"args":[{"type":"PArg","hypos":[3,4],"fid":1}]},
                      {"type":"Coerce","arg":2}],
                "-2":[]}"#
        )
    );
}

#[test]
fn values_of_the_parts() {
    assert_eq!(value_of(&literal_to_json(&Literal::Str("a\"b".to_string()))), parsed(r#""a\"b""#));
    assert_eq!(value_of(&literal_to_json(&Literal::Int(i32::MIN))), parsed("-2147483648"));
    assert_eq!(literal_to_json(&Literal::Flt(7)), Json::Double(7));
    assert_eq!(value_of(&cnc_cat_to_json(&CncCat { start: 3, end: 5 })), parsed(r#"{"start":3,"end":5}"#));
    assert_eq!(
        value_of(&cnc_fun_to_json(&CncFun { name: mk_cid("F"), lins: vec![2, 0] })),
        parsed(r#"{"name":"F","lins":[2,0]}"#)
    );
    assert_eq!(
        value_of(&p_arg_to_json(&PArg { hypos: vec![], fid: 9 })),
        parsed(r#"{"type":"PArg","hypos":[],"fid":9}"#)
    );
    assert_eq!(
        value_of(&production_to_json(&Production::Coerce { arg: -1 })),
        parsed(r#"{"type":"Coerce","arg":-1}"#)
    );
}

#[test]
fn values_of_the_symbols() {
    let sym = |s: &Symbol| value_of(&symbol_to_json(s));
    assert_eq!(sym(&Symbol::SymCat(1, 2)), parsed(r#"{"type":"SymCat","args":[1,2]}"#));
    assert_eq!(sym(&Symbol::SymLit(3, 4)), parsed(r#"{"type":"SymLit","args":[3,4]}"#));
    assert_eq!(sym(&Symbol::SymVar(5, 6)), parsed(r#"{"type":"SymVar","args":[5,6]}"#));
    assert_eq!(sym(&word("is")), parsed(r#"{"type":"SymKS","args":["is"]}"#));
    assert_eq!(sym(&Symbol::SymNE), parsed(r#"{"type":"SymNE","args":[]}"#));
    let variants = Symbol::SymKP(
        vec![word("a")],
        vec![Alt { symbols: vec![word("an"), Symbol::SymNE], tokens: vec!["e".to_string(), "i".to_string()] }],
    );
    assert_eq!(
        sym(&variants),
        parsed(
            r#"{"type":"SymKP","args":[
                [{"type":"SymKS","args":["a"]}],
                [{"type":"Alt","args":[[{"type":"SymKS","args":["an"]},{"type":"SymNE","args":[]}],["e","i"]]}]
            ]}"#
        )
    );
}

#[test]
fn numbers_in_decimal_digits() {
    assert_eq!(decimal_text(0), "0");
    assert_eq!(decimal_text(9), "9");
    assert_eq!(decimal_text(10), "10");
    assert_eq!(decimal_text(4096), "4096");
    assert_eq!(decimal_text(usize::MAX), usize::MAX.to_string());
    assert_eq!(signed_decimal_text(0), "0");
    assert_eq!(signed_decimal_text(-1), "-1");
    assert_eq!(signed_decimal_text(i32::MAX), "2147483647");
    assert_eq!(signed_decimal_text(i32::MIN), "-2147483648");
}
