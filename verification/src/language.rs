//! Languages: the names of the concrete syntaxes of a grammar.

use vstd::prelude::*;

use crate::cid::{mk_cid, read_cid, show_cid};
use crate::grammar::{views, Language, Literal, Pgf, SpecLiteral, SpecPgf};
use crate::table::{find_cid, find_language, keys_of, lemma_position, table_get};

verus! {

/// The name of a language.
pub fn show_language(lang: &Language) -> (r: String)
    ensures
        r@ == lang@,
{
    show_cid(&lang.0)
}

/// The language with the given name, unless the name is empty.
pub fn read_language(s: &str) -> (r: Option<Language>)
    ensures
        s@.len() == 0 ==> r is None,
        s@.len() > 0 ==> (r matches Some(l) && l@ == s@),
{
    match read_cid(s) {
        Some(c) => Some(Language(c)),
        None => None,
    }
}

/// The languages of a grammar, in the order of the grammar.
pub fn languages(pgf: &Pgf) -> (r: Vec<Language>)
    ensures
        views(r@) == keys_of(pgf@.concretes),
{
    let mut r: Vec<Language> = Vec::new();
    let mut i: usize = 0;
    while i < pgf.concretes.len()
        invariant
            i <= pgf.concretes.len(),
            r.len() == i,
            forall|j: int| 0 <= j < i ==> r@[j]@ == pgf.concretes@[j].0@,
        decreases pgf.concretes.len() - i,
    {
        r.push(pgf.concretes[i].0.clone());
        i += 1;
    }
    assert(views(r@) =~= keys_of(pgf@.concretes));
    r
}

/// The text with each `from` replaced by `to`.
pub open spec fn replaced(s: Seq<char>, from: char, to: Seq<char>) -> Seq<char>
    decreases s.len(),
{
    if s.len() == 0 {
        Seq::empty()
    } else {
        replaced(s.drop_last(), from, to) + if s.last() == from {
            to
        } else {
            seq![s.last()]
        }
    }
}

/// `str::replace` of the standard library with a character as the pattern:
/// the text with each occurrence of the character replaced by `to`.
#[verifier::external_body]
fn replace_char(s: &str, from: char, to: &str) -> (r: String)
    ensures
        r@ == replaced(s@, from, to@),
{
    s.replace(from, to)
}

/// The code of a language as its flag `language` gives it, with hyphens
/// for underscores.
pub open spec fn spec_language_code(g: SpecPgf, l: Seq<char>) -> Option<Seq<char>> {
    match table_get(g.concretes, l) {
        Some(cnc) => match table_get(cnc.cflags, "language"@) {
            Some(SpecLiteral::Str(s)) => Some(replaced(s, '_', "-"@)),
            _ => None,
        },
        None => None,
    }
}

/// The code of a language: the text of the flag `language` of its concrete
/// syntax with every underscore replaced by a hyphen. There is none where
/// the grammar has no such language, or the language no such flag, or the
/// flag is no text.
pub fn language_code(pgf: &Pgf, lang: &Language) -> (r: Option<String>)
    ensures
        match spec_language_code(pgf@, lang@) {
            Some(code) => r matches Some(s) && s@ == code,
            None => r is None,
        },
{
    proof {
        lemma_position(pgf@.concretes, lang@);
    }
    match find_language(&pgf.concretes, lang) {
        Some(i) => {
            let cnc = &pgf.concretes[i].1;
            let key = mk_cid("language");
            proof {
                lemma_position(cnc@.cflags, key@);
            }
            match find_cid(&cnc.cflags, &key) {
                Some(k) => match &cnc.cflags[k].1 {
                    Literal::Str(s) => Some(replace_char(s.as_str(), '_', "-")),
                    _ => None,
                },
                None => None,
            }
        },
        None => None,
    }
}

/// The name of the abstract syntax, as a language.
pub fn abstract_name(pgf: &Pgf) -> (r: Language)
    ensures
        r@ == pgf@.absname,
{
    Language(pgf.absname.clone())
}

/// The code of a language has the length of the flag; it has a hyphen
/// where the flag has an underscore, and the character of the flag
/// everywhere else.
pub proof fn lemma_hyphens_for_underscores(s: Seq<char>)
    ensures
        replaced(s, '_', "-"@).len() == s.len(),
        forall|i: int|
            0 <= i < s.len() ==> #[trigger] replaced(s, '_', "-"@)[i] == if s[i] == '_' {
                '-'
            } else {
                s[i]
            },
    decreases s.len(),
{
    reveal_strlit("-");
    if s.len() > 0 {
        lemma_hyphens_for_underscores(s.drop_last());
        let head = replaced(s.drop_last(), '_', "-"@);
        let r = replaced(s, '_', "-"@);
        assert forall|i: int| 0 <= i < s.len() implies #[trigger] r[i] == if s[i] == '_' {
            '-'
        } else {
            s[i]
        } by {
            if i < s.len() - 1 {
                assert(r[i] == head[i]);
                assert(s.drop_last()[i] == s[i]);
            }
        }
    }
}

} // verus!
