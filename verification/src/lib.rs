//! A runtime for compiled multilingual grammars in the Portable Grammar
//! Format: the grammar model, its binary decoder, a query surface, a
//! linearizer, a chart parser and a JSON projection.

pub mod binary;
pub mod bracketed;
pub mod chart;
pub mod cid;
pub mod encode;
pub mod equal;
pub mod error;
pub mod grammar;
pub mod json;
pub mod language;
pub mod linearize;
pub mod origin;
pub mod parse;
pub mod query;
pub mod recall;
pub mod table;
pub mod typecheck;
pub mod types;
pub mod valid;
pub mod wire;

pub use crate::binary::file::{parse_pgf, parse_pgf_binary};
pub use crate::bracketed::BracketedString;
pub use crate::error::PgfError;
pub use crate::grammar::{
    Abstract, Alt, Binding, CId, Category, CncCat, CncFun, Concrete, Equation, Expr, Function,
    Hypo, Instr, Language, Literal, PArg, Pattern, Pgf, Production, ProductionSet, Symbol, Type,
};
pub use crate::json::{pgf_to_json, Json};
pub use crate::linearize::linearize;
pub use crate::parse::parse;
pub use crate::query::{categories, category_context, function_type, functions, functions_by_cat};
pub use crate::typecheck::check_expr;
