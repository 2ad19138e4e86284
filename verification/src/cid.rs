//! Identifiers.

use vstd::prelude::*;
use vstd::string::*;

use crate::grammar::CId;

verus! {

/// The identifier with the given name.
pub fn mk_cid(s: &str) -> (r: CId)
    ensures
        r@ == s@,
{
    CId(String::from_str(s))
}

/// The wildcard, the identifier of anonymous contexts.
pub fn wild_cid() -> (r: CId)
    ensures
        r@ == "*"@,
{
    CId(String::from_str("*"))
}

/// The name of an identifier.
pub fn show_cid(cid: &CId) -> (r: String)
    ensures
        r@ == cid@,
{
    cid.0.clone()
}

/// The identifier with the given name, unless the name is empty.
pub fn read_cid(s: &str) -> (r: Option<CId>)
    ensures
        s@.len() == 0 ==> r is None,
        s@.len() > 0 ==> (r matches Some(c) && c@ == s@),
{
    if s.is_empty() {
        None
    } else {
        Some(CId(String::from_str(s)))
    }
}

} // verus!
