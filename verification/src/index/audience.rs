//! Who is asking, and the one SQL predicate that decides which pages they see.
use vstd::prelude::*;

use crate::text::{push_char, replace_all, replaced};
use crate::users::Username;

verus! {

/// What a caller is allowed to see.
#[derive(Debug, Clone, PartialEq, Eq)]
pub enum Audience {
    /// Everything, unconditionally: a wiki with no accounts.
    Everything,
    /// Public pages and nothing else.
    Public,
    /// Public and internal pages, plus this account's own and anything
    /// restricted to it.
    Account(Username),
}

impl Audience {
    /// Whether this audience may see anything beyond public pages.
    pub fn is_signed_in(&self) -> (r: bool)
        ensures
            r == !(*self is Public),
    {
        match self {
            Audience::Everything => true,
            Audience::Public => false,
            Audience::Account(_) => true,
        }
    }

    /// The two values the predicate binds: `:everything`, and `:viewer`
    /// (absent, which binds as NULL, for anyone who is not an account).
    pub fn params(&self) -> (p: (i64, Option<String>))
        ensures
            p.0 == (if *self is Everything { 1i64 } else { 0i64 }),
            match *self {
                Audience::Account(name) => p.1 matches Some(v) && v@ == name@,
                _ => p.1 is None,
            },
    {
        match self {
            Audience::Everything => (1, None),
            Audience::Public => (0, None),
            Audience::Account(name) => (0, Some(name.as_str().to_string())),
        }
    }
}

/// True for a page the audience may read, written against the bare column
/// names of `pages`.
pub const VISIBLE: &'static str = "(
    :everything = 1
    or pages.visibility = 'public'
    or (:viewer is not null and pages.visibility = 'internal')
    or (:viewer is not null and pages.owner = :viewer)
    or (:viewer is not null and pages.visibility = 'restricted' and exists (
            select 1 from page_readers
            where page_readers.slug = pages.slug
              and page_readers.username = :viewer
        ))
)";

/// The same predicate for a query that joined `pages` under `alias`: every
/// `pages.` becomes `alias.`.
pub fn visible_as(alias: &str) -> (out: String)
    ensures
        out@ == replaced(VISIBLE@, "pages."@, alias@.push('.')),
{
    let mut to = alias.to_string();
    push_char(&mut to, '.');
    proof {
        reveal_strlit("pages.");
    }
    replace_all(VISIBLE, "pages.", to.as_str())
}

} // verus!
