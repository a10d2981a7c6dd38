//! Pinned pages and stored sessions: the durable half of the index, which
//! nothing derives from the markdown.
use vstd::prelude::*;

use crate::slug::Slug;
use crate::users::Username;

verus! {

/// A pinned page, with whatever the index knows about it.
#[derive(Debug, Clone, PartialEq, Eq)]
pub struct Pin {
    pub slug: Slug,
    /// The page's title, or `None` when no page this audience can read is
    /// indexed at that slug.
    pub title: Option<String>,
    /// When it was pinned, in nanoseconds.
    pub pinned_at: i128,
}

impl Pin {
    /// Whether there is a page behind this pin.
    pub fn has_page(&self) -> (r: bool)
        ensures
            r == (self.title is Some),
    {
        self.title.is_some()
    }
}

/// A session as the index holds it, keyed elsewhere by its token's hash.
#[derive(Debug, Clone, PartialEq, Eq)]
pub struct StoredSession {
    pub username: Username,
    pub created: i128,
    pub expires: i128,
}

/// What a stored session row says at `now`.
#[derive(Debug, Clone, PartialEq, Eq)]
pub enum SessionCheck {
    /// No row for this token: nobody.
    Unknown,
    /// The row has expired: nobody, and the row is to be deleted.
    Expired,
    /// A session that still holds.
    Current(StoredSession),
}

/// Judge a session row: one whose expiry is not after `now` has expired.
pub fn check_session(found: Option<(String, i64, i64)>, now: i64) -> (c: SessionCheck)
    ensures
        match found {
            None => c == SessionCheck::Unknown,
            Some((name, created, expires)) => if expires <= now {
                c == SessionCheck::Expired
            } else {
                c matches SessionCheck::Current(s) && s.username@ == name@ && s.created == created
                    && s.expires == expires
            },
        },
{
    match found {
        None => SessionCheck::Unknown,
        Some((name, created, expires)) => {
            if expires <= now {
                SessionCheck::Expired
            } else {
                SessionCheck::Current(
                    StoredSession {
                        username: Username::new(name),
                        created: created as i128,
                        expires: expires as i128,
                    },
                )
            }
        },
    }
}

} // verus!
