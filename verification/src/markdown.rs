//! How a page names another, as far as the link graph needs it.
use vstd::prelude::*;

use crate::text::same_text;

verus! {

/// The ways one page can name another.
#[derive(Debug, Clone, Copy, PartialEq, Eq, Structural, Hash)]
pub enum LinkKind {
    /// `[[slug]]`.
    Wiki,
    /// `[text](slug.md)`: a markdown link that stays inside the wiki.
    Internal,
    /// A link to a URL outside the wiki.
    External,
}

pub open spec fn link_kind_name(kind: LinkKind) -> &'static str {
    match kind {
        LinkKind::Wiki => "wiki",
        LinkKind::Internal => "internal",
        LinkKind::External => "external",
    }
}

/// The kind a stored spelling names, if any.
pub open spec fn link_kind_of(raw: Seq<char>) -> Option<LinkKind> {
    if raw == link_kind_name(LinkKind::Wiki)@ {
        Some(LinkKind::Wiki)
    } else if raw == link_kind_name(LinkKind::Internal)@ {
        Some(LinkKind::Internal)
    } else if raw == link_kind_name(LinkKind::External)@ {
        Some(LinkKind::External)
    } else {
        None
    }
}

impl LinkKind {
    pub fn as_str(self) -> (s: &'static str)
        ensures
            s == link_kind_name(self),
    {
        match self {
            LinkKind::Wiki => "wiki",
            LinkKind::Internal => "internal",
            LinkKind::External => "external",
        }
    }

    pub fn parse(raw: &str) -> (kind: Option<Self>)
        ensures
            kind == link_kind_of(raw@),
    {
        if same_text(raw, "wiki") {
            Some(LinkKind::Wiki)
        } else if same_text(raw, "internal") {
            Some(LinkKind::Internal)
        } else if same_text(raw, "external") {
            Some(LinkKind::External)
        } else {
            None
        }
    }

    /// Whether the link points into the wiki rather than out of it.
    pub fn is_internal(self) -> (r: bool)
        ensures
            r == !(self is External),
    {
        match self {
            LinkKind::External => false,
            _ => true,
        }
    }
}

/// Every kind has one spelling, and reading it back gives the kind.
pub proof fn link_kind_names_round_trip(kind: LinkKind)
    ensures
        link_kind_of(link_kind_name(kind)@) == Some(kind),
{
    reveal_strlit("wiki");
    reveal_strlit("internal");
    reveal_strlit("external");
    assert("wiki"@.len() != "internal"@.len());
    assert("wiki"@.len() != "external"@.len());
    assert("internal"@[0] != "external"@[0]);
}

} // verus!
