//! Page slugs, as far as Idea Inbox needs them.
use vstd::prelude::*;

use crate::text::chars_of;

verus! {

/// A page's address in the wiki, such as `notes/dungeon-seeds`.
///
/// Which strings are slugs is the page store's rule; here a slug is only
/// carried from an event to the page it names.
#[derive(Debug, PartialEq, Eq, PartialOrd, Ord, Hash)]
pub struct Slug {
    slug: String,
}

impl View for Slug {
    type V = Seq<char>;

    closed spec fn view(&self) -> Seq<char> {
        self.slug@
    }
}

impl Clone for Slug {
    fn clone(&self) -> (copy: Self)
        ensures
            copy@ == self@,
    {
        Slug { slug: self.slug.clone() }
    }
}

impl Slug {
    pub fn new(slug: String) -> (page: Self)
        ensures
            page@ == slug@,
    {
        Slug { slug }
    }

    pub fn as_str(&self) -> (s: &str)
        ensures
            s@ == self@,
    {
        self.slug.as_str()
    }
}

/// Whether a path segment begins at `i`: at the start, or after a `/`.
pub open spec fn segment_starts(s: Seq<char>, i: int) -> bool {
    i == 0 || (0 < i <= s.len() && s[i - 1] == '/')
}

/// Whether the character at `i` keeps `s` slug-shaped: it is no backslash,
/// no `/` directly followed by another, and no start of a `.` or `..`
/// segment.
pub open spec fn fine_at(s: Seq<char>, i: int) -> bool {
    &&& s[i] != '\\'
    &&& !(i + 1 < s.len() && s[i] == '/' && s[i + 1] == '/')
    &&& !(segment_starts(s, i) && s[i] == '.' && (i + 1 == s.len() || s[i + 1] == '/'))
    &&& !(segment_starts(s, i) && i + 1 < s.len() && s[i] == '.' && s[i + 1] == '.' && (i + 2
        == s.len() || s[i + 2] == '/'))
}

/// Whether `s` has the shape of a slug: `/`-separated segments, none empty,
/// `.` or `..`, and no backslash anywhere.
pub open spec fn slug_shape(s: Seq<char>) -> bool {
    &&& s.len() > 0
    &&& s[0] != '/'
    &&& s.last() != '/'
    &&& forall|i: int| 0 <= i < s.len() ==> fine_at(s, i)
}

/// Whether an entry has the shape of a slug; a contents entry or a search
/// hit that does not is no page.
pub fn slug_shaped(entry: &str) -> (r: bool)
    ensures
        r == slug_shape(entry@),
{
    let cs = chars_of(entry);
    let n = cs.len();
    if n == 0 || cs[0] == '/' || cs[n - 1] == '/' {
        proof {
            if n > 0 {
                assert(entry@.last() == cs@[n - 1]);
            }
        }
        return false;
    }
    proof {
        assert(entry@.last() == cs@[n - 1]);
    }
    let mut i: usize = 0;
    while i < n
        invariant
            n == cs@.len(),
            cs@ == entry@,
            n > 0,
            i <= n,
            forall|j: int| 0 <= j < i ==> fine_at(cs@, j),
        decreases n - i,
    {
        let starts = i == 0 || cs[i - 1] == '/';
        let c = cs[i];
        let doubled = i + 1 < n && c == '/' && cs[i + 1] == '/';
        let dot = starts && c == '.' && (i + 1 == n || cs[i + 1] == '/');
        let dots = starts && i + 1 < n && c == '.' && cs[i + 1] == '.' && (i + 2 == n || cs[i + 2] == '/');
        proof {
            assert(starts == segment_starts(cs@, i as int));
        }
        if c == '\\' || doubled || dot || dots {
            proof {
                assert(!fine_at(cs@, i as int));
            }
            return false;
        }
        i = i + 1;
    }
    true
}

} // verus!
