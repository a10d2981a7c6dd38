//! Account names, as far as Idea Inbox needs them.
use vstd::prelude::*;

use crate::text::same_text;

verus! {

/// The name of an account.
///
/// Which names an account may have is the accounts store's rule; here a name
/// is only carried, compared and printed.
#[derive(Debug, PartialEq, Eq, PartialOrd, Ord, Hash)]
pub struct Username {
    name: String,
}

impl View for Username {
    type V = Seq<char>;

    closed spec fn view(&self) -> Seq<char> {
        self.name@
    }
}

impl Clone for Username {
    fn clone(&self) -> (copy: Self)
        ensures
            copy@ == self@,
    {
        Username { name: self.name.clone() }
    }
}

impl Username {
    pub fn new(name: String) -> (user: Self)
        ensures
            user@ == name@,
    {
        Username { name }
    }

    pub fn as_str(&self) -> (s: &str)
        ensures
            s@ == self@,
    {
        self.name.as_str()
    }

    pub fn same_as(&self, other: &Self) -> (r: bool)
        ensures
            r == (self@ == other@),
    {
        same_text(self.name.as_str(), other.name.as_str())
    }
}

} // verus!
