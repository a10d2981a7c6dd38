//! The word log's vocabulary: what kind of observation a line is, and how much
//! writing one edit was.
use vstd::prelude::*;

use crate::text::{same_text, split_whitespace, whitespace_words};

verus! {

/// What one line of the word log records.
#[derive(Debug, Clone, Copy, PartialEq, Eq, Structural, Hash)]
pub enum Kind {
    /// A page seen for the first time, reporting no writing.
    Baseline,
    /// An edit, measured against the body the log last saw.
    Observed,
    /// The difference between two totals, when there is no body to compare.
    Net,
    /// A page that has gone.
    Deleted,
    /// A page that has moved away from its slug.
    Moved,
}

pub open spec fn kind_name(kind: Kind) -> &'static str {
    match kind {
        Kind::Baseline => "baseline",
        Kind::Observed => "observed",
        Kind::Net => "net",
        Kind::Deleted => "deleted",
        Kind::Moved => "moved",
    }
}

impl Kind {
    pub fn as_str(self) -> (s: &'static str)
        ensures
            s == kind_name(self),
    {
        match self {
            Kind::Baseline => "baseline",
            Kind::Observed => "observed",
            Kind::Net => "net",
            Kind::Deleted => "deleted",
            Kind::Moved => "moved",
        }
    }

    pub fn parse(raw: &str) -> (kind: Option<Self>)
        ensures
            kind matches Some(k) ==> raw@ == kind_name(k)@,
            kind is None ==> forall|k: Kind| raw@ != #[trigger] kind_name(k)@,
    {
        if same_text(raw, "baseline") {
            Some(Kind::Baseline)
        } else if same_text(raw, "observed") {
            Some(Kind::Observed)
        } else if same_text(raw, "net") {
            Some(Kind::Net)
        } else if same_text(raw, "deleted") {
            Some(Kind::Deleted)
        } else if same_text(raw, "moved") {
            Some(Kind::Moved)
        } else {
            proof {
                assert forall|k: Kind| raw@ != #[trigger] kind_name(k)@ by {
                    match k {
                        Kind::Baseline => {},
                        Kind::Observed => {},
                        Kind::Net => {},
                        Kind::Deleted => {},
                        Kind::Moved => {},
                    }
                }
            }
            None
        }
    }
}

/// How many words an edit added and how many it removed.
#[derive(Debug, Clone, Copy, Default, PartialEq, Eq, Structural)]
pub struct Churn {
    pub added: u64,
    pub removed: u64,
}

impl Churn {
    /// Whether nothing was written at all.
    pub fn is_nothing(&self) -> (r: bool)
        ensures
            r == (self.added == 0 && self.removed == 0),
    {
        self.added == 0 && self.removed == 0
    }
}

/// The words of a body: its maximal runs of non-whitespace characters.
pub open spec fn body_words(text: Seq<char>) -> Seq<Seq<char>> {
    whitespace_words(text)
}

/// `b` without its first occurrence of `x`, or `b` itself if `x` is not there.
pub open spec fn without_first(b: Seq<Seq<char>>, x: Seq<char>) -> Seq<Seq<char>>
    decreases b.len(),
{
    if b.len() == 0 {
        b
    } else if b[0] == x {
        b.drop_first()
    } else {
        seq![b[0]] + without_first(b.drop_first(), x)
    }
}

/// How many words of `a` find a partner in `b`, each word of `b` partnering
/// at most one word of `a`: the first of its kind still unclaimed.
pub open spec fn shared_words(a: Seq<Seq<char>>, b: Seq<Seq<char>>) -> nat
    decreases a.len(),
{
    if a.len() == 0 {
        0
    } else if b.contains(a[0]) {
        1 + shared_words(a.drop_first(), without_first(b, a[0]))
    } else {
        shared_words(a.drop_first(), b)
    }
}

proof fn without_first_at(b: Seq<Seq<char>>, x: Seq<char>, k: int)
    requires
        0 <= k < b.len(),
        b[k] == x,
        forall|j: int| 0 <= j < k ==> b[j] != x,
    ensures
        without_first(b, x) == b.remove(k),
    decreases b.len(),
{
    if k > 0 {
        assert(b[0] != x);
        let rest = b.drop_first();
        assert forall|j: int| 0 <= j < k - 1 implies rest[j] != x by {
            assert(rest[j] == b[j + 1]);
        }
        without_first_at(rest, x, k - 1);
        assert(seq![b[0]] + rest.remove(k - 1) =~= b.remove(k));
    } else {
        assert(b.drop_first() =~= b.remove(0));
    }
}

proof fn without_first_len(b: Seq<Seq<char>>, x: Seq<char>)
    requires
        b.contains(x),
    ensures
        without_first(b, x).len() == b.len() - 1,
    decreases b.len(),
{
    if b[0] != x {
        let j = choose|j: int| 0 <= j < b.len() && b[j] == x;
        assert(b.drop_first()[j - 1] == x);
        without_first_len(b.drop_first(), x);
    }
}

/// The churn from `before` to `after`: the words of `after` with no partner in
/// `before` were added, and the words of `before` with none in `after` were
/// removed.
pub open spec fn churn_spec(before: Seq<char>, after: Seq<char>) -> Churn {
    let shared = shared_words(body_words(after), body_words(before));
    Churn {
        added: (body_words(after).len() - shared) as u64,
        removed: (body_words(before).len() - shared) as u64,
    }
}

proof fn shared_words_bound(a: Seq<Seq<char>>, b: Seq<Seq<char>>)
    ensures
        shared_words(a, b) <= a.len(),
        shared_words(a, b) <= b.len(),
    decreases a.len(),
{
    if a.len() > 0 {
        if b.contains(a[0]) {
            without_first_len(b, a[0]);
            shared_words_bound(a.drop_first(), without_first(b, a[0]));
        } else {
            shared_words_bound(a.drop_first(), b);
        }
    }
}

fn same_word(a: &Vec<char>, b: &Vec<char>) -> (r: bool)
    ensures
        r == (a@ == b@),
{
    if a.len() != b.len() {
        return false;
    }
    let mut i: usize = 0;
    while i < a.len()
        invariant
            i <= a@.len(),
            a@.len() == b@.len(),
            forall|j: int| 0 <= j < i ==> a@[j] == b@[j],
        decreases a@.len() - i,
    {
        if a[i] != b[i] {
            return false;
        }
        i = i + 1;
    }
    assert(a@ =~= b@);
    true
}

/// How many words of `after` find a partner among `before`.
fn count_shared(after: &Vec<Vec<char>>, before: Vec<Vec<char>>) -> (shared: u64)
    requires
        after@.len() <= u64::MAX,
    ensures
        shared == shared_words(
            after@.map_values(|w: Vec<char>| w@),
            before@.map_values(|w: Vec<char>| w@),
        ),
{
    let ghost a = after@.map_values(|w: Vec<char>| w@);
    let mut pool = before;
    let mut shared: u64 = 0;
    let mut i: usize = 0;
    assert(a.skip(0) =~= a);
    while i < after.len()
        invariant
            i <= after@.len(),
            after@.len() <= u64::MAX,
            a == after@.map_values(|w: Vec<char>| w@),
            shared <= i,
            shared + shared_words(a.skip(i as int), pool@.map_values(|w: Vec<char>| w@))
                == shared_words(a, before@.map_values(|w: Vec<char>| w@)),
        decreases after@.len() - i,
    {
        let ghost p = pool@.map_values(|w: Vec<char>| w@);
        let ghost rest = a.skip(i as int);
        assert(rest[0] == after@[i as int]@);
        assert(rest.drop_first() =~= a.skip(i + 1));
        let mut k: usize = 0;
        let mut found = false;
        while k < pool.len() && !found
            invariant
                k <= pool@.len(),
                i < after@.len(),
                p == pool@.map_values(|w: Vec<char>| w@),
                forall|j: int| 0 <= j < k ==> p[j] != after@[i as int]@,
                found ==> k < pool@.len() && p[k as int] == after@[i as int]@,
            decreases pool@.len() - k + (if found { 0int } else { 1int }),
        {
            if same_word(&pool[k], &after[i]) {
                found = true;
            } else {
                k = k + 1;
            }
        }
        if found {
            proof {
                assert(p.contains(rest[0]));
                without_first_at(p, rest[0], k as int);
            }
            pool.remove(k);
            assert(pool@.map_values(|w: Vec<char>| w@) =~= p.remove(k as int));
            shared = shared + 1;
        } else {
            proof {
                if p.contains(rest[0]) {
                    let j = choose|j: int| 0 <= j < p.len() && p[j] == rest[0];
                    assert(p[j] != after@[i as int]@);
                }
            }
        }
        i = i + 1;
    }
    assert(a.skip(i as int) =~= Seq::<Seq<char>>::empty());
    shared
}

/// How much writing turning `before` into `after` was.
pub fn churn(before: &str, after: &str) -> (c: Churn)
    ensures
        c == churn_spec(before@, after@),
        c.added - c.removed == body_words(after@).len() - body_words(before@).len(),
{
    let old_words = split_whitespace(before);
    let new_words = split_whitespace(after);
    let old_len = old_words.len() as u64;
    let new_len = new_words.len() as u64;
    proof {
        shared_words_bound(body_words(after@), body_words(before@));
    }
    let shared = count_shared(&new_words, old_words);
    Churn { added: new_len - shared, removed: old_len - shared }
}

/// The change between two totals, with no body to say what changed.
pub open spec fn net_spec(last: u64, total: u64) -> Churn {
    if total >= last {
        Churn { added: (total - last) as u64, removed: 0 }
    } else {
        Churn { added: 0, removed: (last - total) as u64 }
    }
}

pub fn net(last: u64, total: u64) -> (c: Churn)
    ensures
        c == net_spec(last, total),
        c.added - c.removed == total - last,
{
    if total >= last {
        Churn { added: total - last, removed: 0 }
    } else {
        Churn { added: 0, removed: last - total }
    }
}

/// Every word of a body finds itself as a partner.
proof fn shared_with_itself(a: Seq<Seq<char>>)
    ensures
        shared_words(a, a) == a.len(),
    decreases a.len(),
{
    if a.len() > 0 {
        assert(a.contains(a[0])) by {
            assert(a[0] == a[0]);
        }
        assert(without_first(a, a[0]) == a.drop_first());
        shared_with_itself(a.drop_first());
    }
}

/// Turning a body into itself is no writing at all, which is what keeps a
/// touched-but-unedited page out of the log.
pub proof fn an_unchanged_body_is_no_churn(body: Seq<char>)
    ensures
        churn_spec(body, body) == (Churn { added: 0, removed: 0 }),
{
    shared_with_itself(body_words(body));
}

/// The churn accounts for the whole change in a page's count: what was added
/// less what was removed is how many more words the page has.
pub proof fn churn_accounts_for_the_count(before: Seq<char>, after: Seq<char>)
    requires
        body_words(before).len() <= u64::MAX,
        body_words(after).len() <= u64::MAX,
    ensures
        churn_spec(before, after).added - churn_spec(before, after).removed == body_words(after).len()
            - body_words(before).len(),
{
    shared_words_bound(body_words(after), body_words(before));
}

/// No two kinds share a spelling, so [`Kind::parse`] reads a kind's own name
/// back as that kind.
pub proof fn kind_names_are_distinct(kind: Kind, other: Kind)
    ensures
        kind != other ==> kind_name(kind)@ != kind_name(other)@,
{
    reveal_strlit("baseline");
    reveal_strlit("observed");
    reveal_strlit("net");
    reveal_strlit("deleted");
    reveal_strlit("moved");
    if kind != other {
        assert("baseline"@.len() == 8 && "observed"@.len() == 8 && "net"@.len() == 3 && "deleted"@.len() == 7
            && "moved"@.len() == 5);
        assert("baseline"@[0] != "observed"@[0]);
    }
}

} // verus!