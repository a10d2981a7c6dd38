//! Strictly ordered sequences of names and of name pairs, and where a new one
//! would go: the library's stand-in for an ordered set keyed by text.
use vstd::prelude::*;

use crate::text::{less_than, same_text, seq_lt, seq_lt_irreflexive, seq_lt_total, seq_lt_transitive};

verus! {

pub type Name = Seq<char>;

pub type Pair = (Seq<char>, Seq<char>);

/// Pairs ordered by their first name, then by their second.
pub open spec fn pair_lt(a: Pair, b: Pair) -> bool {
    seq_lt(a.0, b.0) || (a.0 == b.0 && seq_lt(a.1, b.1))
}

pub open spec fn names_sorted(s: Seq<Name>) -> bool {
    forall|i: int, j: int| 0 <= i < j < s.len() ==> seq_lt(#[trigger] s[i], #[trigger] s[j])
}

pub open spec fn pairs_sorted(s: Seq<Pair>) -> bool {
    forall|i: int, j: int| 0 <= i < j < s.len() ==> pair_lt(#[trigger] s[i], #[trigger] s[j])
}

pub open spec fn names_view(v: Seq<String>) -> Seq<Name> {
    v.map_values(|n: String| n@)
}

pub open spec fn pairs_view(v: Seq<(String, String)>) -> Seq<Pair> {
    v.map_values(|p: (String, String)| (p.0@, p.1@))
}

pub proof fn pair_lt_irreflexive(a: Pair)
    ensures
        !pair_lt(a, a),
{
    seq_lt_irreflexive(a.0);
    seq_lt_irreflexive(a.1);
}

pub proof fn pair_lt_total(a: Pair, b: Pair)
    ensures
        a == b || pair_lt(a, b) || pair_lt(b, a),
        !(pair_lt(a, b) && pair_lt(b, a)),
{
    seq_lt_total(a.0, b.0);
    seq_lt_total(a.1, b.1);
    seq_lt_irreflexive(a.0);
}

pub proof fn pair_lt_transitive(a: Pair, b: Pair, c: Pair)
    requires
        pair_lt(a, b),
        pair_lt(b, c),
    ensures
        pair_lt(a, c),
{
    if seq_lt(a.0, b.0) && seq_lt(b.0, c.0) {
        seq_lt_transitive(a.0, b.0, c.0);
    } else if seq_lt(a.1, b.1) && seq_lt(b.1, c.1) {
        seq_lt_transitive(a.1, b.1, c.1);
    }
}

/// A strictly ordered sequence holds each name once.
pub proof fn sorted_names_distinct(s: Seq<Name>)
    requires
        names_sorted(s),
    ensures
        s.no_duplicates(),
{
    assert forall|i: int, j: int| 0 <= i < s.len() && 0 <= j < s.len() && i != j implies s[i] != s[j] by {
        if i < j {
            assert(seq_lt(s[i], s[j]));
        } else {
            assert(seq_lt(s[j], s[i]));
        }
        seq_lt_irreflexive(s[i]);
    }
}

pub proof fn sorted_pairs_distinct(s: Seq<Pair>)
    requires
        pairs_sorted(s),
    ensures
        s.no_duplicates(),
{
    assert forall|i: int, j: int| 0 <= i < s.len() && 0 <= j < s.len() && i != j implies s[i] != s[j] by {
        if i < j {
            assert(pair_lt(s[i], s[j]));
        } else {
            assert(pair_lt(s[j], s[i]));
        }
        pair_lt_irreflexive(s[i]);
    }
}

/// Where `key` sits among sorted names: every name before the position sorts
/// before it, and it is either at the position or sorts before everything
/// from there on.
pub open spec fn name_position(s: Seq<Name>, key: Name, at: int, found: bool) -> bool {
    &&& 0 <= at <= s.len()
    &&& forall|k: int| 0 <= k < at ==> seq_lt(#[trigger] s[k], key)
    &&& found ==> at < s.len() && s[at] == key
    &&& !found ==> forall|k: int| at <= k < s.len() ==> seq_lt(key, #[trigger] s[k])
}

pub open spec fn pair_position(s: Seq<Pair>, key: Pair, at: int, found: bool) -> bool {
    &&& 0 <= at <= s.len()
    &&& forall|k: int| 0 <= k < at ==> pair_lt(#[trigger] s[k], key)
    &&& found ==> at < s.len() && s[at] == key
    &&& !found ==> forall|k: int| at <= k < s.len() ==> pair_lt(key, #[trigger] s[k])
}

/// Binary search among sorted names.
pub fn locate_name(names: &Vec<String>, key: &str) -> (r: (usize, bool))
    requires
        names_sorted(names_view(names@)),
    ensures
        name_position(names_view(names@), key@, r.0 as int, r.1),
{
    let ghost s = names_view(names@);
    let mut lo: usize = 0;
    let mut hi: usize = names.len();
    while lo < hi
        invariant
            s == names_view(names@),
            names_sorted(s),
            0 <= lo <= hi <= names@.len(),
            forall|k: int| 0 <= k < lo ==> seq_lt(#[trigger] s[k], key@),
            forall|k: int| hi <= k < s.len() ==> seq_lt(key@, #[trigger] s[k]),
        decreases hi - lo,
    {
        let mid = lo + (hi - lo) / 2;
        let here = names[mid].as_str();
        assert(here@ == s[mid as int]);
        if less_than(here, key) {
            proof {
                assert forall|k: int| 0 <= k <= mid implies seq_lt(#[trigger] s[k], key@) by {
                    if k < mid {
                        seq_lt_transitive(s[k], s[mid as int], key@);
                    }
                }
            }
            lo = mid + 1;
        } else if same_text(here, key) {
            return (mid, true);
        } else {
            proof {
                seq_lt_total(here@, key@);
                assert forall|k: int| mid <= k < s.len() implies seq_lt(key@, #[trigger] s[k]) by {
                    if k > mid {
                        seq_lt_transitive(key@, s[mid as int], s[k]);
                    }
                }
            }
            hi = mid;
        }
    }
    (lo, false)
}

fn pair_less(a: &(String, String), s: &str, t: &str) -> (r: bool)
    ensures
        r == pair_lt((a.0@, a.1@), (s@, t@)),
{
    less_than(a.0.as_str(), s) || (same_text(a.0.as_str(), s) && less_than(a.1.as_str(), t))
}

/// Binary search among sorted pairs.
pub fn locate_pair(pairs: &Vec<(String, String)>, s: &str, t: &str) -> (r: (usize, bool))
    requires
        pairs_sorted(pairs_view(pairs@)),
    ensures
        pair_position(pairs_view(pairs@), (s@, t@), r.0 as int, r.1),
{
    let ghost v = pairs_view(pairs@);
    let ghost key = (s@, t@);
    let mut lo: usize = 0;
    let mut hi: usize = pairs.len();
    while lo < hi
        invariant
            v == pairs_view(pairs@),
            key == (s@, t@),
            pairs_sorted(v),
            0 <= lo <= hi <= pairs@.len(),
            forall|k: int| 0 <= k < lo ==> pair_lt(#[trigger] v[k], key),
            forall|k: int| hi <= k < v.len() ==> pair_lt(key, #[trigger] v[k]),
        decreases hi - lo,
    {
        let mid = lo + (hi - lo) / 2;
        let here = &pairs[mid];
        assert((here.0@, here.1@) == v[mid as int]);
        if pair_less(here, s, t) {
            proof {
                assert forall|k: int| 0 <= k <= mid implies pair_lt(#[trigger] v[k], key) by {
                    if k < mid {
                        pair_lt_transitive(v[k], v[mid as int], key);
                    }
                }
            }
            lo = mid + 1;
        } else if same_text(here.0.as_str(), s) && same_text(here.1.as_str(), t) {
            return (mid, true);
        } else {
            proof {
                pair_lt_total(v[mid as int], key);
                assert forall|k: int| mid <= k < v.len() implies pair_lt(key, #[trigger] v[k]) by {
                    if k > mid {
                        pair_lt_transitive(key, v[mid as int], v[k]);
                    }
                }
            }
            hi = mid;
        }
    }
    (lo, false)
}

/// Putting a name where [`locate_name`] says it goes keeps the order.
pub proof fn insert_keeps_names_sorted(s: Seq<Name>, key: Name, at: int)
    requires
        names_sorted(s),
        name_position(s, key, at, false),
    ensures
        names_sorted(s.insert(at, key)),
{
    let r = s.insert(at, key);
    assert forall|i: int, j: int| 0 <= i < j < r.len() implies seq_lt(#[trigger] r[i], #[trigger] r[j]) by {
        if j < at {
        } else if j == at {
        } else if i < at {
            seq_lt_transitive(s[i], key, s[j - 1]);
        } else if i == at {
        } else {
        }
    }
}

pub proof fn insert_keeps_pairs_sorted(s: Seq<Pair>, key: Pair, at: int)
    requires
        pairs_sorted(s),
        pair_position(s, key, at, false),
    ensures
        pairs_sorted(s.insert(at, key)),
{
    let r = s.insert(at, key);
    assert forall|i: int, j: int| 0 <= i < j < r.len() implies pair_lt(#[trigger] r[i], #[trigger] r[j]) by {
        if j < at {
        } else if j == at {
        } else if i < at {
            pair_lt_transitive(s[i], key, s[j - 1]);
        } else if i == at {
        } else {
        }
    }
}

/// Putting `x` into a sequence adds it and loses nothing.
pub proof fn insert_contains<A>(s: Seq<A>, at: int, x: A, y: A)
    requires
        0 <= at <= s.len(),
    ensures
        s.insert(at, x).contains(y) <==> (s.contains(y) || y == x),
{
    let t = s.insert(at, x);
    if t.contains(y) {
        let k = choose|k: int| 0 <= k < t.len() && t[k] == y;
        if k < at {
            assert(s[k] == y);
        } else if k > at {
            assert(s[k - 1] == y);
        }
    }
    if s.contains(y) {
        let k = choose|k: int| 0 <= k < s.len() && s[k] == y;
        if k < at {
            assert(t[k] == y);
        } else {
            assert(t[k + 1] == y);
        }
    }
    if y == x {
        assert(t[at] == y);
    }
}

/// Adds `x` to a strictly ordered list of names, unless it is there already.
pub fn add_name(order: &mut Vec<String>, x: &String)
    requires
        names_sorted(names_view(old(order)@)),
    ensures
        names_sorted(names_view(final(order)@)),
        forall|y: Name| #[trigger] names_view(final(order)@).contains(y) <==> (names_view(old(order)@).contains(y)
            || y == x@),
{
    let (at, found) = locate_name(order, x.as_str());
    if !found {
        let ghost before = names_view(order@);
        proof {
            insert_keeps_names_sorted(before, x@, at as int);
        }
        order.insert(at, x.clone());
        proof {
            assert(names_view(order@) =~= before.insert(at as int, x@));
            assert forall|y: Name| #[trigger] names_view(order@).contains(y) <==> (before.contains(y) || y == x@) by {
                insert_contains(before, at as int, x@, y);
            }
        }
    } else {
        proof {
            assert(names_view(order@)[at as int] == x@);
        }
    }
}

/// A strictly ordered list holding exactly the names has as many entries as
/// there are names.
pub proof fn count_of_names(order: Seq<Seq<char>>, names: Set<Seq<char>>)
    requires
        names_sorted(order),
        forall|y: Seq<char>| #[trigger] order.contains(y) <==> names.contains(y),
    ensures
        names.len() == order.len(),
        names.finite(),
{
    sorted_names_distinct(order);
    order.unique_seq_to_set();
    assert(order.to_set() =~= names);
}


/// Adds a pair to a strictly ordered list of pairs, unless it is there already.
pub fn add_pair(order: &mut Vec<(String, String)>, x: &(String, String))
    requires
        pairs_sorted(pairs_view(old(order)@)),
    ensures
        pairs_sorted(pairs_view(final(order)@)),
        forall|y: Pair| #[trigger] pairs_view(final(order)@).contains(y) <==> (pairs_view(old(order)@).contains(y)
            || y == (x.0@, x.1@)),
{
    let (at, found) = locate_pair(order, x.0.as_str(), x.1.as_str());
    if !found {
        let ghost before = pairs_view(order@);
        let ghost key = (x.0@, x.1@);
        proof {
            insert_keeps_pairs_sorted(before, key, at as int);
        }
        order.insert(at, (x.0.clone(), x.1.clone()));
        proof {
            assert(pairs_view(order@) =~= before.insert(at as int, key));
            assert forall|y: Pair| #[trigger] pairs_view(order@).contains(y) <==> (before.contains(y) || y == key) by {
                insert_contains(before, at as int, key, y);
            }
        }
    } else {
        proof {
            assert(pairs_view(order@)[at as int] == (x.0@, x.1@));
        }
    }
}

/// Two places holding one value make its count at least two.
pub proof fn multiset_counts_two<A>(s: Seq<A>, i: int, j: int)
    requires
        0 <= i < j < s.len(),
        s[i] == s[j],
    ensures
        s.to_multiset().count(s[i]) >= 2,
{
    broadcast use vstd::seq_lib::group_to_multiset_ensures;

    let rest = s.remove(j);
    assert(rest[i] == s[i]);
    assert(rest.contains(s[i]));
    assert(rest.to_multiset().count(s[i]) >= 1);
    assert(rest.to_multiset() == s.to_multiset().remove(s[j]));
}

/// In a sequence without repeats, each entry occurs once.
pub proof fn multiset_count_one<A>(s: Seq<A>, i: int)
    requires
        0 <= i < s.len(),
        s.no_duplicates(),
    ensures
        s.to_multiset().count(s[i]) == 1,
{
    broadcast use vstd::seq_lib::group_to_multiset_ensures;

    let rest = s.remove(i);
    assert(!rest.contains(s[i])) by {
        if rest.contains(s[i]) {
            let k = choose|k: int| 0 <= k < rest.len() && rest[k] == s[i];
            if k < i {
                assert(rest[k] == s[k]);
            } else {
                assert(rest[k] == s[k + 1]);
            }
        }
    }
    assert(rest.to_multiset().count(s[i]) == 0);
    assert(rest.to_multiset() == s.to_multiset().remove(s[i]));
}
} // verus!
