//! Which pages and lines a graph query draws, decided from the rows the index
//! returned: the links and contents entries this audience may see, the pages
//! they may read, and the pages that matched the filters.
use vstd::prelude::*;
use vstd::hash_map::StringHashMap;

use crate::index::graph::{Graph, GraphEdge, GraphNode};
use crate::index::neighbours::{edge_names, first_reached, hops, listed, names_distinct, neighbourhood};
use crate::markdown::{link_kind_of, LinkKind};
use crate::sorted::{
    add_name, insert_keeps_pairs_sorted, locate_name, locate_pair, names_sorted,
    names_view, pair_lt, pair_lt_irreflexive, pairs_sorted, pairs_view, sorted_pairs_distinct,
    Name, Pair,
};
use crate::text::seq_lt;

verus! {

/// A row of `links`: the page it is written on, its target as written, and
/// its kind as stored.
#[derive(Debug, Clone)]
pub struct LinkRow {
    pub source: String,
    pub target: String,
    pub kind: String,
}

/// A row of `page_parts`: the page whose contents list holds it, and the
/// entry as written, with whether that entry is a slug at all.
#[derive(Debug, Clone)]
pub struct PartRow {
    pub source: String,
    pub target: String,
    pub is_slug: bool,
}

pub open spec fn link_pair(r: LinkRow) -> Pair {
    (r.source@, r.target@)
}

pub open spec fn part_pair(r: PartRow) -> Pair {
    (r.source@, r.target@)
}

/// A link row joins its pair when its kind is one the graph knows.
pub open spec fn link_joins(r: LinkRow) -> bool {
    link_kind_of(r.kind@) is Some
}

/// Whether anything joins `p.0` to `p.1`: a link of a known kind, or a
/// contents entry that is a slug.
pub open spec fn joined(links: Seq<LinkRow>, parts: Seq<PartRow>, p: Pair) -> bool {
    (exists|i: int| 0 <= i < links.len() && link_joins(#[trigger] links[i]) && link_pair(links[i]) == p)
    || (exists|j: int| 0 <= j < parts.len() && (#[trigger] parts[j]).is_slug && part_pair(parts[j]) == p)
}

pub open spec fn joined_set(links: Seq<LinkRow>, parts: Seq<PartRow>) -> Set<Pair> {
    Set::new(|p: Pair| joined(links, parts, p))
}

/// The kinds of the links joining a pair, in row order.
pub open spec fn kinds_of(links: Seq<LinkRow>, p: Pair) -> Seq<LinkKind>
    decreases links.len(),
{
    if links.len() == 0 {
        seq![]
    } else {
        let r = links.last();
        kinds_of(links.drop_last(), p) + (if link_joins(r) && link_pair(r) == p {
            seq![link_kind_of(r.kind@)->0]
        } else {
            seq![]
        })
    }
}

/// Whether some contents entry joins the pair.
pub open spec fn is_part(parts: Seq<PartRow>, p: Pair) -> bool {
    exists|j: int| 0 <= j < parts.len() && (#[trigger] parts[j]).is_slug && part_pair(parts[j]) == p
}

/// Whether a pair ends at `x`.
pub open spec fn ends_at(x: Name) -> spec_fn(Pair) -> bool {
    |p: Pair| p.1 == x
}

/// Whether a pair starts at `x`.
pub open spec fn starts_at(x: Name) -> spec_fn(Pair) -> bool {
    |p: Pair| p.0 == x
}

/// Distinct pages that name `x`.
pub open spec fn inbound_of(links: Seq<LinkRow>, parts: Seq<PartRow>, x: Name) -> nat {
    joined_set(links, parts).filter(ends_at(x)).len()
}

/// Distinct pages `x` names.
pub open spec fn outbound_of(links: Seq<LinkRow>, parts: Seq<PartRow>, x: Name) -> nat {
    joined_set(links, parts).filter(starts_at(x)).len()
}

proof fn kinds_of_absent(links: Seq<LinkRow>, p: Pair)
    requires
        !joined(links, seq![], p),
    ensures
        kinds_of(links, p) == Seq::<LinkKind>::empty(),
    decreases links.len(),
{
    if links.len() > 0 {
        let init = links.drop_last();
        assert(!joined(init, seq![], p)) by {
            if exists|i: int| 0 <= i < init.len() && link_joins(#[trigger] init[i]) && link_pair(init[i]) == p {
                let i = choose|i: int| 0 <= i < init.len() && link_joins(#[trigger] init[i]) && link_pair(init[i]) == p;
                assert(links[i] == init[i]);
            }
        }
        kinds_of_absent(init, p);
        let last = links.len() - 1;
        assert(links[last] == links.last());
        assert(!(link_joins(links.last()) && link_pair(links.last()) == p));
        assert(kinds_of(links, p) =~= Seq::<LinkKind>::empty());
    }
}

proof fn joined_push_link(links: Seq<LinkRow>, n: int, p: Pair)
    requires
        0 <= n < links.len(),
    ensures
        joined(links.take(n + 1), seq![], p) == (joined(links.take(n), seq![], p) || (link_joins(links[n])
            && link_pair(links[n]) == p)),
{
    let a = links.take(n);
    let b = links.take(n + 1);
    if joined(b, seq![], p) {
        let i = choose|i: int| 0 <= i < b.len() && link_joins(#[trigger] b[i]) && link_pair(b[i]) == p;
        if i < n {
            assert(a[i] == b[i]);
        }
    }
    if joined(a, seq![], p) {
        let i = choose|i: int| 0 <= i < a.len() && link_joins(#[trigger] a[i]) && link_pair(a[i]) == p;
        assert(a[i] == b[i]);
    }
    if link_joins(links[n]) && link_pair(links[n]) == p {
        assert(b[n] == links[n]);
    }
}

proof fn joined_push_part(links: Seq<LinkRow>, parts: Seq<PartRow>, m: int, p: Pair)
    requires
        0 <= m < parts.len(),
    ensures
        joined(links, parts.take(m + 1), p) == (joined(links, parts.take(m), p) || (parts[m].is_slug
            && part_pair(parts[m]) == p)),
        is_part(parts.take(m + 1), p) == (is_part(parts.take(m), p) || (parts[m].is_slug && part_pair(
            parts[m],
        ) == p)),
{
    let a = parts.take(m);
    let b = parts.take(m + 1);
    if exists|j: int| 0 <= j < b.len() && (#[trigger] b[j]).is_slug && part_pair(b[j]) == p {
        let j = choose|j: int| 0 <= j < b.len() && (#[trigger] b[j]).is_slug && part_pair(b[j]) == p;
        if j < m {
            assert(a[j] == b[j]);
        }
    }
    if exists|j: int| 0 <= j < a.len() && (#[trigger] a[j]).is_slug && part_pair(a[j]) == p {
        let j = choose|j: int| 0 <= j < a.len() && (#[trigger] a[j]).is_slug && part_pair(a[j]) == p;
        assert(a[j] == b[j]);
    }
    if parts[m].is_slug && part_pair(parts[m]) == p {
        assert(b[m] == parts[m]);
    }
}

proof fn joined_without_parts(links: Seq<LinkRow>, parts: Seq<PartRow>, p: Pair)
    requires
        !joined(links, parts, p),
    ensures
        !joined(links, seq![], p),
{
}

/// What a pair of pages is joined by, collapsed: the pairs in order, and for
/// each the kinds of link and whether it is a contents entry.
pub struct Collapsed {
    pub pairs: Vec<(String, String)>,
    pub kinds: Vec<Vec<LinkKind>>,
    pub part: Vec<bool>,
}

pub open spec fn collapsed_of(c: Collapsed, links: Seq<LinkRow>, parts: Seq<PartRow>) -> bool {
    let v = pairs_view(c.pairs@);
    &&& pairs_sorted(v)
    &&& c.kinds@.len() == v.len()
    &&& c.part@.len() == v.len()
    &&& forall|p: Pair| v.contains(p) <==> joined(links, parts, p)
    &&& forall|k: int| 0 <= k < v.len() ==> (#[trigger] c.kinds@[k])@ == kinds_of(links, v[k])
    &&& forall|k: int| 0 <= k < v.len() ==> #[trigger] c.part@[k] == is_part(parts, v[k])
}

/// Everything joining each ordered pair of pages, one entry per pair.
#[verifier::spinoff_prover]
pub fn collapse(links: &Vec<LinkRow>, parts: &Vec<PartRow>) -> (c: Collapsed)
    ensures
        collapsed_of(c, links@, parts@),
{
    let mut pairs: Vec<(String, String)> = Vec::new();
    let mut kinds: Vec<Vec<LinkKind>> = Vec::new();
    let mut part: Vec<bool> = Vec::new();
    let mut n: usize = 0;
    while n < links.len()
        invariant
            n <= links@.len(),
            collapsed_of(Collapsed { pairs, kinds, part }, links@.take(n as int), seq![]),
        decreases links@.len() - n,
    {
        let ghost ls = links@.take(n as int);
        let ghost v = pairs_view(pairs@);
        let row = &links[n];
        proof {
            assert(links@.take(n + 1).drop_last() =~= ls);
            assert(links@.take(n + 1).last() == links@[n as int]);
            assert forall|p: Pair| #[trigger] joined(links@.take(n + 1), seq![], p) == (joined(ls, seq![], p) || (
            link_joins(links@[n as int]) && link_pair(links@[n as int]) == p)) by {
                joined_push_link(links@, n as int, p);
            }
        }
        match LinkKind::parse(row.kind.as_str()) {
            Some(kind) => {
                let (at, found) = locate_pair(&pairs, row.source.as_str(), row.target.as_str());
                let ghost key = (row.source@, row.target@);
                if found {
                    kinds[at].push(kind);
                    proof {
                        sorted_pairs_distinct(v);
                        assert forall|k: int| 0 <= k < v.len() implies (#[trigger] kinds@[k])@ == kinds_of(
                            links@.take(n + 1),
                            v[k],
                        ) by {
                            if k != at {
                                assert(v[k] != v[at as int]);
                            }
                        }
                        assert forall|p: Pair| v.contains(p) <==> joined(links@.take(n + 1), seq![], p) by {
                            if p == key {
                                assert(v[at as int] == key);
                            }
                        }
                    }
                } else {
                    let s = row.source.clone();
                    let t = row.target.clone();
                    proof {
                        insert_keeps_pairs_sorted(v, key, at as int);
                        assert(!joined(ls, seq![], key)) by {
                            if joined(ls, seq![], key) {
                                assert(v.contains(key));
                                let k = choose|k: int| 0 <= k < v.len() && v[k] == key;
                                pair_lt_irreflexive(key);
                            }
                        }
                        kinds_of_absent(ls, key);
                    }
                    pairs.insert(at, (s, t));
                    kinds.insert(at, vec![kind]);
                    part.insert(at, false);
                    proof {
                        let w = pairs_view(pairs@);
                        assert(w =~= v.insert(at as int, key));
                        assert forall|k: int| 0 <= k < w.len() implies (#[trigger] kinds@[k])@ == kinds_of(
                            links@.take(n + 1),
                            w[k],
                        ) by {
                            if k < at {
                                assert(w[k] == v[k]);
                                assert(v[k] != key) by { pair_lt_irreflexive(key); }
                            } else if k > at {
                                assert(w[k] == v[k - 1]);
                                assert(v[k - 1] != key) by { pair_lt_irreflexive(key); }
                            } else {
                                assert(kinds@[k]@ =~= seq![kind]);
                            }
                        }
                        assert forall|p: Pair| w.contains(p) <==> joined(links@.take(n + 1), seq![], p) by {
                            if w.contains(p) {
                                let k = choose|k: int| 0 <= k < w.len() && w[k] == p;
                                if k < at {
                                    assert(v[k] == p);
                                } else if k > at {
                                    assert(v[k - 1] == p);
                                }
                            }
                            if v.contains(p) {
                                let k = choose|k: int| 0 <= k < v.len() && v[k] == p;
                                if k < at {
                                    assert(w[k] == p);
                                } else {
                                    assert(w[k + 1] == p);
                                }
                            }
                            if p == key {
                                assert(w[at as int] == key);
                            }
                        }
                        assert forall|k: int| 0 <= k < w.len() implies #[trigger] part@[k] == is_part(
                            seq![],
                            w[k],
                        ) by {}
                    }
                }
            },
            None => {
                proof {
                    assert forall|k: int| 0 <= k < v.len() implies (#[trigger] kinds@[k])@ == kinds_of(
                        links@.take(n + 1),
                        v[k],
                    ) by {}
                }
            },
        }
        n = n + 1;
    }
    assert(links@.take(links@.len() as int) =~= links@);
    let mut m: usize = 0;
    while m < parts.len()
        invariant
            m <= parts@.len(),
            collapsed_of(Collapsed { pairs, kinds, part }, links@, parts@.take(m as int)),
        decreases parts@.len() - m,
    {
        let ghost ps = parts@.take(m as int);
        let ghost v = pairs_view(pairs@);
        let row = &parts[m];
        proof {
            assert forall|p: Pair| #[trigger] joined(links@, parts@.take(m + 1), p) == (joined(links@, ps, p) || (
            parts@[m as int].is_slug && part_pair(parts@[m as int]) == p)) by {
                joined_push_part(links@, parts@, m as int, p);
            }
            assert forall|p: Pair| #[trigger] is_part(parts@.take(m + 1), p) == (is_part(ps, p) || (
            parts@[m as int].is_slug && part_pair(parts@[m as int]) == p)) by {
                joined_push_part(links@, parts@, m as int, p);
            }
        }
        if row.is_slug {
            let (at, found) = locate_pair(&pairs, row.source.as_str(), row.target.as_str());
            let ghost key = (row.source@, row.target@);
            if found {
                part.set(at, true);
                proof {
                    sorted_pairs_distinct(v);
                    assert forall|k: int| 0 <= k < v.len() implies #[trigger] part@[k] == is_part(
                        parts@.take(m + 1),
                        v[k],
                    ) by {
                        if k != at {
                            assert(v[k] != v[at as int]);
                        }
                    }
                    assert forall|p: Pair| v.contains(p) <==> joined(links@, parts@.take(m + 1), p) by {
                        if p == key {
                            assert(v[at as int] == key);
                        }
                    }
                }
            } else {
                let s = row.source.clone();
                let t = row.target.clone();
                proof {
                    insert_keeps_pairs_sorted(v, key, at as int);
                    assert(!joined(links@, ps, key)) by {
                        if joined(links@, ps, key) {
                            assert(v.contains(key));
                            let k = choose|k: int| 0 <= k < v.len() && v[k] == key;
                            pair_lt_irreflexive(key);
                            if k < at {
                            } else {
                            }
                        }
                    }
                    joined_without_parts(links@, ps, key);
                    kinds_of_absent(links@, key);
                }
                pairs.insert(at, (s, t));
                kinds.insert(at, Vec::new());
                part.insert(at, true);
                proof {
                    let w = pairs_view(pairs@);
                    assert(w =~= v.insert(at as int, key));
                    assert forall|k: int| 0 <= k < w.len() implies (#[trigger] kinds@[k])@ == kinds_of(
                        links@,
                        w[k],
                    ) by {
                        if k < at {
                            assert(w[k] == v[k]);
                        } else if k > at {
                            assert(w[k] == v[k - 1]);
                        } else {
                            assert(kinds@[k]@ =~= Seq::<LinkKind>::empty());
                        }
                    }
                    assert forall|k: int| 0 <= k < w.len() implies #[trigger] part@[k] == is_part(
                        parts@.take(m + 1),
                        w[k],
                    ) by {
                        if k < at {
                            assert(w[k] == v[k]);
                            assert(v[k] != key) by { pair_lt_irreflexive(key); }
                        } else if k > at {
                            assert(w[k] == v[k - 1]);
                            assert(v[k - 1] != key) by { pair_lt_irreflexive(key); }
                        }
                    }
                    assert forall|p: Pair| w.contains(p) <==> joined(links@, parts@.take(m + 1), p) by {
                        if w.contains(p) {
                            let k = choose|k: int| 0 <= k < w.len() && w[k] == p;
                            if k < at {
                                assert(v[k] == p);
                            } else if k > at {
                                assert(v[k - 1] == p);
                            }
                        }
                        if v.contains(p) {
                            let k = choose|k: int| 0 <= k < v.len() && v[k] == p;
                            if k < at {
                                assert(w[k] == p);
                            } else {
                                assert(w[k + 1] == p);
                            }
                        }
                        if p == key {
                            assert(w[at as int] == key);
                        }
                    }
                }
            }
        } else {
            proof {
                assert forall|k: int| 0 <= k < v.len() implies #[trigger] part@[k] == is_part(
                    parts@.take(m + 1),
                    v[k],
                ) by {}
            }
        }
        m = m + 1;
    }
    assert(parts@.take(parts@.len() as int) =~= parts@);
    Collapsed { pairs, kinds, part }
}

/// How many pairs of `s` satisfy `f`, counted along the sequence.
pub open spec fn count_where(s: Seq<Pair>, f: spec_fn(Pair) -> bool) -> nat
    decreases s.len(),
{
    if s.len() == 0 {
        0
    } else {
        count_where(s.drop_last(), f) + (if f(s.last()) {
            1nat
        } else {
            0nat
        })
    }
}

proof fn count_where_bound(s: Seq<Pair>, f: spec_fn(Pair) -> bool)
    ensures
        count_where(s, f) <= s.len(),
    decreases s.len(),
{
    if s.len() > 0 {
        count_where_bound(s.drop_last(), f);
    }
}

/// Along a sequence holding each pair once, the count is the size of the set.
proof fn count_where_is_set_size(s: Seq<Pair>, f: spec_fn(Pair) -> bool)
    requires
        s.no_duplicates(),
    ensures
        count_where(s, f) == s.to_set().filter(f).len(),
        s.to_set().filter(f).finite(),
    decreases s.len(),
{
    if s.len() == 0 {
        assert(s.to_set().filter(f) =~= Set::<Pair>::empty());
    } else {
        let init = s.drop_last();
        let e = s.last();
        assert(init.no_duplicates()) by {
            assert forall|i: int, j: int| 0 <= i < init.len() && 0 <= j < init.len() && i != j implies init[i] != init[j] by {
                assert(init[i] == s[i] && init[j] == s[j]);
            }
        }
        count_where_is_set_size(init, f);
        assert(s.to_set() =~= init.to_set().insert(e)) by {
            assert forall|p: Pair| s.to_set().contains(p) <==> init.to_set().insert(e).contains(p) by {
                if s.contains(p) {
                    let k = choose|k: int| 0 <= k < s.len() && s[k] == p;
                    if k < s.len() - 1 {
                        assert(init[k] == p);
                    }
                }
                if init.contains(p) {
                    let k = choose|k: int| 0 <= k < init.len() && init[k] == p;
                    assert(s[k] == p);
                }
                if p == e {
                    assert(s[s.len() - 1] == e);
                }
            }
        }
        assert(!init.to_set().contains(e)) by {
            if init.contains(e) {
                let k = choose|k: int| 0 <= k < init.len() && init[k] == e;
                assert(s[k] == s[s.len() - 1]);
            }
        }
        if f(e) {
            assert(s.to_set().filter(f) =~= init.to_set().filter(f).insert(e));
        } else {
            assert(s.to_set().filter(f) =~= init.to_set().filter(f));
        }
    }
}

/// Each name's (inbound, outbound) count over the collapsed pairs.
pub open spec fn degrees_of(d: Map<Name, (usize, usize)>, v: Seq<Pair>) -> bool {
    &&& forall|x: Name| #[trigger] d.contains_key(x) ==> d[x].0 == count_where(v, ends_at(x)) && d[x].1
        == count_where(v, starts_at(x))
    &&& forall|x: Name| !(#[trigger] d.contains_key(x)) ==> count_where(v, ends_at(x)) == 0
        && count_where(v, starts_at(x)) == 0
}

#[verifier::spinoff_prover]
fn count_degrees(pairs: &Vec<(String, String)>) -> (d: StringHashMap<(usize, usize)>)
    ensures
        degrees_of(d@, pairs_view(pairs@)),
{
    let ghost v = pairs_view(pairs@);
    let mut d: StringHashMap<(usize, usize)> = StringHashMap::new();
    let mut k: usize = 0;
    while k < pairs.len()
        invariant
            k <= pairs@.len(),
            v == pairs_view(pairs@),
            degrees_of(d@, v.take(k as int)),
        decreases pairs@.len() - k,
    {
        let ghost before = v.take(k as int);
        let ghost after = v.take(k + 1);
        proof {
            assert(after.drop_last() =~= before);
            assert(after.last() == v[k as int]);
        }
        let (a, b) = (&pairs[k].0, &pairs[k].1);
        let into_b = match d.get(b.as_str()) {
            Some(entry) => *entry,
            None => (0, 0),
        };
        proof {
            count_where_bound(before, ends_at(b@));
            count_where_bound(before, starts_at(b@));
        }
        d.insert(b.clone(), (into_b.0 + 1, into_b.1));
        let from_a = match d.get(a.as_str()) {
            Some(entry) => *entry,
            None => (0, 0),
        };
        proof {
            count_where_bound(before, ends_at(a@));
            count_where_bound(before, starts_at(a@));
        }
        d.insert(a.clone(), (from_a.0, from_a.1 + 1));
        proof {
            assert forall|x: Name| #[trigger] d@.contains_key(x) implies d@[x].0 == count_where(
                after,
                ends_at(x),
            ) && d@[x].1 == count_where(after, starts_at(x)) by {}
            assert forall|x: Name| !(#[trigger] d@.contains_key(x)) implies count_where(after, ends_at(x))
                == 0 && count_where(after, starts_at(x)) == 0 by {}
        }
        k = k + 1;
    }
    assert(v.take(pairs@.len() as int) =~= v);
    d
}

/// What a graph query's rows returned: the links and contents entries this
/// audience may see, the pages they may read with their titles, how far the
/// walk from a root reached (when there was one), the pages that matched the
/// filters, and every visible page's tags.
#[derive(Debug, Clone)]
pub struct GraphRows {
    pub links: Vec<LinkRow>,
    pub parts: Vec<PartRow>,
    pub titles: Vec<(String, String)>,
    pub reached: Option<Vec<(String, usize)>>,
    pub matched: Vec<String>,
    pub tags: Vec<(String, String)>,
}

/// The map some rows describe, a later row for a name overriding an earlier.
pub open spec fn title_map(rows: Seq<(String, String)>) -> Map<Name, String>
    decreases rows.len(),
{
    if rows.len() == 0 {
        Map::empty()
    } else {
        title_map(rows.drop_last()).insert(rows.last().0@, rows.last().1)
    }
}

pub open spec fn reach_map(rows: Seq<(String, usize)>) -> Map<Name, usize>
    decreases rows.len(),
{
    if rows.len() == 0 {
        Map::empty()
    } else {
        reach_map(rows.drop_last()).insert(rows.last().0@, rows.last().1)
    }
}

/// The tags of `x`, in row order.
pub open spec fn tag_list(rows: Seq<(String, String)>, x: Name) -> Seq<Name>
    decreases rows.len(),
{
    if rows.len() == 0 {
        seq![]
    } else {
        tag_list(rows.drop_last(), x) + (if rows.last().0@ == x {
            seq![rows.last().1@]
        } else {
            seq![]
        })
    }
}

pub fn index_titles(rows: &Vec<(String, String)>) -> (m: StringHashMap<String>)
    ensures
        m@ == title_map(rows@),
{
    let mut m: StringHashMap<String> = StringHashMap::new();
    let mut i: usize = 0;
    while i < rows.len()
        invariant
            i <= rows@.len(),
            m@ == title_map(rows@.take(i as int)),
        decreases rows@.len() - i,
    {
        proof {
            assert(rows@.take(i + 1).drop_last() =~= rows@.take(i as int));
        }
        m.insert(rows[i].0.clone(), rows[i].1.clone());
        proof {
            assert(m@ =~= title_map(rows@.take(i + 1)));
        }
        i = i + 1;
    }
    assert(rows@.take(rows@.len() as int) =~= rows@);
    m
}

fn index_reach(rows: &Vec<(String, usize)>) -> (m: StringHashMap<usize>)
    ensures
        m@ == reach_map(rows@),
{
    let mut m: StringHashMap<usize> = StringHashMap::new();
    let mut i: usize = 0;
    while i < rows.len()
        invariant
            i <= rows@.len(),
            m@ == reach_map(rows@.take(i as int)),
        decreases rows@.len() - i,
    {
        proof {
            assert(rows@.take(i + 1).drop_last() =~= rows@.take(i as int));
        }
        m.insert(rows[i].0.clone(), rows[i].1);
        i = i + 1;
    }
    assert(rows@.take(rows@.len() as int) =~= rows@);
    m
}

/// Each named page's tags, held as a position in a list of lists.
pub open spec fn tags_indexed(
    at: Map<Name, usize>,
    lists: Seq<Vec<String>>,
    rows: Seq<(String, String)>,
) -> bool {
    &&& forall|x: Name| #[trigger] at.contains_key(x) ==> at[x] < lists.len() && names_view(
        lists[at[x] as int]@,
    ) == tag_list(rows, x)
    &&& forall|x: Name| !(#[trigger] at.contains_key(x)) ==> tag_list(rows, x) == Seq::<Name>::empty()
    &&& forall|x: Name, y: Name| #[trigger] at.contains_key(x) && #[trigger] at.contains_key(y) && x != y
        ==> at[x] != at[y]
}

#[verifier::spinoff_prover]
fn index_tags(rows: &Vec<(String, String)>) -> (r: (StringHashMap<usize>, Vec<Vec<String>>))
    ensures
        tags_indexed(r.0@, r.1@, rows@),
{
    let mut at: StringHashMap<usize> = StringHashMap::new();
    let mut lists: Vec<Vec<String>> = Vec::new();
    let mut i: usize = 0;
    while i < rows.len()
        invariant
            i <= rows@.len(),
            tags_indexed(at@, lists@, rows@.take(i as int)),
        decreases rows@.len() - i,
    {
        let ghost before = rows@.take(i as int);
        let ghost after = rows@.take(i + 1);
        proof {
            assert(after.drop_last() =~= before);
            assert(after.last() == rows@[i as int]);
        }
        let slug = &rows[i].0;
        let tag = rows[i].1.clone();
        let ghost old_lists = lists@;
        match at.get(slug.as_str()) {
            Some(k) => {
                let k = *k;
                lists[k].push(tag);
                proof {
                    assert forall|x: Name| #[trigger] at@.contains_key(x) implies at@[x] < lists@.len()
                        && names_view(lists@[at@[x] as int]@) == tag_list(after, x) by {
                        if x == slug@ {
                            assert(names_view(lists@[k as int]@) =~= names_view(old_lists[k as int]@).push(tag@));
                        } else {
                            assert(at@[x] != k);
                        }
                    }
                }
            },
            None => {
                let ghost n = lists@.len();
                let mut fresh: Vec<String> = Vec::new();
                fresh.push(tag);
                lists.push(fresh);
                at.insert(slug.clone(), lists.len() - 1);
                proof {
                    assert forall|x: Name| #[trigger] at@.contains_key(x) implies at@[x] < lists@.len()
                        && names_view(lists@[at@[x] as int]@) == tag_list(after, x) by {
                        if x == slug@ {
                            assert(names_view(lists@[n as int]@) =~= seq![tag@]);
                        } else {
                            assert(lists@[at@[x] as int] == old_lists[at@[x] as int]);
                        }
                    }
                }
            },
        }
        i = i + 1;
    }
    assert(rows@.take(rows@.len() as int) =~= rows@);
    (at, lists)
}

/// The collapsed pairs count each joined pair once, so counting along them is
/// counting the wiki's distinct neighbours.
proof fn counts_are_degrees(c: Collapsed, links: Seq<LinkRow>, parts: Seq<PartRow>, x: Name)
    requires
        collapsed_of(c, links, parts),
    ensures
        count_where(pairs_view(c.pairs@), ends_at(x)) == inbound_of(links, parts, x),
        count_where(pairs_view(c.pairs@), starts_at(x)) == outbound_of(links, parts, x),
{
    let v = pairs_view(c.pairs@);
    sorted_pairs_distinct(v);
    assert(v.to_set() =~= joined_set(links, parts));
    count_where_is_set_size(v, ends_at(x));
    count_where_is_set_size(v, starts_at(x));
}

/// Whether the walk from the root reached `x`; everything is reached when
/// there was no root.
pub open spec fn in_reach(r: GraphRows, x: Name) -> bool {
    match r.reached {
        None => true,
        Some(rows) => reach_map(rows@).contains_key(x),
    }
}

pub open spec fn reachable(ms: Seq<String>, r: GraphRows) -> Seq<Name>
    decreases ms.len(),
{
    if ms.len() == 0 {
        seq![]
    } else {
        reachable(ms.drop_last(), r) + (if in_reach(r, ms.last()@) {
            seq![ms.last()@]
        } else {
            seq![]
        })
    }
}

/// The pages that matched the filters and, with a root, the walk reached.
pub open spec fn candidates(r: GraphRows) -> Seq<Name> {
    reachable(r.matched@, r)
}

/// How connected a page is: the distinct pages it names and that name it.
pub open spec fn degree(r: GraphRows, x: Name) -> nat {
    inbound_of(r.links@, r.parts@, x) + outbound_of(r.links@, r.parts@, x)
}

/// Whether `a` survives a cut before `b`: better connected, or as well
/// connected and earlier by slug.
pub open spec fn outranks(r: GraphRows, a: Name, b: Name) -> bool {
    degree(r, a) > degree(r, b) || (degree(r, a) == degree(r, b) && seq_lt(a, b))
}

/// How many of `c` outrank `m`.
pub open spec fn rank_in(r: GraphRows, c: Seq<Name>, m: Name) -> nat
    decreases c.len(),
{
    if c.len() == 0 {
        0
    } else {
        rank_in(r, c.drop_last(), m) + (if outranks(r, c.last(), m) {
            1nat
        } else {
            0nat
        })
    }
}

/// Whether a page is drawn: it is a candidate, and either nothing was cut or
/// fewer than `limit` candidates outrank it.
pub open spec fn kept(r: GraphRows, limit: usize, x: Name) -> bool {
    let c = candidates(r);
    c.contains(x) && (c.len() <= limit || rank_in(r, c, x) < limit)
}

proof fn rank_in_prefix(r: GraphRows, c: Seq<Name>, m: Name, j: int)
    requires
        0 <= j <= c.len(),
    ensures
        rank_in(r, c.take(j), m) <= rank_in(r, c, m),
    decreases c.len(),
{
    if j < c.len() {
        assert(c.drop_last().take(j) =~= c.take(j));
        rank_in_prefix(r, c.drop_last(), m, j);
    } else {
        assert(c.take(j) =~= c);
    }
}

fn degree_at(d: &StringHashMap<(usize, usize)>, x: &str) -> (n: u128)
    ensures
        d@.contains_key(x@) ==> n == d@[x@].0 + d@[x@].1,
        !d@.contains_key(x@) ==> n == 0,
{
    match d.get(x) {
        Some(entry) => entry.0 as u128 + entry.1 as u128,
        None => 0,
    }
}

#[verifier::spinoff_prover]
fn reachable_of(rows: &GraphRows, reach: &Option<StringHashMap<usize>>) -> (c: Vec<String>)
    requires
        match rows.reached {
            None => reach is None,
            Some(rs) => reach matches Some(m) && m@ == reach_map(rs@),
        },
    ensures
        names_view(c@) == candidates(*rows),
{
    let mut c: Vec<String> = Vec::new();
    let mut i: usize = 0;
    while i < rows.matched.len()
        invariant
            i <= rows.matched@.len(),
            match rows.reached {
                None => reach is None,
                Some(rs) => reach matches Some(m) && m@ == reach_map(rs@),
            },
            names_view(c@) == reachable(rows.matched@.take(i as int), *rows),
        decreases rows.matched@.len() - i,
    {
        proof {
            assert(rows.matched@.take(i + 1).drop_last() =~= rows.matched@.take(i as int));
        }
        let m = &rows.matched[i];
        let reached = match reach {
            None => true,
            Some(map) => map.contains_key(m.as_str()),
        };
        if reached {
            c.push(m.clone());
        }
        proof {
            assert(names_view(c@) =~= reachable(rows.matched@.take(i + 1), *rows));
        }
        i = i + 1;
    }
    assert(rows.matched@.take(rows.matched@.len() as int) =~= rows.matched@);
    c
}

#[verifier::spinoff_prover]
fn keep(
    rows: &GraphRows,
    c: &Vec<String>,
    d: &StringHashMap<(usize, usize)>,
    limit: usize,
    Ghost(v): Ghost<Seq<Pair>>,
) -> (pages: StringHashMap<bool>)
    requires
        names_view(c@) == candidates(*rows),
        degrees_of(d@, v),
        forall|x: Name| #[trigger] count_where(v, ends_at(x)) == inbound_of(rows.links@, rows.parts@, x),
        forall|x: Name| #[trigger] count_where(v, starts_at(x)) == outbound_of(rows.links@, rows.parts@, x),
    ensures
        forall|x: Name| #[trigger] pages@.contains_key(x) <==> kept(*rows, limit, x),
{
    let ghost cv = names_view(c@);
    let truncated = c.len() > limit;
    let mut pages: StringHashMap<bool> = StringHashMap::new();
    let mut i: usize = 0;
    while i < c.len()
        invariant
            i <= c@.len(),
            cv == names_view(c@),
            cv == candidates(*rows),
            truncated == (cv.len() > limit),
            degrees_of(d@, v),
            forall|x: Name| #[trigger] count_where(v, ends_at(x)) == inbound_of(rows.links@, rows.parts@, x),
            forall|x: Name| #[trigger] count_where(v, starts_at(x)) == outbound_of(rows.links@, rows.parts@, x),
            forall|x: Name| #[trigger] pages@.contains_key(x) <==> (cv.take(i as int).contains(x) && (
            !truncated || rank_in(*rows, cv, x) < limit)),
        decreases c@.len() - i,
    {
        let m = &c[i];
        let dm = degree_at(d, m.as_str());
        proof {
            assert(dm == degree(*rows, m@));
        }
        let mut keep_it = true;
        if truncated {
            let mut count: usize = 0;
            let mut j: usize = 0;
            while j < c.len() && count < limit
                invariant
                    j <= c@.len(),
                    cv == names_view(c@),
                    count <= j,
                    count == rank_in(*rows, cv.take(j as int), m@),
                    dm == degree(*rows, m@),
                    degrees_of(d@, v),
                    forall|x: Name| #[trigger] count_where(v, ends_at(x)) == inbound_of(rows.links@, rows.parts@, x),
                    forall|x: Name| #[trigger] count_where(v, starts_at(x)) == outbound_of(rows.links@, rows.parts@, x),
                decreases c@.len() - j,
            {
                proof {
                    assert(cv.take(j + 1).drop_last() =~= cv.take(j as int));
                    assert(cv.take(j + 1).last() == c@[j as int]@);
                }
                let o = &c[j];
                let dob = degree_at(d, o.as_str());
                proof {
                    assert(dob == degree(*rows, o@));
                }
                if dob > dm || (dob == dm && crate::text::less_than(o.as_str(), m.as_str())) {
                    count = count + 1;
                }
                j = j + 1;
            }
            proof {
                rank_in_prefix(*rows, cv, m@, j as int);
                if j == c.len() {
                    assert(cv.take(j as int) =~= cv);
                }
            }
            keep_it = count < limit;
        }
        if keep_it {
            pages.insert(m.clone(), true);
        }
        proof {
            assert(cv.take(i + 1) =~= cv.take(i as int).push(m@));
            assert forall|x: Name| #[trigger] pages@.contains_key(x) <==> (cv.take(i + 1).contains(x) && (
            !truncated || rank_in(*rows, cv, x) < limit)) by {
                let pre = cv.take(i + 1);
                if pre.contains(x) && x != m@ {
                    let k = choose|k: int| 0 <= k < pre.len() && #[trigger] pre[k] == x;
                    assert(cv.take(i as int)[k] == x);
                }
                if x == m@ {
                    assert(cv.take(i + 1)[i as int] == x);
                }
            }
        }
        i = i + 1;
    }
    proof {
        assert(cv.take(c@.len() as int) =~= cv);
    }
    pages
}

/// Whether a page that was not kept may still be drawn as a want: wants were
/// asked for, no page this audience can read sits there, and the walk (if
/// any) reached it.
pub open spec fn may_want(r: GraphRows, wanted: bool, x: Name) -> bool {
    wanted && !title_map(r.titles@).contains_key(x) && in_reach(r, x)
}

/// Whether a line is drawn: something joins the pair, its source is a kept
/// page, and its target is a kept page or a want.
pub open spec fn drawn(r: GraphRows, wanted: bool, limit: usize, p: Pair) -> bool {
    joined(r.links@, r.parts@, p) && kept(r, limit, p.0) && (kept(r, limit, p.1) || may_want(
        r,
        wanted,
        p.1,
    ))
}

/// A want the view draws: not a kept page, and the target of a drawn line.
pub open spec fn unwritten(r: GraphRows, wanted: bool, limit: usize, x: Name) -> bool {
    !kept(r, limit, x) && exists|s: Name| #[trigger] drawn(r, wanted, limit, (s, x))
}

pub open spec fn edge_pair(e: GraphEdge) -> Pair {
    (e.source@, e.target@)
}

pub open spec fn edge_pairs(edges: Seq<GraphEdge>) -> Seq<Pair> {
    edges.map_values(|e: GraphEdge| edge_pair(e))
}

/// The lines of the view: one per drawn pair, in order of the pair, each
/// carrying what joins it.
pub open spec fn edges_drawn(r: GraphRows, wanted: bool, limit: usize, edges: Seq<GraphEdge>) -> bool {
    &&& pairs_sorted(edge_pairs(edges))
    &&& forall|i: int| 0 <= i < edges.len() ==> {
        let p = edge_pair(#[trigger] edges[i]);
        &&& drawn(r, wanted, limit, p)
        &&& edges[i].kinds@ == kinds_of(r.links@, p)
        &&& edges[i].part == is_part(r.parts@, p)
    }
    &&& forall|p: Pair| #[trigger] drawn(r, wanted, limit, p) ==> edge_pairs(edges).contains(p)
}

/// What a node says about the page (or want) it stands for.
pub open spec fn node_spec(r: GraphRows, limit: usize, n: GraphNode) -> bool {
    let x = n.slug@;
    let titles = title_map(r.titles@);
    &&& n.exists == kept(r, limit, x)
    &&& n.title@ == (if n.exists && titles.contains_key(x) {
        titles[x]@
    } else {
        x
    })
    &&& n.inbound == inbound_of(r.links@, r.parts@, x)
    &&& n.outbound == outbound_of(r.links@, r.parts@, x)
    &&& names_view(n.tags@) == tag_list(r.tags@, x)
    &&& n.distance == (match r.reached {
        Some(rows) => if reach_map(rows@).contains_key(x) {
            Some(reach_map(rows@)[x])
        } else {
            None
        },
        None => None,
    })
}

pub open spec fn node_slugs(nodes: Seq<GraphNode>) -> Seq<Name> {
    nodes.map_values(|n: GraphNode| n.slug@)
}

fn copy_kinds(v: &Vec<LinkKind>) -> (out: Vec<LinkKind>)
    ensures
        out@ == v@,
{
    let mut out: Vec<LinkKind> = Vec::new();
    let mut i: usize = 0;
    while i < v.len()
        invariant
            i <= v@.len(),
            out@ == v@.take(i as int),
        decreases v@.len() - i,
    {
        out.push(v[i]);
        proof {
            assert(out@ =~= v@.take(i + 1));
        }
        i = i + 1;
    }
    assert(v@.take(v@.len() as int) =~= v@);
    out
}

fn copy_names(v: &Vec<String>) -> (out: Vec<String>)
    ensures
        names_view(out@) == names_view(v@),
{
    let mut out: Vec<String> = Vec::new();
    let mut i: usize = 0;
    while i < v.len()
        invariant
            i <= v@.len(),
            names_view(out@) == names_view(v@).take(i as int),
        decreases v@.len() - i,
    {
        let c = v[i].clone();
        let ghost prev = out@;
        out.push(c);
        proof {
            assert(c@ == v@[i as int]@);
            assert(names_view(out@) =~= names_view(prev).push(c@));
            assert(names_view(out@) =~= names_view(v@).take(i + 1));
        }
        i = i + 1;
    }
    assert(names_view(v@).take(v@.len() as int) =~= names_view(v@));
    out
}

pub open spec fn reach_indexed(r: GraphRows, reach: Option<StringHashMap<usize>>) -> bool {
    match r.reached {
        None => reach is None,
        Some(rs) => reach matches Some(m) && m@ == reach_map(rs@),
    }
}

fn reached_in(reach: &Option<StringHashMap<usize>>, x: &str) -> (b: bool)
    ensures
        b == (match *reach {
            None => true,
            Some(m) => m@.contains_key(x@),
        }),
{
    match reach {
        None => true,
        Some(m) => m.contains_key(x),
    }
}

#[verifier::spinoff_prover]
fn draw_edges(
    rows: &GraphRows,
    col: &Collapsed,
    pages: &StringHashMap<bool>,
    titles: &StringHashMap<String>,
    reach: &Option<StringHashMap<usize>>,
    wanted: bool,
    limit: usize,
) -> (r: (Vec<GraphEdge>, Vec<String>))
    requires
        collapsed_of(*col, rows.links@, rows.parts@),
        forall|x: Name| #[trigger] pages@.contains_key(x) <==> kept(*rows, limit, x),
        titles@ == title_map(rows.titles@),
        reach_indexed(*rows, *reach),
    ensures
        edges_drawn(*rows, wanted, limit, r.0@),
        forall|x: Name| #[trigger] names_view(r.1@).contains(x) <==> unwritten(*rows, wanted, limit, x),
{
    let ghost v = pairs_view(col.pairs@);
    let mut edges: Vec<GraphEdge> = Vec::new();
    let mut unw: Vec<String> = Vec::new();
    let mut seen: StringHashMap<bool> = StringHashMap::new();
    let mut k: usize = 0;
    while k < col.pairs.len()
        invariant
            k <= col.pairs@.len(),
            v == pairs_view(col.pairs@),
            collapsed_of(*col, rows.links@, rows.parts@),
            forall|x: Name| #[trigger] pages@.contains_key(x) <==> kept(*rows, limit, x),
            titles@ == title_map(rows.titles@),
            reach_indexed(*rows, *reach),
            pairs_sorted(edge_pairs(edges@)),
            forall|i: int| 0 <= i < edges@.len() ==> {
                let p = edge_pair(#[trigger] edges@[i]);
                &&& exists|j: int| 0 <= j < k && #[trigger] v[j] == p
                &&& drawn(*rows, wanted, limit, p)
                &&& edges@[i].kinds@ == kinds_of(rows.links@, p)
                &&& edges@[i].part == is_part(rows.parts@, p)
            },
            forall|j: int| 0 <= j < k ==> drawn(*rows, wanted, limit, #[trigger] v[j]) ==> edge_pairs(
                edges@,
            ).contains(v[j]),
            forall|x: Name| #[trigger] seen@.contains_key(x) <==> names_view(unw@).contains(x),
            forall|x: Name| #[trigger] names_view(unw@).contains(x) <==> (!kept(*rows, limit, x) && exists|j: int|
                0 <= j < k && drawn(*rows, wanted, limit, #[trigger] v[j]) && v[j].1 == x),
        decreases col.pairs@.len() - k,
    {
        let a = &col.pairs[k].0;
        let b = &col.pairs[k].1;
        let ghost p = v[k as int];
        proof {
            assert(p == (a@, b@));
            assert(v.contains(p));
        }
        let source_kept = pages.contains_key(a.as_str());
        let target_kept = pages.contains_key(b.as_str());
        let want = wanted && !titles.contains_key(b.as_str()) && reached_in(reach, b.as_str());
        let ghost unw_before = names_view(unw@);
        let ghost edges_before = edges@;
        if source_kept && (target_kept || want) {
            proof {
                assert(drawn(*rows, wanted, limit, p));
            }
            let edge = GraphEdge {
                source: a.clone(),
                target: b.clone(),
                kinds: copy_kinds(&col.kinds[k]),
                part: col.part[k],
            };
            proof {
                assert(edge_pair(edge) == p);
                assert forall|i: int, j: int| 0 <= i < j < edges_before.len() + 1 implies pair_lt(
                    #[trigger] edge_pairs(edges_before.push(edge))[i],
                    #[trigger] edge_pairs(edges_before.push(edge))[j],
                ) by {
                    let w = edge_pairs(edges_before.push(edge));
                    if j == edges_before.len() {
                        let q = edge_pair(edges_before[i]);
                        assert(w[i] == q);
                        let jj = choose|jj: int| 0 <= jj < k && #[trigger] v[jj] == q;
                        assert(pair_lt(v[jj], v[k as int]));
                    } else {
                        assert(w[i] == edge_pairs(edges_before)[i]);
                        assert(w[j] == edge_pairs(edges_before)[j]);
                    }
                }
            }
            edges.push(edge);
            proof {
                assert(edge_pairs(edges@) =~= edge_pairs(edges_before).push(p));
                assert(edge_pairs(edges@)[edges_before.len() as int] == p);
            }
            if !target_kept && !seen.contains_key(b.as_str()) {
                seen.insert(b.clone(), true);
                unw.push(b.clone());
                proof {
                    assert(names_view(unw@) =~= unw_before.push(b@));
                    assert forall|x: Name| #[trigger] names_view(unw@).contains(x) <==> (unw_before.contains(x) || (
                    drawn(*rows, wanted, limit, p) && !kept(*rows, limit, b@) && x == b@)) by {
                        if names_view(unw@).contains(x) && x != b@ {
                            let i = choose|i: int| 0 <= i < names_view(unw@).len() && names_view(unw@)[i] == x;
                            assert(unw_before[i] == x);
                        }
                        if unw_before.contains(x) {
                            let i = choose|i: int| 0 <= i < unw_before.len() && unw_before[i] == x;
                            assert(names_view(unw@)[i] == x);
                        }
                        if x == b@ {
                            assert(names_view(unw@)[unw_before.len() as int] == x);
                        }
                    }
                }
            }
        }
        proof {
            assert forall|x: Name| #[trigger] names_view(unw@).contains(x) <==> (unw_before.contains(x) || (
            drawn(*rows, wanted, limit, p) && !kept(*rows, limit, b@) && x == b@)) by {}
        }
        proof {
            assert forall|i: int| 0 <= i < edges@.len() implies exists|j: int| 0 <= j < k + 1 && #[trigger] v[j]
                == edge_pair(#[trigger] edges@[i]) by {
                if i < edges_before.len() {
                    assert(edges@[i] == edges_before[i]);
                    let jj = choose|jj: int| 0 <= jj < k && #[trigger] v[jj] == edge_pair(edges_before[i]);
                } else {
                    assert(v[k as int] == edge_pair(edges@[i]));
                }
            }
            assert forall|j: int| 0 <= j < k + 1 implies drawn(*rows, wanted, limit, #[trigger] v[j])
                ==> edge_pairs(edges@).contains(v[j]) by {
                if j < k && drawn(*rows, wanted, limit, v[j]) {
                    assert(edge_pairs(edges_before).contains(v[j]));
                    let i = choose|i: int| 0 <= i < edge_pairs(edges_before).len() && edge_pairs(edges_before)[i]
                        == v[j];
                    assert(edge_pairs(edges@)[i] == v[j]);
                }
            }
            assert forall|x: Name| #[trigger] names_view(unw@).contains(x) <==> (!kept(*rows, limit, x) && exists|j: int|
                0 <= j < k + 1 && drawn(*rows, wanted, limit, #[trigger] v[j]) && v[j].1 == x) by {
                if names_view(unw@).contains(x) {
                    if unw_before.contains(x) {
                        let j = choose|j: int| 0 <= j < k && drawn(*rows, wanted, limit, #[trigger] v[j]) && v[j].1 == x;
                    } else {
                        assert(drawn(*rows, wanted, limit, v[k as int]) && v[k as int].1 == x);
                    }
                }
                if !kept(*rows, limit, x) && (exists|j: int|
                0 <= j < k + 1 && drawn(*rows, wanted, limit, #[trigger] v[j]) && v[j].1 == x) {
                    let j = choose|j: int| 0 <= j < k + 1 && drawn(*rows, wanted, limit, #[trigger] v[j]) && v[j].1 == x;
                    if j < k {
                        assert(unw_before.contains(x));
                    } else {
                        assert(x == b@);
                    }
                }
            }
        }
        k = k + 1;
    }
    proof {
        assert forall|p: Pair| #[trigger] drawn(*rows, wanted, limit, p) implies edge_pairs(edges@).contains(p) by {
            assert(v.contains(p));
            let j = choose|j: int| 0 <= j < v.len() && v[j] == p;
        }
        assert forall|x: Name| #[trigger] names_view(unw@).contains(x) <==> unwritten(*rows, wanted, limit, x) by {
            if unwritten(*rows, wanted, limit, x) {
                let s = choose|s: Name| #[trigger] drawn(*rows, wanted, limit, (s, x));
                assert(v.contains((s, x)));
                let j = choose|j: int| 0 <= j < v.len() && v[j] == (s, x);
            }
            if names_view(unw@).contains(x) {
                let j = choose|j: int| 0 <= j < k && drawn(*rows, wanted, limit, #[trigger] v[j]) && v[j].1 == x;
                assert(drawn(*rows, wanted, limit, (v[j].0, x)));
            }
        }
    }
    (edges, unw)
}

/// Every page and want the view draws, in slug order, each once.
#[verifier::spinoff_prover]
fn order_nodes(
    rows: &GraphRows,
    c: &Vec<String>,
    pages: &StringHashMap<bool>,
    unw: &Vec<String>,
    wanted: bool,
    limit: usize,
) -> (order: Vec<String>)
    requires
        names_view(c@) == candidates(*rows),
        forall|x: Name| #[trigger] pages@.contains_key(x) <==> kept(*rows, limit, x),
        forall|x: Name| #[trigger] names_view(unw@).contains(x) <==> unwritten(*rows, wanted, limit, x),
    ensures
        names_sorted(names_view(order@)),
        forall|x: Name| #[trigger] names_view(order@).contains(x) <==> (kept(*rows, limit, x) || unwritten(
            *rows,
            wanted,
            limit,
            x,
        )),
{
    let ghost cv = names_view(c@);
    let ghost uv = names_view(unw@);
    let mut order: Vec<String> = Vec::new();
    let mut i: usize = 0;
    while i < c.len()
        invariant
            i <= c@.len(),
            cv == names_view(c@),
            cv == candidates(*rows),
            forall|x: Name| #[trigger] pages@.contains_key(x) <==> kept(*rows, limit, x),
            names_sorted(names_view(order@)),
            forall|x: Name| #[trigger] names_view(order@).contains(x) <==> (cv.take(i as int).contains(x) && kept(
                *rows,
                limit,
                x,
            )),
        decreases c@.len() - i,
    {
        let ghost pre = cv.take(i as int);
        let ghost post = cv.take(i + 1);
        proof {
            assert(post =~= pre.push(cv[i as int]));
            assert forall|y: Name| post.contains(y) <==> (pre.contains(y) || y == cv[i as int]) by {
                if post.contains(y) {
                    let k = choose|k: int| 0 <= k < post.len() && post[k] == y;
                    if k < i {
                        assert(pre[k] == y);
                    }
                }
                if pre.contains(y) {
                    let k = choose|k: int| 0 <= k < pre.len() && pre[k] == y;
                    assert(post[k] == y);
                }
                if y == cv[i as int] {
                    assert(post[i as int] == y);
                }
            }
        }
        if pages.contains_key(c[i].as_str()) {
            add_name(&mut order, &c[i]);
        }
        i = i + 1;
    }
    proof {
        assert(cv.take(c@.len() as int) =~= cv);
    }
    let mut j: usize = 0;
    while j < unw.len()
        invariant
            j <= unw@.len(),
            uv == names_view(unw@),
            forall|x: Name| #[trigger] uv.contains(x) <==> unwritten(*rows, wanted, limit, x),
            names_sorted(names_view(order@)),
            forall|x: Name| #[trigger] names_view(order@).contains(x) <==> (kept(*rows, limit, x) || uv.take(
                j as int,
            ).contains(x)),
        decreases unw@.len() - j,
    {
        let ghost pre = uv.take(j as int);
        let ghost post = uv.take(j + 1);
        proof {
            assert forall|y: Name| post.contains(y) <==> (pre.contains(y) || y == uv[j as int]) by {
                if post.contains(y) {
                    let k = choose|k: int| 0 <= k < post.len() && post[k] == y;
                    if k < j {
                        assert(pre[k] == y);
                    }
                }
                if pre.contains(y) {
                    let k = choose|k: int| 0 <= k < pre.len() && pre[k] == y;
                    assert(post[k] == y);
                }
                if y == uv[j as int] {
                    assert(post[j as int] == y);
                }
            }
        }
        add_name(&mut order, &unw[j]);
        j = j + 1;
    }
    proof {
        assert(uv.take(unw@.len() as int) =~= uv);
    }
    order
}

#[verifier::spinoff_prover]
fn make_node(
    rows: &GraphRows,
    x: &String,
    pages: &StringHashMap<bool>,
    titles: &StringHashMap<String>,
    d: &StringHashMap<(usize, usize)>,
    tag_at: &StringHashMap<usize>,
    tag_lists: &Vec<Vec<String>>,
    reach: &Option<StringHashMap<usize>>,
    limit: usize,
    Ghost(v): Ghost<Seq<Pair>>,
) -> (n: GraphNode)
    requires
        forall|y: Name| #[trigger] pages@.contains_key(y) <==> kept(*rows, limit, y),
        titles@ == title_map(rows.titles@),
        degrees_of(d@, v),
        forall|y: Name| #[trigger] count_where(v, ends_at(y)) == inbound_of(rows.links@, rows.parts@, y),
        forall|y: Name| #[trigger] count_where(v, starts_at(y)) == outbound_of(rows.links@, rows.parts@, y),
        tags_indexed(tag_at@, tag_lists@, rows.tags@),
        reach_indexed(*rows, *reach),
    ensures
        n.slug@ == x@,
        node_spec(*rows, limit, n),
{
    let exists = pages.contains_key(x.as_str());
    let title = if exists {
        match titles.get(x.as_str()) {
            Some(t) => t.clone(),
            None => x.clone(),
        }
    } else {
        x.clone()
    };
    let (inbound, outbound) = match d.get(x.as_str()) {
        Some(entry) => *entry,
        None => (0, 0),
    };
    let tags = match tag_at.get(x.as_str()) {
        Some(k) => copy_names(&tag_lists[*k]),
        None => Vec::new(),
    };
    proof {
        if !tag_at@.contains_key(x@) {
            assert(names_view(tags@) =~= Seq::<Name>::empty());
        }
    }
    let distance = match reach {
        Some(m) => match m.get(x.as_str()) {
            Some(hops) => Some(*hops),
            None => None,
        },
        None => None,
    };
    GraphNode { slug: x.clone(), title, exists, inbound, outbound, tags, distance }
}

/// The graph a query draws.
///
/// The filters select pages; a line is drawn when both of its ends survived,
/// or when its target is a want; and a want is not a page, so no filter
/// applies to it, only the walk. When more pages matched than `limit`, the
/// best connected survive, ties going to the earlier slug.
#[verifier::spinoff_prover]
pub fn assemble(rows: &GraphRows, wanted: bool, limit: usize) -> (g: Graph)
    ensures
        g.matched == candidates(*rows).len(),
        g.truncated == (candidates(*rows).len() > limit),
        edges_drawn(*rows, wanted, limit, g.edges@),
        names_sorted(node_slugs(g.nodes@)),
        forall|i: int| 0 <= i < g.nodes@.len() ==> node_spec(*rows, limit, #[trigger] g.nodes@[i]),
        forall|x: Name| #[trigger] node_slugs(g.nodes@).contains(x) <==> (kept(*rows, limit, x) || unwritten(
            *rows,
            wanted,
            limit,
            x,
        )),
        shown_pages(g.nodes@) == kept_pages(*rows, limit),
        candidates(*rows).no_duplicates() ==> shown_pages(g.nodes@).len() == (if g.matched <= limit {
            g.matched as int
        } else {
            limit as int
        }),
{
    let col = collapse(&rows.links, &rows.parts);
    let ghost v = pairs_view(col.pairs@);
    let d = count_degrees(&col.pairs);
    proof {
        assert forall|y: Name| #[trigger] count_where(v, ends_at(y)) == inbound_of(rows.links@, rows.parts@, y) by {
            counts_are_degrees(col, rows.links@, rows.parts@, y);
        }
        assert forall|y: Name| #[trigger] count_where(v, starts_at(y)) == outbound_of(rows.links@, rows.parts@, y) by {
            counts_are_degrees(col, rows.links@, rows.parts@, y);
        }
    }
    let titles = index_titles(&rows.titles);
    let reach = match &rows.reached {
        Some(r) => Some(index_reach(r)),
        None => None,
    };
    let c = reachable_of(rows, &reach);
    let pages = keep(rows, &c, &d, limit, Ghost(v));
    let (edges, unw) = draw_edges(rows, &col, &pages, &titles, &reach, wanted, limit);
    let order = order_nodes(rows, &c, &pages, &unw, wanted, limit);
    let (tag_at, tag_lists) = index_tags(&rows.tags);
    let mut nodes: Vec<GraphNode> = Vec::new();
    let mut i: usize = 0;
    while i < order.len()
        invariant
            i <= order@.len(),
            forall|y: Name| #[trigger] pages@.contains_key(y) <==> kept(*rows, limit, y),
            titles@ == title_map(rows.titles@),
            degrees_of(d@, v),
            forall|y: Name| #[trigger] count_where(v, ends_at(y)) == inbound_of(rows.links@, rows.parts@, y),
            forall|y: Name| #[trigger] count_where(v, starts_at(y)) == outbound_of(rows.links@, rows.parts@, y),
            tags_indexed(tag_at@, tag_lists@, rows.tags@),
            reach_indexed(*rows, reach),
            node_slugs(nodes@) == names_view(order@).take(i as int),
            forall|k: int| 0 <= k < nodes@.len() ==> node_spec(*rows, limit, #[trigger] nodes@[k]),
        decreases order@.len() - i,
    {
        let node = make_node(rows, &order[i], &pages, &titles, &d, &tag_at, &tag_lists, &reach, limit, Ghost(v));
        let ghost before = nodes@;
        nodes.push(node);
        proof {
            assert(node_slugs(nodes@) =~= node_slugs(before).push(node.slug@));
            assert(node_slugs(nodes@) =~= names_view(order@).take(i + 1));
        }
        i = i + 1;
    }
    proof {
        assert(names_view(order@).take(order@.len() as int) =~= names_view(order@));
    }
    let matched = c.len();
    proof {
        assert forall|x: Name| #[trigger] shown_pages(nodes@).contains(x) <==> kept_pages(*rows, limit).contains(x) by {
            if kept(*rows, limit, x) {
                assert(node_slugs(nodes@).contains(x));
                let i = choose|i: int| 0 <= i < node_slugs(nodes@).len() && node_slugs(nodes@)[i] == x;
                assert(node_spec(*rows, limit, nodes@[i]));
            }
            if shown_pages(nodes@).contains(x) {
                let i = choose|i: int| 0 <= i < nodes@.len() && (#[trigger] nodes@[i]).slug@ == x && nodes@[i].exists;
                assert(node_spec(*rows, limit, nodes@[i]));
            }
        }
        assert(shown_pages(nodes@) =~= kept_pages(*rows, limit));
        if candidates(*rows).no_duplicates() {
            the_cut_keeps_exactly_the_limit(*rows, limit);
            assert(kept_pages(*rows, limit) =~= Set::new(|x: Name| kept(*rows, limit, x)));
        }
    }
    Graph { nodes, edges, matched, truncated: matched > limit }
}

/// How far a walk of `depth` goes: a depth past `i64::MAX` wraps below zero
/// as the index binds it, which walks no further than the root.
pub open spec fn depth_hops(depth: usize) -> nat {
    if depth <= i64::MAX {
        depth as nat
    } else {
        0
    }
}

/// Whether `rows` hold what a walk from `root` along `edges` finds: each name
/// within `depth` hops, with the fewest hops that reach it.
pub open spec fn walked(rows: Seq<(String, usize)>, edges: Seq<Pair>, root: Name, depth: usize) -> bool {
    &&& forall|x: Name|
        #[trigger] reach_map(rows).contains_key(x) ==> reach_map(rows)[x] <= depth_hops(depth) && first_reached(
            edges,
            root,
            x,
            reach_map(rows)[x] as nat,
        )
    &&& forall|x: Name, d: nat|
        #[trigger] first_reached(edges, root, x, d) && d <= depth_hops(depth) ==> reach_map(rows).contains_key(x)
            && reach_map(rows)[x] == d
}

proof fn reach_map_of_distinct(rows: Seq<(String, usize)>)
    requires
        forall|i: int, j: int| 0 <= i < j < rows.len() ==> (#[trigger] rows[i]).0@ != (#[trigger] rows[j]).0@,
    ensures
        forall|x: Name| #[trigger] reach_map(rows).contains_key(x) <==> exists|i: int| 0 <= i < rows.len() && (#[trigger] rows[i]).0@ == x,
        forall|i: int| 0 <= i < rows.len() ==> reach_map(rows)[(#[trigger] rows[i]).0@] == rows[i].1,
    decreases rows.len(),
{
    if rows.len() > 0 {
        let front = rows.drop_last();
        reach_map_of_distinct(front);
        assert forall|x: Name| #[trigger] reach_map(rows).contains_key(x) <==> exists|i: int| 0 <= i < rows.len() && (#[trigger] rows[i]).0@ == x by {
            if reach_map(front).contains_key(x) {
                let i = choose|i: int| 0 <= i < front.len() && (#[trigger] front[i]).0@ == x;
                assert(rows[i] == front[i]);
            }
            if exists|i: int| 0 <= i < rows.len() && (#[trigger] rows[i]).0@ == x {
                let i = choose|i: int| 0 <= i < rows.len() && (#[trigger] rows[i]).0@ == x;
                if i < rows.len() - 1 {
                    assert(front[i] == rows[i]);
                }
            }
        }
        assert forall|i: int| 0 <= i < rows.len() implies reach_map(rows)[(#[trigger] rows[i]).0@] == rows[i].1 by {
            if i < rows.len() - 1 {
                assert(front[i] == rows[i]);
                assert(rows[i].0@ != rows[rows.len() - 1].0@);
            }
        }
    }
}

/// The distances a view drawn around `root` takes: each name within `depth`
/// hops of it along `edges`, either way, with the fewest hops that reach it.
pub fn walk_rows(edges: &Vec<(String, String)>, root: &str, depth: usize) -> (rows: Vec<(String, usize)>)
    ensures
        walked(rows@, edge_names(edges@), root@, depth),
{
    let bound: i64 = if depth as u64 <= i64::MAX as u64 {
        depth as i64
    } else {
        -1
    };
    assert(hops(bound) == depth_hops(depth));
    let found = neighbourhood(edges, root, bound);
    let mut rows: Vec<(String, usize)> = Vec::new();
    let mut k: usize = 0;
    while k < found.len()
        invariant
            k <= found@.len(),
            names_distinct(found@),
            forall|x: Name, d: nat|
                #![trigger first_reached(edge_names(edges@), root@, x, d)]
                #![trigger listed(found@, x, d)]
                listed(found@, x, d) <==> (d <= hops(bound) && first_reached(edge_names(edges@), root@, x, d)),
            hops(bound) == depth_hops(depth),
            rows@.len() == k,
            forall|i: int| 0 <= i < k ==> (#[trigger] rows@[i]).0@ == found@[i].0@ && rows@[i].1 == found@[i].1,
        decreases found@.len() - k,
    {
        let name = found[k].0.clone();
        let h = found[k].1;
        proof {
            assert(listed(found@, found@[k as int].0@, h as nat));
            assert(first_reached(edge_names(edges@), root@, found@[k as int].0@, h as nat));
            assert(h <= depth);
        }
        rows.push((name, h as usize));
        k = k + 1;
    }
    proof {
        assert forall|i: int, j: int| 0 <= i < j < rows@.len() implies (#[trigger] rows@[i]).0@ != (#[trigger] rows@[j]).0@ by {
            assert(found@[i].0@ != found@[j].0@);
        }
        reach_map_of_distinct(rows@);
        assert forall|x: Name| #[trigger] reach_map(rows@).contains_key(x) implies reach_map(rows@)[x] <= depth_hops(depth)
            && first_reached(edge_names(edges@), root@, x, reach_map(rows@)[x] as nat) by {
            let i = choose|i: int| 0 <= i < rows@.len() && (#[trigger] rows@[i]).0@ == x;
            assert(listed(found@, x, rows@[i].1 as nat));
        }
        assert forall|x: Name, d: nat|
            #[trigger] first_reached(edge_names(edges@), root@, x, d) && d <= depth_hops(depth) implies reach_map(rows@).contains_key(x)
                && reach_map(rows@)[x] == d by {
            assert(listed(found@, x, d));
            let i = choose|i: int| 0 <= i < found@.len() && (#[trigger] found@[i]).0@ == x && found@[i].1 == d;
            assert(rows@[i].0@ == x);
        }
    }
    rows
}


/// In a view drawn around a root, every node the walk reached lies at the
/// fewest hops that reach it, never beyond the depth, and a node the walk did
/// not reach carries no distance.
pub proof fn a_node_lies_at_its_fewest_hops(
    rows: GraphRows,
    edges: Seq<Pair>,
    root: Name,
    depth: usize,
    limit: usize,
    n: GraphNode,
)
    requires
        rows.reached matches Some(w) && walked(w@, edges, root, depth),
        node_spec(rows, limit, n),
    ensures
        n.distance matches Some(d) ==> d <= depth_hops(depth) && first_reached(edges, root, n.slug@, d as nat),
        n.distance is Some <==> in_reach(rows, n.slug@),
        forall|d: nat|
            #[trigger] first_reached(edges, root, n.slug@, d) && d <= depth_hops(depth) ==> n.distance == Some(
                d as usize,
            ),
{
    let w = rows.reached->0;
    let x = n.slug@;
    if reach_map(w@).contains_key(x) {
        assert(first_reached(edges, root, x, reach_map(w@)[x] as nat));
    }
}

/// The pages a view draws as pages that exist.
pub open spec fn shown_pages(nodes: Seq<GraphNode>) -> Set<Name> {
    Set::new(|x: Name| exists|i: int| 0 <= i < nodes.len() && (#[trigger] nodes[i]).slug@ == x && nodes[i].exists)
}

/// The pages a cut to `limit` keeps.
pub open spec fn kept_pages(r: GraphRows, limit: usize) -> Set<Name> {
    Set::new(|x: Name| kept(r, limit, x))
}

proof fn outranks_transitive(r: GraphRows, a: Name, b: Name, c: Name)
    requires
        outranks(r, a, b),
        outranks(r, b, c),
    ensures
        outranks(r, a, c),
{
    if degree(r, a) == degree(r, b) && degree(r, b) == degree(r, c) {
        crate::text::seq_lt_transitive(a, b, c);
    }
}

proof fn rank_in_monotone(r: GraphRows, c: Seq<Name>, a: Name, b: Name)
    requires
        forall|o: Name| outranks(r, o, b) ==> outranks(r, o, a),
    ensures
        rank_in(r, c, b) <= rank_in(r, c, a),
    decreases c.len(),
{
    if c.len() > 0 {
        rank_in_monotone(r, c.drop_last(), a, b);
    }
}

proof fn outranks_total(r: GraphRows, a: Name, b: Name)
    requires
        a != b,
    ensures
        outranks(r, a, b) || outranks(r, b, a),
        !(outranks(r, a, b) && outranks(r, b, a)),
        !outranks(r, a, a),
{
    crate::text::seq_lt_total(a, b);
    crate::text::seq_lt_irreflexive(a);
}

/// A page outranked by another that is a candidate ranks strictly lower.
proof fn rank_in_strict(r: GraphRows, c: Seq<Name>, a: Name, b: Name)
    requires
        outranks(r, a, b),
        c.contains(a),
    ensures
        rank_in(r, c, a) < rank_in(r, c, b),
    decreases c.len(),
{
    crate::text::seq_lt_irreflexive(a);
    assert forall|o: Name| outranks(r, o, a) implies outranks(r, o, b) by {
        outranks_transitive(r, o, a, b);
    }
    let front = c.drop_last();
    if c.last() == a {
        rank_in_monotone(r, front, b, a);
    } else {
        let i = choose|i: int| 0 <= i < c.len() && c[i] == a;
        assert(front[i] == a);
        rank_in_strict(r, front, a, b);
        if outranks(r, c.last(), a) {
            outranks_transitive(r, c.last(), a, b);
        }
    }
}

/// A candidate is outranked by fewer pages than there are candidates.
proof fn rank_in_below(r: GraphRows, c: Seq<Name>, x: Name)
    ensures
        rank_in(r, c, x) <= c.len(),
        c.contains(x) ==> rank_in(r, c, x) < c.len(),
    decreases c.len(),
{
    crate::text::seq_lt_irreflexive(x);
    if c.len() > 0 {
        let front = c.drop_last();
        rank_in_below(r, front, x);
        if c.contains(x) && c.last() != x {
            let i = choose|i: int| 0 <= i < c.len() && c[i] == x;
            assert(front[i] == x);
        }
    }
}

/// A view cut to `limit` pages draws exactly `limit` of them, and every
/// candidate when there are no more than that.
pub proof fn the_cut_keeps_exactly_the_limit(r: GraphRows, limit: usize)
    requires
        candidates(r).no_duplicates(),
    ensures
        Set::new(|x: Name| kept(r, limit, x)).finite(),
        Set::new(|x: Name| kept(r, limit, x)).len() == if candidates(r).len() <= limit {
            candidates(r).len() as int
        } else {
            limit as int
        },
{
    let c = candidates(r);
    let n = c.len() as int;
    let all = c.to_set();
    let k = Set::new(|x: Name| kept(r, limit, x));
    c.unique_seq_to_set();
    assert(forall|x: Name| #[trigger] all.contains(x) <==> c.contains(x));
    if n <= limit {
        assert(k =~= all);
    } else {
        let f = |x: Name| rank_in(r, c, x) as int;
        assert(vstd::relations::injective_on(f, all)) by {
            assert forall|a: Name, b: Name| all.contains(a) && all.contains(b) && #[trigger] f(a) == #[trigger] f(b) implies a == b by {
                if a != b {
                    outranks_total(r, a, b);
                    if outranks(r, a, b) {
                        rank_in_strict(r, c, a, b);
                    } else {
                        rank_in_strict(r, c, b, a);
                    }
                }
            }
        }
        let image = all.map(f);
        vstd::set_lib::lemma_map_size(all, image, f);
        vstd::set_lib::lemma_int_range(0, n);
        assert(image.subset_of(vstd::set_lib::set_int_range(0, n))) by {
            assert forall|i: int| image.contains(i) implies vstd::set_lib::set_int_range(0, n).contains(i) by {
                let x = choose|x: Name| all.contains(x) && f(x) == i;
                rank_in_below(r, c, x);
            }
        }
        vstd::set_lib::lemma_subset_equality(image, vstd::set_lib::set_int_range(0, n));
        assert(k.subset_of(all));
        vstd::set_lib::lemma_len_subset(k, all);
        assert(vstd::relations::injective_on(f, k));
        let low = vstd::set_lib::set_int_range(0, limit as int);
        assert(k.map(f) =~= low) by {
            assert forall|i: int| k.map(f).contains(i) implies low.contains(i) by {
                let x = choose|x: Name| k.contains(x) && f(x) == i;
            }
            assert forall|i: int| low.contains(i) implies k.map(f).contains(i) by {
                assert(vstd::set_lib::set_int_range(0, n).contains(i));
                assert(image.contains(i));
                let x = choose|x: Name| all.contains(x) && f(x) == i;
                assert(k.contains(x));
            }
        }
        vstd::set_lib::lemma_map_size(k, low, f);
        vstd::set_lib::lemma_int_range(0, limit as int);
    }
}

/// When the view is cut to `limit` pages, it keeps the hubs: every page it
/// keeps outranks every candidate it dropped.
pub proof fn the_cut_keeps_the_hubs(r: GraphRows, limit: usize, a: Name, b: Name)
    requires
        kept(r, limit, a),
        candidates(r).contains(b),
        !kept(r, limit, b),
    ensures
        outranks(r, a, b),
{
    if !outranks(r, a, b) {
        crate::text::seq_lt_total(a, b);
        assert(outranks(r, b, a));
        assert forall|o: Name| outranks(r, o, b) implies outranks(r, o, a) by {
            outranks_transitive(r, o, b, a);
        }
        rank_in_monotone(r, candidates(r), a, b);
    }
}

/// Every line drawn joins two nodes of the view: its source is a kept page,
/// and its target is a kept page or a want.
pub proof fn lines_join_nodes(r: GraphRows, wanted: bool, limit: usize, p: Pair)
    requires
        drawn(r, wanted, limit, p),
    ensures
        kept(r, limit, p.0),
        kept(r, limit, p.1) || unwritten(r, wanted, limit, p.1),
{
    if !kept(r, limit, p.1) {
        assert(drawn(r, wanted, limit, (p.0, p.1)));
    }
}

/// A want is not a page: nothing drawn as unwritten is a page this audience
/// can read, and with a root every node, want or page, was reached by the walk.
pub proof fn wants_are_not_pages(r: GraphRows, wanted: bool, limit: usize, x: Name)
    requires
        kept(r, limit, x) || unwritten(r, wanted, limit, x),
    ensures
        unwritten(r, wanted, limit, x) ==> wanted && !title_map(r.titles@).contains_key(x),
        in_reach(r, x),
{
    if unwritten(r, wanted, limit, x) {
        let s = choose|s: Name| #[trigger] drawn(r, wanted, limit, (s, x));
    } else {
        reachable_holds_reached(r.matched@, r, x);
    }
}

proof fn reachable_holds_reached(ms: Seq<String>, r: GraphRows, x: Name)
    requires
        reachable(ms, r).contains(x),
    ensures
        in_reach(r, x),
    decreases ms.len(),
{
    let init = reachable(ms.drop_last(), r);
    if init.contains(x) {
        reachable_holds_reached(ms.drop_last(), r, x);
    } else {
        let k = choose|k: int| 0 <= k < reachable(ms, r).len() && reachable(ms, r)[k] == x;
        assert(k >= init.len());
    }
}

/// Two links of different kinds between one pair of pages are one line.
pub proof fn one_line_per_pair(r: GraphRows, wanted: bool, limit: usize, edges: Seq<GraphEdge>)
    requires
        edges_drawn(r, wanted, limit, edges),
    ensures
        edge_pairs(edges).no_duplicates(),
{
    crate::sorted::sorted_pairs_distinct(edge_pairs(edges));
}

} // verus!