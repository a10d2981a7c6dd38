//! Ranking names by how many distinct others stand beside them: pages by how
//! many pages link to them, tags by how many pages carry them. Most first,
//! and between equals by name.
use vstd::prelude::*;
use vstd::hash_map::StringHashMap;

use crate::sorted::{add_name, count_of_names, names_sorted, names_view};
use crate::text::{less_than, same_text, seq_lt, seq_lt_irreflexive, seq_lt_total, seq_lt_transitive};

verus! {

/// The names recorded beside `key`: the second of each row whose first is
/// `key`.
pub open spec fn members_of(rows: Seq<(String, String)>, key: Seq<char>) -> Set<Seq<char>> {
    Set::new(|m: Seq<char>| exists|i: int| 0 <= i < rows.len() && #[trigger] rows[i].0@ == key && rows[i].1@ == m)
}

/// The names the rows rank: the first of each row.
pub open spec fn keys_of(rows: Seq<(String, String)>) -> Set<Seq<char>> {
    Set::new(|k: Seq<char>| exists|i: int| 0 <= i < rows.len() && #[trigger] rows[i].0@ == k)
}

/// `a` ranks above `b`: more beside it, or as many and an earlier name.
pub open spec fn ranks_above(a: (String, usize), b: (String, usize)) -> bool {
    a.1 > b.1 || (a.1 == b.1 && seq_lt(a.0@, b.0@))
}

/// `r` ranks the rows' names: each once, with how many distinct names stand
/// beside it, each above every one after it.
pub open spec fn is_ranking(r: Seq<(String, usize)>, rows: Seq<(String, String)>) -> bool {
    &&& forall|k: Seq<char>|
        #[trigger] keys_of(rows).contains(k) <==> exists|i: int| 0 <= i < r.len() && #[trigger] r[i].0@ == k
    &&& forall|i: int| 0 <= i < r.len() ==> #[trigger] r[i].1 == members_of(rows, r[i].0@).len()
    &&& forall|i: int, j: int| 0 <= i < j < r.len() ==> ranks_above(#[trigger] r[i], #[trigger] r[j])
}

/// Every name a ranking holds stands beside something, and it never holds one
/// twice.
pub proof fn ranking_is_of_distinct_names(r: Seq<(String, usize)>, rows: Seq<(String, String)>)
    requires
        is_ranking(r, rows),
    ensures
        forall|i: int, j: int| 0 <= i < j < r.len() ==> #[trigger] r[i].0@ != #[trigger] r[j].0@,
{
    assert forall|i: int, j: int| 0 <= i < j < r.len() implies #[trigger] r[i].0@ != #[trigger] r[j].0@ by {
        assert(ranks_above(r[i], r[j]));
        seq_lt_irreflexive(r[i].0@);
    }
}

/// A ranking holds one entry per name it ranks.
pub proof fn ranking_len(r: Seq<(String, usize)>, rows: Seq<(String, String)>)
    requires
        is_ranking(r, rows),
    ensures
        r.len() == keys_of(rows).len(),
        keys_of(rows).finite(),
{
    ranking_is_of_distinct_names(r, rows);
    let names = r.map_values(|e: (String, usize)| e.0@);
    assert forall|a: int, b: int| 0 <= a < names.len() && 0 <= b < names.len() && a != b implies names[a] != names[b] by {
        if a < b {
            assert(r[a].0@ != r[b].0@);
        } else {
            assert(r[b].0@ != r[a].0@);
        }
    }
    names.unique_seq_to_set();
    assert forall|k: Seq<char>| names.to_set().contains(k) <==> keys_of(rows).contains(k) by {
        if names.contains(k) {
            let i = choose|i: int| 0 <= i < names.len() && names[i] == k;
            assert(r[i].0@ == k);
        }
        if keys_of(rows).contains(k) {
            let i = choose|i: int| 0 <= i < r.len() && #[trigger] r[i].0@ == k;
            assert(names[i] == k);
        }
    }
    assert(names.to_set() =~= keys_of(rows));
}

pub open spec fn rank_view(r: Seq<(String, usize)>) -> Seq<(Seq<char>, usize)> {
    r.map_values(|e: (String, usize)| (e.0@, e.1))
}

spec fn above(x: (Seq<char>, usize), y: (Seq<char>, usize)) -> bool {
    x.1 > y.1 || (x.1 == y.1 && seq_lt(x.0, y.0))
}

spec fn strictly_ranked(s: Seq<(Seq<char>, usize)>) -> bool {
    forall|i: int, j: int| 0 <= i < j < s.len() ==> above(#[trigger] s[i], #[trigger] s[j])
}

proof fn above_asymmetric(x: (Seq<char>, usize), y: (Seq<char>, usize))
    ensures
        !(above(x, y) && above(y, x)),
        !above(x, x),
{
    seq_lt_total(x.0, y.0);
    seq_lt_irreflexive(x.0);
}

/// Two strictly ranked sequences holding the same entries are one sequence.
proof fn strictly_ranked_unique(a: Seq<(Seq<char>, usize)>, b: Seq<(Seq<char>, usize)>)
    requires
        strictly_ranked(a),
        strictly_ranked(b),
        forall|x: (Seq<char>, usize)| #[trigger] a.contains(x) <==> b.contains(x),
    ensures
        a == b,
    decreases a.len(),
{
    if a.len() == 0 {
        if b.len() > 0 {
            assert(b.contains(b[0]));
            assert(a.contains(b[0]));
        }
        assert(a =~= b);
    } else {
        assert(a.contains(a[0]));
        let j = choose|j: int| 0 <= j < b.len() && b[j] == a[0];
        if j > 0 {
            assert(above(b[0], b[j]));
            assert(b.contains(b[0]));
            assert(a.contains(b[0]));
            let k = choose|k: int| 0 <= k < a.len() && a[k] == b[0];
            above_asymmetric(b[0], b[j]);
            if k > 0 {
                assert(above(a[0], a[k]));
                above_asymmetric(a[0], b[0]);
            }
        }
        assert(b[0] == a[0]);
        let a1 = a.drop_first();
        let b1 = b.drop_first();
        assert forall|x: (Seq<char>, usize)| #[trigger] a1.contains(x) <==> b1.contains(x) by {
            if a1.contains(x) {
                let k = choose|k: int| 0 <= k < a1.len() && a1[k] == x;
                assert(a[k + 1] == x);
                assert(above(a[0], a[k + 1]));
                above_asymmetric(x, x);
                assert(a.contains(x));
                assert(b.contains(x));
                let m = choose|m: int| 0 <= m < b.len() && b[m] == x;
                assert(m != 0);
                assert(b1[m - 1] == x);
            }
            if b1.contains(x) {
                let k = choose|k: int| 0 <= k < b1.len() && b1[k] == x;
                assert(b[k + 1] == x);
                assert(above(b[0], b[k + 1]));
                above_asymmetric(x, x);
                assert(b.contains(x));
                assert(a.contains(x));
                let m = choose|m: int| 0 <= m < a.len() && a[m] == x;
                assert(m != 0);
                assert(a1[m - 1] == x);
            }
        }
        strictly_ranked_unique(a1, b1);
        assert(a =~= seq![a[0]] + a1);
        assert(b =~= seq![b[0]] + b1);
    }
}

/// A ranking is settled by its rows alone: any two rankings of the same rows
/// hold the same names, with the same counts, in the same places.
pub proof fn rankings_agree(a: Seq<(String, usize)>, b: Seq<(String, usize)>, rows: Seq<(String, String)>)
    requires
        is_ranking(a, rows),
        is_ranking(b, rows),
    ensures
        rank_view(a) == rank_view(b),
{
    let va = rank_view(a);
    let vb = rank_view(b);
    assert forall|i: int, j: int| 0 <= i < j < va.len() implies above(#[trigger] va[i], #[trigger] va[j]) by {
        assert(ranks_above(a[i], a[j]));
    }
    assert forall|i: int, j: int| 0 <= i < j < vb.len() implies above(#[trigger] vb[i], #[trigger] vb[j]) by {
        assert(ranks_above(b[i], b[j]));
    }
    assert forall|x: (Seq<char>, usize)| #[trigger] va.contains(x) <==> vb.contains(x) by {
        if va.contains(x) {
            let i = choose|i: int| 0 <= i < va.len() && va[i] == x;
            assert(a[i].0@ == x.0);
            assert(keys_of(rows).contains(x.0));
            let j = choose|j: int| 0 <= j < b.len() && #[trigger] b[j].0@ == x.0;
            assert(vb[j] == x);
        }
        if vb.contains(x) {
            let i = choose|i: int| 0 <= i < vb.len() && vb[i] == x;
            assert(b[i].0@ == x.0);
            assert(keys_of(rows).contains(x.0));
            let j = choose|j: int| 0 <= j < a.len() && #[trigger] a[j].0@ == x.0;
            assert(va[j] == x);
        }
    }
    strictly_ranked_unique(va, vb);
}

spec fn grouped(groups: Seq<(String, Vec<String>)>, rows: Seq<(String, String)>) -> bool {
    &&& forall|g: int| 0 <= g < groups.len() ==> names_sorted(names_view(#[trigger] groups[g].1@))
    &&& forall|g: int, m: Seq<char>|
        0 <= g < groups.len() ==> (#[trigger] names_view(groups[g].1@).contains(m) <==> members_of(
            rows,
            groups[g].0@,
        ).contains(m))
    &&& forall|a: int, b: int|
        0 <= a < groups.len() && 0 <= b < groups.len() && a != b ==> #[trigger] groups[a].0@
            != #[trigger] groups[b].0@
    &&& forall|k: Seq<char>|
        #[trigger] keys_of(rows).contains(k) <==> exists|g: int| 0 <= g < groups.len() && #[trigger] groups[g].0@ == k
}

proof fn one_more_row(rows: Seq<(String, String)>, row: (String, String), key: Seq<char>, m: Seq<char>)
    ensures
        members_of(rows.push(row), key).contains(m) <==> (members_of(rows, key).contains(m) || (row.0@ == key
            && row.1@ == m)),
        keys_of(rows.push(row)).contains(key) <==> (keys_of(rows).contains(key) || row.0@ == key),
{
    let more = rows.push(row);
    if members_of(more, key).contains(m) {
        let i = choose|i: int| 0 <= i < more.len() && #[trigger] more[i].0@ == key && more[i].1@ == m;
        if i < rows.len() {
            assert(rows[i] == more[i]);
        }
    }
    if members_of(rows, key).contains(m) {
        let i = choose|i: int| 0 <= i < rows.len() && #[trigger] rows[i].0@ == key && rows[i].1@ == m;
        assert(more[i] == rows[i]);
    }
    if row.0@ == key && row.1@ == m {
        assert(more[rows.len() as int] == row);
    }
    if keys_of(more).contains(key) {
        let i = choose|i: int| 0 <= i < more.len() && #[trigger] more[i].0@ == key;
        if i < rows.len() {
            assert(rows[i] == more[i]);
        }
    }
    if keys_of(rows).contains(key) {
        let i = choose|i: int| 0 <= i < rows.len() && #[trigger] rows[i].0@ == key;
        assert(more[i] == rows[i]);
    }
    if row.0@ == key {
        assert(more[rows.len() as int] == row);
    }
}

/// The distinct names beside each of the rows' names.
#[verifier::spinoff_prover]
fn group_rows(rows: &Vec<(String, String)>) -> (groups: Vec<(String, Vec<String>)>)
    ensures
        grouped(groups@, rows@),
{
    let ghost all = rows@;
    let mut groups: Vec<(String, Vec<String>)> = Vec::new();
    let mut index: StringHashMap<usize> = StringHashMap::new();
    let mut i: usize = 0;
    proof {
        assert(all.take(0) =~= Seq::<(String, String)>::empty());
    }
    while i < rows.len()
        invariant
            all == rows@,
            i <= all.len(),
            grouped(groups@, all.take(i as int)),
            forall|k: Seq<char>| #[trigger] index@.contains_key(k) <==> exists|g: int| 0 <= g < groups@.len() && #[trigger] groups@[g].0@ == k,
            forall|k: Seq<char>| #[trigger] index@.contains_key(k) ==> index@[k] < groups@.len() && groups@[index@[k] as int].0@ == k,
        decreases all.len() - i,
    {
        let ghost pre = all.take(i as int);
        let ghost post = all.take(i + 1);
        let ghost before = groups@;
        let ghost row = all[i as int];
        proof {
            assert(post =~= pre.push(row));
        }
        let found = match index.get(rows[i].0.as_str()) {
            Some(g) => Some(*g),
            None => None,
        };
        proof {
            if found is None {
                assert forall|j: int| 0 <= j < groups@.len() implies #[trigger] groups@[j].0@ != row.0@ by {
                    if groups@[j].0@ == row.0@ {
                        assert(index@.contains_key(row.0@));
                    }
                }
            }
        }
        match found {
            Some(g) => {
                add_name(&mut groups[g].1, &rows[i].1);
                proof {
                    assert forall|k: Seq<char>| #[trigger] index@.contains_key(k) implies index@[k] < groups@.len() && groups@[index@[k] as int].0@ == k by {
                        assert(groups@[index@[k] as int].0@ == before[index@[k] as int].0@);
                    }
                    assert forall|k: Seq<char>| #[trigger] index@.contains_key(k) <==> exists|h: int| 0 <= h < groups@.len() && #[trigger] groups@[h].0@ == k by {
                        if exists|h: int| 0 <= h < groups@.len() && #[trigger] groups@[h].0@ == k {
                            let h = choose|h: int| 0 <= h < groups@.len() && #[trigger] groups@[h].0@ == k;
                            assert(before[h].0@ == k);
                        }
                        if index@.contains_key(k) {
                            let h = index@[k] as int;
                            assert(groups@[h].0@ == before[h].0@);
                        }
                    }
                    assert forall|h: int| 0 <= h < groups@.len() implies names_sorted(names_view(#[trigger] groups@[h].1@)) by {
                        if h != g {
                            assert(groups@[h] == before[h]);
                        }
                    }
                    assert forall|h: int, m: Seq<char>|
                        0 <= h < groups@.len() implies (#[trigger] names_view(groups@[h].1@).contains(m) <==> members_of(
                        post,
                        groups@[h].0@,
                    ).contains(m)) by {
                        one_more_row(pre, row, groups@[h].0@, m);
                        if h != g {
                            assert(groups@[h] == before[h]);
                            assert(before[h].0@ != before[g as int].0@);
                        }
                    }
                    assert forall|a: int, b: int|
                        0 <= a < groups@.len() && 0 <= b < groups@.len() && a != b implies #[trigger] groups@[a].0@
                            != #[trigger] groups@[b].0@ by {
                        assert(groups@[a].0@ == before[a].0@);
                        assert(groups@[b].0@ == before[b].0@);
                    }
                    assert forall|k: Seq<char>| #[trigger] keys_of(post).contains(k) <==> exists|h: int| 0 <= h < groups@.len() && #[trigger] groups@[h].0@ == k by {
                        one_more_row(pre, row, k, k);
                        if exists|h: int| 0 <= h < before.len() && #[trigger] before[h].0@ == k {
                            let h = choose|h: int| 0 <= h < before.len() && #[trigger] before[h].0@ == k;
                            assert(groups@[h].0@ == k);
                        }
                        if exists|h: int| 0 <= h < groups@.len() && #[trigger] groups@[h].0@ == k {
                            let h = choose|h: int| 0 <= h < groups@.len() && #[trigger] groups@[h].0@ == k;
                            assert(before[h].0@ == k);
                        }
                    }
                }
            },
            None => {
                let mut members: Vec<String> = Vec::new();
                members.push(rows[i].1.clone());
                groups.push((rows[i].0.clone(), members));
                let ghost old_index = index@;
                index.insert(rows[i].0.clone(), groups.len() - 1);
                proof {
                    let last = before.len() as int;
                    assert forall|k: Seq<char>| #[trigger] index@.contains_key(k) implies index@[k] < groups@.len() && groups@[index@[k] as int].0@ == k by {
                        if k != row.0@ {
                            assert(old_index.contains_key(k));
                            assert(groups@[old_index[k] as int] == before[old_index[k] as int]);
                        }
                    }
                    assert forall|k: Seq<char>| #[trigger] index@.contains_key(k) <==> exists|h: int| 0 <= h < groups@.len() && #[trigger] groups@[h].0@ == k by {
                        if exists|h: int| 0 <= h < groups@.len() && #[trigger] groups@[h].0@ == k {
                            let h = choose|h: int| 0 <= h < groups@.len() && #[trigger] groups@[h].0@ == k;
                            if h != last {
                                assert(before[h].0@ == k);
                                assert(old_index.contains_key(k));
                            }
                        }
                        if index@.contains_key(k) && k != row.0@ {
                            assert(old_index.contains_key(k));
                            let h = choose|h: int| 0 <= h < before.len() && #[trigger] before[h].0@ == k;
                            assert(groups@[h].0@ == k);
                        }
                        if k == row.0@ {
                            assert(groups@[last].0@ == k);
                        }
                    }
                    assert(names_view(groups@[last].1@) =~= seq![row.1@]);
                    if keys_of(pre).contains(row.0@) {
                        let h = choose|h: int| 0 <= h < before.len() && #[trigger] before[h].0@ == row.0@;
                    }
                    assert forall|h: int| 0 <= h < groups@.len() implies names_sorted(names_view(#[trigger] groups@[h].1@)) by {
                        if h != last {
                            assert(groups@[h] == before[h]);
                        }
                    }
                    assert forall|h: int, m: Seq<char>|
                        0 <= h < groups@.len() implies (#[trigger] names_view(groups@[h].1@).contains(m) <==> members_of(
                        post,
                        groups@[h].0@,
                    ).contains(m)) by {
                        one_more_row(pre, row, groups@[h].0@, m);
                        if h != last {
                            assert(groups@[h] == before[h]);
                        } else {
                            if members_of(pre, row.0@).contains(m) {
                                let j = choose|j: int| 0 <= j < pre.len() && #[trigger] pre[j].0@ == row.0@ && pre[j].1@ == m;
                                assert(keys_of(pre).contains(row.0@));
                            }
                            if names_view(groups@[h].1@).contains(m) {
                                assert(names_view(groups@[h].1@)[0] == m);
                            }
                            if m == row.1@ {
                                assert(names_view(groups@[h].1@)[0] == m);
                            }
                        }
                    }
                    assert forall|a: int, b: int|
                        0 <= a < groups@.len() && 0 <= b < groups@.len() && a != b implies #[trigger] groups@[a].0@
                            != #[trigger] groups@[b].0@ by {
                        if a != last && b != last {
                            assert(groups@[a] == before[a]);
                            assert(groups@[b] == before[b]);
                        } else if a == last {
                            assert(groups@[b] == before[b]);
                            assert(before[b].0@ != row.0@);
                        } else {
                            assert(groups@[a] == before[a]);
                            assert(before[a].0@ != row.0@);
                        }
                    }
                    assert forall|k: Seq<char>| #[trigger] keys_of(post).contains(k) <==> exists|h: int| 0 <= h < groups@.len() && #[trigger] groups@[h].0@ == k by {
                        one_more_row(pre, row, k, k);
                        if exists|h: int| 0 <= h < before.len() && #[trigger] before[h].0@ == k {
                            let h = choose|h: int| 0 <= h < before.len() && #[trigger] before[h].0@ == k;
                            assert(groups@[h].0@ == k);
                        }
                        if k == row.0@ {
                            assert(groups@[last].0@ == k);
                        }
                        if exists|h: int| 0 <= h < groups@.len() && #[trigger] groups@[h].0@ == k {
                            let h = choose|h: int| 0 <= h < groups@.len() && #[trigger] groups@[h].0@ == k;
                            if h != last {
                                assert(before[h].0@ == k);
                            }
                        }
                    }
                }
            },
        }
        i = i + 1;
    }
    proof {
        assert(all.take(all.len() as int) =~= all);
    }
    groups
}

proof fn ranks_above_transitive(a: (String, usize), b: (String, usize), c: (String, usize))
    requires
        ranks_above(a, b),
        ranks_above(b, c),
    ensures
        ranks_above(a, c),
{
    if a.1 == b.1 && b.1 == c.1 {
        seq_lt_transitive(a.0@, b.0@, c.0@);
    }
}

proof fn ranks_above_total(a: (String, usize), b: (String, usize))
    requires
        a.0@ != b.0@,
    ensures
        ranks_above(a, b) || ranks_above(b, a),
{
    seq_lt_total(a.0@, b.0@);
}

/// Puts a count for a new name into a ranking.
#[verifier::spinoff_prover]
fn place(ranked: &mut Vec<(String, usize)>, entry: (String, usize))
    requires
        forall|i: int, j: int| 0 <= i < j < old(ranked)@.len() ==> ranks_above(#[trigger] old(ranked)@[i], #[trigger] old(ranked)@[j]),
        forall|k: int| 0 <= k < old(ranked)@.len() ==> #[trigger] old(ranked)@[k].0@ != entry.0@,
    ensures
        forall|i: int, j: int| 0 <= i < j < final(ranked)@.len() ==> ranks_above(#[trigger] final(ranked)@[i], #[trigger] final(ranked)@[j]),
        forall|x: (String, usize)| #[trigger] final(ranked)@.contains(x) <==> (old(ranked)@.contains(x) || x == entry),
{
    let ghost before = ranked@;
    let mut p: usize = 0;
    while p < ranked.len()
        invariant
            ranked@ == before,
            p <= before.len(),
            forall|k: int| 0 <= k < p ==> !ranks_above(entry, #[trigger] before[k]),
        ensures
            p == before.len() || ranks_above(entry, before[p as int]),
        decreases before.len() - p,
    {
        let above = ranked[p].1 < entry.1 || (ranked[p].1 == entry.1 && less_than(entry.0.as_str(), ranked[p].0.as_str()));
        if above {
            break;
        }
        p = p + 1;
    }
    proof {
        let after = before.insert(p as int, entry);
        assert forall|i: int, j: int| 0 <= i < j < after.len() implies ranks_above(#[trigger] after[i], #[trigger] after[j]) by {
            if i < p && j == p {
                assert(after[i] == before[i]);
                ranks_above_total(before[i], entry);
            } else if i == p && j > p {
                assert(after[j] == before[j - 1]);
                if j - 1 > p {
                    ranks_above_transitive(entry, before[p as int], before[j - 1]);
                }
            } else if j < p {
                assert(after[i] == before[i] && after[j] == before[j]);
            } else if i < p {
                assert(after[i] == before[i] && after[j] == before[j - 1]);
            } else {
                assert(after[i] == before[i - 1] && after[j] == before[j - 1]);
            }
        }
        assert forall|x: (String, usize)| #[trigger] after.contains(x) <==> (before.contains(x) || x == entry) by {
            if after.contains(x) {
                let k = choose|k: int| 0 <= k < after.len() && after[k] == x;
                if k < p {
                    assert(before[k] == x);
                } else if k > p {
                    assert(before[k - 1] == x);
                }
            }
            if before.contains(x) {
                let k = choose|k: int| 0 <= k < before.len() && before[k] == x;
                if k < p {
                    assert(after[k] == x);
                } else {
                    assert(after[k + 1] == x);
                }
            }
            if x == entry {
                assert(after[p as int] == x);
            }
        }
    }
    ranked.insert(p, entry);
}

/// Ranks the rows' names by how many distinct names stand beside each.
#[verifier::spinoff_prover]
pub fn rank(rows: &Vec<(String, String)>) -> (ranked: Vec<(String, usize)>)
    ensures
        is_ranking(ranked@, rows@),
{
    let ghost all = rows@;
    let mut groups = group_rows(rows);
    let ghost given = groups@;
    let mut ranked: Vec<(String, usize)> = Vec::new();
    let ghost mut i: int = 0;
    proof {
        assert(given.skip(0) =~= given);
    }
    while groups.len() > 0
        invariant
            0 <= i <= given.len(),
            groups@ == given.skip(i),
            grouped(given, all),
            forall|a: int, b: int| 0 <= a < b < ranked@.len() ==> ranks_above(#[trigger] ranked@[a], #[trigger] ranked@[b]),
            forall|x: (String, usize)| #[trigger] ranked@.contains(x) ==> exists|g: int| 0 <= g < i && #[trigger] given[g].0@ == x.0@ && x.1 == members_of(all, x.0@).len(),
            forall|g: int| 0 <= g < i ==> exists|k: int| 0 <= k < ranked@.len() && #[trigger] ranked@[k].0@ == #[trigger] given[g].0@,
        decreases groups@.len(),
    {
        let ghost g = given[i];
        proof {
            assert(groups@[0] == g);
            assert forall|k: int| 0 <= k < ranked@.len() implies #[trigger] ranked@[k].0@ != g.0@ by {
                assert(ranked@.contains(ranked@[k]));
                let h = choose|h: int| 0 <= h < i && #[trigger] given[h].0@ == ranked@[k].0@ && ranked@[k].1 == members_of(all, ranked@[k].0@).len();
                assert(given[h].0@ != given[i].0@);
            }
            count_of_names(names_view(g.1@), members_of(all, g.0@));
        }
        let (key, members) = groups.remove(0);
        let count = members.len();
        let ghost before = ranked@;
        place(&mut ranked, (key, count));
        proof {
            let entry = (g.0, members.len());
            assert forall|x: (String, usize)| #[trigger] ranked@.contains(x) implies exists|h: int| 0 <= h < i + 1 && #[trigger] given[h].0@ == x.0@ && x.1 == members_of(all, x.0@).len() by {
                if before.contains(x) {
                } else {
                    assert(x.0@ == given[i].0@);
                }
            }
            assert forall|h: int| 0 <= h < i + 1 implies exists|k: int| 0 <= k < ranked@.len() && #[trigger] ranked@[k].0@ == #[trigger] given[h].0@ by {
                if h < i {
                    let k = choose|k: int| 0 <= k < before.len() && #[trigger] before[k].0@ == given[h].0@;
                    assert(before.contains(before[k]));
                    assert(ranked@.contains(before[k]));
                    let k2 = choose|k2: int| 0 <= k2 < ranked@.len() && ranked@[k2] == before[k];
                    assert(ranked@[k2].0@ == given[h].0@);
                } else {
                    assert(ranked@.contains(entry));
                    let k2 = choose|k2: int| 0 <= k2 < ranked@.len() && ranked@[k2] == entry;
                    assert(ranked@[k2].0@ == given[h].0@);
                }
            }
            i = i + 1;
            assert(groups@ =~= given.skip(i));
        }
    }
    proof {
        assert forall|k: Seq<char>| #[trigger] keys_of(all).contains(k) <==> exists|j: int| 0 <= j < ranked@.len() && #[trigger] ranked@[j].0@ == k by {
            if keys_of(all).contains(k) {
                let g = choose|g: int| 0 <= g < given.len() && #[trigger] given[g].0@ == k;
            }
            if exists|j: int| 0 <= j < ranked@.len() && #[trigger] ranked@[j].0@ == k {
                let j = choose|j: int| 0 <= j < ranked@.len() && #[trigger] ranked@[j].0@ == k;
                assert(ranked@.contains(ranked@[j]));
            }
        }
        assert forall|j: int| 0 <= j < ranked@.len() implies #[trigger] ranked@[j].1 == members_of(all, ranked@[j].0@).len() by {
            assert(ranked@.contains(ranked@[j]));
        }
    }
    ranked
}

} // verus!
