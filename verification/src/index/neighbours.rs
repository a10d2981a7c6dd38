//! A page's neighbourhood: every page within some number of hops of it.
//!
//! Direction is ignored on purpose. A page's neighbourhood is what it points
//! at and what points at it, so a walk crosses every edge either way. The root
//! need not be a page that exists: a wanted page has a neighbourhood too, the
//! pages waiting on it.
use vstd::prelude::*;

use crate::sorted::{add_name, locate_name, names_sorted, names_view, Name, Pair};
use crate::text::{seq_lt, seq_lt_irreflexive};

verus! {

/// Whether one edge joins `x` and `y`, in either direction.
pub open spec fn adjacent(edges: Seq<Pair>, x: Name, y: Name) -> bool {
    exists|i: int|
        0 <= i < edges.len() && (((#[trigger] edges[i]).0 == x && edges[i].1 == y) || (edges[i].1
            == x && edges[i].0 == y))
}

/// Each edge by the names it joins.
pub open spec fn edge_names(edges: Seq<(String, String)>) -> Seq<Pair> {
    edges.map_values(|e: (String, String)| (e.0@, e.1@))
}

/// Everything within `n` hops of `root`.
pub open spec fn within(edges: Seq<Pair>, root: Name, n: nat) -> Set<Name>
    decreases n,
{
    if n == 0 {
        set![root]
    } else {
        let inner = within(edges, root, (n - 1) as nat);
        inner.union(Set::new(|y: Name| exists|x: Name| inner.contains(x) && adjacent(edges, x, y)))
    }
}

/// Whether `x` is first reached in exactly `d` hops.
pub open spec fn first_reached(edges: Seq<Pair>, root: Name, x: Name, d: nat) -> bool {
    within(edges, root, d).contains(x) && (d == 0 || !within(edges, root, (d - 1) as nat).contains(x))
}

/// The most hops a walk may take: none when asked for fewer than none.
pub open spec fn hops(depth: i64) -> nat {
    if depth < 0 {
        0
    } else {
        depth as nat
    }
}

/// A walk never loses what it has reached.
pub proof fn within_grows(edges: Seq<Pair>, root: Name, m: nat, n: nat)
    requires
        m <= n,
    ensures
        within(edges, root, m).subset_of(within(edges, root, n)),
    decreases n - m,
{
    if m < n {
        within_grows(edges, root, m, (n - 1) as nat);
    }
}

/// Once a step reaches nothing new, no later step does.
proof fn within_settles(edges: Seq<Pair>, root: Name, n: nat, m: nat)
    requires
        n <= m,
        within(edges, root, n + 1) == within(edges, root, n),
    ensures
        within(edges, root, m) == within(edges, root, n),
    decreases m - n,
{
    if n < m {
        within_settles(edges, root, n, (m - 1) as nat);
        assert(within(edges, root, m) =~= within(edges, root, n + 1));
    }
}

/// A name is first reached at one number of hops at most.
proof fn reached_once(edges: Seq<Pair>, root: Name, x: Name, d: nat, e: nat)
    requires
        first_reached(edges, root, x, d),
        first_reached(edges, root, x, e),
    ensures
        d == e,
{
    if d < e {
        within_grows(edges, root, d, (e - 1) as nat);
    } else if e < d {
        within_grows(edges, root, e, (d - 1) as nat);
    }
}

/// A walk from a neighbour of `start` reaches, with one hop more, whatever a
/// walk from `start` reaches.
proof fn one_hop_further(edges: Seq<Pair>, start: Name, from: Name, x: Name, m: nat)
    requires
        adjacent(edges, from, start),
        within(edges, start, m).contains(x),
    ensures
        within(edges, from, m + 1).contains(x),
    decreases m,
{
    if m == 0 {
        assert(within(edges, from, 0).contains(from));
    } else {
        let inner = within(edges, start, (m - 1) as nat);
        if inner.contains(x) {
            one_hop_further(edges, start, from, x, (m - 1) as nat);
            within_grows(edges, from, m, m + 1);
        } else {
            let w = choose|w: Name| inner.contains(w) && adjacent(edges, w, x);
            one_hop_further(edges, start, from, w, (m - 1) as nat);
        }
    }
}

/// Walks ignore direction, so nearness is mutual: whatever is within `n` hops
/// of a page has that page within `n` hops of it.
pub proof fn nearness_is_mutual(edges: Seq<Pair>, x: Name, y: Name, n: nat)
    requires
        within(edges, x, n).contains(y),
    ensures
        within(edges, y, n).contains(x),
    decreases n,
{
    if n > 0 {
        let inner = within(edges, x, (n - 1) as nat);
        if inner.contains(y) {
            nearness_is_mutual(edges, x, y, (n - 1) as nat);
            within_grows(edges, y, (n - 1) as nat, n);
        } else {
            let z = choose|z: Name| inner.contains(z) && adjacent(edges, z, y);
            nearness_is_mutual(edges, x, z, (n - 1) as nat);
            let i = choose|i: int|
                0 <= i < edges.len() && (((#[trigger] edges[i]).0 == z && edges[i].1 == y) || (edges[i].1
                    == z && edges[i].0 == y));
            assert(adjacent(edges, y, z));
            one_hop_further(edges, z, y, x, (n - 1) as nat);
        }
    } else {
        assert(within(edges, x, 0).contains(y));
    }
}

/// A copy of a list of names.
fn copy_names(names: &Vec<String>) -> (copy: Vec<String>)
    ensures
        names_view(copy@) == names_view(names@),
{
    let mut copy: Vec<String> = Vec::new();
    let mut i: usize = 0;
    while i < names.len()
        invariant
            i <= names@.len(),
            names_view(copy@) == names_view(names@).take(i as int),
        decreases names@.len() - i,
    {
        copy.push(names[i].clone());
        proof {
            assert(names_view(names@).take(i + 1) =~= names_view(names@).take(i as int).push(
                names@[i as int]@,
            ));
        }
        i = i + 1;
    }
    proof {
        assert(names_view(names@).take(i as int) =~= names_view(names@));
    }
    copy
}

fn holds_name(names: &Vec<String>, x: &str) -> (r: bool)
    requires
        names_sorted(names_view(names@)),
    ensures
        r == names_view(names@).contains(x@),
{
    let (at, found) = locate_name(names, x);
    proof {
        if found {
            assert(names_view(names@)[at as int] == x@);
        } else {
            assert forall|j: int| 0 <= j < names@.len() implies names_view(names@)[j] != x@ by {
                seq_lt_irreflexive(x@);
            }
        }
    }
    found
}

/// One more hop from what `current` holds.
#[verifier::spinoff_prover]
fn step(edges: &Vec<(String, String)>, root: Ghost<Name>, n: Ghost<nat>, current: &Vec<String>) -> (next: Vec<String>)
    requires
        names_sorted(names_view(current@)),
        forall|y: Name| #[trigger] names_view(current@).contains(y) <==> within(
edge_names(edges@), root@, n@).contains(y),
    ensures
        names_sorted(names_view(next@)),
        forall|y: Name| #[trigger] names_view(next@).contains(y) <==> within(
            edge_names(edges@),
            root@,
            n@ + 1,
        ).contains(y),
{
    let ghost ev = edge_names(edges@);
    let ghost inner = within(ev, root@, n@);
    let mut next = copy_names(current);
    let mut k: usize = 0;
    while k < edges.len()
        invariant
            k <= edges@.len(),
            ev == edge_names(edges@),
            inner == within(ev, root@, n@),
            names_sorted(names_view(current@)),
            forall|y: Name| #[trigger] names_view(current@).contains(y) <==> inner.contains(y),
            names_sorted(names_view(next@)),
            forall|y: Name| #[trigger]
                names_view(next@).contains(y) <==> (inner.contains(y) || exists|i: int|
                    0 <= i < k && ((inner.contains((#[trigger] ev[i]).0) && ev[i].1 == y) || (
                    inner.contains(ev[i].1) && ev[i].0 == y))),
        decreases edges@.len() - k,
    {
        let (a, b) = (&edges[k].0, &edges[k].1);
        proof {
            assert(ev[k as int] == (a@, b@));
        }
        if holds_name(current, a.as_str()) {
            add_name(&mut next, b);
        }
        if holds_name(current, b.as_str()) {
            add_name(&mut next, a);
        }
        proof {
            assert forall|y: Name| #[trigger]
                names_view(next@).contains(y) <==> (inner.contains(y) || exists|i: int|
                    0 <= i < k + 1 && ((inner.contains((#[trigger] ev[i]).0) && ev[i].1 == y) || (
                    inner.contains(ev[i].1) && ev[i].0 == y))) by {
                if (inner.contains(ev[k as int].0) && ev[k as int].1 == y) || (inner.contains(
                    ev[k as int].1,
                ) && ev[k as int].0 == y) {
                    assert(0 <= k < k + 1);
                }
            }
        }
        k = k + 1;
    }
    proof {
        let outer = within(ev, root@, n@ + 1);
        assert(outer == inner.union(
            Set::new(|y: Name| exists|x: Name| inner.contains(x) && adjacent(ev, x, y)),
        ));
        assert forall|y: Name| #[trigger] names_view(next@).contains(y) <==> outer.contains(y) by {
            if names_view(next@).contains(y) && !inner.contains(y) {
                let i = choose|i: int|
                    0 <= i < k && ((inner.contains((#[trigger] ev[i]).0) && ev[i].1 == y) || (
                    inner.contains(ev[i].1) && ev[i].0 == y));
                if inner.contains(ev[i].0) && ev[i].1 == y {
                    assert(adjacent(ev, ev[i].0, y));
                } else {
                    assert(adjacent(ev, ev[i].1, y));
                }
            }
            if outer.contains(y) && !inner.contains(y) {
                let x = choose|x: Name| inner.contains(x) && adjacent(ev, x, y);
                let i = choose|i: int|
                    0 <= i < ev.len() && (((#[trigger] ev[i]).0 == x && ev[i].1 == y) || (ev[i].1
                        == x && ev[i].0 == y));
                assert(inner.contains(ev[i].0) && ev[i].1 == y || inner.contains(ev[i].1) && ev[i].0 == y);
            }
        }
    }
    next
}

/// Whether `found` lists `x` at `d` hops.
pub open spec fn listed(found: Seq<(String, u64)>, x: Name, d: nat) -> bool {
    exists|i: int| 0 <= i < found.len() && (#[trigger] found[i]).0@ == x && found[i].1 == d
}

pub open spec fn names_distinct(found: Seq<(String, u64)>) -> bool {
    forall|i: int, j: int| 0 <= i < j < found.len() ==> (#[trigger] found[i]).0@ != (#[trigger] found[j]).0@
}

/// Whether `next` holds a name `current` does not.
fn gains(current: &Vec<String>, next: &Vec<String>) -> (r: bool)
    requires
        names_sorted(names_view(current@)),
    ensures
        r == exists|y: Name| #[trigger] names_view(next@).contains(y) && !names_view(current@).contains(y),
{
    let mut i: usize = 0;
    while i < next.len()
        invariant
            i <= next@.len(),
            names_sorted(names_view(current@)),
            forall|m: int| 0 <= m < i ==> names_view(current@).contains(#[trigger] names_view(next@)[m]),
        decreases next@.len() - i,
    {
        if !holds_name(current, next[i].as_str()) {
            proof {
                assert(names_view(next@)[i as int] == next@[i as int]@);
                assert(names_view(next@).contains(next@[i as int]@));
            }
            return true;
        }
        proof {
            assert(names_view(next@)[i as int] == next@[i as int]@);
        }
        i = i + 1;
    }
    proof {
        assert forall|y: Name| #[trigger] names_view(next@).contains(y) implies names_view(current@).contains(y) by {
            let m = choose|m: int| 0 <= m < next@.len() && names_view(next@)[m] == y;
        }
    }
    false
}

/// The fewest hops at which one of `layers` holds `x`, the layers holding
/// everything within each number of hops.
fn hops_to(layers: &Vec<Vec<String>>, x: &str, ev: Ghost<Seq<Pair>>, root: Ghost<Name>) -> (d: u64)
    requires
        layers@.len() > 0,
        layers@.len() <= u64::MAX,
        forall|m: int| 0 <= m < layers@.len() ==> names_sorted(names_view((#[trigger] layers@[m])@)),
        forall|m: int, y: Name|
            0 <= m < layers@.len() ==> (#[trigger] names_view(layers@[m]@).contains(y) <==> within(
                ev@,
                root@,
                m as nat,
            ).contains(y)),
        within(ev@, root@, (layers@.len() - 1) as nat).contains(x@),
    ensures
        d < layers@.len(),
        first_reached(ev@, root@, x@, d as nat),
{
    let count = layers.len();
    let mut m: usize = 0;
    while !holds_name(&layers[m], x)
        invariant
            count == layers@.len(),
            m < layers@.len(),
            forall|k: int| 0 <= k < layers@.len() ==> names_sorted(names_view((#[trigger] layers@[k])@)),
            forall|k: int, y: Name|
                0 <= k < layers@.len() ==> (#[trigger] names_view(layers@[k]@).contains(y) <==> within(
                    ev@,
                    root@,
                    k as nat,
                ).contains(y)),
            within(ev@, root@, (layers@.len() - 1) as nat).contains(x@),
            m == 0 || !within(ev@, root@, (m - 1) as nat).contains(x@),
        decreases layers@.len() - m,
    {
        proof {
            assert(!names_view(layers@[m as int]@).contains(x@));
            if m + 1 == layers@.len() {
                assert(false);
            }
            assert(m + 1 < count);
        }
        m = m + 1;
    }
    proof {
        assert(names_view(layers@[m as int]@).contains(x@));
    }
    m as u64
}

/// Every name within `depth` hops of `root` along `edges`, either way, each
/// once, with the fewest hops that reaches it; the root itself at none.
#[verifier::spinoff_prover]
pub fn neighbourhood(edges: &Vec<(String, String)>, root: &str, depth: i64) -> (found: Vec<(String, u64)>)
    ensures
        names_distinct(found@),
        forall|x: Name, d: nat|
            #![trigger first_reached(edge_names(edges@), root@, x, d)]
            #![trigger listed(found@, x, d)]
            listed(found@, x, d) <==> (d <= hops(depth) && first_reached(edge_names(edges@), root@, x, d)),
{
    let ghost ev = edge_names(edges@);
    let mut current: Vec<String> = Vec::new();
    current.push(root.to_string());
    proof {
        assert(within(ev, root@, 0) == set![root@]);
        assert(names_view(current@) =~= seq![root@]);
        assert forall|y: Name| #[trigger] names_view(current@).contains(y) <==> within(ev, root@, 0).contains(y) by {
            if y == root@ {
                assert(names_view(current@)[0] == y);
            }
        }
    }
    let mut layers: Vec<Vec<String>> = Vec::new();
    layers.push(copy_names(&current));
    let limit: u64 = if depth <= 0 {
        0
    } else {
        depth as u64
    };
    let mut n: u64 = 0;
    let mut settled = false;
    while n < limit && !settled
        invariant
            ev == edge_names(edges@),
            limit == hops(depth),
            n <= limit,
            layers@.len() == n + 1,
            names_sorted(names_view(current@)),
            forall|y: Name| #[trigger] names_view(current@).contains(y) <==> within(ev, root@, n as nat).contains(y),
            forall|m: int| 0 <= m < layers@.len() ==> names_sorted(names_view((#[trigger] layers@[m])@)),
            forall|m: int, y: Name|
                0 <= m < layers@.len() ==> (#[trigger] names_view(layers@[m]@).contains(y) <==> within(
                    ev,
                    root@,
                    m as nat,
                ).contains(y)),
            settled ==> within(ev, root@, (n + 1) as nat) == within(ev, root@, n as nat),
        decreases limit - n + (if settled {
            0int
        } else {
            1int
        }),
    {
        let next = step(edges, Ghost(root@), Ghost(n as nat), &current);
        if !gains(&current, &next) {
            proof {
                within_grows(ev, root@, n as nat, (n + 1) as nat);
                assert(within(ev, root@, (n + 1) as nat) =~= within(ev, root@, n as nat)) by {
                    assert forall|y: Name| within(ev, root@, (n + 1) as nat).contains(y) implies within(
                        ev,
                        root@,
                        n as nat,
                    ).contains(y) by {
                        assert(names_view(next@).contains(y));
                    }
                }
            }
            settled = true;
        } else {
            let ghost before = layers@;
            layers.push(copy_names(&next));
            proof {
                assert forall|m: int| 0 <= m < layers@.len() implies names_sorted(names_view((#[trigger] layers@[m])@)) by {
                    if m < before.len() {
                        assert(layers@[m] == before[m]);
                    }
                }
                assert forall|m: int, y: Name|
                    0 <= m < layers@.len() implies (#[trigger] names_view(layers@[m]@).contains(y) <==> within(
                        ev,
                        root@,
                        m as nat,
                    ).contains(y)) by {
                    if m < before.len() {
                        assert(layers@[m] == before[m]);
                    }
                }
            }
            current = next;
            n = n + 1;
        }
    }
    let mut found: Vec<(String, u64)> = Vec::new();
    let ghost cv = names_view(current@);
    let mut i: usize = 0;
    while i < current.len()
        invariant
            ev == edge_names(edges@),
            cv == names_view(current@),
            names_sorted(cv),
            layers@.len() == n + 1,
            forall|y: Name| #[trigger] cv.contains(y) <==> within(ev, root@, n as nat).contains(y),
            forall|m: int| 0 <= m < layers@.len() ==> names_sorted(names_view((#[trigger] layers@[m])@)),
            forall|m: int, y: Name|
                0 <= m < layers@.len() ==> (#[trigger] names_view(layers@[m]@).contains(y) <==> within(
                    ev,
                    root@,
                    m as nat,
                ).contains(y)),
            n <= limit,
            limit == hops(depth),
            i <= cv.len(),
            found@.len() == i,
            forall|j: int| 0 <= j < i ==> (#[trigger] found@[j]).0@ == cv[j],
            forall|j: int| 0 <= j < i ==> first_reached(ev, root@, cv[j], (#[trigger] found@[j]).1 as nat),
            forall|j: int| 0 <= j < i ==> (#[trigger] found@[j]).1 <= n,
        decreases cv.len() - i,
    {
        let x = &current[i];
        proof {
            assert(cv[i as int] == x@);
            assert(cv.contains(x@));
        }
        let d = hops_to(&layers, x.as_str(), Ghost(ev), Ghost(root@));
        found.push((x.clone(), d));
        i = i + 1;
    }
    proof {
        if settled {
            assert forall|m: nat| n <= m implies within(ev, root@, m) == within(ev, root@, n as nat) by {
                within_settles(ev, root@, n as nat, m);
            }
        }
        assert forall|a: int, b: int| 0 <= a < b < found@.len() implies (#[trigger] found@[a]).0@
            != (#[trigger] found@[b]).0@ by {
            assert(seq_lt(cv[a], cv[b]));
            seq_lt_irreflexive(cv[a]);
        }
        assert forall|x: Name, d: nat|
            #![trigger first_reached(edge_names(edges@), root@, x, d)]
            listed(found@, x, d) <==> (d <= hops(depth) && first_reached(edge_names(edges@), root@, x, d)) by {
            if listed(found@, x, d) {
                let j = choose|j: int| 0 <= j < found@.len() && (#[trigger] found@[j]).0@ == x && found@[j].1 == d;
                assert(first_reached(ev, root@, cv[j], found@[j].1 as nat));
            }
            if d <= hops(depth) && first_reached(ev, root@, x, d) {
                if d > n {
                    within_settles(ev, root@, n as nat, (d - 1) as nat);
                    within_settles(ev, root@, n as nat, d);
                }
                within_grows(ev, root@, d, n as nat);
                assert(cv.contains(x));
                let j = choose|j: int| 0 <= j < cv.len() && cv[j] == x;
                assert(found@[j].0@ == x);
                reached_once(ev, root@, x, d, found@[j].1 as nat);
            }
        }
    }
    found
}

} // verus!
