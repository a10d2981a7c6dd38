//! Listing pages: which pages a listing admits, in what order, and which of
//! them one page of results shows.
//!
//! A slug reads two ways. Hierarchically, `notes/rust` is a directory holding
//! `notes/rust/async`, and stops at the separator, so `notes/rustlings` is
//! somewhere else. Flatly, `rust` is a directory name wherever it occurs, the
//! way a tag is.
use vstd::prelude::*;

use crate::index::{cut_window, window, ListOptions, SortBy, SortOrder};
use crate::slug::Slug;
use crate::sorted::{multiset_count_one, multiset_counts_two, names_view};
use crate::text::{
    chars_of, has_prefix, less_than, same_text, seq_lt, seq_lt_irreflexive, seq_lt_total,
    seq_lt_transitive, string_of_range,
};
use vstd::seq_lib::to_multiset_insert;

verus! {

/// A page's metadata, without its body: what a listing returns. Instants
/// are nanoseconds since the epoch.
#[derive(Debug, Clone, PartialEq, Eq)]
pub struct PageRecord {
    pub slug: Slug,
    pub title: String,
    pub tags: Vec<String>,
    pub created: i128,
    pub updated: i128,
    pub size: u64,
}

#[derive(Debug, Clone)]
pub struct PageList {
    pub pages: Vec<PageRecord>,
    /// Total matching pages, not just the ones on this page of results.
    pub total: usize,
}

/// `slug[i..j]` is one of the directories the slug sits in: a piece that
/// starts the slug or follows a separator, holds none, and has one after it.
pub open spec fn directory_at(slug: Seq<char>, i: int, j: int) -> bool {
    &&& 0 <= i <= j < slug.len()
    &&& slug[j] == '/'
    &&& (i == 0 || slug[i - 1] == '/')
    &&& forall|k: int| i <= k < j ==> slug[k] != '/'
}

/// The slug sits in a directory named `name`, wherever that directory is.
pub open spec fn in_directory(slug: Seq<char>, name: Seq<char>) -> bool {
    exists|i: int, j: int| #[trigger] directory_at(slug, i, j) && slug.subrange(i, j) == name
}

/// The slug is `prefix` itself or sits somewhere beneath it.
pub open spec fn under(slug: Seq<char>, prefix: Seq<char>) -> bool {
    slug == prefix || has_prefix(slug, prefix.push('/'))
}

/// Whether a listing with these options admits the page: it carries the tag,
/// sits at or under the prefix, and sits in a directory of the segment's name.
/// An option left out admits everything, and the options intersect.
pub open spec fn admitted(r: PageRecord, o: ListOptions) -> bool {
    &&& (o.tag matches Some(tag) ==> exists|k: int| 0 <= k < r.tags@.len() && #[trigger] r.tags@[k]@ == tag@)
    &&& (o.prefix matches Some(prefix) ==> under(r.slug@, prefix@))
    &&& (o.segment matches Some(segment) ==> in_directory(r.slug@, segment@))
}

pub open spec fn admits(o: ListOptions) -> spec_fn(PageRecord) -> bool {
    |r: PageRecord| admitted(r, o)
}

/// `a`'s sort key is smaller than `b`'s.
pub open spec fn key_lt(a: PageRecord, b: PageRecord, sort: SortBy) -> bool {
    match sort {
        SortBy::Slug => seq_lt(a.slug@, b.slug@),
        SortBy::Title => seq_lt(a.title@, b.title@),
        SortBy::Created => a.created < b.created,
        SortBy::Updated => a.updated < b.updated,
    }
}

/// `a` and `b` have the same sort key.
pub open spec fn key_eq(a: PageRecord, b: PageRecord, sort: SortBy) -> bool {
    match sort {
        SortBy::Slug => a.slug@ == b.slug@,
        SortBy::Title => a.title@ == b.title@,
        SortBy::Created => a.created == b.created,
        SortBy::Updated => a.updated == b.updated,
    }
}

/// `a` is listed before `b`: by the key in the order asked, and between equal
/// keys by slug.
pub open spec fn listed_before(a: PageRecord, b: PageRecord, sort: SortBy, order: SortOrder) -> bool {
    ||| (order == SortOrder::Ascending && key_lt(a, b, sort))
    ||| (order == SortOrder::Descending && key_lt(b, a, sort))
    ||| (key_eq(a, b, sort) && seq_lt(a.slug@, b.slug@))
}

/// No page is listed before one that precedes it.
pub open spec fn in_listing_order(s: Seq<PageRecord>, sort: SortBy, order: SortOrder) -> bool {
    forall|i: int, j: int| 0 <= i < j < s.len() ==> !listed_before(#[trigger] s[j], #[trigger] s[i], sort, order)
}

proof fn listed_before_irreflexive(a: PageRecord, sort: SortBy, order: SortOrder)
    ensures
        !listed_before(a, a, sort, order),
{
    seq_lt_irreflexive(a.slug@);
    seq_lt_irreflexive(a.title@);
}

proof fn listed_before_transitive(a: PageRecord, b: PageRecord, c: PageRecord, sort: SortBy, order: SortOrder)
    requires
        listed_before(a, b, sort, order),
        listed_before(b, c, sort, order),
    ensures
        listed_before(a, c, sort, order),
{
    if sort == SortBy::Slug {
        if seq_lt(a.slug@, b.slug@) && seq_lt(b.slug@, c.slug@) {
            seq_lt_transitive(a.slug@, b.slug@, c.slug@);
        }
        if seq_lt(c.slug@, b.slug@) && seq_lt(b.slug@, a.slug@) {
            seq_lt_transitive(c.slug@, b.slug@, a.slug@);
        }
    }
    if sort == SortBy::Title {
        if seq_lt(a.title@, b.title@) && seq_lt(b.title@, c.title@) {
            seq_lt_transitive(a.title@, b.title@, c.title@);
        }
        if seq_lt(c.title@, b.title@) && seq_lt(b.title@, a.title@) {
            seq_lt_transitive(c.title@, b.title@, a.title@);
        }
    }
    if key_eq(a, b, sort) && key_eq(b, c, sort) && seq_lt(a.slug@, b.slug@) && seq_lt(b.slug@, c.slug@) {
        seq_lt_transitive(a.slug@, b.slug@, c.slug@);
    }
}

fn listed_first(a: &PageRecord, b: &PageRecord, sort: SortBy, order: SortOrder) -> (r: bool)
    ensures
        r == listed_before(*a, *b, sort, order),
{
    let (a_first, b_first, tied) = match sort {
        SortBy::Slug => (
            less_than(a.slug.as_str(), b.slug.as_str()),
            less_than(b.slug.as_str(), a.slug.as_str()),
            same_text(a.slug.as_str(), b.slug.as_str()),
        ),
        SortBy::Title => (
            less_than(a.title.as_str(), b.title.as_str()),
            less_than(b.title.as_str(), a.title.as_str()),
            same_text(a.title.as_str(), b.title.as_str()),
        ),
        SortBy::Created => (a.created < b.created, b.created < a.created, a.created == b.created),
        SortBy::Updated => (a.updated < b.updated, b.updated < a.updated, a.updated == b.updated),
    };
    let by_key = match order {
        SortOrder::Ascending => a_first,
        SortOrder::Descending => b_first,
    };
    by_key || (tied && less_than(a.slug.as_str(), b.slug.as_str()))
}

/// Puts `r` into an ordered listing, after everything it does not precede.
#[verifier::spinoff_prover]
fn place(listing: &mut Vec<PageRecord>, r: PageRecord, sort: SortBy, order: SortOrder)
    requires
        in_listing_order(old(listing)@, sort, order),
    ensures
        in_listing_order(final(listing)@, sort, order),
        final(listing)@.to_multiset() == old(listing)@.to_multiset().insert(r),
{
    let ghost before = listing@;
    let mut p: usize = 0;
    while p < listing.len()
        invariant
            listing@ == before,
            p <= before.len(),
            forall|k: int| 0 <= k < p ==> !listed_before(r, #[trigger] before[k], sort, order),
        ensures
            p == before.len() || listed_before(r, before[p as int], sort, order),
        decreases before.len() - p,
    {
        if listed_first(&r, &listing[p], sort, order) {
            break;
        }
        p = p + 1;
    }
    proof {
        let after = before.insert(p as int, r);
        assert forall|i: int, j: int| 0 <= i < j < after.len() implies !listed_before(
            #[trigger] after[j],
            #[trigger] after[i],
            sort,
            order,
        ) by {
            if i < p && j == p {
                assert(after[i] == before[i]);
            } else if i == p && j > p {
                assert(after[j] == before[j - 1]);
                if listed_before(before[j - 1], r, sort, order) {
                    listed_before_transitive(before[j - 1], r, before[p as int], sort, order);
                    if j - 1 == p {
                        listed_before_irreflexive(before[p as int], sort, order);
                    }
                }
            } else if j < p {
                assert(after[i] == before[i] && after[j] == before[j]);
            } else if i < p {
                assert(after[i] == before[i] && after[j] == before[j - 1]);
            } else {
                assert(after[i] == before[i - 1] && after[j] == before[j - 1]);
            }
        }
        to_multiset_insert(before, p as int, r);
    }
    listing.insert(p, r);
}

/// The pages in listing order: the same pages, none listed before one it does
/// not precede.
#[verifier::spinoff_prover]
fn order_records(records: Vec<PageRecord>, sort: SortBy, order: SortOrder) -> (listing: Vec<PageRecord>)
    ensures
        in_listing_order(listing@, sort, order),
        listing@.to_multiset() == records@.to_multiset(),
{
    let ghost given = records@;
    let mut rest = records;
    let mut listing: Vec<PageRecord> = Vec::new();
    let ghost mut i: int = 0;
    proof {
        assert(given.skip(0) =~= given);
        assert(given.take(0) =~= Seq::<PageRecord>::empty());
        given.take(0).to_multiset_ensures();
    }
    while rest.len() > 0
        invariant
            0 <= i <= given.len(),
            rest@ == given.skip(i),
            in_listing_order(listing@, sort, order),
            listing@.to_multiset() == given.take(i).to_multiset(),
        decreases rest@.len(),
    {
        proof {
            assert(given.take(i + 1) =~= given.take(i).push(given[i]));
            given.take(i).to_multiset_ensures();
            assert(rest@[0] == given[i]);
        }
        let r = rest.remove(0);
        place(&mut listing, r, sort, order);
        proof {
            i = i + 1;
            assert(rest@ =~= given.skip(i));
        }
    }
    proof {
        assert(given.take(i) =~= given);
    }
    listing
}

/// Whether `chars[from..to]` spells `name`.
fn spells(chars: &Vec<char>, from: usize, to: usize, name: &Vec<char>) -> (b: bool)
    requires
        from <= to <= chars@.len(),
    ensures
        b == (chars@.subrange(from as int, to as int) == name@),
{
    if to - from != name.len() {
        return false;
    }
    let mut k: usize = 0;
    while k < name.len()
        invariant
            from <= to <= chars@.len(),
            to - from == name@.len(),
            k <= name@.len(),
            forall|m: int| 0 <= m < k ==> chars@[from + m] == name@[m],
        decreases name@.len() - k,
    {
        if chars[from + k] != name[k] {
            assert(chars@.subrange(from as int, to as int)[k as int] != name@[k as int]);
            return false;
        }
        k = k + 1;
    }
    assert(chars@.subrange(from as int, to as int) =~= name@);
    true
}

/// Whether the slug sits in a directory named `name`.
#[verifier::spinoff_prover]
pub fn has_directory(slug: &str, name: &str) -> (b: bool)
    ensures
        b == in_directory(slug@, name@),
{
    let chars = chars_of(slug);
    let wanted = chars_of(name);
    let mut start: usize = 0;
    let mut j: usize = 0;
    while j < chars.len()
        invariant
            chars@ == slug@,
            wanted@ == name@,
            start <= j <= chars@.len(),
            start == 0 || chars@[start - 1] == '/',
            forall|k: int| start <= k < j ==> chars@[k] != '/',
            forall|i: int, e: int| #![trigger directory_at(chars@, i, e)]
                e < j && directory_at(chars@, i, e) ==> chars@.subrange(i, e) != name@,
        decreases chars@.len() - j,
    {
        if chars[j] == '/' {
            proof {
                assert(directory_at(chars@, start as int, j as int));
                assert forall|i: int| #![trigger directory_at(chars@, i, j as int)] directory_at(chars@, i, j as int) implies i
                    == start by {
                    if i < start {
                        assert(chars@[start - 1] == '/');
                    } else if i > start {
                        assert(chars@[i - 1] == '/');
                    }
                }
            }
            if spells(&chars, start, j, &wanted) {
                return true;
            }
            start = j + 1;
        }
        j = j + 1;
    }
    proof {
        assert forall|i: int, e: int| #[trigger] directory_at(chars@, i, e) implies chars@.subrange(i, e) != name@ by {
            assert(e < chars@.len());
        }
    }
    false
}

/// Whether the slug is `prefix` or sits beneath it.
#[verifier::spinoff_prover]
pub fn is_under(slug: &str, prefix: &str) -> (b: bool)
    ensures
        b == under(slug@, prefix@),
{
    let chars = chars_of(slug);
    let head = chars_of(prefix);
    if same_text(slug, prefix) {
        return true;
    }
    if chars.len() <= head.len() {
        proof {
            assert(!has_prefix(chars@, head@.push('/')));
        }
        return false;
    }
    let matches = spells(&chars, 0, head.len(), &head) && chars[head.len()] == '/';
    proof {
        let marked = head@.push('/');
        if matches {
            assert(chars@.take(marked.len() as int) =~= marked);
        } else if has_prefix(chars@, marked) {
            assert(chars@.take(marked.len() as int)[head@.len() as int] == '/');
            assert(chars@.subrange(0, head@.len() as int) =~= head@) by {
                assert forall|m: int| 0 <= m < head@.len() implies chars@.subrange(0, head@.len() as int)[m] == head@[m] by {
                    assert(chars@.take(marked.len() as int)[m] == marked[m]);
                }
            }
        }
    }
    matches
}

fn carries(tags: &Vec<String>, tag: &str) -> (b: bool)
    ensures
        b == exists|k: int| 0 <= k < tags@.len() && #[trigger] tags@[k]@ == tag@,
{
    let mut i: usize = 0;
    while i < tags.len()
        invariant
            i <= tags@.len(),
            forall|k: int| 0 <= k < i ==> #[trigger] tags@[k]@ != tag@,
        decreases tags@.len() - i,
    {
        if same_text(tags[i].as_str(), tag) {
            return true;
        }
        i = i + 1;
    }
    false
}

fn admits_record(r: &PageRecord, o: &ListOptions) -> (b: bool)
    ensures
        b == admitted(*r, *o),
{
    let tagged = match &o.tag {
        Some(tag) => carries(&r.tags, tag.as_str()),
        None => true,
    };
    let beneath = match &o.prefix {
        Some(prefix) => is_under(r.slug.as_str(), prefix.as_str()),
        None => true,
    };
    let inside = match &o.segment {
        Some(segment) => has_directory(r.slug.as_str(), segment.as_str()),
        None => true,
    };
    tagged && beneath && inside
}

/// The pages a listing admits, in the order given.
#[verifier::spinoff_prover]
fn admitted_records(records: Vec<PageRecord>, o: &ListOptions) -> (kept: Vec<PageRecord>)
    ensures
        kept@ == records@.filter(admits(*o)),
{
    let ghost given = records@;
    let ghost pred = admits(*o);
    let mut rest = records;
    let mut kept: Vec<PageRecord> = Vec::new();
    let ghost mut i: int = 0;
    proof {
        assert(given.skip(0) =~= given);
        assert(given.take(0) =~= Seq::<PageRecord>::empty());
        reveal(Seq::filter);
        assert(given.take(0).filter(pred) =~= Seq::<PageRecord>::empty());
    }
    while rest.len() > 0
        invariant
            0 <= i <= given.len(),
            pred == admits(*o),
            rest@ == given.skip(i),
            kept@ == given.take(i).filter(pred),
        decreases rest@.len(),
    {
        proof {
            assert(given.take(i + 1) =~= given.take(i).push(given[i]));
            given.take(i).lemma_filter_push(given[i], pred);
            assert(rest@[0] == given[i]);
        }
        let r = rest.remove(0);
        if admits_record(&r, o) {
            kept.push(r);
        }
        proof {
            i = i + 1;
            assert(rest@ =~= given.skip(i));
        }
    }
    proof {
        assert(given.take(i) =~= given);
    }
    kept
}

/// One page of the wiki's pages, without their bodies, from every page the
/// index holds. `total` counts every page the options admit, and `pages` is
/// the page of them that `offset` and `limit` pick out of those pages in
/// listing order.
pub fn list(records: Vec<PageRecord>, options: ListOptions) -> (l: PageList)
    ensures
        l.total == records@.filter(admits(options)).len(),
        exists|s: Seq<PageRecord>|
            #![trigger in_listing_order(s, options.sort, options.order)]
            in_listing_order(s, options.sort, options.order) && s.to_multiset() == records@.filter(
                admits(options),
            ).to_multiset() && l.pages@ == window(s, options.offset, options.limit),
{
    let kept = admitted_records(records, &options);
    let total = kept.len();
    let listing = order_records(kept, options.sort, options.order);
    let pages = cut_window(listing, options.offset, options.limit);
    PageList { pages, total }
}


/// The positions of the separators among the first `n` characters, in order.
pub open spec fn separators(s: Seq<char>, n: int) -> Seq<int>
    decreases n,
{
    if n <= 0 {
        seq![]
    } else if s[n - 1] == '/' {
        separators(s, n - 1).push(n - 1)
    } else {
        separators(s, n - 1)
    }
}

/// Where the `k`th directory among the first `n` characters starts: at the
/// start of the slug, or just past the separator before it.
pub open spec fn piece_start(s: Seq<char>, n: int, k: int) -> int {
    if k == 0 {
        0
    } else {
        separators(s, n)[k - 1] + 1
    }
}

/// The directories a slug sits in, outermost first: each piece the slug has
/// before a separator. `notes/rust/async` sits in `notes`, then `rust`.
pub open spec fn directories_of(s: Seq<char>) -> Seq<Seq<char>> {
    Seq::new(
        separators(s, s.len() as int).len(),
        |k: int| s.subrange(piece_start(s, s.len() as int, k), separators(s, s.len() as int)[k]),
    )
}

proof fn separators_facts(s: Seq<char>, n: int)
    requires
        0 <= n <= s.len(),
    ensures
        forall|k: int| 0 <= k < separators(s, n).len() ==> 0 <= #[trigger] separators(s, n)[k] < n && s[separators(s, n)[k]] == '/',
        forall|a: int, b: int| 0 <= a < b < separators(s, n).len() ==> #[trigger] separators(s, n)[a] < #[trigger] separators(s, n)[b],
        forall|p: int| 0 <= p < n && s[p] == '/' ==> exists|k: int| 0 <= k < separators(s, n).len() && #[trigger] separators(s, n)[k] == p,
    decreases n,
{
    if n > 0 {
        separators_facts(s, n - 1);
        let prev = separators(s, n - 1);
        if s[n - 1] == '/' {
            let cur = prev.push(n - 1);
            assert forall|p: int| 0 <= p < n && s[p] == '/' implies exists|k: int| 0 <= k < cur.len() && #[trigger] cur[k] == p by {
                if p < n - 1 {
                    let k = choose|k: int| 0 <= k < prev.len() && #[trigger] prev[k] == p;
                    assert(cur[k] == p);
                } else {
                    assert(cur[prev.len() as int] == p);
                }
            }
        } else {
            assert(separators(s, n) == prev);
            assert forall|p: int| 0 <= p < n && s[p] == '/' implies exists|k: int| 0 <= k < prev.len() && #[trigger] prev[k] == p by {
                assert(p < n - 1);
            }
        }
    }
}

/// Between two consecutive separators there is none.
proof fn nothing_between(s: Seq<char>, n: int, k: int, q: int)
    requires
        0 <= n <= s.len(),
        0 <= k < separators(s, n).len(),
        piece_start(s, n, k) <= q < separators(s, n)[k],
    ensures
        s[q] != '/',
{
    separators_facts(s, n);
    let seps = separators(s, n);
    if s[q] == '/' {
        let m = choose|m: int| 0 <= m < seps.len() && #[trigger] seps[m] == q;
        if m < k {
            if k > 0 {
                assert(seps[m] <= seps[k - 1]) by {
                    if m < k - 1 {
                        assert(seps[m] < seps[k - 1]);
                    }
                }
            }
        } else if m >= k {
            if m > k {
                assert(seps[k] < seps[m]);
            }
        }
    }
}

/// The directories `directories_of` lists are exactly those `in_directory`
/// asks about: a page listed under a segment sits in a directory of that name.
pub proof fn directories_are_where_a_page_sits(slug: Seq<char>, name: Seq<char>)
    ensures
        directories_of(slug).contains(name) <==> in_directory(slug, name),
{
    let n = slug.len() as int;
    let seps = separators(slug, n);
    separators_facts(slug, n);
    let d = directories_of(slug);
    if d.contains(name) {
        let k = choose|k: int| 0 <= k < d.len() && d[k] == name;
        let i = piece_start(slug, n, k);
        let j = seps[k];
        if k > 0 {
            assert(seps[k - 1] < seps[k]);
        }
        assert forall|q: int| i <= q < j implies slug[q] != '/' by {
            nothing_between(slug, n, k, q);
        }
        assert(directory_at(slug, i, j));
    }
    if in_directory(slug, name) {
        let (i, j) = choose|i: int, j: int| #[trigger] directory_at(slug, i, j) && slug.subrange(i, j) == name;
        let k = choose|k: int| 0 <= k < seps.len() && #[trigger] seps[k] == j;
        if k > 0 {
            let p = seps[k - 1];
            assert(p < j);
            if p >= i {
                assert(slug[p] == '/');
            }
            if i > 0 && i - 1 > p {
                nothing_between(slug, n, k, i - 1);
            }
            if i == 0 {
                assert(slug[p] == '/');
            }
        } else {
            if i > 0 {
                assert(slug[i - 1] == '/');
                let m = choose|m: int| 0 <= m < seps.len() && #[trigger] seps[m] == i - 1;
                if m > 0 {
                    assert(seps[0] < seps[m]);
                } else if m == 0 && k == 0 {
                    assert(seps[0] == j);
                }
                assert(seps[m] < seps[k]) by {
                    if m > k {
                        assert(seps[k] < seps[m]);
                    }
                }
            }
        }
        assert(piece_start(slug, n, k) == i);
        assert(d[k] == name);
    }
}

/// The directories a slug sits in, outermost first; the position of each is
/// its depth.
pub fn directories(slug: &str) -> (out: Vec<String>)
    ensures
        names_view(out@) == directories_of(slug@),
{
    let chars = chars_of(slug);
    let ghost s = chars@;
    let mut out: Vec<String> = Vec::new();
    let mut start: usize = 0;
    let mut j: usize = 0;
    while j < chars.len()
        invariant
            s == chars@,
            s == slug@,
            j <= s.len(),
            start <= j,
            start == (if separators(s, j as int).len() == 0 {
                0
            } else {
                separators(s, j as int).last() + 1
            }),
            names_view(out@) == Seq::new(
                separators(s, j as int).len(),
                |k: int| s.subrange(piece_start(s, j as int, k), separators(s, j as int)[k]),
            ),
        decreases s.len() - j,
    {
        let ghost before = names_view(out@);
        if chars[j] == '/' {
            let piece = string_of_range(chars.as_slice(), start, j);
            out.push(piece);
            proof {
                let seps = separators(s, j + 1);
                assert(seps == separators(s, j as int).push(j as int));
                assert(names_view(out@) =~= Seq::new(
                    seps.len(),
                    |k: int| s.subrange(piece_start(s, j + 1, k), seps[k]),
                )) by {
                    let old_seps = separators(s, j as int);
                    assert(names_view(out@) =~= before.push(piece@));
                    assert(before.len() == old_seps.len());
                    assert(names_view(out@).len() == seps.len());
                    assert forall|k: int| 0 <= k < seps.len() implies #[trigger] names_view(out@)[k] == s.subrange(piece_start(s, j + 1, k), seps[k]) by {
                        if k < before.len() {
                            assert(names_view(out@)[k] == before[k]);
                            assert(seps[k] == old_seps[k]);
                            if k > 0 {
                                assert(seps[k - 1] == old_seps[k - 1]);
                            }
                            assert(piece_start(s, j + 1, k) == piece_start(s, j as int, k));
                        } else {
                            assert(k == old_seps.len());
                            assert(names_view(out@)[k] == piece@);
                            if k > 0 {
                                assert(seps[k - 1] == old_seps.last());
                            }
                        }
                    }
                }
            }
            start = j + 1;
        } else {
            proof {
                assert(separators(s, j + 1) == separators(s, j as int));
                let seps = separators(s, j + 1);
                assert(names_view(out@) =~= Seq::new(
                    seps.len(),
                    |k: int| s.subrange(piece_start(s, j + 1, k), seps[k]),
                ));
            }
        }
        j = j + 1;
    }
    out
}

/// No two of the pages share a slug, as no two rows of the index do.
pub open spec fn slugs_distinct(s: Seq<PageRecord>) -> bool {
    forall|i: int, j: int| 0 <= i < s.len() && 0 <= j < s.len() && i != j ==> #[trigger] s[i].slug@ != #[trigger] s[j].slug@
}

proof fn listed_before_total(a: PageRecord, b: PageRecord, sort: SortBy, order: SortOrder)
    requires
        a.slug@ != b.slug@,
    ensures
        listed_before(a, b, sort, order) || listed_before(b, a, sort, order),
{
    seq_lt_total(a.slug@, b.slug@);
    seq_lt_total(a.title@, b.title@);
}

/// Pages in listing order are settled by which pages they are: two orderings
/// of the same pages, no two sharing a slug, are one and the same. So the page
/// of results `list` returns is determined by its inputs.
pub proof fn the_listing_order_is_settled(a: Seq<PageRecord>, b: Seq<PageRecord>, sort: SortBy, order: SortOrder)
    requires
        in_listing_order(a, sort, order),
        in_listing_order(b, sort, order),
        a.to_multiset() == b.to_multiset(),
        slugs_distinct(a),
    ensures
        a == b,
    decreases a.len(),
{
    broadcast use vstd::seq_lib::group_to_multiset_ensures;

    assert(a.to_multiset().len() == a.len());
    assert(b.to_multiset().len() == b.len());
    if a.len() == 0 {
        assert(a =~= b);
    } else {
        assert(a.to_multiset().count(a[0]) > 0);
        assert(b.contains(a[0]));
        let j = choose|j: int| 0 <= j < b.len() && b[j] == a[0];
        if j > 0 {
            assert(b.to_multiset().count(b[0]) > 0);
            assert(a.contains(b[0]));
            let k = choose|k: int| 0 <= k < a.len() && a[k] == b[0];
            if k == 0 {
                multiset_counts_two(b, 0, j);
                assert(a.no_duplicates()) by {
                    assert forall|x: int, y: int| 0 <= x < a.len() && 0 <= y < a.len() && x != y implies a[x] != a[y] by {
                        assert(a[x].slug@ != a[y].slug@);
                    }
                }
                multiset_count_one(a, 0);
            }
            assert(a[0].slug@ != a[k].slug@);
            listed_before_total(a[0], a[k], sort, order);
            assert(!listed_before(a[k], a[0], sort, order));
            assert(!listed_before(b[j], b[0], sort, order));
        }
        assert(b[0] == a[0]);
        let a1 = a.drop_first();
        let b1 = b.drop_first();
        assert(a.remove(0) =~= a1);
        assert(b.remove(0) =~= b1);
        assert forall|i: int, k: int| 0 <= i < a1.len() && 0 <= k < a1.len() && i != k implies #[trigger] a1[i].slug@
            != #[trigger] a1[k].slug@ by {
            assert(a1[i] == a[i + 1] && a1[k] == a[k + 1]);
        }
        assert forall|i: int, k: int| 0 <= i < k < a1.len() implies !listed_before(#[trigger] a1[k], #[trigger] a1[i], sort, order) by {
            assert(a1[i] == a[i + 1] && a1[k] == a[k + 1]);
        }
        assert forall|i: int, k: int| 0 <= i < k < b1.len() implies !listed_before(#[trigger] b1[k], #[trigger] b1[i], sort, order) by {
            assert(b1[i] == b[i + 1] && b1[k] == b[k + 1]);
        }
        the_listing_order_is_settled(a1, b1, sort, order);
        assert forall|i: int| 0 <= i < a.len() implies a[i] == b[i] by {
            if i > 0 {
                assert(a[i] == a1[i - 1] && b[i] == b1[i - 1]);
            }
        }
        assert(a =~= b);
    }
}
} // verus!
