//! The link graph, tags, and the meta-stats the dashboard shows, assembled
//! from what the index's queries return.
//!
//! Link targets are stored as written and resolved against `pages` when asked,
//! so a link to a page nobody has written is not broken but **wanted**.
use vstd::prelude::*;

use crate::index::audience::{visible_as, VISIBLE};
use crate::markdown::{link_kind_name, link_kind_of, LinkKind};
use crate::slug::Slug;
use crate::index::{stored_instant, stored_instant_spec, TOP_N};
use crate::index::drawing::{index_titles, title_map, LinkRow, PartRow};
use crate::index::ranking::{is_ranking, keys_of, rank, ranking_len, ranks_above};
use crate::sorted::{add_pair, pair_lt, pairs_sorted, pairs_view, Pair};
use crate::text::{same_text, seq_lt};
use vstd::hash_map::StringHashMap;
use crate::text::replaced;

verus! {

/// A link leaving a page.
#[derive(Debug, Clone, PartialEq, Eq)]
pub struct OutboundLink {
    /// A slug for wiki and internal links, a URL for external ones.
    pub target: String,
    pub display: Option<String>,
    pub kind: LinkKind,
    /// Title of the page this points at, when it points at one that exists.
    pub title: Option<String>,
}

impl OutboundLink {
    /// Whether this link points at a page that exists. An external link never
    /// does: there is nothing in the wiki to resolve it against.
    pub fn is_resolved(&self) -> (r: bool)
        ensures
            r == (!(self.kind is External) && self.title is Some),
    {
        self.kind.is_internal() && self.title.is_some()
    }
}

/// A link arriving at a page.
#[derive(Debug, Clone, PartialEq, Eq)]
pub struct InboundLink {
    pub slug: Slug,
    pub title: String,
    pub display: Option<String>,
    pub kind: LinkKind,
}

#[derive(Debug, Clone, PartialEq, Eq)]
pub struct PageLinks {
    pub outbound: Vec<OutboundLink>,
    pub inbound: Vec<InboundLink>,
}

/// A page that is linked to but does not exist.
#[derive(Debug, Clone, PartialEq, Eq)]
pub struct WantedPage {
    pub slug: String,
    /// How many distinct pages link here.
    pub referrers: usize,
}

#[derive(Debug, Clone, PartialEq, Eq)]
pub struct LinkedPage {
    pub slug: Slug,
    pub title: String,
    pub referrers: usize,
}

#[derive(Debug, Clone, PartialEq, Eq)]
pub struct PageRef {
    pub slug: Slug,
    pub title: String,
}

#[derive(Debug, Clone, PartialEq, Eq)]
pub struct TagCount {
    pub tag: String,
    pub pages: usize,
}

#[derive(Debug, Clone, Copy, Default, PartialEq, Eq, Structural)]
pub struct LinkTotals {
    /// Links pointing at pages, whether or not those pages exist.
    pub internal: usize,
    pub external: usize,
    /// Internal links whose target exists.
    pub resolved: usize,
    /// Internal links whose target does not exist yet.
    pub wanted: usize,
}

#[derive(Debug, Clone, PartialEq, Eq)]
pub struct RouteUsage {
    pub route: String,
    pub method: String,
    pub count: u64,
}

/// Everything the dashboard shows, over the pages one audience can see.
#[derive(Debug, Clone, PartialEq, Eq)]
pub struct Stats {
    pub pages: usize,
    pub tags: usize,
    pub links: LinkTotals,
    pub orphan_count: usize,
    /// The most-referenced wanted pages.
    pub wanted: Vec<WantedPage>,
    pub wanted_count: usize,
    /// Pages nothing links to.
    pub orphans: Vec<PageRef>,
    /// The most-linked-to pages.
    pub most_linked: Vec<LinkedPage>,
    /// Every tag with its page count, most-used first.
    pub tag_counts: Vec<TagCount>,
    /// When the index last finished a sync, in nanoseconds.
    pub last_indexed: Option<i128>,
}

/// How a whole-graph query is narrowed. Every field intersects.
#[derive(Debug, Clone)]
pub struct GraphOptions {
    /// Only pages carrying this tag.
    pub tag: Option<String>,
    /// Only pages at or under this slug path, hierarchically.
    pub prefix: Option<String>,
    /// Walk outward from this slug instead of taking the whole wiki.
    pub root: Option<String>,
    /// How many hops out from `root` the walk covers. Ignored without one.
    pub depth: usize,
    /// Whether pages that are linked to but not written are nodes.
    pub wanted: bool,
    /// How many pages the view may carry. The best-connected survive.
    pub limit: usize,
}

impl Default for GraphOptions {
    fn default() -> (o: Self)
        ensures
            o.tag is None,
            o.prefix is None,
            o.root is None,
            o.depth == 2,
            o.wanted,
            o.limit == 500,
    {
        GraphOptions { tag: None, prefix: None, root: None, depth: 2, wanted: true, limit: 500 }
    }
}

/// A page in the graph, possibly one nobody has written.
#[derive(Debug, Clone, PartialEq, Eq)]
pub struct GraphNode {
    pub slug: String,
    /// The page's title, or the slug itself when there is no page.
    pub title: String,
    pub exists: bool,
    /// Distinct pages that name this one, counted across the whole wiki as
    /// this audience sees it rather than across the view.
    pub inbound: usize,
    /// Distinct pages this one names, likewise.
    pub outbound: usize,
    pub tags: Vec<String>,
    /// Hops from `root`, when the query had one.
    pub distance: Option<usize>,
}

/// One line to draw: everything joining `source` to `target`, collapsed.
#[derive(Debug, Clone, PartialEq, Eq)]
pub struct GraphEdge {
    pub source: String,
    pub target: String,
    /// The kinds of link that reached it.
    pub kinds: Vec<LinkKind>,
    /// Whether the source's `contents:` list names the target.
    pub part: bool,
}

#[derive(Debug, Clone, PartialEq, Eq)]
pub struct Graph {
    pub nodes: Vec<GraphNode>,
    pub edges: Vec<GraphEdge>,
    /// Pages that matched the filters, before `limit` was applied.
    pub matched: usize,
    /// Whether `limit` dropped any of them.
    pub truncated: bool,
}

/// Only wiki and internal links are part of the page graph.
pub const IS_PAGE_LINK: &'static str = "links.kind != 'external'";

pub open spec fn visible_link_spec() -> Seq<char> {
    IS_PAGE_LINK@ + "
         and exists (
             select 1 from pages
             where pages.slug = links.src_slug and "@ + VISIBLE@ + "
         )
         and not exists (
             select 1 from pages as target
             where target.slug = links.target and not ("@ + replaced(VISIBLE@, "pages."@, "target."@)
        + "))"@
}

/// A link both of whose ends this audience may know about: its source is a
/// page they can read, and no page they cannot read sits at its target.
pub fn visible_link() -> (sql: String)
    ensures
        sql@ == visible_link_spec(),
{
    let target = visible_as("target");
    proof {
        reveal_strlit("target");
        reveal_strlit("target.");
        assert("target"@.push('.') =~= "target."@);
    }
    let mut sql = IS_PAGE_LINK.to_string();
    sql.append("
         and exists (
             select 1 from pages
             where pages.slug = links.src_slug and ");
    sql.append(VISIBLE);
    sql.append("
         )
         and not exists (
             select 1 from pages as target
             where target.slug = links.target and not (");
    sql.append(target.as_str());
    sql.append("))");
    sql
}

pub open spec fn visible_part_spec() -> Seq<char> {
    "exists (
             select 1 from pages as parent
             where parent.slug = page_parts.src_slug and "@ + replaced(VISIBLE@, "pages."@, "parent."@)
        + "
         )
         and not exists (
             select 1 from pages as chapter
             where chapter.slug = page_parts.target and not ("@ + replaced(
        VISIBLE@,
        "pages."@,
        "chapter."@,
    ) + "))"@
}

/// A row of a contents list this audience may see: the page holding the list
/// is one they can read, and no page they cannot read is the entry.
pub fn visible_part() -> (sql: String)
    ensures
        sql@ == visible_part_spec(),
{
    let parent = visible_as("parent");
    let chapter = visible_as("chapter");
    proof {
        reveal_strlit("parent");
        reveal_strlit("chapter");
        reveal_strlit("parent.");
        reveal_strlit("chapter.");
        assert("parent"@.push('.') =~= "parent."@);
        assert("chapter"@.push('.') =~= "chapter."@);
    }
    let mut sql = "exists (
             select 1 from pages as parent
             where parent.slug = page_parts.src_slug and ".to_string();
    sql.append(parent.as_str());
    sql.append("
         )
         and not exists (
             select 1 from pages as chapter
             where chapter.slug = page_parts.target and not (");
    sql.append(chapter.as_str());
    sql.append("))");
    sql
}

pub open spec fn referenced_spec() -> Seq<char> {
    "exists (
             select 1 from links
             where links.target = pages.slug and "@ + visible_link_spec() + "
         )
         or exists (
             select 1 from page_parts
             where page_parts.target = pages.slug and "@ + visible_part_spec() + "
         )"@
}

/// Whether a page is named by something this audience can see: a link, or a
/// contents list. Both the orphan count and the orphan list ask this.
pub fn referenced() -> (sql: String)
    ensures
        sql@ == referenced_spec(),
{
    let link = visible_link();
    let part = visible_part();
    let mut sql = "exists (
             select 1 from links
             where links.target = pages.slug and ".to_string();
    sql.append(link.as_str());
    sql.append("
         )
         or exists (
             select 1 from page_parts
             where page_parts.target = pages.slug and ");
    sql.append(part.as_str());
    sql.append("
         )");
    sql
}

/// What the dashboard reads from the index: the pages this audience can read
/// with their titles, every page that is written at all, every link and
/// contents entry with both its ends, every page's tags as `(page, tag)`, and
/// the `meta` value recording when the index last finished a sync.
#[derive(Debug, Clone)]
pub struct StatsRows {
    pub pages: Vec<(String, String)>,
    pub existing: Vec<String>,
    pub links: Vec<LinkRow>,
    pub parts: Vec<PartRow>,
    pub tags: Vec<(String, String)>,
    pub last_sync: Option<String>,
}

/// This audience can read the page at `x`.
pub open spec fn readable(rows: StatsRows, x: Seq<char>) -> bool {
    title_map(rows.pages@).contains_key(x)
}

/// A page is written at `x`, whoever may read it.
pub open spec fn written(rows: StatsRows, x: Seq<char>) -> bool {
    exists|i: int| 0 <= i < rows.existing@.len() && #[trigger] rows.existing@[i]@ == x
}

/// A page this audience cannot read sits at `x`.
pub open spec fn hidden(rows: StatsRows, x: Seq<char>) -> bool {
    written(rows, x) && !readable(rows, x)
}

pub open spec fn is_external(l: LinkRow) -> bool {
    l.kind@ == link_kind_name(LinkKind::External)@
}

/// A link into the wiki both of whose ends this audience may know about.
pub open spec fn seen_link(rows: StatsRows, l: LinkRow) -> bool {
    !is_external(l) && readable(rows, l.source@) && !hidden(rows, l.target@)
}

/// A link out of the wiki from a page this audience can read.
pub open spec fn seen_external(rows: StatsRows, l: LinkRow) -> bool {
    is_external(l) && readable(rows, l.source@)
}

/// A seen link that reaches a page this audience can read.
pub open spec fn resolves(rows: StatsRows, l: LinkRow) -> bool {
    seen_link(rows, l) && readable(rows, l.target@)
}

/// A seen link whose target nobody has written.
pub open spec fn wants(rows: StatsRows, l: LinkRow) -> bool {
    seen_link(rows, l) && !written(rows, l.target@)
}

/// A contents entry this audience may see.
pub open spec fn seen_part(rows: StatsRows, p: PartRow) -> bool {
    readable(rows, p.source@) && !hidden(rows, p.target@)
}

/// Something this audience can see names `x`: a link or a contents entry.
pub open spec fn named_by_any(rows: StatsRows, x: Seq<char>) -> bool {
    ||| exists|i: int| 0 <= i < rows.links@.len() && seen_link(rows, #[trigger] rows.links@[i]) && rows.links@[i].target@ == x
    ||| exists|i: int| 0 <= i < rows.parts@.len() && seen_part(rows, #[trigger] rows.parts@[i]) && rows.parts@[i].target@ == x
}

pub open spec fn seeing(rows: StatsRows) -> spec_fn(LinkRow) -> bool {
    |l: LinkRow| seen_link(rows, l)
}

pub open spec fn seeing_external(rows: StatsRows) -> spec_fn(LinkRow) -> bool {
    |l: LinkRow| seen_external(rows, l)
}

pub open spec fn resolving(rows: StatsRows) -> spec_fn(LinkRow) -> bool {
    |l: LinkRow| resolves(rows, l)
}

pub open spec fn wanting(rows: StatsRows) -> spec_fn(LinkRow) -> bool {
    |l: LinkRow| wants(rows, l)
}

pub open spec fn orphaned(rows: StatsRows) -> spec_fn((String, String)) -> bool {
    |p: (String, String)| !named_by_any(rows, p.0@)
}

pub open spec fn carried(pages: Seq<(String, String)>) -> spec_fn((String, String)) -> bool {
    |t: (String, String)| title_map(pages).contains_key(t.0@)
}

/// A link as a row to rank its target by: the target, then the page linking.
pub open spec fn by_target(l: LinkRow) -> (String, String) {
    (l.target, l.source)
}

/// A tag as a row to rank it by: the tag, then the page carrying it.
pub open spec fn by_tag(t: (String, String)) -> (String, String) {
    (t.1, t.0)
}

/// Wanted targets, each beside every page that wants it.
pub open spec fn wanted_rows(rows: StatsRows) -> Seq<(String, String)> {
    rows.links@.filter(wanting(rows)).map_values(|l: LinkRow| by_target(l))
}

/// Readable targets, each beside every page that links to it.
pub open spec fn linked_rows(rows: StatsRows) -> Seq<(String, String)> {
    rows.links@.filter(resolving(rows)).map_values(|l: LinkRow| by_target(l))
}

/// Tags, each beside every readable page that carries it.
pub open spec fn tag_rows(rows: StatsRows) -> Seq<(String, String)> {
    carried_tags(rows.pages@, rows.tags@)
}

/// Tags, each beside every page among `pages` that carries it, from `(page,
/// tag)` rows.
pub open spec fn carried_tags(pages: Seq<(String, String)>, tags: Seq<(String, String)>) -> Seq<(String, String)> {
    tags.filter(carried(pages)).map_values(|t: (String, String)| by_tag(t))
}

/// The readable pages nothing this audience can see names.
pub open spec fn orphan_rows(rows: StatsRows) -> Seq<(String, String)> {
    rows.pages@.filter(orphaned(rows))
}

/// How many a top-N list holds of a longer one.
pub open spec fn head_len(n: nat) -> nat {
    if n < TOP_N {
        n
    } else {
        TOP_N as nat
    }
}

pub open spec fn wanted_heads(w: Seq<WantedPage>, r: Seq<(String, usize)>) -> bool {
    &&& w.len() == head_len(r.len())
    &&& forall|k: int| 0 <= k < w.len() ==> #[trigger] w[k].slug@ == r[k].0@ && w[k].referrers == r[k].1
}

pub open spec fn linked_heads(l: Seq<LinkedPage>, r: Seq<(String, usize)>, titles: Map<Seq<char>, String>) -> bool {
    &&& l.len() == head_len(r.len())
    &&& forall|k: int|
        0 <= k < l.len() ==> #[trigger] l[k].slug@ == r[k].0@ && l[k].referrers == r[k].1 && l[k].title
            == titles[r[k].0@]
}

pub open spec fn orphan_heads(o: Seq<PageRef>, sorted: Seq<Pair>) -> bool {
    &&& o.len() == head_len(sorted.len())
    &&& forall|k: int| 0 <= k < o.len() ==> (#[trigger] o[k].slug@, o[k].title@) == sorted[k]
}

pub open spec fn tag_table(t: Seq<TagCount>, r: Seq<(String, usize)>) -> bool {
    &&& t.len() == r.len()
    &&& forall|k: int| 0 <= k < t.len() ==> #[trigger] t[k].tag@ == r[k].0@ && t[k].pages == r[k].1
}

fn written_set(existing: &Vec<String>) -> (m: StringHashMap<()>)
    ensures
        forall|x: Seq<char>| #[trigger] m@.contains_key(x) <==> exists|i: int| 0 <= i < existing@.len() && #[trigger] existing@[i]@ == x,
{
    let mut m: StringHashMap<()> = StringHashMap::new();
    let mut i: usize = 0;
    while i < existing.len()
        invariant
            i <= existing@.len(),
            forall|x: Seq<char>| #[trigger] m@.contains_key(x) <==> exists|j: int| 0 <= j < i && #[trigger] existing@[j]@ == x,
        decreases existing@.len() - i,
    {
        m.insert(existing[i].clone(), ());
        proof {
            assert forall|x: Seq<char>| #[trigger] m@.contains_key(x) <==> exists|j: int| 0 <= j < i + 1 && #[trigger] existing@[j]@ == x by {
                if x == existing@[i as int]@ {
                    assert(existing@[i as int]@ == x);
                }
            }
        }
        i = i + 1;
    }
    m
}

/// What one pass over the links finds.
struct LinkPass {
    internal: usize,
    external: usize,
    resolved: usize,
    wanted: Vec<(String, String)>,
    linked: Vec<(String, String)>,
    named: StringHashMap<()>,
}

proof fn filter_step<A>(s: Seq<A>, i: int, p: spec_fn(A) -> bool)
    requires
        0 <= i < s.len(),
    ensures
        s.take(i + 1).filter(p) == if p(s[i]) {
            s.take(i).filter(p).push(s[i])
        } else {
            s.take(i).filter(p)
        },
        s.take(i).filter(p).len() <= i,
{
    assert(s.take(i + 1) =~= s.take(i).push(s[i]));
    s.take(i).lemma_filter_push(s[i], p);
    s.take(i).lemma_filter_len(p);
}

proof fn filter_empty<A>(s: Seq<A>, p: spec_fn(A) -> bool)
    ensures
        s.take(0).filter(p) == Seq::<A>::empty(),
{
    reveal(Seq::filter);
    assert(s.take(0) =~= Seq::<A>::empty());
}

#[verifier::spinoff_prover]
fn read_links(rows: &StatsRows, readable_at: &StringHashMap<String>, written_at: &StringHashMap<()>) -> (pass: LinkPass)
    requires
        readable_at@ == title_map(rows.pages@),
        forall|x: Seq<char>| #[trigger] written_at@.contains_key(x) <==> written(*rows, x),
    ensures
        pass.internal == rows.links@.filter(seeing(*rows)).len(),
        pass.external == rows.links@.filter(seeing_external(*rows)).len(),
        pass.resolved == rows.links@.filter(resolving(*rows)).len(),
        pass.wanted@ == wanted_rows(*rows),
        pass.linked@ == linked_rows(*rows),
        forall|x: Seq<char>| #[trigger] pass.named@.contains_key(x) <==> exists|i: int|
            0 <= i < rows.links@.len() && seen_link(*rows, #[trigger] rows.links@[i]) && rows.links@[i].target@ == x,
{
    let ghost ls = rows.links@;
    let ghost f = |l: LinkRow| by_target(l);
    let mut internal: usize = 0;
    let mut external: usize = 0;
    let mut resolved: usize = 0;
    let mut wanted: Vec<(String, String)> = Vec::new();
    let mut linked: Vec<(String, String)> = Vec::new();
    let mut named: StringHashMap<()> = StringHashMap::new();
    proof {
        filter_empty(ls, seeing(*rows));
        filter_empty(ls, seeing_external(*rows));
        filter_empty(ls, resolving(*rows));
        filter_empty(ls, wanting(*rows));
    }
    let mut i: usize = 0;
    while i < rows.links.len()
        invariant
            ls == rows.links@,
            readable_at@ == title_map(rows.pages@),
            forall|x: Seq<char>| #[trigger] written_at@.contains_key(x) <==> written(*rows, x),
            i <= ls.len(),
            internal == ls.take(i as int).filter(seeing(*rows)).len(),
            external == ls.take(i as int).filter(seeing_external(*rows)).len(),
            resolved == ls.take(i as int).filter(resolving(*rows)).len(),
            wanted@ == ls.take(i as int).filter(wanting(*rows)).map_values(f),
            linked@ == ls.take(i as int).filter(resolving(*rows)).map_values(f),
            f == (|l: LinkRow| by_target(l)),
            forall|x: Seq<char>| #[trigger] named@.contains_key(x) <==> exists|j: int|
                0 <= j < i && seen_link(*rows, #[trigger] ls[j]) && ls[j].target@ == x,
        decreases ls.len() - i,
    {
        let l = &rows.links[i];
        proof {
            filter_step(ls, i as int, seeing(*rows));
            filter_step(ls, i as int, seeing_external(*rows));
            filter_step(ls, i as int, resolving(*rows));
            filter_step(ls, i as int, wanting(*rows));
        }
        let external_kind = same_text(l.kind.as_str(), LinkKind::External.as_str());
        let from_readable = readable_at.contains_key(l.source.as_str());
        let to_readable = readable_at.contains_key(l.target.as_str());
        let to_written = written_at.contains_key(l.target.as_str());
        let seen = !external_kind && from_readable && !(to_written && !to_readable);
        if external_kind && from_readable {
            external = external + 1;
        }
        if seen {
            internal = internal + 1;
            named.insert(l.target.clone(), ());
            if to_readable {
                resolved = resolved + 1;
                let ghost before = linked@;
                linked.push((l.target.clone(), l.source.clone()));
                proof {
                    assert(linked@ =~= ls.take(i + 1).filter(resolving(*rows)).map_values(f));
                }
            }
            if !to_written {
                let ghost before = wanted@;
                wanted.push((l.target.clone(), l.source.clone()));
                proof {
                    assert(wanted@ =~= ls.take(i + 1).filter(wanting(*rows)).map_values(f));
                }
            }
        }
        proof {
            assert(wanted@ =~= ls.take(i + 1).filter(wanting(*rows)).map_values(f));
            assert(linked@ =~= ls.take(i + 1).filter(resolving(*rows)).map_values(f));
            assert forall|x: Seq<char>| #[trigger] named@.contains_key(x) <==> exists|j: int|
                0 <= j < i + 1 && seen_link(*rows, #[trigger] ls[j]) && ls[j].target@ == x by {
                if seen && x == ls[i as int].target@ {
                    assert(seen_link(*rows, ls[i as int]));
                }
            }
        }
        i = i + 1;
    }
    proof {
        assert(ls.take(ls.len() as int) =~= ls);
    }
    LinkPass { internal, external, resolved, wanted, linked, named }
}

/// Every tag on the pages among `pages` (this audience's readable pages with
/// their titles), with how many of those pages carry it, most-used first and
/// then by name, from `(page, tag)` rows.
#[verifier::spinoff_prover]
pub fn tags(pages: &Vec<(String, String)>, labels: &Vec<(String, String)>) -> (counts: Vec<TagCount>)
    ensures
        counts@.len() == keys_of(carried_tags(pages@, labels@)).len(),
        exists|r: Seq<(String, usize)>| #[trigger] is_ranking(r, carried_tags(pages@, labels@)) && tag_table(counts@, r),
{
    let readable_at = index_titles(pages);
    let mut tag_pairs: Vec<(String, String)> = Vec::new();
    let ghost ts = labels@;
    let ghost g = |t: (String, String)| by_tag(t);
    proof {
        filter_empty(ts, carried(pages@));
    }
    let mut t: usize = 0;
    while t < labels.len()
        invariant
            ts == labels@,
            t <= ts.len(),
            readable_at@ == title_map(pages@),
            g == (|t: (String, String)| by_tag(t)),
            tag_pairs@ == ts.take(t as int).filter(carried(pages@)).map_values(g),
        decreases ts.len() - t,
    {
        proof {
            filter_step(ts, t as int, carried(pages@));
        }
        if readable_at.contains_key(labels[t].0.as_str()) {
            tag_pairs.push((labels[t].1.clone(), labels[t].0.clone()));
        }
        proof {
            assert(tag_pairs@ =~= ts.take(t + 1).filter(carried(pages@)).map_values(g));
        }
        t = t + 1;
    }
    proof {
        assert(ts.take(ts.len() as int) =~= ts);
    }
    let tags_ranked = rank(&tag_pairs);
    proof {
        ranking_len(tags_ranked@, tag_pairs@);
    }
    let ghost tr = tags_ranked@;
    let mut counts: Vec<TagCount> = Vec::new();
    let mut c: usize = 0;
    while c < tags_ranked.len()
        invariant
            tr == tags_ranked@,
            is_ranking(tr, carried_tags(pages@, labels@)),
            c <= tr.len(),
            counts@.len() == c,
            forall|n: int| 0 <= n < c ==> #[trigger] counts@[n].tag@ == tr[n].0@ && counts@[n].pages == tr[n].1,
        decreases tr.len() - c,
    {
        counts.push(TagCount { tag: tags_ranked[c].0.clone(), pages: tags_ranked[c].1 });
        c = c + 1;
    }
    proof {
        assert(is_ranking(tr, carried_tags(pages@, labels@)));
    }
    counts
}

/// The dashboard's figures, each list stated as the head of a ranking of the
/// rows; [`stats`] adds what those rankings mean for the order of the lists.
#[verifier::spinoff_prover]
fn tally(rows: StatsRows) -> (s: Stats)
    ensures
        s.pages == rows.pages@.len(),
        s.links.internal == rows.links@.filter(seeing(rows)).len(),
        s.links.external == rows.links@.filter(seeing_external(rows)).len(),
        s.links.resolved == rows.links@.filter(resolving(rows)).len(),
        s.links.wanted == s.links.internal - s.links.resolved,
        s.orphan_count == orphan_rows(rows).len(),
        s.wanted_count == keys_of(wanted_rows(rows)).len(),
        s.tags == keys_of(tag_rows(rows)).len(),
        exists|r: Seq<(String, usize)>| #[trigger] is_ranking(r, wanted_rows(rows)) && wanted_heads(s.wanted@, r),
        exists|r: Seq<(String, usize)>|
            #[trigger] is_ranking(r, linked_rows(rows)) && linked_heads(s.most_linked@, r, title_map(rows.pages@)),
        exists|r: Seq<(String, usize)>| #[trigger] is_ranking(r, tag_rows(rows)) && tag_table(s.tag_counts@, r),
        exists|o: Seq<Pair>|
            #![trigger pairs_sorted(o)]
            pairs_sorted(o) && (forall|x: Pair| #[trigger] o.contains(x) <==> pairs_view(orphan_rows(rows)).contains(x))
                && orphan_heads(s.orphans@, o),
        s.last_indexed == stored_instant_spec(rows.last_sync),
{
    let readable_at = index_titles(&rows.pages);
    let written_at = written_set(&rows.existing);
    let pass = read_links(&rows, &readable_at, &written_at);
    let mut named = pass.named;
    // Contents entries name pages too.
    let mut i: usize = 0;
    while i < rows.parts.len()
        invariant
            i <= rows.parts@.len(),
            readable_at@ == title_map(rows.pages@),
            forall|x: Seq<char>| #[trigger] written_at@.contains_key(x) <==> written(rows, x),
            forall|x: Seq<char>| #[trigger] named@.contains_key(x) <==> (
                (exists|j: int| 0 <= j < rows.links@.len() && seen_link(rows, #[trigger] rows.links@[j]) && rows.links@[j].target@ == x)
                || (exists|j: int| 0 <= j < i && seen_part(rows, #[trigger] rows.parts@[j]) && rows.parts@[j].target@ == x)),
        decreases rows.parts@.len() - i,
    {
        let p = &rows.parts[i];
        let from_readable = readable_at.contains_key(p.source.as_str());
        let to_readable = readable_at.contains_key(p.target.as_str());
        let to_written = written_at.contains_key(p.target.as_str());
        if from_readable && !(to_written && !to_readable) {
            named.insert(p.target.clone(), ());
        }
        proof {
            assert forall|x: Seq<char>| #[trigger] named@.contains_key(x) <==> (
                (exists|j: int| 0 <= j < rows.links@.len() && seen_link(rows, #[trigger] rows.links@[j]) && rows.links@[j].target@ == x)
                || (exists|j: int| 0 <= j < i + 1 && seen_part(rows, #[trigger] rows.parts@[j]) && rows.parts@[j].target@ == x)) by {
                if x == rows.parts@[i as int].target@ && seen_part(rows, rows.parts@[i as int]) {
                    assert(seen_part(rows, rows.parts@[i as int]));
                }
            }
        }
        i = i + 1;
    }
    // The orphans: readable pages nothing names.
    let ghost ps = rows.pages@;
    let mut orphan_count: usize = 0;
    let mut orphans_sorted: Vec<(String, String)> = Vec::new();
    proof {
        filter_empty(ps, orphaned(rows));
    }
    let mut j: usize = 0;
    while j < rows.pages.len()
        invariant
            ps == rows.pages@,
            j <= ps.len(),
            forall|x: Seq<char>| #[trigger] named@.contains_key(x) <==> named_by_any(rows, x),
            orphan_count == ps.take(j as int).filter(orphaned(rows)).len(),
            pairs_sorted(pairs_view(orphans_sorted@)),
            forall|x: Pair| #[trigger] pairs_view(orphans_sorted@).contains(x) <==> pairs_view(ps.take(j as int).filter(orphaned(rows))).contains(x),
        decreases ps.len() - j,
    {
        proof {
            filter_step(ps, j as int, orphaned(rows));
        }
        let ghost before = ps.take(j as int).filter(orphaned(rows));
        if !named.contains_key(rows.pages[j].0.as_str()) {
            orphan_count = orphan_count + 1;
            add_pair(&mut orphans_sorted, &rows.pages[j]);
            proof {
                let after = before.push(ps[j as int]);
                assert(pairs_view(after) =~= pairs_view(before).push((ps[j as int].0@, ps[j as int].1@)));
                assert forall|x: Pair| #[trigger] pairs_view(orphans_sorted@).contains(x) <==> pairs_view(after).contains(x) by {
                    let pv = pairs_view(before);
                    if pv.push((ps[j as int].0@, ps[j as int].1@)).contains(x) && x != (ps[j as int].0@, ps[j as int].1@) {
                        let k = choose|k: int| 0 <= k < pv.len() + 1 && pv.push((ps[j as int].0@, ps[j as int].1@))[k] == x;
                        assert(pv[k] == x);
                    }
                    if pv.contains(x) {
                        let k = choose|k: int| 0 <= k < pv.len() && pv[k] == x;
                        assert(pv.push((ps[j as int].0@, ps[j as int].1@))[k] == x);
                    }
                    if x == (ps[j as int].0@, ps[j as int].1@) {
                        assert(pv.push(x)[pv.len() as int] == x);
                    }
                }
            }
        }
        j = j + 1;
    }
    proof {
        assert(ps.take(ps.len() as int) =~= ps);
    }
    let ghost sorted_orphans = pairs_view(orphans_sorted@);
    orphans_sorted.truncate(TOP_N);
    let mut orphans: Vec<PageRef> = Vec::new();
    let mut k: usize = 0;
    while k < orphans_sorted.len()
        invariant
            k <= orphans_sorted@.len(),
            orphans_sorted@.len() == head_len(sorted_orphans.len()),
            forall|m: int| 0 <= m < orphans_sorted@.len() ==> (#[trigger] orphans_sorted@[m].0@, orphans_sorted@[m].1@) == sorted_orphans[m],
            orphans@.len() == k,
            forall|m: int| 0 <= m < k ==> (#[trigger] orphans@[m].slug@, orphans@[m].title@) == sorted_orphans[m],
        decreases orphans_sorted@.len() - k,
    {
        orphans.push(PageRef { slug: Slug::new(orphans_sorted[k].0.clone()), title: orphans_sorted[k].1.clone() });
        k = k + 1;
    }
    // The rankings.
    let wanted_ranked = rank(&pass.wanted);
    let linked_ranked = rank(&pass.linked);
    let tag_counts = tags(&rows.pages, &rows.tags);
    proof {
        ranking_len(wanted_ranked@, pass.wanted@);
    }
    let wanted_count = wanted_ranked.len();
    let tag_total = tag_counts.len();
    let ghost wr = wanted_ranked@;
    let mut wanted: Vec<WantedPage> = Vec::new();
    let mut w: usize = 0;
    while w < wanted_ranked.len() && w < TOP_N
        invariant
            wr == wanted_ranked@,
            is_ranking(wr, wanted_rows(rows)),
            w <= wr.len(),
            w <= TOP_N,
            wanted@.len() == w,
            forall|m: int| 0 <= m < w ==> #[trigger] wanted@[m].slug@ == wr[m].0@ && wanted@[m].referrers == wr[m].1,
        decreases wr.len() - w,
    {
        wanted.push(WantedPage { slug: wanted_ranked[w].0.clone(), referrers: wanted_ranked[w].1 });
        w = w + 1;
    }
    assert(wanted_heads(wanted@, wr));
    let ghost lr = linked_ranked@;
    let mut most_linked: Vec<LinkedPage> = Vec::new();
    let mut m: usize = 0;
    while m < linked_ranked.len() && m < TOP_N
        invariant
            lr == linked_ranked@,
            is_ranking(lr, linked_rows(rows)),
            readable_at@ == title_map(rows.pages@),
            m <= lr.len(),
            m <= TOP_N,
            most_linked@.len() == m,
            forall|n: int| 0 <= n < m ==> #[trigger] most_linked@[n].slug@ == lr[n].0@ && most_linked@[n].referrers == lr[n].1
                && most_linked@[n].title == title_map(rows.pages@)[lr[n].0@],
        decreases lr.len() - m,
    {
        let target = &linked_ranked[m].0;
        proof {
            linked_targets_are_readable(rows, lr, m as int);
            assert(readable_at@.contains_key(target@));
        }
        let title = match readable_at.get(target.as_str()) {
            Some(title) => title.clone(),
            None => target.clone(),
        };
        assert(title == title_map(rows.pages@)[lr[m as int].0@]);
        let entry = LinkedPage { slug: Slug::new(target.clone()), title, referrers: linked_ranked[m].1 };
        assert(entry.slug@ == lr[m as int].0@);
        assert(entry.referrers == lr[m as int].1);
        let ghost before = most_linked@;
        most_linked.push(entry);
        proof {
            assert forall|n: int| 0 <= n < m + 1 implies #[trigger] most_linked@[n].slug@ == lr[n].0@ && most_linked@[n].referrers == lr[n].1
                && most_linked@[n].title == title_map(rows.pages@)[lr[n].0@] by {
                if n < m {
                    assert(most_linked@[n] == before[n]);
                }
            }
        }
        m = m + 1;
    }
    assert(linked_heads(most_linked@, lr, title_map(rows.pages@)));
    proof {
        assert(is_ranking(wr, wanted_rows(rows)));
        assert(is_ranking(lr, linked_rows(rows)));
    }
    let pages = rows.pages.len();
    let internal = pass.internal;
    let resolved = pass.resolved;
    proof {
        resolved_within_internal(rows);
    }
    Stats {
        pages,
        tags: tag_total,
        links: LinkTotals { internal, external: pass.external, resolved, wanted: internal - resolved },
        orphan_count,
        wanted,
        wanted_count,
        orphans,
        most_linked,
        tag_counts,
        last_indexed: stored_instant(rows.last_sync),
    }
}

/// Counts are listed most first, and equal counts by name.
pub open spec fn most_first(n1: usize, a: Seq<char>, n2: usize, b: Seq<char>) -> bool {
    n1 > n2 || (n1 == n2 && seq_lt(a, b))
}

pub open spec fn tags_in_order(t: Seq<TagCount>) -> bool {
    forall|i: int, j: int|
        0 <= i < j < t.len() ==> most_first(#[trigger] t[i].pages, t[i].tag@, #[trigger] t[j].pages, t[j].tag@)
}

pub open spec fn wanted_in_order(w: Seq<WantedPage>) -> bool {
    forall|i: int, j: int|
        0 <= i < j < w.len() ==> most_first(
            #[trigger] w[i].referrers,
            w[i].slug@,
            #[trigger] w[j].referrers,
            w[j].slug@,
        )
}

pub open spec fn linked_in_order(l: Seq<LinkedPage>) -> bool {
    forall|i: int, j: int|
        0 <= i < j < l.len() ==> most_first(
            #[trigger] l[i].referrers,
            l[i].slug@,
            #[trigger] l[j].referrers,
            l[j].slug@,
        )
}

/// Orphans are listed by slug, and a slug given twice by title.
pub open spec fn orphans_in_order(o: Seq<PageRef>) -> bool {
    forall|i: int, j: int|
        0 <= i < j < o.len() ==> pair_lt((#[trigger] o[i].slug@, o[i].title@), (#[trigger] o[j].slug@, o[j].title@))
}

proof fn ranked_lists_in_order(s: Stats, rows: StatsRows)
    requires
        exists|r: Seq<(String, usize)>| #[trigger] is_ranking(r, wanted_rows(rows)) && wanted_heads(s.wanted@, r),
        exists|r: Seq<(String, usize)>|
            #[trigger] is_ranking(r, linked_rows(rows)) && linked_heads(s.most_linked@, r, title_map(rows.pages@)),
        exists|r: Seq<(String, usize)>| #[trigger] is_ranking(r, tag_rows(rows)) && tag_table(s.tag_counts@, r),
        exists|o: Seq<Pair>|
            #![trigger pairs_sorted(o)]
            pairs_sorted(o) && orphan_heads(s.orphans@, o),
    ensures
        wanted_in_order(s.wanted@),
        linked_in_order(s.most_linked@),
        tags_in_order(s.tag_counts@),
        orphans_in_order(s.orphans@),
{
    let rw = choose|r: Seq<(String, usize)>| #[trigger] is_ranking(r, wanted_rows(rows)) && wanted_heads(s.wanted@, r);
    assert forall|i: int, j: int| 0 <= i < j < s.wanted@.len() implies most_first(
        #[trigger] s.wanted@[i].referrers,
        s.wanted@[i].slug@,
        #[trigger] s.wanted@[j].referrers,
        s.wanted@[j].slug@,
    ) by {
        assert(ranks_above(rw[i], rw[j]));
    }
    let rl = choose|r: Seq<(String, usize)>|
        #[trigger] is_ranking(r, linked_rows(rows)) && linked_heads(s.most_linked@, r, title_map(rows.pages@));
    assert forall|i: int, j: int| 0 <= i < j < s.most_linked@.len() implies most_first(
        #[trigger] s.most_linked@[i].referrers,
        s.most_linked@[i].slug@,
        #[trigger] s.most_linked@[j].referrers,
        s.most_linked@[j].slug@,
    ) by {
        assert(ranks_above(rl[i], rl[j]));
    }
    let rt = choose|r: Seq<(String, usize)>| #[trigger] is_ranking(r, tag_rows(rows)) && tag_table(s.tag_counts@, r);
    assert forall|i: int, j: int| 0 <= i < j < s.tag_counts@.len() implies most_first(
        #[trigger] s.tag_counts@[i].pages,
        s.tag_counts@[i].tag@,
        #[trigger] s.tag_counts@[j].pages,
        s.tag_counts@[j].tag@,
    ) by {
        assert(ranks_above(rt[i], rt[j]));
    }
    let ro = choose|o: Seq<Pair>| #![trigger pairs_sorted(o)] pairs_sorted(o) && orphan_heads(s.orphans@, o);
    assert forall|i: int, j: int| 0 <= i < j < s.orphans@.len() implies pair_lt(
        (#[trigger] s.orphans@[i].slug@, s.orphans@[i].title@),
        (#[trigger] s.orphans@[j].slug@, s.orphans@[j].title@),
    ) by {
        assert(pair_lt(ro[i], ro[j]));
    }
}

/// The dashboard's figures, over what this audience can see.
///
/// Links are counted from readable pages only, and a link to a page this
/// audience cannot read is no link of theirs at all: counting it would report
/// the private page as wanted, and name it. Wanted targets are ranked by how
/// many distinct pages want them, the most-linked pages likewise, and tags by
/// how many readable pages carry them, each most first and then by name; the
/// orphans are the readable pages nothing they can see names, by slug. The
/// top-N lists hold at most [`TOP_N`] entries.
pub fn stats(rows: StatsRows) -> (s: Stats)
    ensures
        s.pages == rows.pages@.len(),
        s.links.internal == rows.links@.filter(seeing(rows)).len(),
        s.links.external == rows.links@.filter(seeing_external(rows)).len(),
        s.links.resolved == rows.links@.filter(resolving(rows)).len(),
        s.links.wanted == s.links.internal - s.links.resolved,
        s.orphan_count == orphan_rows(rows).len(),
        s.wanted_count == keys_of(wanted_rows(rows)).len(),
        s.tags == keys_of(tag_rows(rows)).len(),
        exists|r: Seq<(String, usize)>| #[trigger] is_ranking(r, wanted_rows(rows)) && wanted_heads(s.wanted@, r),
        exists|r: Seq<(String, usize)>|
            #[trigger] is_ranking(r, linked_rows(rows)) && linked_heads(s.most_linked@, r, title_map(rows.pages@)),
        exists|r: Seq<(String, usize)>| #[trigger] is_ranking(r, tag_rows(rows)) && tag_table(s.tag_counts@, r),
        exists|o: Seq<Pair>|
            #![trigger pairs_sorted(o)]
            pairs_sorted(o) && (forall|x: Pair| #[trigger] o.contains(x) <==> pairs_view(orphan_rows(rows)).contains(x))
                && orphan_heads(s.orphans@, o),
        s.last_indexed == stored_instant_spec(rows.last_sync),
        wanted_in_order(s.wanted@),
        linked_in_order(s.most_linked@),
        tags_in_order(s.tag_counts@),
        orphans_in_order(s.orphans@),
{
    let ghost given = rows;
    let s = tally(rows);
    proof {
        ranked_lists_in_order(s, given);
    }
    s
}

/// Every link that resolves is a seen link, so no more resolve than are seen.
proof fn resolved_within_internal(rows: StatsRows)
    ensures
        rows.links@.filter(resolving(rows)).len() <= rows.links@.filter(seeing(rows)).len(),
{
    let ls = rows.links@;
    assert forall|i: int| 0 <= i <= ls.len() implies ls.take(i).filter(resolving(rows)).len() <= ls.take(i).filter(seeing(rows)).len() by {
        filtered_counts(ls, rows, i);
    }
    assert(ls.take(ls.len() as int) =~= ls);
}

proof fn filtered_counts(ls: Seq<LinkRow>, rows: StatsRows, i: int)
    requires
        0 <= i <= ls.len(),
    ensures
        ls.take(i).filter(resolving(rows)).len() <= ls.take(i).filter(seeing(rows)).len(),
    decreases i,
{
    if i == 0 {
        filter_empty(ls, resolving(rows));
        filter_empty(ls, seeing(rows));
    } else {
        filtered_counts(ls, rows, i - 1);
        filter_step(ls, i - 1, resolving(rows));
        filter_step(ls, i - 1, seeing(rows));
    }
}

/// Every target the most-linked ranking holds is a page this audience can read.
proof fn linked_targets_are_readable(rows: StatsRows, r: Seq<(String, usize)>, k: int)
    requires
        is_ranking(r, linked_rows(rows)),
        0 <= k < r.len(),
    ensures
        readable(rows, r[k].0@),
{
    let lr = linked_rows(rows);
    let fl = rows.links@.filter(resolving(rows));
    assert(keys_of(lr).contains(r[k].0@));
    let i = choose|i: int| 0 <= i < lr.len() && #[trigger] lr[i].0@ == r[k].0@;
    rows.links@.lemma_filter_pred(resolving(rows), i);
    assert(lr[i] == by_target(fl[i]));
}

/// Every readable page is a written one: what rows read from one index
/// always satisfy.
pub open spec fn consistent(rows: StatsRows) -> bool {
    forall|x: Seq<char>| #[trigger] readable(rows, x) ==> written(rows, x)
}

proof fn seen_split(ls: Seq<LinkRow>, rows: StatsRows, i: int)
    requires
        0 <= i <= ls.len(),
        consistent(rows),
    ensures
        ls.take(i).filter(seeing(rows)).len() == ls.take(i).filter(resolving(rows)).len() + ls.take(i).filter(
            wanting(rows),
        ).len(),
    decreases i,
{
    if i == 0 {
        filter_empty(ls, seeing(rows));
        filter_empty(ls, resolving(rows));
        filter_empty(ls, wanting(rows));
    } else {
        seen_split(ls, rows, i - 1);
        filter_step(ls, i - 1, seeing(rows));
        filter_step(ls, i - 1, resolving(rows));
        filter_step(ls, i - 1, wanting(rows));
        let l = ls[i - 1];
        if seen_link(rows, l) && readable(rows, l.target@) {
            assert(written(rows, l.target@));
        }
    }
}

/// Every link this audience sees either reaches a page they can read or
/// wants writing, never both: so the links the dashboard reports as wanting
/// writing, the seen ones that did not resolve, are exactly the links whose
/// target nobody has written.
pub proof fn a_seen_link_resolves_or_wants(rows: StatsRows)
    requires
        consistent(rows),
    ensures
        rows.links@.filter(seeing(rows)).len() == rows.links@.filter(resolving(rows)).len() + rows.links@.filter(
            wanting(rows),
        ).len(),
{
    let ls = rows.links@;
    seen_split(ls, rows, ls.len() as int);
    assert(ls.take(ls.len() as int) =~= ls);
}

/// A row of the outbound query: the target as written, its display text,
/// its kind as stored, and the title of the page it reaches, if any.
#[derive(Debug, Clone)]
pub struct OutboundRow {
    pub target: String,
    pub display: Option<String>,
    pub kind: String,
    pub title: Option<String>,
}

pub open spec fn outbound_spec(rows: Seq<OutboundRow>) -> Seq<OutboundLink>
    decreases rows.len(),
{
    if rows.len() == 0 {
        seq![]
    } else {
        let r = rows.last();
        outbound_spec(rows.drop_last()) + match link_kind_of(r.kind@) {
            Some(kind) => seq![OutboundLink { target: r.target, display: r.display, kind, title: r.title }],
            None => seq![],
        }
    }
}

/// Whether a row's kind is one the graph knows: wiki, internal or external.
pub open spec fn known_kind() -> spec_fn(OutboundRow) -> bool {
    |r: OutboundRow| link_kind_of(r.kind@) is Some
}

/// Whether a link carries a row: its target, display and title, and the kind
/// the row spells.
pub open spec fn carries(link: OutboundLink, row: OutboundRow) -> bool {
    &&& link.target@ == row.target@
    &&& link.display == row.display
    &&& link.title == row.title
    &&& link_kind_of(row.kind@) == Some(link.kind)
}

/// Every row whose kind is a known link kind, and no other, gives exactly one
/// outbound link carrying it, in row order: a page's wiki, internal and
/// external links are all listed, and only rows of an unknown kind are left
/// out.
pub proof fn every_known_link_is_listed(rows: Seq<OutboundRow>)
    ensures
        outbound_spec(rows).len() == rows.filter(known_kind()).len(),
        forall|k: int|
            0 <= k < outbound_spec(rows).len() ==> carries(
                #[trigger] outbound_spec(rows)[k],
                rows.filter(known_kind())[k],
            ),
    decreases rows.len(),
{
    reveal(Seq::filter);
    if rows.len() > 0 {
        let front = rows.drop_last();
        let r = rows.last();
        every_known_link_is_listed(front);
        assert(rows =~= front.push(r));
        front.lemma_filter_push(r, known_kind());
        let before = outbound_spec(front);
        let after = outbound_spec(rows);
        assert forall|k: int| 0 <= k < after.len() implies carries(#[trigger] after[k], rows.filter(known_kind())[k]) by {
            if k < before.len() {
                assert(after[k] == before[k]);
            }
        }
    } else {
        assert(rows.filter(known_kind()) =~= Seq::<OutboundRow>::empty());
    }
}

/// The links leaving a page, in row order; a row whose kind the graph does
/// not know is left out.
pub fn outbound_links(rows: Vec<OutboundRow>) -> (links: Vec<OutboundLink>)
    ensures
        links@ == outbound_spec(rows@),
        links@.len() == rows@.filter(known_kind()).len(),
        forall|k: int| 0 <= k < links@.len() ==> carries(#[trigger] links@[k], rows@.filter(known_kind())[k]),
{
    proof {
        every_known_link_is_listed(rows@);
    }
    let mut links: Vec<OutboundLink> = Vec::new();
    let mut rest = rows;
    let ghost all = rest@;
    let mut reversed: Vec<OutboundRow> = Vec::new();
    while rest.len() > 0
        invariant
            reversed@.len() + rest@.len() == all.len(),
            rest@ == all.take(rest@.len() as int),
            forall|k: int| 0 <= k < reversed@.len() ==> #[trigger] reversed@[k] == all[all.len() - 1 - k],
        decreases rest@.len(),
    {
        let row = rest.pop().unwrap();
        proof {
            assert(rest@ =~= all.take(rest@.len() as int));
        }
        reversed.push(row);
    }
    while reversed.len() > 0
        invariant
            reversed@.len() <= all.len(),
            links@ == outbound_spec(all.take(all.len() - reversed@.len())),
            forall|k: int| 0 <= k < reversed@.len() ==> #[trigger] reversed@[k] == all[all.len() - 1 - k],
        decreases reversed@.len(),
    {
        let row = reversed.pop().unwrap();
        let ghost at = all.len() - reversed@.len() - 1;
        proof {
            assert(row == all[at]);
            assert(all.take(at + 1).drop_last() =~= all.take(at));
        }
        match LinkKind::parse(row.kind.as_str()) {
            Some(kind) => {
                links.push(OutboundLink { target: row.target, display: row.display, kind, title: row.title });
            },
            None => {},
        }
        proof {
            assert(links@ =~= outbound_spec(all.take(at + 1)));
        }
    }
    proof {
        assert(all.take(all.len() as int) =~= all);
    }
    links
}

} // verus!