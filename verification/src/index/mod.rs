//! The derived index's own logic: what it records, how it is queried, and what
//! comes back. The database itself is driven from outside the library; what is
//! here is every decision made about what goes in and what comes out.
pub mod audience;
pub mod drawing;
pub mod fold;
pub mod graph;
pub mod pages;
pub mod ideas;
pub mod neighbours;
pub mod pins;
pub mod ranking;
pub mod sync;
pub mod times;
pub mod words;

use vstd::prelude::*;

use crate::text::{i64_text, parse_i64, push_char, split_whitespace, whitespace_words};

verus! {

#[verifier::external_type_specification]
#[verifier::external_body]
pub struct ExSqliteError(rusqlite::Error);

/// Why an index operation failed.
#[derive(Debug)]
pub enum IndexError {
    /// The database refused.
    Sqlite(rusqlite::Error),
    /// The blocking task running the query failed.
    Task(String),
    /// An instant the index cannot store: it keeps nanoseconds in an `i64`.
    TimestampOutOfRange { label: &'static str },
}

impl From<rusqlite::Error> for IndexError {
    fn from(error: rusqlite::Error) -> (e: Self) {
        IndexError::Sqlite(error)
    }
}

impl vstd::std_specs::convert::FromSpecImpl<rusqlite::Error> for IndexError {
    open spec fn obeys_from_spec() -> bool {
        true
    }

    open spec fn from_spec(error: rusqlite::Error) -> Self {
        IndexError::Sqlite(error)
    }
}

/// The part of a listing that one page of results shows. The index binds the
/// two counts as `i64`, so one past `i64::MAX` arrives negative, and a
/// negative limit means no limit, a negative offset none.
pub open spec fn window<T>(s: Seq<T>, offset: usize, limit: usize) -> Seq<T> {
    let lo = if offset > i64::MAX || offset > s.len() {
        if offset > i64::MAX {
            0
        } else {
            s.len() as int
        }
    } else {
        offset as int
    };
    let hi = if limit > i64::MAX || limit > s.len() - lo {
        s.len() as int
    } else {
        lo + limit
    };
    s.subrange(lo, hi)
}

/// The page of results that `offset` and `limit` pick out of a listing.
pub fn cut_window<T>(listing: Vec<T>, offset: usize, limit: usize) -> (part: Vec<T>)
    ensures
        part@ == window(listing@, offset, limit),
{
    let mut listing = listing;
    let ghost s = listing@;
    let n = listing.len();
    let lo: usize = if offset as u64 > i64::MAX as u64 {
        0
    } else if offset > n {
        n
    } else {
        offset
    };
    let hi: usize = if limit as u64 > i64::MAX as u64 || limit > n - lo {
        n
    } else {
        lo + limit
    };
    let mut part = listing.split_off(lo);
    part.truncate(hi - lo);
    proof {
        assert(part@ =~= window(s, offset, limit));
    }
    part
}

/// How many entries the index's top-N lists carry.
pub const TOP_N: usize = 10;

/// What the index recorded about a page's file, for change detection:
/// its modification instant in nanoseconds and its size in bytes.
#[derive(Debug, Clone, Copy, PartialEq, Eq, Structural)]
pub struct Stamp {
    pub updated: i128,
    pub size: u64,
}

/// The instant as the index stores it, if it fits.
pub fn to_nanos(at: i128, label: &'static str) -> (r: Result<i64, IndexError>)
    ensures
        match r {
            Ok(n) => i64::MIN <= at <= i64::MAX && n == at,
            Err(IndexError::TimestampOutOfRange { label: l }) => !(i64::MIN <= at <= i64::MAX) && l == label,
            Err(_) => false,
        },
{
    if i64::MIN as i128 <= at && at <= i64::MAX as i128 {
        Ok(at as i64)
    } else {
        Err(IndexError::TimestampOutOfRange { label })
    }
}

/// The instant a stored value stands for.
pub fn from_nanos(nanos: i64) -> (at: i128)
    ensures
        at == nanos,
{
    nanos as i128
}

#[derive(Debug, Clone, Copy, Default, PartialEq, Eq, Structural)]
pub enum SortBy {
    #[default]
    Slug,
    Title,
    Created,
    Updated,
}

#[derive(Debug, Clone, Copy, Default, PartialEq, Eq, Structural)]
pub enum SortOrder {
    #[default]
    Ascending,
    Descending,
}

impl SortBy {
    /// The column to sort on. A column cannot be a bound parameter, so only
    /// these four strings ever reach the query.
    pub fn column(self) -> (c: &'static str)
        ensures
            c == (match self {
                SortBy::Slug => "slug",
                SortBy::Title => "title",
                SortBy::Created => "created",
                SortBy::Updated => "updated",
            }),
    {
        match self {
            SortBy::Slug => "slug",
            SortBy::Title => "title",
            SortBy::Created => "created",
            SortBy::Updated => "updated",
        }
    }
}

impl SortOrder {
    pub fn keyword(self) -> (k: &'static str)
        ensures
            k == (match self {
                SortOrder::Ascending => "asc",
                SortOrder::Descending => "desc",
            }),
    {
        match self {
            SortOrder::Ascending => "asc",
            SortOrder::Descending => "desc",
        }
    }
}

/// How a listing of pages is narrowed, ordered and paged. Every filter
/// intersects.
#[derive(Debug, Clone)]
pub struct ListOptions {
    /// Only pages carrying this tag.
    pub tag: Option<String>,
    /// Only pages at or under this slug path, stopping at the separator.
    pub prefix: Option<String>,
    /// Only pages sitting in a directory of this name, wherever it is.
    pub segment: Option<String>,
    pub sort: SortBy,
    pub order: SortOrder,
    pub limit: usize,
    pub offset: usize,
}

impl Default for ListOptions {
    fn default() -> (o: Self)
        ensures
            o.tag is None,
            o.prefix is None,
            o.segment is None,
            o.sort == SortBy::Slug,
            o.order == SortOrder::Ascending,
            o.limit == 50,
            o.offset == 0,
    {
        ListOptions {
            tag: None,
            prefix: None,
            segment: None,
            sort: SortBy::Slug,
            order: SortOrder::Ascending,
            limit: 50,
            offset: 0,
        }
    }
}

/// A term with every `"` doubled, which is how an FTS5 string escapes one.
pub open spec fn doubled_quotes(w: Seq<char>) -> Seq<char>
    decreases w.len(),
{
    if w.len() == 0 {
        seq![]
    } else {
        doubled_quotes(w.drop_last()) + (if w.last() == '"' {
            seq!['"', '"']
        } else {
            seq![w.last()]
        })
    }
}

/// Whether a whitespace-separated term asks for a prefix search.
pub open spec fn is_prefix_term(t: Seq<char>) -> bool {
    t.len() > 0 && t.last() == '*'
}

/// The word a term searches for: the term without one trailing `*`.
pub open spec fn term_word(t: Seq<char>) -> Seq<char> {
    if is_prefix_term(t) {
        t.drop_last()
    } else {
        t
    }
}

/// The FTS5 phrase a term becomes: its word quoted, then `*` for a prefix.
pub open spec fn fts_phrase(t: Seq<char>) -> Seq<char> {
    seq!['"'] + doubled_quotes(term_word(t)) + seq!['"'] + (if is_prefix_term(t) {
        seq!['*']
    } else {
        seq![]
    })
}

/// The phrases of the terms that have a word left, joined by single spaces.
pub open spec fn fts_phrases(ts: Seq<Seq<char>>) -> Seq<char>
    decreases ts.len(),
{
    if ts.len() == 0 {
        seq![]
    } else if term_word(ts.last()).len() == 0 {
        fts_phrases(ts.drop_last())
    } else if fts_phrases(ts.drop_last()).len() == 0 {
        fts_phrase(ts.last())
    } else {
        fts_phrases(ts.drop_last()) + seq![' '] + fts_phrase(ts.last())
    }
}

/// The query for a search box: `None` when no term has a word in it.
pub open spec fn fts_query_spec(raw: Seq<char>) -> Option<Seq<char>> {
    let q = fts_phrases(whitespace_words(raw));
    if q.len() == 0 {
        None
    } else {
        Some(q)
    }
}

/// Turn a user's query into an FTS5 expression that matches literally: each
/// term quoted, a trailing `*` kept as a prefix search, terms joined by spaces
/// so they combine with AND.
pub fn to_fts_query(raw: &str) -> (q: Option<String>)
    ensures
        match q {
            Some(s) => fts_query_spec(raw@) == Some(s@),
            None => fts_query_spec(raw@) is None,
        },
{
    let terms = split_whitespace(raw);
    let ghost ts = terms@.map_values(|w: Vec<char>| w@);
    let mut out = String::new();
    let mut any = false;
    let mut i: usize = 0;
    while i < terms.len()
        invariant
            i <= terms@.len(),
            ts == terms@.map_values(|w: Vec<char>| w@),
            out@ == fts_phrases(ts.take(i as int)),
            any == (out@.len() > 0),
        decreases terms@.len() - i,
    {
        let term = &terms[i];
        let ghost t = ts[i as int];
        assert(term@ == t);
        assert(ts.take(i + 1).drop_last() =~= ts.take(i as int));
        assert(ts.take(i + 1).last() == t);
        let n = term.len();
        let prefix = n > 0 && term[n - 1] == '*';
        let end = if prefix { n - 1 } else { n };
        if end > 0 {
            let ghost before = out@;
            if any {
                push_char(&mut out, ' ');
            }
            let ghost head = out@;
            push_char(&mut out, '"');
            let mut k: usize = 0;
            while k < end
                invariant
                    k <= end,
                    end <= term@.len(),
                    end == term_word(t).len(),
                    term@ == t,
                    term_word(t) == t.take(end as int),
                    out@ == head + seq!['"'] + doubled_quotes(t.take(k as int)),
                decreases end - k,
            {
                assert(t.take(k + 1).drop_last() =~= t.take(k as int));
                let c = term[k];
                push_char(&mut out, c);
                if c == '"' {
                    push_char(&mut out, '"');
                }
                k = k + 1;
            }
            push_char(&mut out, '"');
            if prefix {
                push_char(&mut out, '*');
            }
            any = true;
            proof {
                assert(t.take(end as int) =~= term_word(t));
                assert(out@ =~= head + fts_phrase(t));
                if before.len() == 0 {
                    assert(head =~= before);
                } else {
                    assert(head =~= before + seq![' ']);
                }
            }
        }
        i = i + 1;
    }
    assert(ts.take(terms@.len() as int) =~= ts);
    if !any {
        None
    } else {
        Some(out)
    }
}

/// The instant a stored `meta` value names: nanoseconds written in decimal.
/// A value that does not parse names no instant.
pub open spec fn stored_instant_spec(value: Option<String>) -> Option<i128> {
    match value {
        Some(v) => match i64_text(v@) {
            Some(n) => Some(n as i128),
            None => None,
        },
        None => None,
    }
}

pub fn stored_instant(value: Option<String>) -> (at: Option<i128>)
    ensures
        at == stored_instant_spec(value),
{
    match value {
        Some(v) => match parse_i64(v.as_str()) {
            Some(n) => Some(from_nanos(n)),
            None => None,
        },
        None => None,
    }
}

} // verus!