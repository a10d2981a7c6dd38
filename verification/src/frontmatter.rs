//! The frontmatter block that opens an authored file: a `---` line, YAML, and
//! a closing `---` line, then the body. Lines may end with `\n` or with the
//! `\r\n` Windows editors write.
//!
//! Reading the YAML itself is serde's work and happens outside the library;
//! what is decided here is where the block begins and ends, and how a block
//! and a body are written back out.
use vstd::prelude::*;

use crate::text::{chars_of, push_char, push_chars, string_of_range};

verus! {

/// Why a file's frontmatter could not be found.
#[derive(Debug, Clone, PartialEq, Eq)]
pub enum FrontmatterError {
    /// The file opens a frontmatter block and never closes it.
    Unterminated,
    /// The block is not YAML the record's fields can be read from.
    Yaml { reason: String },
}

pub open spec fn opener() -> Seq<char> {
    seq!['-', '-', '-', '\n']
}

pub open spec fn crlf_opener() -> Seq<char> {
    seq!['-', '-', '-', '\r', '\n']
}

pub open spec fn dashes() -> Seq<char> {
    seq!['-', '-', '-']
}

/// How long a file's opening `---` line is, its line ending included: four
/// for `---\n`, five for `---\r\n`, and none when the file does not open
/// with such a line.
pub open spec fn opening(text: Seq<char>) -> int {
    if text.len() >= 4 && text.take(4) == opener() {
        4
    } else if text.len() >= 5 && text.take(5) == crlf_opener() {
        5
    } else {
        0
    }
}

/// The line ending at `j`: none at the end of the text, one character for
/// `\n`, two for `\r\n`; `None` when a line does not end there.
pub open spec fn line_end(s: Seq<char>, j: int) -> Option<int> {
    if j == s.len() {
        Some(0)
    } else if 0 <= j < s.len() && s[j] == '\n' {
        Some(1)
    } else if 0 <= j && j + 1 < s.len() && s[j] == '\r' && s[j + 1] == '\n' {
        Some(2)
    } else {
        None
    }
}

/// Whether `k` is where a line of `s` begins.
pub open spec fn line_start(s: Seq<char>, k: int) -> bool {
    k == 0 || (0 < k <= s.len() && s[k - 1] == '\n')
}

/// Whether a line of exactly `---` begins at `k`.
pub open spec fn closes_at(s: Seq<char>, k: int) -> bool {
    &&& 0 <= k
    &&& line_start(s, k)
    &&& k + 3 <= s.len()
    &&& s.subrange(k, k + 3) == dashes()
    &&& line_end(s, k + 3) is Some
}

/// The first line of exactly `---` at or after `k`.
pub open spec fn close_from(s: Seq<char>, k: int) -> Option<int>
    decreases s.len() + 1 - k,
{
    if k < 0 || k > s.len() {
        None
    } else if closes_at(s, k) {
        Some(k)
    } else {
        close_from(s, k + 1)
    }
}

/// A file's frontmatter and body: nothing when the file does not open with a
/// `---` line; otherwise the text up to the first `---` line, and everything
/// after that line's ending.
pub open spec fn split_spec(text: Seq<char>) -> Result<Option<(Seq<char>, Seq<char>)>, FrontmatterError> {
    if opening(text) == 0 {
        Ok(None)
    } else {
        let rest = text.skip(opening(text));
        match close_from(rest, 0) {
            None => Err(FrontmatterError::Unterminated),
            Some(k) => Ok(Some((rest.take(k), rest.skip(k + 3 + line_end(rest, k + 3)->0)))),
        }
    }
}

/// A text without the byte-order mark some editors put first.
pub open spec fn without_bom(text: Seq<char>) -> Seq<char> {
    if text.len() > 0 && text[0] == '\u{feff}' {
        text.drop_first()
    } else {
        text
    }
}

pub fn strip_bom(text: &str) -> (out: String)
    ensures
        out@ == without_bom(text@),
{
    let cs = chars_of(text);
    if cs.len() > 0 && cs[0] == '\u{feff}' {
        string_of_range(&cs, 1, cs.len())
    } else {
        string_of_range(&cs, 0, cs.len())
    }
}

/// The length of the line ending at `j` of `cs` from `start` on, as
/// [`line_end`] has it.
fn line_end_at(cs: &Vec<char>, start: usize, j: usize) -> (r: Option<usize>)
    requires
        start <= cs@.len(),
        j <= cs@.len() - start,
    ensures
        match line_end(cs@.skip(start as int), j as int) {
            None => r is None,
            Some(m) => r == Some(m as usize),
        },
{
    let ghost s = cs@.skip(start as int);
    let n = cs.len() - start;
    if j == n {
        return Some(0);
    }
    proof {
        assert(s[j as int] == cs@[start + j]);
        if j + 1 < n {
            assert(s[j + 1] == cs@[start + j + 1]);
        }
    }
    if cs[start + j] == '\n' {
        Some(1)
    } else if cs[start + j] == '\r' && j + 1 < n && cs[start + j + 1] == '\n' {
        Some(2)
    } else {
        None
    }
}

fn closes(cs: &Vec<char>, start: usize, k: usize) -> (r: bool)
    requires
        start <= cs@.len(),
        k <= cs@.len() - start,
    ensures
        r == closes_at(cs@.skip(start as int), k as int),
{
    let ghost s = cs@.skip(start as int);
    let n = cs.len() - start;
    let at_line = k == 0 || cs[start + k - 1] == '\n';
    if !at_line || n < 3 || k > n - 3 {
        proof {
            if k > 0 {
                assert(s[k - 1] == cs@[start + k - 1]);
            }
        }
        return false;
    }
    let three = cs[start + k] == '-' && cs[start + k + 1] == '-' && cs[start + k + 2] == '-';
    proof {
        assert(s[k as int] == cs@[start + k]);
        assert(s[k + 1] == cs@[start + k + 1]);
        assert(s[k + 2] == cs@[start + k + 2]);
        if three {
            assert(s.subrange(k as int, k + 3) =~= dashes());
        } else {
            assert(s.subrange(k as int, k + 3)[0] == s[k as int]);
            assert(s.subrange(k as int, k + 3)[1] == s[k + 1]);
            assert(s.subrange(k as int, k + 3)[2] == s[k + 2]);
        }
        if k > 0 {
            assert(s[k - 1] == cs@[start + k - 1]);
        }
    }
    three && line_end_at(cs, start, k + 3).is_some()
}

proof fn close_from_skips(s: Seq<char>, k: int, m: int)
    requires
        0 <= k <= m <= s.len(),
        forall|j: int| k <= j < m ==> !closes_at(s, j),
    ensures
        close_from(s, k) == close_from(s, m),
    decreases m - k,
{
    if k < m {
        close_from_skips(s, k + 1, m);
    }
}

proof fn close_from_none(s: Seq<char>, k: int)
    requires
        0 <= k <= s.len() + 1,
        forall|j: int| k <= j <= s.len() ==> !closes_at(s, j),
    ensures
        close_from(s, k) is None,
    decreases s.len() + 1 - k,
{
    if k <= s.len() {
        close_from_none(s, k + 1);
    }
}

/// How long the opening line of `cs` is, as [`opening`] has it.
fn opening_of(cs: &Vec<char>) -> (o: usize)
    ensures
        o == opening(cs@),
{
    let n = cs.len();
    if n >= 4 && cs[0] == '-' && cs[1] == '-' && cs[2] == '-' && cs[3] == '\n' {
        proof {
            assert(cs@.take(4) =~= opener());
        }
        return 4;
    }
    proof {
        if n >= 4 {
            assert(cs@.take(4)[0] == cs@[0] && cs@.take(4)[1] == cs@[1]);
            assert(cs@.take(4)[2] == cs@[2] && cs@.take(4)[3] == cs@[3]);
        }
    }
    if n >= 5 && cs[0] == '-' && cs[1] == '-' && cs[2] == '-' && cs[3] == '\r' && cs[4] == '\n' {
        proof {
            assert(cs@.take(5) =~= crlf_opener());
        }
        return 5;
    }
    proof {
        if n >= 5 {
            assert(cs@.take(5)[0] == cs@[0] && cs@.take(5)[1] == cs@[1]);
            assert(cs@.take(5)[2] == cs@[2] && cs@.take(5)[3] == cs@[3]);
            assert(cs@.take(5)[4] == cs@[4]);
        }
    }
    0
}

/// Find an authored file's frontmatter, if it opens with one.
pub fn split(text: &str) -> (r: Result<Option<(String, String)>, FrontmatterError>)
    ensures
        match split_spec(text@) {
            Ok(None) => r == Ok::<Option<(String, String)>, FrontmatterError>(None),
            Ok(Some((yaml, body))) => (r matches Ok(Some((y, b))) && y@ == yaml && b@ == body),
            Err(e) => r == Err::<Option<(String, String)>, FrontmatterError>(e),
        },
{
    let cs = chars_of(text);
    let n = cs.len();
    let o = opening_of(&cs);
    if o == 0 {
        return Ok(None);
    }
    let ghost rest = cs@.skip(o as int);
    let mut k: usize = 0;
    while k <= n - o && !closes(&cs, o, k)
        invariant
            n == cs@.len(),
            o == opening(cs@),
            4 <= o <= 5,
            o <= n,
            cs@ == text@,
            rest == cs@.skip(o as int),
            k <= n - o + 1,
            forall|j: int| 0 <= j < k ==> !closes_at(rest, j),
        decreases n - o + 1 - k,
    {
        k = k + 1;
    }
    if k > n - o {
        proof {
            close_from_none(rest, 0);
        }
        return Err(FrontmatterError::Unterminated);
    }
    proof {
        close_from_skips(rest, 0, k as int);
    }
    let yaml = string_of_range(&cs, o, o + k);
    let ending = match line_end_at(&cs, o, k + 3) {
        Some(m) => m,
        None => 0,
    };
    let body = string_of_range(&cs, o + k + 3 + ending, n);
    proof {
        assert(yaml@ =~= rest.take(k as int));
        assert(body@ =~= rest.skip(k + 3 + ending));
    }
    Ok(Some((yaml, body)))
}

/// How a frontmatter block and a body are written: the block between `---`
/// lines, and the body straight after the closing one.
pub open spec fn compose_spec(yaml: Seq<char>, body: Seq<char>) -> Seq<char> {
    opener() + yaml + (if yaml.len() > 0 && yaml.last() != '\n' {
        seq!['\n']
    } else {
        seq![]
    }) + opener() + body
}

pub fn compose(yaml: &str, body: &str) -> (text: String)
    ensures
        text@ == compose_spec(yaml@, body@),
{
    let ys = chars_of(yaml);
    let bs = chars_of(body);
    let mut text = String::new();
    let opening = vec!['-', '-', '-', '\n'];
    assert(opening@ =~= opener());
    push_chars(&mut text, opening.as_slice());
    push_chars(&mut text, ys.as_slice());
    if ys.len() > 0 && ys[ys.len() - 1] != '\n' {
        push_char(&mut text, '\n');
    }
    push_chars(&mut text, opening.as_slice());
    push_chars(&mut text, bs.as_slice());
    proof {
        let mid = if yaml@.len() > 0 && yaml@.last() != '\n' { seq!['\n'] } else { Seq::<char>::empty() };
        assert(text@ =~= opener() + yaml@ + mid + opener() + body@);
    }
    text
}

/// A block that can be written and read back: it ends with a newline (or is
/// empty), and none of its lines is `---`.
pub open spec fn writable_yaml(yaml: Seq<char>) -> bool {
    &&& (yaml.len() == 0 || yaml.last() == '\n')
    &&& forall|k: int| 0 <= k < yaml.len() ==> !closes_at(yaml, k)
}

proof fn closes_inside_block(y: Seq<char>, t: Seq<char>, k: int)
    requires
        0 <= k < y.len(),
        y.last() == '\n',
    ensures
        closes_at(y + t, k) == closes_at(y, k),
{
    let s = y + t;
    assert(s[y.len() - 1] == '\n');
    if k > 0 {
        assert(s[k - 1] == y[k - 1]);
    }
    if k + 3 <= y.len() {
        assert(s.subrange(k, k + 3) =~= y.subrange(k, k + 3));
        if k + 3 < y.len() {
            assert(s[k + 3] == y[k + 3]);
            if k + 4 < y.len() {
                assert(s[k + 4] == y[k + 4]);
            }
        } else {
            assert(y[k + 2] == '\n');
            assert(y.subrange(k, k + 3)[2] == y[k + 2]);
        }
    } else {
        let e = y.len() - 1;
        assert(k <= e < k + 3);
        if k + 3 <= s.len() {
            assert(s.subrange(k, k + 3)[e - k] == s[e]);
        }
    }
}

/// Reading a file back gives exactly the block and body it was written from.
pub proof fn split_reads_back_what_compose_wrote(yaml: Seq<char>, body: Seq<char>)
    requires
        writable_yaml(yaml),
    ensures
        split_spec(compose_spec(yaml, body)) == Ok::<Option<(Seq<char>, Seq<char>)>, FrontmatterError>(
            Some((yaml, body)),
        ),
{
    let text = compose_spec(yaml, body);
    assert(text =~= opener() + yaml + opener() + body);
    assert(text.take(4) =~= opener());
    let rest = text.skip(4);
    assert(rest =~= yaml + (opener() + body));
    let m = yaml.len() as int;
    assert forall|j: int| 0 <= j < m implies !closes_at(rest, j) by {
        closes_inside_block(yaml, opener() + body, j);
    }
    assert(closes_at(rest, m)) by {
        assert(rest.subrange(m, m + 3) =~= dashes());
        assert(rest[m + 3] == '\n');
        if m > 0 {
            assert(rest[m - 1] == yaml.last());
        }
    }
    close_from_skips(rest, 0, m);
    assert(close_from(rest, m) == Some(m));
    assert(close_from(rest, 0) == Some(m));
    assert(rest.take(m) =~= yaml);
    assert(line_end(rest, m + 3) == Some(1int));
    assert(rest.skip(m + 4) =~= body);
}

} // verus!
