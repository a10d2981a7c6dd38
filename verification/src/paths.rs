//! Filesystem paths, which the library builds and takes apart but never opens.
use vstd::prelude::*;

use std::path::{Component, Path, PathBuf};

use crate::text::{chars_of, has_prefix, string_of_range};

verus! {

#[verifier::external_type_specification]
#[verifier::external_body]
pub struct ExPath(Path);

#[verifier::external_type_specification]
#[verifier::external_body]
pub struct ExPathBuf(PathBuf);

/// What `Path::components` yields for `path`: each component as its name when
/// it is a plain name that is valid UTF-8, and as `None` when it is anything
/// else (a root, a prefix, `.`, `..`, or a name that is not UTF-8).
pub uninterp spec fn path_parts(path: &Path) -> Seq<Option<Seq<char>>>;

/// What a `Components` iterator has still to yield, each component taken as in
/// [`path_parts`].
pub uninterp spec fn pending(parts: &std::path::Components) -> Seq<Option<Seq<char>>>;

/// The path an owned path borrows as.
pub uninterp spec fn borrowed(path: &PathBuf) -> &Path;

/// How `Path::display` writes a path out.
pub uninterp spec fn shown(path: &Path) -> Seq<char>;

/// The owned path `Path::join` builds from `base` and the relative name `part`.
pub uninterp spec fn adjoined(base: &Path, part: Seq<char>) -> PathBuf;

/// A name `Path::join` adds as exactly one more plain component: not empty,
/// not `.` or `..`, and free of separators and of the `:` a Windows prefix
/// needs.
pub open spec fn plain_name(name: Seq<char>) -> bool {
    &&& name.len() > 0
    &&& name != seq!['.']
    &&& name != seq!['.', '.']
    &&& forall|i: int| 0 <= i < name.len() ==> name[i] != '/' && name[i] != '\\' && name[i] != ':'
}

/// Wraps `Path::join`. The contract names the result ([`adjoined`] of the two
/// arguments) and claims what std documents for a relative path of one plain
/// name: the result is `base` with that name adjoined, so its components are
/// `base`'s and then the name. Nothing is said of other names.
#[verifier::external_body]
pub(crate) fn join(base: &Path, part: &str) -> (joined: PathBuf)
    requires
        plain_name(part@),
    ensures
        joined == adjoined(base, part@),
        path_parts(borrowed(&joined)) == path_parts(base).push(Some(part@)),
{
    base.join(part)
}

/// Wraps `PathBuf::clone`: an owned copy that borrows as the same path.
#[verifier::external_body]
pub(crate) fn copy_path(path: &PathBuf) -> (copy: PathBuf)
    ensures
        borrowed(&copy) == borrowed(path),
{
    path.clone()
}

/// Wraps `PathBuf::as_path`: the borrowed form of an owned path.
#[verifier::external_body]
pub(crate) fn as_path(path: &PathBuf) -> (view: &Path)
    ensures
        view == borrowed(path),
{
    path.as_path()
}

#[verifier::external_type_specification]
#[verifier::external_body]
pub struct ExComponents<'a>(std::path::Components<'a>);

/// Wraps `Path::components`: an iterator that has every component of the path
/// still to yield.
#[verifier::external_body]
pub(crate) fn components(path: &Path) -> (parts: std::path::Components<'_>)
    ensures
        pending(&parts) == path_parts(path),
{
    path.components()
}

/// Wraps `Components::next`, converting the component it yields: `None` at the
/// end, where the iterator stays (it is fused), `Some(Some(name))` for a plain
/// name that is valid UTF-8, and `Some(None)` for anything else.
#[verifier::external_body]
pub(crate) fn next_plain(parts: &mut std::path::Components<'_>) -> (next: Option<Option<String>>)
    ensures
        next is None <==> pending(&*old(parts)).len() == 0,
        next is None ==> pending(&*final(parts)) == pending(&*old(parts)),
        next matches Some(part) ==> opt_text(part) == pending(&*old(parts))[0] && pending(
            &*final(parts),
        ) == pending(&*old(parts)).drop_first(),
{
    match parts.next() {
        None => None,
        Some(Component::Normal(part)) => Some(part.to_str().map(str::to_owned)),
        Some(_) => Some(None),
    }
}

/// A name by its text.
pub open spec fn opt_text(name: Option<String>) -> Option<Seq<char>> {
    match name {
        Some(n) => Some(n@),
        None => None,
    }
}

/// Each part's name.
pub open spec fn unwrapped(parts: Seq<Option<Seq<char>>>) -> Seq<Seq<char>> {
    parts.map_values(|p: Option<Seq<char>>| p->0)
}

/// Each name's text.
pub open spec fn texts(names: Seq<String>) -> Seq<Seq<char>> {
    names.map_values(|n: String| n@)
}

/// Every part's name, when every part is a plain name.
pub open spec fn plain_names(parts: Seq<Option<Seq<char>>>) -> Option<Seq<Seq<char>>> {
    if forall|i: int| 0 <= i < parts.len() ==> (#[trigger] parts[i]) is Some {
        Some(unwrapped(parts))
    } else {
        None
    }
}

/// The plain names a path is made of, in order, or `None` if any part of it
/// is not a plain UTF-8 name.
pub fn plain_segments(path: &Path) -> (segments: Option<Vec<String>>)
    ensures
        match segments {
            None => plain_names(path_parts(path)) is None,
            Some(s) => plain_names(path_parts(path)) == Some(texts(s@)),
        },
{
    let ghost all = path_parts(path);
    let mut parts = components(path);
    let mut segments: Vec<String> = Vec::new();
    loop
        invariant
            all == path_parts(path),
            segments@.len() + pending(&parts).len() == all.len(),
            pending(&parts) == all.skip(segments@.len() as int),
            forall|i: int| 0 <= i < segments@.len() ==> all[i] == Some(#[trigger] segments@[i]@),
        decreases pending(&parts).len(),
    {
        let ghost before = pending(&parts);
        let ghost done = segments@.len();
        match next_plain(&mut parts) {
            None => {
                proof {
                    assert forall|i: int| 0 <= i < all.len() implies (#[trigger] all[i]) is Some by {
                        assert(all[i] == Some(segments@[i]@));
                    }
                    assert(unwrapped(all) =~= texts(segments@));
                }
                return Some(segments);
            },
            Some(None) => {
                proof {
                    assert(before[0] == all[done as int]);
                    assert(!(all[done as int] is Some));
                }
                return None;
            },
            Some(Some(name)) => {
                proof {
                    assert(before[0] == all[done as int]);
                    assert(all.skip(done + 1int) =~= before.drop_first());
                }
                segments.push(name);
            },
        }
    }
}


/// Wraps `Path::display`, written out: std's rendering of the path for
/// people, which the name [`shown`] stands for.
#[verifier::external_body]
fn display_text(path: &Path) -> (text: String)
    ensures
        text@ == shown(path),
{
    path.display().to_string()
}

/// The prefix Windows puts on a verbatim path, `\\?\`.
pub open spec fn verbatim() -> Seq<char> {
    seq!['\\', '\\', '?', '\\']
}

/// `text` with every verbatim prefix at its start taken off.
pub open spec fn without_verbatim(text: Seq<char>) -> Seq<char>
    decreases text.len(),
{
    if has_prefix(text, verbatim()) {
        without_verbatim(text.skip(4))
    } else {
        text
    }
}

/// Takes every verbatim prefix off the start of `text`.
#[verifier::spinoff_prover]
pub fn strip_verbatim(text: &str) -> (out: String)
    ensures
        out@ == without_verbatim(text@),
        !has_prefix(out@, verbatim()),
{
    let chars = chars_of(text);
    let mut i: usize = 0;
    proof {
        assert(chars@.skip(0) =~= chars@);
    }
    loop
        invariant
            i <= chars@.len(),
            chars@ == text@,
            without_verbatim(chars@.skip(i as int)) == without_verbatim(text@),
        ensures
            i <= chars@.len(),
            without_verbatim(chars@.skip(i as int)) == without_verbatim(text@),
            !has_prefix(chars@.skip(i as int), verbatim()),
        decreases chars@.len() - i,
    {
        let rest = chars.len() - i;
        let marked = rest >= 4 && chars[i] == '\\' && chars[i + 1] == '\\' && chars[i + 2] == '?'
            && chars[i + 3] == '\\';
        let ghost tail = chars@.skip(i as int);
        proof {
            if marked {
                assert(tail.take(4) =~= verbatim());
                assert(tail.skip(4) =~= chars@.skip(i + 4));
            } else if rest >= 4 {
                if tail.take(4) == verbatim() {
                    assert(tail.take(4)[0] == chars@[i as int]);
                    assert(tail.take(4)[1] == chars@[i + 1]);
                    assert(tail.take(4)[2] == chars@[i + 2]);
                    assert(tail.take(4)[3] == chars@[i + 3]);
                }
            }
        }
        if !marked {
            break;
        }
        i = i + 4;
    }
    let out = string_of_range(chars.as_slice(), i, chars.len());
    proof {
        assert(chars@.subrange(i as int, chars@.len() as int) =~= chars@.skip(i as int));
    }
    out
}

/// The path as people read it, with any verbatim prefix taken off.
pub fn display_path(path: &Path) -> (text: String)
    ensures
        text@ == without_verbatim(shown(path)),
        !has_prefix(text@, verbatim()),
{
    strip_verbatim(display_text(path).as_str())
}
} // verus!
