//! Idea Inbox's three identifier types.
//!
//! All three are the same twenty-five characters, `20260820T141530-123456789`:
//! a UTC instant compacted to `%Y%m%dT%H%M%S`, a dash, and nine digits of
//! nanoseconds. They are three types rather than one because each becomes a
//! path under a different tree, and a function that accepted any of them could
//! read the wrong one.
use vstd::prelude::*;

use std::path::{Path, PathBuf};

use crate::calendar::{
    calendar_stamp, civil_seconds, days_from_civil, four_digit_year, min_instant, stamp_shaped,
    stamp_year, two_digits, parses_as_stamp, real_stamp, second_of, seconds_of_stamp, split_instant,
    stamp_of_seconds, stamp_seconds, stamp_text, subsecond_of, MAX_SECONDS,
};
use crate::paths::{
    adjoined, borrowed, join, path_parts, plain_name, plain_names, plain_segments, texts,
};
use crate::text::{
    chars_of, digit, digit_value, is_digit, less_than, nine_digits_shape, padded_decimal, push_char,
    push_nine_digits, same_text, seq_lt, string_of, string_of_range,
};

verus! {

/// The number of characters in an id.
pub const ID_LEN: usize = 25;

/// The number of characters in the timestamp half.
pub const STAMP_LEN: usize = 15;

/// Why a string is not an id.
#[derive(Debug, Clone, PartialEq, Eq)]
pub enum IdError {
    /// Not twenty-five characters long.
    Length { kind: &'static str, length: usize },
    /// Twenty-five characters, but not digits with one `T` and one `-`.
    Shape { kind: &'static str },
    /// Shaped like an id, but the stamp is not a real date and time.
    Timestamp { stamp: String },
}

/// How a refusal reads.
pub open spec fn id_error_message(e: IdError) -> Seq<char> {
    match e {
        IdError::Length { kind, length } => kind@ + " ids are 25 characters like `20260820T141530-123456789`, not "@
            + crate::text::decimal(length as nat),
        IdError::Shape { kind } => kind@ + " ids may only contain digits, one `T` and one `-`"@,
        IdError::Timestamp { stamp } => "`"@ + stamp@ + "` is not a real date and time"@,
    }
}

impl IdError {
    /// The refusal in words, naming which kind of id was wanted.
    pub fn message(&self) -> (text: String)
        ensures
            text@ == id_error_message(*self),
    {
        match self {
            IdError::Length { kind, length } => {
                let k: &str = *kind;
                let mut text = k.to_owned();
                text.append(" ids are 25 characters like `20260820T141530-123456789`, not ");
                let wide = *length as u64;
                assert(wide as nat == *length as nat);
                let digits = crate::text::decimal_string(wide);
                text.append(digits.as_str());
                text
            },
            IdError::Shape { kind } => {
                let k: &str = *kind;
                let mut text = k.to_owned();
                text.append(" ids may only contain digits, one `T` and one `-`");
                text
            },
            IdError::Timestamp { stamp } => {
                let mut text = "`".to_owned();
                text.append(stamp.as_str());
                text.append("` is not a real date and time");
                text
            },
        }
    }
}

/// Whether the character at `i` is the one an id has there.
pub open spec fn id_char_ok(s: Seq<char>, i: int) -> bool {
    if i == 8 {
        s[i] == 'T'
    } else if i == 15 {
        s[i] == '-'
    } else {
        digit(s[i])
    }
}

/// Twenty-five characters: eight digits, `T`, six digits, `-`, nine digits.
pub open spec fn id_shaped(s: Seq<char>) -> bool {
    &&& s.len() == 25
    &&& forall|i: int| 0 <= i < 25 ==> id_char_ok(s, i)
}

/// An id: the right shape, and a stamp that names a real date and time.
pub open spec fn valid_id(s: Seq<char>) -> bool {
    id_shaped(s) && real_stamp(s.take(15))
}

/// What validating `raw` as an id of `kind` answers.
pub open spec fn validated(raw: Seq<char>, kind: &'static str, r: Result<(), IdError>) -> bool {
    match r {
        Ok(()) => valid_id(raw),
        Err(IdError::Length { kind: k, length }) => raw.len() != 25 && k == kind && length
            == raw.len(),
        Err(IdError::Shape { kind: k }) => raw.len() == 25 && !id_shaped(raw) && k == kind,
        Err(IdError::Timestamp { stamp }) => id_shaped(raw) && !real_stamp(raw.take(15))
            && stamp@ == raw.take(15),
    }
}

/// The `YYYY-MM` an id is filed under.
pub open spec fn month_text(id: Seq<char>) -> Seq<char> {
    id.take(4) + seq!['-'] + id.subrange(4, 6)
}

/// The value of a run of decimal digits.
pub open spec fn digits_value(s: Seq<char>) -> int
    decreases s.len(),
{
    if s.len() == 0 {
        0
    } else {
        digits_value(s.drop_last()) * 10 + digit_value(s.last())
    }
}

/// The instant an id names, in nanoseconds since the epoch.
pub open spec fn id_instant(id: Seq<char>) -> int {
    stamp_seconds(id.take(15)) * 1_000_000_000 + digits_value(id.skip(16))
}

/// The id minted for a record created at `at`, with the nanoseconds shifted by
/// `nudge` and wrapped within the second.
pub open spec fn minted_text(at: int, nudge: int) -> Seq<char> {
    stamp_text(second_of(at)) + seq!['-'] + padded_decimal(
        ((subsecond_of(at) + nudge) % 1_000_000_000) as nat,
        9,
    )
}

/// The instants chrono can spell.
pub open spec fn mintable(at: int) -> bool {
    min_instant() <= at < (MAX_SECONDS + 1) * 1_000_000_000
}

/// `name` without its `.md` suffix, if it has one.
pub open spec fn md_stem(name: Seq<char>) -> Option<Seq<char>> {
    if name.len() >= 3 && name.skip(name.len() - 3) == seq!['.', 'm', 'd'] {
        Some(name.take(name.len() - 3))
    } else {
        None
    }
}

/// The id a `<YYYY-MM>/<id>.md` path names, if it is one this library writes.
pub open spec fn monthly_id_from(segments: Seq<Seq<char>>) -> Option<Seq<char>> {
    if segments.len() == 2 && md_stem(segments[1]) is Some && valid_id(md_stem(segments[1])->0)
        && month_text(md_stem(segments[1])->0) == segments[0] {
        md_stem(segments[1])
    } else {
        None
    }
}

/// The id a flat `<id>.md` path names, if it is one this library writes.
pub open spec fn flat_id_from(segments: Seq<Seq<char>>) -> Option<Seq<char>> {
    if segments.len() == 1 && md_stem(segments[0]) is Some && valid_id(md_stem(segments[0])->0) {
        md_stem(segments[0])
    } else {
        None
    }
}

/// The shared validation behind every id.
///
/// Counting characters rather than bytes, so a multi-byte character reports a
/// shape error rather than a confusing length.
pub fn validate_id(raw: &str, kind: &'static str) -> (r: Result<(), IdError>)
    ensures
        validated(raw@, kind, r),
        r is Ok <==> valid_id(raw@),
{
    let cs = chars_of(raw);
    let length = cs.len();
    if length != ID_LEN {
        return Err(IdError::Length { kind, length });
    }
    let mut i: usize = 0;
    while i < ID_LEN
        invariant
            i <= 25,
            cs@ == raw@,
            cs@.len() == 25,
            forall|j: int| 0 <= j < i ==> id_char_ok(cs@, j),
        decreases 25 - i,
    {
        let c = cs[i];
        let ok = if i == 8 {
            c == 'T'
        } else if i == STAMP_LEN {
            c == '-'
        } else {
            is_digit(c)
        };
        if !ok {
            assert(!id_char_ok(raw@, i as int));
            return Err(IdError::Shape { kind });
        }
        i = i + 1;
    }
    let stamp = string_of_range(cs.as_slice(), 0, STAMP_LEN);
    assert(cs@.subrange(0, 15) =~= raw@.take(15));
    if !parses_as_stamp(stamp.as_str()) {
        return Err(IdError::Timestamp { stamp });
    }
    Ok(())
}

/// `id[..15]`.
fn stamp_part(id: &String) -> (out: String)
    requires
        id@.len() >= 15,
    ensures
        out@ == id@.take(15),
{
    let cs = chars_of(id.as_str());
    let out = string_of_range(cs.as_slice(), 0, STAMP_LEN);
    assert(cs@.subrange(0, 15) =~= id@.take(15));
    out
}

/// `YYYY-MM` from the front of an id.
fn month_part(id: &String) -> (out: String)
    requires
        id@.len() >= 6,
    ensures
        out@ == month_text(id@),
{
    let cs = chars_of(id.as_str());
    let mut out = string_of_range(cs.as_slice(), 0, 4);
    push_char(&mut out, '-');
    push_char(&mut out, cs[4]);
    push_char(&mut out, cs[5]);
    assert(out@ =~= month_text(id@));
    out
}

proof fn digits_value_bound(s: Seq<char>)
    requires
        forall|i: int| 0 <= i < s.len() ==> digit(s[i]),
    ensures
        0 <= digits_value(s) < crate::text::pow10(s.len()),
    decreases s.len(),
{
    if s.len() > 0 {
        digits_value_bound(s.drop_last());
        assert(crate::text::pow10(s.len()) == 10 * crate::text::pow10((s.len() - 1) as nat));
    }
}

proof fn pow10_small(k: nat)
    requires
        k <= 8,
    ensures
        crate::text::pow10(k) <= 100_000_000,
    decreases 8 - k,
{
    if k < 8 {
        pow10_small(k + 1);
        assert(crate::text::pow10(k + 1) == 10 * crate::text::pow10(k));
    } else {
        reveal_with_fuel(crate::text::pow10, 9);
    }
}

/// The instant a valid id names.
fn instant_part(id: &String) -> (at: i128)
    requires
        valid_id(id@),
    ensures
        at == id_instant(id@),
{
    let cs = chars_of(id.as_str());
    let stamp = string_of_range(cs.as_slice(), 0, STAMP_LEN);
    assert(cs@.subrange(0, 15) =~= id@.take(15));
    let seconds = seconds_of_stamp(stamp.as_str());
    let mut nanos: i128 = 0;
    let mut i: usize = 16;
    assert(id@.skip(16).take(0) =~= Seq::<char>::empty());
    while i < ID_LEN
        invariant
            16 <= i <= 25,
            cs@ == id@,
            valid_id(id@),
            nanos == digits_value(id@.skip(16).take(i - 16)),
            0 <= nanos < crate::text::pow10((i - 16) as nat),
            crate::text::pow10((i - 16) as nat) <= 100_000_000 || i == 25,
        decreases 25 - i,
    {
        let d = cs[i];
        assert(id_char_ok(id@, i as int));
        proof {
            assert(id@.skip(16).take(i + 1 - 16).drop_last() =~= id@.skip(16).take(i - 16));
            assert(crate::text::pow10((i + 1 - 16) as nat) == 10 * crate::text::pow10(
                (i - 16) as nat,
            ));
        }
        proof {
            if i + 1 < 25 {
                pow10_small((i + 1 - 16) as nat);
            }
        }
        nanos = nanos * 10 + ((d as u32) - 48) as i128;
        i = i + 1;
    }
    assert(id@.skip(16).take(9) =~= id@.skip(16));
    proof {
        pow10_small(8);
        assert(crate::text::pow10(9) == 10 * crate::text::pow10(8));
    }
    assert(-10_000_000_000_000_000_000_000_000_000i128 < (seconds as i128) * 1_000_000_000
        < 10_000_000_000_000_000_000_000_000_000i128) by (nonlinear_arith)
        requires
            i64::MIN <= seconds <= i64::MAX,
    ;
    (seconds as i128) * 1_000_000_000 + nanos
}

proof fn digits_value_concat(a: Seq<char>, b: Seq<char>)
    ensures
        digits_value(a + b) == digits_value(a) * crate::text::pow10(b.len()) + digits_value(b),
    decreases b.len(),
{
    if b.len() == 0 {
        assert(a + b =~= a);
        assert(crate::text::pow10(0) == 1);
        assert(digits_value(a) * 1 == digits_value(a));
    } else {
        assert((a + b).drop_last() =~= a + b.drop_last());
        digits_value_concat(a, b.drop_last());
        let x = digits_value(a);
        let p = crate::text::pow10(b.drop_last().len());
        let y = digits_value(b.drop_last());
        let z = digit_value(b.last());
        assert((a + b).last() == b.last());
        assert(crate::text::pow10(b.len()) == 10 * p);
        assert((x * p + y) * 10 + z == x * (10 * p) + (y * 10 + z)) by (nonlinear_arith);
        assert(digits_value(a + b.drop_last()) == x * p + y);
        assert(digits_value(a + b) == digits_value((a + b).drop_last()) * 10 + z);
        assert(digits_value(b) == y * 10 + z);
        assert(x * crate::text::pow10(b.len()) == x * (10 * p));
    }
}

proof fn digits_value_decimal(n: nat)
    ensures
        digits_value(crate::text::decimal(n)) == n,
    decreases n,
{
    let d = crate::text::decimal(n);
    let k = (n % 10) as int;
    assert(digit_value(crate::text::digit_char(k)) == k);
    if n < 10 {
        assert(d.drop_last() =~= Seq::<char>::empty());
        assert(digits_value(d) == digits_value(d.drop_last()) * 10 + digit_value(d.last()));
    } else {
        assert(d.drop_last() =~= crate::text::decimal(n / 10));
        digits_value_decimal(n / 10);
        assert(digits_value(d) == digits_value(d.drop_last()) * 10 + digit_value(d.last()));
        assert(d.last() == crate::text::digit_char(k));
    }
}

proof fn digits_value_zeros(k: nat)
    ensures
        digits_value(Seq::new(k, |i: int| '0')) == 0,
    decreases k,
{
    if k > 0 {
        assert(Seq::new(k, |i: int| '0').drop_last() =~= Seq::new((k - 1) as nat, |i: int| '0'));
        digits_value_zeros((k - 1) as nat);
    }
}

/// A zero-padded number reads back as the number.
proof fn digits_value_padded(n: nat, width: nat)
    ensures
        digits_value(padded_decimal(n, width)) == n,
{
    let digits = crate::text::decimal(n);
    digits_value_decimal(n);
    if digits.len() < width {
        let zeros = Seq::new((width - digits.len()) as nat, |i: int| '0');
        digits_value_zeros((width - digits.len()) as nat);
        digits_value_concat(zeros, digits);
    }
}

/// Where two texts of one length first differ, when the first sorts before
/// the second.
proof fn first_difference(a: Seq<char>, b: Seq<char>) -> (i: int)
    requires
        a.len() == b.len(),
        seq_lt(a, b),
    ensures
        0 <= i < a.len(),
        forall|j: int| 0 <= j < i ==> a[j] == b[j],
        a[i] < b[i],
    decreases a.len(),
{
    if a[0] < b[0] {
        0
    } else {
        let k = first_difference(a.drop_first(), b.drop_first());
        assert forall|j: int| 0 <= j < k + 1 implies a[j] == b[j] by {
            if j > 0 {
                assert(a[j] == a.drop_first()[j - 1] && b[j] == b.drop_first()[j - 1]);
            }
        }
        k + 1
    }
}

/// Of two runs of digits of one length, the one that is first larger where
/// they differ is the larger number.
proof fn digits_value_lex(x: Seq<char>, y: Seq<char>, i: int)
    requires
        x.len() == y.len(),
        forall|k: int| 0 <= k < x.len() ==> digit(x[k]) && digit(y[k]),
        0 <= i < x.len(),
        forall|j: int| 0 <= j < i ==> x[j] == y[j],
        x[i] < y[i],
    ensures
        digits_value(x) < digits_value(y),
{
    let p = crate::text::pow10((x.len() - i - 1) as nat);
    assert(x =~= x.take(i + 1) + x.skip(i + 1));
    assert(y =~= y.take(i + 1) + y.skip(i + 1));
    digits_value_concat(x.take(i + 1), x.skip(i + 1));
    digits_value_concat(y.take(i + 1), y.skip(i + 1));
    assert(x.take(i + 1).drop_last() =~= x.take(i));
    assert(y.take(i + 1).drop_last() =~= y.take(i));
    assert(x.take(i) =~= y.take(i));
    digits_value_bound(x.skip(i + 1));
    digits_value_bound(y.skip(i + 1));
    let a = digits_value(x.take(i));
    let u = digit_value(x[i]);
    let v = digit_value(y[i]);
    let r1 = digits_value(x.skip(i + 1));
    let r2 = digits_value(y.skip(i + 1));
    assert(digits_value(x.take(i + 1)) == a * 10 + u);
    assert(digits_value(y.take(i + 1)) == a * 10 + v);
    assert((a * 10 + u) * p + r1 < (a * 10 + v) * p + r2) by (nonlinear_arith)
        requires
            u < v,
            0 <= r1 < p,
            0 <= r2,
    ;
}

/// Whether an id's stamp names an ordinary second, not the leap second 60.
pub open spec fn ordinary_second(id: Seq<char>) -> bool {
    two_digits(id, 13) <= 59
}

/// Ids sort chronologically as text: of two ids, the one that sorts first
/// names the earlier instant. A stamp at the leap second 60 names the same
/// second as the one before it, so ids at leap seconds are left out.
pub proof fn ids_sort_chronologically(a: Seq<char>, b: Seq<char>)
    requires
        valid_id(a),
        valid_id(b),
        ordinary_second(a),
        ordinary_second(b),
        seq_lt(a, b),
    ensures
        id_instant(a) < id_instant(b),
{
    let sa = a.take(15);
    let sb = b.take(15);
    assert forall|k: int| 0 <= k < 15 implies sa[k] == a[k] && sb[k] == b[k] by {}
    assert(stamp_shaped(sa)) by {
        assert forall|k: int| 0 <= k < 15 && k != 8 implies digit(#[trigger] sa[k]) by {
            assert(id_char_ok(a, k));
        }
        assert(id_char_ok(a, 8));
    }
    assert(stamp_shaped(sb)) by {
        assert forall|k: int| 0 <= k < 15 && k != 8 implies digit(#[trigger] sb[k]) by {
            assert(id_char_ok(b, k));
        }
        assert(id_char_ok(b, 8));
    }
    assert forall|k: int| 0 <= k < 25 && k != 8 && k != 15 implies 0 <= digit_value(#[trigger] a[k]) <= 9
        && 0 <= digit_value(b[k]) <= 9 by {
        assert(id_char_ok(a, k) && id_char_ok(b, k));
    }
    assert(a[8] == 'T' && b[8] == 'T' && a[15] == '-' && b[15] == '-') by {
        assert(id_char_ok(a, 8) && id_char_ok(b, 8) && id_char_ok(a, 15) && id_char_ok(b, 15));
    }
    let i = first_difference(a, b);
    let na = digits_value(a.skip(16));
    let nb = digits_value(b.skip(16));
    assert forall|k: int| 0 <= k < 9 implies digit(a.skip(16)[k]) && digit(b.skip(16)[k]) by {
        assert(id_char_ok(a, k + 16) && id_char_ok(b, k + 16));
    }
    digits_value_bound(a.skip(16));
    digits_value_bound(b.skip(16));
    assert(crate::text::pow10(9) == 1_000_000_000) by {
        reveal_with_fuel(crate::text::pow10, 10);
    }
    let ya = stamp_year(sa);
    let yb = stamp_year(sb);
    let ma = two_digits(sa, 4);
    let mb = two_digits(sb, 4);
    let da = two_digits(sa, 6);
    let db = two_digits(sb, 6);
    let ta = two_digits(sa, 9) * 3600 + two_digits(sa, 11) * 60 + two_digits(sa, 13);
    let tb = two_digits(sb, 9) * 3600 + two_digits(sb, 11) * 60 + two_digits(sb, 13);
    assert(calendar_stamp(sa) && calendar_stamp(sb));
    let ca = civil_seconds(sa);
    let cb = civil_seconds(sb);
    assert(ca == days_from_civil(ya, ma, da) * 86400 + ta);
    assert(cb == days_from_civil(yb, mb, db) * 86400 + tb);
    assert(0 <= ta < 86400 && 0 <= tb < 86400);
    if i < 8 {
        assert(ya < yb || (ya == yb && (ma < mb || (ma == mb && da < db))));
        crate::calendar::dates_in_order(ya, ma, da, yb, mb, db);
        assert(ca < cb);
    } else if i < 15 {
        assert(ya == yb && ma == mb && da == db);
        assert(ta < tb);
    } else {
        assert(sa =~= sb);
        digits_value_lex(a.skip(16), b.skip(16), i - 16);
    }
}

/// Mints an id for a record created at `at`.
fn mint_text(at: i128, nudge: u32) -> (out: String)
    requires
        mintable(at as int),
    ensures
        out@ == minted_text(at as int, nudge as int),
        four_digit_year(second_of(at as int)) <==> valid_id(out@),
        four_digit_year(second_of(at as int)) ==> id_instant(out@) == second_of(at as int)
            * 1_000_000_000 + (subsecond_of(at as int) + nudge) % 1_000_000_000,
        four_digit_year(second_of(at as int)) && nudge == 0 ==> id_instant(out@) == at,
{
    let (seconds, sub) = split_instant(at);
    let nanos: u64 = ((sub as u64) + (nudge as u64)) % 1_000_000_000;
    let mut out = stamp_of_seconds(seconds);
    let ghost stamp = out@;
    push_char(&mut out, '-');
    push_nine_digits(&mut out, nanos);
    assert(out@ =~= minted_text(at as int, nudge as int));
    proof {
        if !four_digit_year(seconds as int) {
            assert(out@[0] == stamp[0]);
            assert(!id_char_ok(out@, 0));
        }
        if four_digit_year(seconds as int) {
            nine_digits_shape(nanos as nat);
            let tail = padded_decimal(nanos as nat, 9);
            assert(out@ == stamp + seq!['-'] + tail);
            assert(out@.take(15) =~= stamp);
            assert forall|i: int| 0 <= i < 25 implies id_char_ok(out@, i) by {
                if i < 15 {
                    assert(out@[i] == stamp[i]);
                } else if i > 15 {
                    assert(out@[i] == tail[i - 16]);
                }
            }
            assert(out@.skip(16) =~= tail);
            digits_value_padded(nanos as nat, 9);
        }
    }
    out
}

/// `<id>.md`.
fn file_name(id: &String) -> (out: String)
    ensures
        out@ == id@ + seq!['.', 'm', 'd'],
{
    let mut out = id.clone();
    push_char(&mut out, '.');
    push_char(&mut out, 'm');
    push_char(&mut out, 'd');
    assert(out@ =~= id@ + seq!['.', 'm', 'd']);
    out
}

/// `name` without a trailing `.md`.
fn strip_md(name: &String) -> (stem: Option<String>)
    ensures
        stem is Some <==> md_stem(name@) is Some,
        stem is Some ==> stem->0@ == md_stem(name@)->0,
{
    let cs = chars_of(name.as_str());
    let n = cs.len();
    if n >= 3 && cs[n - 3] == '.' && cs[n - 2] == 'm' && cs[n - 1] == 'd' {
        assert(name@.skip(n - 3) =~= seq!['.', 'm', 'd']);
        let stem = string_of_range(cs.as_slice(), 0, n - 3);
        assert(cs@.subrange(0, n - 3) =~= name@.take(n - 3));
        Some(stem)
    } else {
        proof {
            if n >= 3 && name@.skip(n - 3) == seq!['.', 'm', 'd'] {
                assert(name@.skip(n - 3)[0] == cs@[n - 3]);
                assert(name@.skip(n - 3)[1] == cs@[n - 2]);
                assert(name@.skip(n - 3)[2] == cs@[n - 1]);
            }
        }
        None
    }
}

/// The id a `<YYYY-MM>/<id>.md` path names, given the path's plain segments.
fn monthly_from_segments(segments: &Vec<String>) -> (id: Option<String>)
    ensures
        id is Some <==> monthly_id_from(segments@.map_values(|s: String| s@)) is Some,
        id is Some ==> id->0@ == monthly_id_from(segments@.map_values(|s: String| s@))->0,
{
    let ghost views = segments@.map_values(|s: String| s@);
    if segments.len() != 2 {
        return None;
    }
    let stem = match strip_md(&segments[1]) {
        Some(stem) => stem,
        None => return None,
    };
    if validate_id(stem.as_str(), "capture").is_err() {
        return None;
    }
    let month = month_part(&stem);
    if !same_text(month.as_str(), segments[0].as_str()) {
        return None;
    }
    Some(stem)
}

/// The id a flat `<id>.md` path names, given the path's plain segments.
fn flat_from_segments(segments: &Vec<String>) -> (id: Option<String>)
    ensures
        id is Some <==> flat_id_from(segments@.map_values(|s: String| s@)) is Some,
        id is Some ==> id->0@ == flat_id_from(segments@.map_values(|s: String| s@))->0,
{
    let ghost views = segments@.map_values(|s: String| s@);
    if segments.len() != 1 {
        return None;
    }
    let stem = match strip_md(&segments[0]) {
        Some(stem) => stem,
        None => return None,
    };
    if validate_id(stem.as_str(), "idea").is_err() {
        return None;
    }
    Some(stem)
}

/// An id's file name, `<id>.md`.
pub open spec fn file_text(id: Seq<char>) -> Seq<char> {
    id + seq!['.', 'm', 'd']
}

/// The id a path relative to a monthly tree names, as std splits the path.
pub open spec fn monthly_id_at(parts: Seq<Option<Seq<char>>>) -> Option<Seq<char>> {
    match plain_names(parts) {
        Some(segments) => monthly_id_from(segments),
        None => None,
    }
}

/// The id a path relative to the flat tree names, as std splits the path.
pub open spec fn flat_id_at(parts: Seq<Option<Seq<char>>>) -> Option<Seq<char>> {
    match plain_names(parts) {
        Some(segments) => flat_id_from(segments),
        None => None,
    }
}

/// An id's month and file name are each one plain path component.
proof fn id_names_are_plain(id: Seq<char>)
    requires
        valid_id(id),
    ensures
        plain_name(month_text(id)),
        plain_name(file_text(id)),
{
    assert(id_char_ok(id, 0) && id_char_ok(id, 1) && id_char_ok(id, 2) && id_char_ok(id, 3));
    assert(id_char_ok(id, 4) && id_char_ok(id, 5));
    let m = month_text(id);
    assert(m.len() == 7);
    assert(m[0] == id[0] && m[1] == id[1] && m[2] == id[2] && m[3] == id[3]);
    assert(m[5] == id[4] && m[6] == id[5]);
    assert(m != seq!['.']);
    assert(m != seq!['.', '.']);
    let f = file_text(id);
    assert(f.len() == 28);
    assert forall|i: int| 0 <= i < f.len() implies f[i] != '/' && f[i] != '\\' && f[i] != ':' by {
        if i < 25 {
            assert(id_char_ok(id, i));
        }
    }
    assert(f != seq!['.']);
    assert(f != seq!['.', '.']);
}

/// A filed id reads back from the path it was filed under: from its month
/// and file name, or from its file name alone in the flat tree.
pub proof fn a_filed_id_reads_back(id: Seq<char>)
    requires
        valid_id(id),
    ensures
        monthly_id_from(seq![month_text(id), file_text(id)]) == Some(id),
        flat_id_from(seq![file_text(id)]) == Some(id),
{
    let f = file_text(id);
    assert(f.skip(f.len() - 3) =~= seq!['.', 'm', 'd']);
    assert(f.take(f.len() - 3) =~= id);
}

/// An id reads back from the relative path it is filed under: the parts
/// `to_path` adds to an empty root name the id again.
pub proof fn a_relative_path_reads_back(id: Seq<char>)
    requires
        valid_id(id),
    ensures
        monthly_id_at(Seq::empty().push(Some(month_text(id))).push(Some(file_text(id)))) == Some(id),
        flat_id_at(Seq::empty().push(Some(file_text(id)))) == Some(id),
{
    let monthly = Seq::<Option<Seq<char>>>::empty().push(Some(month_text(id))).push(Some(file_text(id)));
    let flat = Seq::<Option<Seq<char>>>::empty().push(Some(file_text(id)));
    assert(crate::paths::unwrapped(monthly) =~= seq![month_text(id), file_text(id)]);
    assert(crate::paths::unwrapped(flat) =~= seq![file_text(id)]);
    assert(forall|i: int| 0 <= i < monthly.len() ==> (#[trigger] monthly[i]) is Some);
    assert(forall|i: int| 0 <= i < flat.len() ==> (#[trigger] flat[i]) is Some);
    a_filed_id_reads_back(id);
}

/// `<root>/<YYYY-MM>/<id>.md`.
fn month_path(root: &Path, id: &String) -> (path: PathBuf)
    requires
        valid_id(id@),
    ensures
        path == adjoined(borrowed(&adjoined(root, month_text(id@))), file_text(id@)),
        path_parts(borrowed(&path)) == path_parts(root).push(Some(month_text(id@))).push(
            Some(file_text(id@)),
        ),
{
    proof {
        id_names_are_plain(id@);
    }
    let month = month_part(id);
    let dir = join(root, month.as_str());
    let name = file_name(id);
    join(crate::paths::as_path(&dir), name.as_str())
}

/// A capture's identifier, and its filename.
///
/// It sorts chronologically as plain text, so a directory listing is the inbox
/// in order and so is any `order by id`.
#[derive(Debug, PartialEq, Eq, PartialOrd, Ord, Hash)]
pub struct CaptureId {
    id: String,
}

/// An idea thread's identifier, and its filename.
///
/// The same shape as a [`CaptureId`] and a different type: threads are filed
/// flat, captures by month.
#[derive(Debug, PartialEq, Eq, PartialOrd, Ord, Hash)]
pub struct IdeaId {
    id: String,
}

/// A decision event's identifier, and its filename.
///
/// Event ids define fold order: an event's id is when the decision happened.
#[derive(Debug, PartialEq, Eq, PartialOrd, Ord, Hash)]
pub struct EventId {
    id: String,
}

impl View for CaptureId {
    type V = Seq<char>;

    closed spec fn view(&self) -> Seq<char> {
        self.id@
    }
}

impl View for IdeaId {
    type V = Seq<char>;

    closed spec fn view(&self) -> Seq<char> {
        self.id@
    }
}

impl View for EventId {
    type V = Seq<char>;

    closed spec fn view(&self) -> Seq<char> {
        self.id@
    }
}

impl Clone for CaptureId {
    fn clone(&self) -> (copy: Self)
        ensures
            copy@ == self@,
    {
        proof {
            use_type_invariant(self);
        }
        CaptureId { id: self.id.clone() }
    }
}

impl Clone for IdeaId {
    fn clone(&self) -> (copy: Self)
        ensures
            copy@ == self@,
    {
        proof {
            use_type_invariant(self);
        }
        IdeaId { id: self.id.clone() }
    }
}

impl Clone for EventId {
    fn clone(&self) -> (copy: Self)
        ensures
            copy@ == self@,
    {
        proof {
            use_type_invariant(self);
        }
        EventId { id: self.id.clone() }
    }
}

impl CaptureId {
    #[verifier::type_invariant]
    pub closed spec fn wf(self) -> bool {
        valid_id(self.id@)
    }

    /// Validates `raw` as a capture id.
    pub fn parse(raw: &str) -> (r: Result<Self, IdError>)
        ensures
            r is Ok <==> valid_id(raw@),
            r matches Ok(id) ==> id@ == raw@,
            r matches Err(e) ==> validated(raw@, "capture", Err(e)),
    {
        match validate_id(raw, "capture") {
            Ok(()) => Ok(CaptureId { id: raw.to_owned() }),
            Err(e) => Err(e),
        }
    }

    /// Mints an id for a capture created at `at`, its nanoseconds shifted by
    /// `nudge`.
    /// Only an instant in the years 0 to 9999 has a stamp an id can spell.
    pub fn mint(at: i128, nudge: u32) -> (id: Self)
        requires
            mintable(at as int),
            four_digit_year(second_of(at as int)),
        ensures
            id@ == minted_text(at as int, nudge as int),
            id_instant(id@) == second_of(at as int) * 1_000_000_000 + (subsecond_of(at as int) + nudge)
                % 1_000_000_000,
            nudge == 0 ==> id_instant(id@) == at,
    {
        CaptureId { id: mint_text(at, nudge) }
    }

    /// The id a record created at `at` gets with `nudge`, when that text is an
    /// id at all, which it is exactly for the instants of the years 0 to 9999.
    pub fn try_mint(at: i128, nudge: u32) -> (id: Option<Self>)
        requires
            mintable(at as int),
        ensures
            id is Some <==> valid_id(minted_text(at as int, nudge as int)),
            id is Some <==> four_digit_year(second_of(at as int)),
            id matches Some(id) ==> id@ == minted_text(at as int, nudge as int),
            four_digit_year(second_of(at as int)) && nudge == 0 ==> (id matches Some(id)
                && id_instant(id@) == at),
    {
        let text = mint_text(at, nudge);
        match validate_id(text.as_str(), "capture") {
            Ok(()) => Some(CaptureId { id: text }),
            Err(_) => None,
        }
    }

    pub fn as_str(&self) -> (s: &str)
        ensures
            s@ == self@,
            valid_id(s@),
    {
        proof {
            use_type_invariant(self);
        }
        self.id.as_str()
    }

    /// The compacted timestamp half, `20260820T141530`.
    pub fn stamp(&self) -> (s: String)
        ensures
            s@ == self@.take(15),
    {
        proof {
            use_type_invariant(self);
        }
        stamp_part(&self.id)
    }

    /// The `YYYY-MM` this id is filed under.
    pub fn month(&self) -> (m: String)
        ensures
            m@ == month_text(self@),
    {
        proof {
            use_type_invariant(self);
        }
        month_part(&self.id)
    }

    /// The instant this id names, nanoseconds included.
    pub fn instant(&self) -> (at: i128)
        ensures
            at == id_instant(self@),
    {
        proof {
            use_type_invariant(self);
        }
        instant_part(&self.id)
    }

    /// Whether this id sorts strictly before `other`, which is whether it was
    /// minted for an earlier instant.
    pub fn precedes(&self, other: &Self) -> (r: bool)
        ensures
            r == seq_lt(self@, other@),
    {
        less_than(self.id.as_str(), other.id.as_str())
    }

    /// Whether the two ids are the same.
    pub fn same_as(&self, other: &Self) -> (r: bool)
        ensures
            r == (self@ == other@),
    {
        same_text(self.id.as_str(), other.id.as_str())
    }

    /// `<root>/<YYYY-MM>/<id>.md`.
    pub fn to_path(&self, root: &Path) -> (path: PathBuf)
        ensures
            path == adjoined(borrowed(&adjoined(root, month_text(self@))), file_text(self@)),
            path_parts(borrowed(&path)) == path_parts(root).push(Some(month_text(self@))).push(
                Some(file_text(self@)),
            ),
    {
        proof {
            use_type_invariant(self);
        }
        month_path(root, &self.id)
    }

    /// The id a path relative to the captures directory names, given its plain
    /// segments: `<YYYY-MM>/<id>.md`, filed under the month the id names.
    pub fn from_segments(segments: &Vec<String>) -> (id: Option<Self>)
        ensures
            id is Some <==> monthly_id_from(segments@.map_values(|s: String| s@)) is Some,
            id matches Some(id) ==> id@ == monthly_id_from(
                segments@.map_values(|s: String| s@),
            )->0,
    {
        match monthly_from_segments(segments) {
            Some(id) => Some(CaptureId { id }),
            None => None,
        }
    }

    /// Recovers an id from a path relative to the captures directory, or
    /// `None` for anything this library would not have written.
    pub fn from_relative_path(path: &Path) -> (id: Option<Self>)
        ensures
            id matches Some(id) ==> valid_id(id@),
            match id {
                Some(id) => monthly_id_at(path_parts(path)) == Some(id@),
                None => monthly_id_at(path_parts(path)) is None,
            },
    {
        match plain_segments(path) {
            Some(segments) => {
                proof {
                    assert(texts(segments@) =~= segments@.map_values(|s: String| s@));
                }
                match Self::from_segments(&segments) {
                    Some(id) => {
                        proof {
                            use_type_invariant(&id);
                        }
                        Some(id)
                    },
                    None => None,
                }
            },
            None => None,
        }
    }
}

impl IdeaId {
    #[verifier::type_invariant]
    pub closed spec fn wf(self) -> bool {
        valid_id(self.id@)
    }

    /// Validates `raw` as an idea id.
    pub fn parse(raw: &str) -> (r: Result<Self, IdError>)
        ensures
            r is Ok <==> valid_id(raw@),
            r matches Ok(id) ==> id@ == raw@,
            r matches Err(e) ==> validated(raw@, "idea", Err(e)),
    {
        match validate_id(raw, "idea") {
            Ok(()) => Ok(IdeaId { id: raw.to_owned() }),
            Err(e) => Err(e),
        }
    }

    /// Mints an id for an idea created at `at`, its nanoseconds shifted by
    /// `nudge`.
    /// Only an instant in the years 0 to 9999 has a stamp an id can spell.
    pub fn mint(at: i128, nudge: u32) -> (id: Self)
        requires
            mintable(at as int),
            four_digit_year(second_of(at as int)),
        ensures
            id@ == minted_text(at as int, nudge as int),
            id_instant(id@) == second_of(at as int) * 1_000_000_000 + (subsecond_of(at as int) + nudge)
                % 1_000_000_000,
            nudge == 0 ==> id_instant(id@) == at,
    {
        IdeaId { id: mint_text(at, nudge) }
    }

    /// The id a record created at `at` gets with `nudge`, when that text is an
    /// id at all, which it is exactly for the instants of the years 0 to 9999.
    pub fn try_mint(at: i128, nudge: u32) -> (id: Option<Self>)
        requires
            mintable(at as int),
        ensures
            id is Some <==> valid_id(minted_text(at as int, nudge as int)),
            id is Some <==> four_digit_year(second_of(at as int)),
            id matches Some(id) ==> id@ == minted_text(at as int, nudge as int),
            four_digit_year(second_of(at as int)) && nudge == 0 ==> (id matches Some(id)
                && id_instant(id@) == at),
    {
        let text = mint_text(at, nudge);
        match validate_id(text.as_str(), "idea") {
            Ok(()) => Some(IdeaId { id: text }),
            Err(_) => None,
        }
    }

    pub fn as_str(&self) -> (s: &str)
        ensures
            s@ == self@,
            valid_id(s@),
    {
        proof {
            use_type_invariant(self);
        }
        self.id.as_str()
    }

    pub fn stamp(&self) -> (s: String)
        ensures
            s@ == self@.take(15),
    {
        proof {
            use_type_invariant(self);
        }
        stamp_part(&self.id)
    }

    pub fn month(&self) -> (m: String)
        ensures
            m@ == month_text(self@),
    {
        proof {
            use_type_invariant(self);
        }
        month_part(&self.id)
    }

    pub fn instant(&self) -> (at: i128)
        ensures
            at == id_instant(self@),
    {
        proof {
            use_type_invariant(self);
        }
        instant_part(&self.id)
    }

    pub fn precedes(&self, other: &Self) -> (r: bool)
        ensures
            r == seq_lt(self@, other@),
    {
        less_than(self.id.as_str(), other.id.as_str())
    }

    pub fn same_as(&self, other: &Self) -> (r: bool)
        ensures
            r == (self@ == other@),
    {
        same_text(self.id.as_str(), other.id.as_str())
    }

    /// `<root>/<id>.md`: threads are filed flat.
    pub fn to_path(&self, root: &Path) -> (path: PathBuf)
        ensures
            path == adjoined(root, file_text(self@)),
            path_parts(borrowed(&path)) == path_parts(root).push(Some(file_text(self@))),
    {
        proof {
            use_type_invariant(self);
            id_names_are_plain(self@);
        }
        let name = file_name(&self.id);
        join(root, name.as_str())
    }

    /// The id a path relative to the threads directory names, given its plain
    /// segments: exactly `<id>.md`.
    pub fn from_segments(segments: &Vec<String>) -> (id: Option<Self>)
        ensures
            id is Some <==> flat_id_from(segments@.map_values(|s: String| s@)) is Some,
            id matches Some(id) ==> id@ == flat_id_from(segments@.map_values(|s: String| s@))->0,
    {
        match flat_from_segments(segments) {
            Some(id) => Some(IdeaId { id }),
            None => None,
        }
    }

    /// Recovers an id from a path relative to the threads directory.
    pub fn from_relative_path(path: &Path) -> (id: Option<Self>)
        ensures
            id matches Some(id) ==> valid_id(id@),
            match id {
                Some(id) => flat_id_at(path_parts(path)) == Some(id@),
                None => flat_id_at(path_parts(path)) is None,
            },
    {
        match plain_segments(path) {
            Some(segments) => {
                proof {
                    assert(texts(segments@) =~= segments@.map_values(|s: String| s@));
                }
                match Self::from_segments(&segments) {
                    Some(id) => {
                        proof {
                            use_type_invariant(&id);
                        }
                        Some(id)
                    },
                    None => None,
                }
            },
            None => None,
        }
    }
}

impl EventId {
    #[verifier::type_invariant]
    pub closed spec fn wf(self) -> bool {
        valid_id(self.id@)
    }

    /// Validates `raw` as an event id.
    pub fn parse(raw: &str) -> (r: Result<Self, IdError>)
        ensures
            r is Ok <==> valid_id(raw@),
            r matches Ok(id) ==> id@ == raw@,
            r matches Err(e) ==> validated(raw@, "event", Err(e)),
    {
        match validate_id(raw, "event") {
            Ok(()) => Ok(EventId { id: raw.to_owned() }),
            Err(e) => Err(e),
        }
    }

    /// Mints an id for a decision taken at `at`, its nanoseconds shifted by
    /// `nudge`.
    /// Only an instant in the years 0 to 9999 has a stamp an id can spell.
    pub fn mint(at: i128, nudge: u32) -> (id: Self)
        requires
            mintable(at as int),
            four_digit_year(second_of(at as int)),
        ensures
            id@ == minted_text(at as int, nudge as int),
            id_instant(id@) == second_of(at as int) * 1_000_000_000 + (subsecond_of(at as int) + nudge)
                % 1_000_000_000,
            nudge == 0 ==> id_instant(id@) == at,
    {
        EventId { id: mint_text(at, nudge) }
    }

    /// The id a record created at `at` gets with `nudge`, when that text is an
    /// id at all, which it is exactly for the instants of the years 0 to 9999.
    pub fn try_mint(at: i128, nudge: u32) -> (id: Option<Self>)
        requires
            mintable(at as int),
        ensures
            id is Some <==> valid_id(minted_text(at as int, nudge as int)),
            id is Some <==> four_digit_year(second_of(at as int)),
            id matches Some(id) ==> id@ == minted_text(at as int, nudge as int),
            four_digit_year(second_of(at as int)) && nudge == 0 ==> (id matches Some(id)
                && id_instant(id@) == at),
    {
        let text = mint_text(at, nudge);
        match validate_id(text.as_str(), "event") {
            Ok(()) => Some(EventId { id: text }),
            Err(_) => None,
        }
    }

    pub fn as_str(&self) -> (s: &str)
        ensures
            s@ == self@,
            valid_id(s@),
    {
        proof {
            use_type_invariant(self);
        }
        self.id.as_str()
    }

    pub fn stamp(&self) -> (s: String)
        ensures
            s@ == self@.take(15),
    {
        proof {
            use_type_invariant(self);
        }
        stamp_part(&self.id)
    }

    pub fn month(&self) -> (m: String)
        ensures
            m@ == month_text(self@),
    {
        proof {
            use_type_invariant(self);
        }
        month_part(&self.id)
    }

    pub fn instant(&self) -> (at: i128)
        ensures
            at == id_instant(self@),
    {
        proof {
            use_type_invariant(self);
        }
        instant_part(&self.id)
    }

    pub fn precedes(&self, other: &Self) -> (r: bool)
        ensures
            r == seq_lt(self@, other@),
    {
        less_than(self.id.as_str(), other.id.as_str())
    }

    pub fn same_as(&self, other: &Self) -> (r: bool)
        ensures
            r == (self@ == other@),
    {
        same_text(self.id.as_str(), other.id.as_str())
    }

    /// `<root>/<YYYY-MM>/<id>.md`.
    pub fn to_path(&self, root: &Path) -> (path: PathBuf)
        ensures
            path == adjoined(borrowed(&adjoined(root, month_text(self@))), file_text(self@)),
            path_parts(borrowed(&path)) == path_parts(root).push(Some(month_text(self@))).push(
                Some(file_text(self@)),
            ),
    {
        proof {
            use_type_invariant(self);
        }
        month_path(root, &self.id)
    }

    /// The id a path relative to the events directory names, given its plain
    /// segments: `<YYYY-MM>/<id>.md`, filed under the month the id names.
    pub fn from_segments(segments: &Vec<String>) -> (id: Option<Self>)
        ensures
            id is Some <==> monthly_id_from(segments@.map_values(|s: String| s@)) is Some,
            id matches Some(id) ==> id@ == monthly_id_from(
                segments@.map_values(|s: String| s@),
            )->0,
    {
        match monthly_from_segments(segments) {
            Some(id) => Some(EventId { id }),
            None => None,
        }
    }

    /// Recovers an id from a path relative to the events directory.
    pub fn from_relative_path(path: &Path) -> (id: Option<Self>)
        ensures
            id matches Some(id) ==> valid_id(id@),
            match id {
                Some(id) => monthly_id_at(path_parts(path)) == Some(id@),
                None => monthly_id_at(path_parts(path)) is None,
            },
    {
        match plain_segments(path) {
            Some(segments) => {
                proof {
                    assert(texts(segments@) =~= segments@.map_values(|s: String| s@));
                }
                match Self::from_segments(&segments) {
                    Some(id) => {
                        proof {
                            use_type_invariant(&id);
                        }
                        Some(id)
                    },
                    None => None,
                }
            },
            None => None,
        }
    }
}

} // verus!
