//! Character-level helpers shared by the parsers and formatters of the library.
//!
//! Everything here works on the `Seq<char>` view of a string, which is how the
//! contracts elsewhere speak about text.
use vstd::prelude::*;

verus! {

/// Appends one character to a string.
///
/// Wraps `String::push`, which std documents as appending the character to the
/// end of the string; that is all the contract claims.
#[verifier::external_body]
pub(crate) fn push_char(s: &mut String, c: char)
    ensures
        final(s)@ == old(s)@.push(c),
{
    s.push(c);
}

/// Whether a character has the Unicode `White_Space` property, which std's
/// `char::is_whitespace` tests: tab through carriage return, space, next
/// line, no-break space, ogham space mark, the spaces from en quad to hair
/// space, the line and paragraph separators, the narrow no-break space, the
/// medium mathematical space and the ideographic space.
pub open spec fn whitespace(c: char) -> bool {
    let u = c as u32;
    ||| 0x09 <= u <= 0x0D
    ||| u == 0x20
    ||| u == 0x85
    ||| u == 0xA0
    ||| u == 0x1680
    ||| 0x2000 <= u <= 0x200A
    ||| u == 0x2028
    ||| u == 0x2029
    ||| u == 0x202F
    ||| u == 0x205F
    ||| u == 0x3000
}

/// Whether a character is alphabetic or numeric, as std decides it.
pub uninterp spec fn alphanumeric(c: char) -> bool;

/// Wraps `char::is_whitespace`, which std documents as the Unicode
/// `White_Space` property; the contract lists the characters that have it.
#[verifier::external_body]
pub(crate) fn is_whitespace(c: char) -> (b: bool)
    ensures
        b == whitespace(c),
{
    c.is_whitespace()
}

/// Wraps `char::is_alphanumeric`; the result is named, not restated.
#[verifier::external_body]
pub(crate) fn is_alphanumeric(c: char) -> (b: bool)
    ensures
        b == alphanumeric(c),
{
    c.is_alphanumeric()
}

/// What std's Unicode lowercasing makes of a string.
pub uninterp spec fn lowercased(s: Seq<char>) -> Seq<char>;

/// Wraps `str::to_lowercase`. Unicode lowercasing can turn one character into
/// several, so nothing is claimed beyond naming the result.
#[verifier::external_body]
pub(crate) fn to_lowercase(s: &str) -> (out: String)
    ensures
        out@ == lowercased(s@),
{
    s.to_lowercase()
}

/// The characters of a string, one by one.
pub fn chars_of(s: &str) -> (out: Vec<char>)
    ensures
        out@ == s@,
{
    let mut out: Vec<char> = Vec::new();
    for c in it: s.chars()
        invariant
            it.seq() == s@,
            out@ == it.seq().take(it.index() as int),
    {
        out.push(c);
    }
    out
}

/// A string holding exactly these characters.
pub fn string_of(chars: &[char]) -> (out: String)
    ensures
        out@ == chars@,
{
    let mut out = String::new();
    let mut i: usize = 0;
    while i < chars.len()
        invariant
            i <= chars@.len(),
            out@ == chars@.take(i as int),
        decreases chars@.len() - i,
    {
        push_char(&mut out, chars[i]);
        assert(chars@.take(i as int).push(chars@[i as int]) =~= chars@.take(i + 1));
        i = i + 1;
    }
    assert(chars@.take(i as int) =~= chars@);
    out
}

/// A string holding `chars[from..to]`.
pub fn string_of_range(chars: &[char], from: usize, to: usize) -> (out: String)
    requires
        from <= to <= chars@.len(),
    ensures
        out@ == chars@.subrange(from as int, to as int),
{
    let mut out = String::new();
    let mut i: usize = from;
    while i < to
        invariant
            from <= i <= to,
            to <= chars@.len(),
            out@ == chars@.subrange(from as int, i as int),
        decreases to - i,
    {
        push_char(&mut out, chars[i]);
        assert(chars@.subrange(from as int, i as int).push(chars@[i as int]) =~= chars@.subrange(
            from as int,
            i + 1,
        ));
        i = i + 1;
    }
    out
}

/// Appends the characters of `chars` to `out`.
pub fn push_chars(out: &mut String, exec_chars: &[char])
    ensures
        final(out)@ == old(out)@ + exec_chars@,
{
    let ghost chars = exec_chars@;
    let ghost start = out@;
    let mut i: usize = 0;
    while i < exec_chars.len()
        invariant
            i <= exec_chars@.len(),
            exec_chars@ == chars,
            out@ == start + chars.take(i as int),
        decreases exec_chars@.len() - i,
    {
        push_char(out, exec_chars[i]);
        assert(chars.take(i as int).push(chars[i as int]) =~= chars.take(i + 1));
        assert(start + chars.take(i as int).push(chars[i as int]) =~= (start + chars.take(
            i as int,
        )).push(chars[i as int]));
        i = i + 1;
    }
    assert(chars.take(i as int) =~= chars);
}

/// Whether `c` is one of the ten ASCII digits.
pub open spec fn digit(c: char) -> bool {
    '0' <= c && c <= '9'
}

pub fn is_digit(c: char) -> (b: bool)
    ensures
        b == digit(c),
{
    '0' <= c && c <= '9'
}

/// The ASCII digit for `d`, for `d` below ten.
pub open spec fn digit_char(d: int) -> char
    recommends
        0 <= d < 10,
{
    (48 + d) as char
}

/// The value of an ASCII digit.
pub open spec fn digit_value(c: char) -> int {
    c as int - 48
}

/// `n` in decimal, without sign or leading zeros.
pub open spec fn decimal(n: nat) -> Seq<char>
    decreases n,
{
    if n < 10 {
        seq![digit_char(n as int)]
    } else {
        decimal(n / 10).push(digit_char((n % 10) as int))
    }
}

/// `n` in decimal, left-padded with zeros to at least `width` digits.
pub open spec fn padded_decimal(n: nat, width: nat) -> Seq<char> {
    let digits = decimal(n);
    if digits.len() >= width {
        digits
    } else {
        Seq::new((width - digits.len()) as nat, |i: int| '0') + digits
    }
}

fn digit_of(d: u64) -> (c: char)
    requires
        d < 10,
    ensures
        c == digit_char(d as int),
{
    let b: u8 = 48u8 + (d as u8);
    b as char
}

/// Appends `n` in decimal.
pub fn push_decimal(out: &mut String, n: u64)
    ensures
        final(out)@ == old(out)@ + decimal(n as nat),
    decreases n,
{
    if n >= 10 {
        push_decimal(out, n / 10);
        push_char(out, digit_of(n % 10));
        proof {
            assert(decimal(n as nat) == decimal((n / 10) as nat).push(
                digit_char((n % 10) as int),
            ));
        }
    } else {
        push_char(out, digit_of(n));
    }
}

/// `n` in decimal, as a new string.
pub fn decimal_string(n: u64) -> (out: String)
    ensures
        out@ == decimal(n as nat),
{
    let mut out = String::new();
    push_decimal(&mut out, n);
    out
}

proof fn decimal_len_bound(n: nat, width: nat)
    requires
        n < pow10(width),
        width >= 1,
    ensures
        decimal(n).len() <= width,
    decreases n,
{
    if n >= 10 {
        assert(width >= 2) by {
            if width == 1 {
                assert(pow10(1) == 10 * pow10(0));
            }
        }
        assert(pow10(width) == 10 * pow10((width - 1) as nat));
        assert(n / 10 < pow10((width - 1) as nat));
        decimal_len_bound(n / 10, (width - 1) as nat);
    }
}

proof fn decimal_digits(n: nat)
    ensures
        all_digits(decimal(n)),
        decimal(n).len() >= 1,
    decreases n,
{
    if n >= 10 {
        decimal_digits(n / 10);
    }
}

/// A number below a billion, zero-padded to nine places, is nine digits.
pub proof fn nine_digits_shape(n: nat)
    requires
        n < 1_000_000_000,
    ensures
        padded_decimal(n, 9).len() == 9,
        all_digits(padded_decimal(n, 9)),
{
    reveal_with_fuel(pow10, 10);
    decimal_len_bound(n, 9);
    decimal_digits(n);
    let p = padded_decimal(n, 9);
    assert forall|i: int| 0 <= i < p.len() implies digit(#[trigger] p[i]) by {
        if decimal(n).len() < 9 {
            let pad = (9 - decimal(n).len()) as nat;
            if i >= pad {
                assert(p[i] == decimal(n)[i - pad]);
            }
        }
    }
}

/// Ten to the power `e`.
pub open spec fn pow10(e: nat) -> nat
    decreases e,
{
    if e == 0 {
        1
    } else {
        10 * pow10((e - 1) as nat)
    }
}

/// Appends `n` zero-padded to nine digits.
pub fn push_nine_digits(out: &mut String, n: u64)
    requires
        n < 1_000_000_000,
    ensures
        final(out)@ == old(out)@ + padded_decimal(n as nat, 9),
{
    let ghost start = out@;
    proof {
        reveal_with_fuel(pow10, 10);
        assert(pow10(9) == 1_000_000_000);
        decimal_len_bound(n as nat, 9);
    }
    let mut width: u64 = 1;
    let mut bound: u64 = 10;
    while bound <= n
        invariant
            1 <= width <= 9,
            bound == pow10(width as nat),
            n < 1_000_000_000,
            pow10(9) == 1_000_000_000,
            forall|w: nat| w < width && w >= 1 ==> pow10(w) <= n,
        decreases 9 - width,
    {
        if width == 9 {
            assert(false);
        }
        width = width + 1;
        bound = bound * 10;
    }
    proof {
        decimal_len_bound(n as nat, width as nat);
        decimal_len_at_least(n as nat, width as nat);
    }
    let zeros: u64 = 9 - width;
    let mut i: u64 = 0;
    while i < zeros
        invariant
            i <= zeros,
            out@ == start + Seq::new(i as nat, |j: int| '0'),
        decreases zeros - i,
    {
        push_char(out, '0');
        assert(Seq::new(i as nat, |j: int| '0').push('0') =~= Seq::new((i + 1) as nat, |j: int| '0'));
        i = i + 1;
    }
    push_decimal(out, n);
    proof {
        assert(decimal(n as nat).len() == width);
        if width == 9 {
            assert(Seq::new(0, |j: int| '0') + decimal(n as nat) =~= decimal(n as nat));
        }
        assert(start + Seq::new(zeros as nat, |j: int| '0') + decimal(n as nat) =~= start + (
        Seq::new(zeros as nat, |j: int| '0') + decimal(n as nat)));
    }
}

proof fn decimal_len_at_least(n: nat, width: nat)
    requires
        width >= 1,
        forall|w: nat| w < width && w >= 1 ==> pow10(w) <= n,
        n < pow10(width),
    ensures
        decimal(n).len() == width,
    decreases width,
{
    if width > 1 {
        assert(pow10(width) == 10 * pow10((width - 1) as nat));
        assert(pow10((width - 1) as nat) <= n);
        assert(n >= 10) by {
            assert(pow10(1) == 10) by {
                assert(pow10(1) == 10 * pow10(0));
            }
            assert(pow10(1) <= n);
        }
        assert forall|w: nat| w < (width - 1) && w >= 1 implies pow10(w) <= n / 10 by {
            assert(pow10(w + 1) == 10 * pow10(w));
            assert(pow10((w + 1) as nat) <= n);
        }
        decimal_len_at_least(n / 10, (width - 1) as nat);
    } else {
        if n >= 10 {
            assert(pow10(1) == 10 * pow10(0));
        }
    }
}

/// Whether `a` sorts strictly before `b`, comparing characters one at a time,
/// which for Rust strings is the same as comparing their UTF-8 bytes.
pub open spec fn seq_lt(a: Seq<char>, b: Seq<char>) -> bool
    decreases a.len(),
{
    if a.len() == 0 {
        b.len() > 0
    } else if b.len() == 0 {
        false
    } else if a[0] < b[0] {
        true
    } else if a[0] == b[0] {
        seq_lt(a.drop_first(), b.drop_first())
    } else {
        false
    }
}

proof fn seq_lt_step(a: Seq<char>, b: Seq<char>, i: int)
    requires
        0 <= i < a.len(),
        i < b.len(),
        a[i] == b[i],
    ensures
        seq_lt(a.skip(i), b.skip(i)) == seq_lt(a.skip(i + 1), b.skip(i + 1)),
{
    assert(a.skip(i).drop_first() =~= a.skip(i + 1));
    assert(b.skip(i).drop_first() =~= b.skip(i + 1));
}

/// Nothing sorts before itself.
pub proof fn seq_lt_irreflexive(a: Seq<char>)
    ensures
        !seq_lt(a, a),
    decreases a.len(),
{
    if a.len() > 0 {
        seq_lt_irreflexive(a.drop_first());
    }
}

/// Of two different strings, exactly one sorts first.
pub proof fn seq_lt_total(a: Seq<char>, b: Seq<char>)
    ensures
        a == b || seq_lt(a, b) || seq_lt(b, a),
        !(seq_lt(a, b) && seq_lt(b, a)),
    decreases a.len(),
{
    if a.len() > 0 && b.len() > 0 {
        seq_lt_total(a.drop_first(), b.drop_first());
        if a[0] == b[0] && a.drop_first() == b.drop_first() {
            assert(a =~= seq![a[0]] + a.drop_first());
            assert(b =~= seq![b[0]] + b.drop_first());
        }
    } else if a.len() == 0 && b.len() == 0 {
        assert(a =~= b);
    }
}

/// Sorting first is transitive.
pub proof fn seq_lt_transitive(a: Seq<char>, b: Seq<char>, c: Seq<char>)
    requires
        seq_lt(a, b),
        seq_lt(b, c),
    ensures
        seq_lt(a, c),
    decreases a.len(),
{
    if a.len() > 0 && b.len() > 0 && c.len() > 0 {
        if a[0] == b[0] && b[0] == c[0] {
            seq_lt_transitive(a.drop_first(), b.drop_first(), c.drop_first());
        }
    }
}

/// Whether `a` sorts strictly before `b`.
pub fn less_than(a: &str, b: &str) -> (r: bool)
    ensures
        r == seq_lt(a@, b@),
{
    let x = chars_of(a);
    let y = chars_of(b);
    let mut i: usize = 0;
    assert(x@.skip(0) =~= x@);
    assert(y@.skip(0) =~= y@);
    while i < x.len() && i < y.len() && x[i] == y[i]
        invariant
            i <= x@.len(),
            i <= y@.len(),
            x@ == a@,
            y@ == b@,
            seq_lt(a@, b@) == seq_lt(x@.skip(i as int), y@.skip(i as int)),
        decreases x@.len() - i,
    {
        proof {
            seq_lt_step(x@, y@, i as int);
        }
        i = i + 1;
    }
    if i == x.len() {
        i < y.len()
    } else if i == y.len() {
        false
    } else {
        x[i] < y[i]
    }
}

/// Whether the two strings hold the same characters.
pub fn same_text(a: &str, b: &str) -> (r: bool)
    ensures
        r == (a@ == b@),
{
    let x = chars_of(a);
    let y = chars_of(b);
    if x.len() != y.len() {
        return false;
    }
    let mut i: usize = 0;
    while i < x.len()
        invariant
            i <= x@.len(),
            x@.len() == y@.len(),
            x@ == a@,
            y@ == b@,
            forall|j: int| 0 <= j < i ==> x@[j] == y@[j],
        decreases x@.len() - i,
    {
        if x[i] != y[i] {
            return false;
        }
        i = i + 1;
    }
    assert(x@ =~= y@);
    true
}

/// Whether `s` begins with `p`.
pub open spec fn has_prefix(s: Seq<char>, p: Seq<char>) -> bool {
    p.len() <= s.len() && s.take(p.len() as int) == p
}

/// `s` with every non-overlapping occurrence of the non-empty `from`, found left
/// to right, replaced by `to`: what `str::replace` does.
pub open spec fn replaced(s: Seq<char>, from: Seq<char>, to: Seq<char>) -> Seq<char>
    recommends
        from.len() > 0,
    decreases s.len(),
{
    if s.len() == 0 || from.len() == 0 {
        s
    } else if has_prefix(s, from) {
        to + replaced(s.skip(from.len() as int), from, to)
    } else {
        seq![s[0]] + replaced(s.drop_first(), from, to)
    }
}

/// Whether `p` occurs in `s` starting at `i`.
fn occurs_at(s: &Vec<char>, p: &Vec<char>, i: usize) -> (r: bool)
    requires
        i <= s@.len(),
    ensures
        r == has_prefix(s@.skip(i as int), p@),
{
    if p.len() > s.len() - i {
        return false;
    }
    let n = s.len();
    let mut j: usize = 0;
    while j < p.len()
        invariant
            j <= p@.len(),
            n == s@.len(),
            i <= s@.len(),
            p@.len() <= s@.len() - i,
            forall|k: int| 0 <= k < j ==> s@[i + k] == p@[k],
        decreases p@.len() - j,
    {
        if s[i + j] != p[j] {
            assert(s@.skip(i as int).take(p@.len() as int)[j as int] != p@[j as int]);
            return false;
        }
        j = j + 1;
    }
    assert(s@.skip(i as int).take(p@.len() as int) =~= p@);
    true
}

/// `str::replace`, written out: every occurrence of `from` becomes `to`.
pub fn replace_all(s: &str, from: &str, to: &str) -> (out: String)
    requires
        from@.len() > 0,
    ensures
        out@ == replaced(s@, from@, to@),
{
    let cs = chars_of(s);
    let fs = chars_of(from);
    let ts = chars_of(to);
    let mut out = String::new();
    let mut i: usize = 0;
    assert(cs@.skip(0) =~= cs@);
    while i < cs.len()
        invariant
            i <= cs@.len(),
            cs@ == s@,
            fs@ == from@,
            ts@ == to@,
            fs@.len() > 0,
            out@ + replaced(cs@.skip(i as int), fs@, ts@) == replaced(s@, from@, to@),
        decreases cs@.len() - i,
    {
        let ghost rest = cs@.skip(i as int);
        if occurs_at(&cs, &fs, i) {
            proof {
                assert(rest.skip(fs@.len() as int) =~= cs@.skip(i + fs@.len()));
                assert(out@ + (ts@ + replaced(rest.skip(fs@.len() as int), fs@, ts@)) =~= (out@
                    + ts@) + replaced(rest.skip(fs@.len() as int), fs@, ts@));
            }
            push_chars(&mut out, ts.as_slice());
            i = i + fs.len();
        } else {
            proof {
                assert(rest.drop_first() =~= cs@.skip(i + 1));
                assert(rest[0] == cs@[i as int]);
                assert(out@ + (seq![rest[0]] + replaced(rest.drop_first(), fs@, ts@)) =~= out@.push(
                    rest[0],
                ) + replaced(rest.drop_first(), fs@, ts@));
            }
            push_char(&mut out, cs[i]);
            i = i + 1;
        }
    }
    proof {
        assert(cs@.skip(i as int) =~= Seq::<char>::empty());
        assert(out@ + Seq::<char>::empty() =~= out@);
    }
    out
}

/// The maximal runs of characters of `s` at positions that `marks` does not
/// flag, in order, after the run `cur` already begun: what splitting at the
/// flagged positions and dropping the empty pieces produces.
pub open spec fn pieces_from(s: Seq<char>, marks: Seq<bool>, cur: Seq<char>) -> Seq<Seq<char>>
    decreases s.len(),
{
    if s.len() == 0 {
        if cur.len() > 0 {
            seq![cur]
        } else {
            seq![]
        }
    } else if marks[0] {
        (if cur.len() > 0 {
            seq![cur]
        } else {
            seq![]
        }) + pieces_from(s.drop_first(), marks.drop_first(), seq![])
    } else {
        pieces_from(s.drop_first(), marks.drop_first(), cur.push(s[0]))
    }
}

/// The maximal runs of characters of `s` at positions that `marks` does not
/// flag, in order.
pub open spec fn pieces(s: Seq<char>, marks: Seq<bool>) -> Seq<Seq<char>> {
    pieces_from(s, marks, seq![])
}

/// The maximal runs of characters in `s` that `sep` does not mark, in order.
pub open spec fn runs(s: Seq<char>, sep: spec_fn(char) -> bool) -> Seq<Seq<char>> {
    pieces(s, s.map_values(sep))
}

/// Splits `chars` into the runs at the positions that `marks` does not flag.
pub fn split_marked(chars: &Vec<char>, marks: &Vec<bool>) -> (out: Vec<Vec<char>>)
    requires
        chars@.len() == marks@.len(),
    ensures
        out@.map_values(|run: Vec<char>| run@) == pieces(chars@, marks@),
        forall|k: int| 0 <= k < out@.len() ==> out@[k]@.len() > 0,
{
    let mut out: Vec<Vec<char>> = Vec::new();
    let mut cur: Vec<char> = Vec::new();
    let mut i: usize = 0;
    assert(chars@.skip(0) =~= chars@);
    assert(marks@.skip(0) =~= marks@);
    while i < chars.len()
        invariant
            i <= chars@.len(),
            chars@.len() == marks@.len(),
            forall|k: int| 0 <= k < out@.len() ==> out@[k]@.len() > 0,
            out@.map_values(|run: Vec<char>| run@) + pieces_from(
                chars@.skip(i as int),
                marks@.skip(i as int),
                cur@,
            ) == pieces(chars@, marks@),
        decreases chars@.len() - i,
    {
        let ghost rest = chars@.skip(i as int);
        let ghost flags = marks@.skip(i as int);
        let ghost before = out@.map_values(|run: Vec<char>| run@);
        proof {
            assert(rest.drop_first() =~= chars@.skip(i + 1));
            assert(flags.drop_first() =~= marks@.skip(i + 1));
            assert(rest[0] == chars@[i as int]);
            assert(flags[0] == marks@[i as int]);
        }
        if marks[i] {
            if cur.len() > 0 {
                let done = cur;
                cur = Vec::new();
                out.push(done);
                proof {
                    assert(out@.map_values(|run: Vec<char>| run@) =~= before.push(done@));
                    assert(before + (seq![done@] + pieces_from(
                        rest.drop_first(),
                        flags.drop_first(),
                        seq![],
                    )) =~= before.push(done@) + pieces_from(
                        rest.drop_first(),
                        flags.drop_first(),
                        cur@,
                    ));
                }
            } else {
                proof {
                    assert(cur@ =~= Seq::<char>::empty());
                    assert(seq![] + pieces_from(rest.drop_first(), flags.drop_first(), seq![])
                        =~= pieces_from(rest.drop_first(), flags.drop_first(), cur@));
                }
            }
        } else {
            cur.push(chars[i]);
        }
        i = i + 1;
    }
    if cur.len() > 0 {
        let ghost before = out@.map_values(|run: Vec<char>| run@);
        out.push(cur);
        proof {
            assert(out@.map_values(|run: Vec<char>| run@) =~= before.push(out@[out@.len() - 1]@));
        }
    }
    proof {
        assert(chars@.skip(i as int) =~= Seq::<char>::empty());
    }
    out
}

/// The words of a text: its maximal runs of non-whitespace characters, in order.
pub open spec fn whitespace_words(text: Seq<char>) -> Seq<Seq<char>> {
    runs(text, |c: char| whitespace(c))
}

/// Splits a text at its whitespace, dropping the empty pieces.
pub fn split_whitespace(text: &str) -> (out: Vec<Vec<char>>)
    ensures
        out@.map_values(|w: Vec<char>| w@) == whitespace_words(text@),
        forall|k: int| 0 <= k < out@.len() ==> out@[k]@.len() > 0,
{
    let cs = chars_of(text);
    let mut marks: Vec<bool> = Vec::new();
    let mut i: usize = 0;
    while i < cs.len()
        invariant
            i <= cs@.len(),
            marks@.len() == i,
            forall|j: int| 0 <= j < i ==> marks@[j] == whitespace(cs@[j]),
        decreases cs@.len() - i,
    {
        marks.push(is_whitespace(cs[i]));
        i = i + 1;
    }
    assert(marks@ =~= cs@.map_values(|c: char| whitespace(c)));
    split_marked(&cs, &marks)
}

pub open spec fn all_digits(b: Seq<char>) -> bool {
    forall|i: int| 0 <= i < b.len() ==> digit(#[trigger] b[i])
}

/// A text without its leading sign, if it has one.
pub open spec fn unsigned_part(s: Seq<char>) -> Seq<char> {
    if s.len() > 0 && (s[0] == '-' || s[0] == '+') {
        s.drop_first()
    } else {
        s
    }
}

/// The integer a decimal text names, as `str::parse::<i64>` reads one: an
/// optional `+` or `-`, then one or more ASCII digits, the value in range.
pub open spec fn i64_text(s: Seq<char>) -> Option<i64> {
    let body = unsigned_part(s);
    let magnitude = crate::ideas::ids::digits_value(body);
    let v = if s.len() > 0 && s[0] == '-' {
        -magnitude
    } else {
        magnitude
    };
    if body.len() == 0 || !all_digits(body) {
        None
    } else if i64::MIN <= v <= i64::MAX {
        Some(v as i64)
    } else {
        None
    }
}

proof fn digits_value_grows(s: Seq<char>, k: int)
    requires
        0 <= k <= s.len(),
        all_digits(s),
    ensures
        crate::ideas::ids::digits_value(s.take(k)) <= crate::ideas::ids::digits_value(s),
        0 <= crate::ideas::ids::digits_value(s.take(k)),
    decreases s.len(),
{
    if k < s.len() {
        assert(s.drop_last().take(k) =~= s.take(k));
        digits_value_grows(s.drop_last(), k);
        assert(digit(s[s.len() - 1]));
    } else {
        assert(s.take(k) =~= s);
        if s.len() > 0 {
            digits_value_grows(s.drop_last(), s.len() - 1);
            assert(s.drop_last().take(s.len() - 1) =~= s.drop_last());
            assert(digit(s[s.len() - 1]));
        }
    }
}

/// The value of the digits `body` holds, while it is at most 2^63.
fn magnitude_of(body: &Vec<char>) -> (r: Option<u64>)
    ensures
        match r {
            Some(m) => all_digits(body@) && m == crate::ideas::ids::digits_value(body@) && m <= 0x8000_0000_0000_0000,
            None => !all_digits(body@) || crate::ideas::ids::digits_value(body@) > 0x8000_0000_0000_0000,
        },
{
    let mut acc: u64 = 0;
    let mut i: usize = 0;
    while i < body.len()
        invariant
            i <= body@.len(),
            all_digits(body@.take(i as int)),
            acc == crate::ideas::ids::digits_value(body@.take(i as int)),
            acc <= 0x8000_0000_0000_0000,
        decreases body@.len() - i,
    {
        let c = body[i];
        proof {
            assert(body@.take(i + 1).drop_last() =~= body@.take(i as int));
            assert(body@.take(i + 1).last() == c);
        }
        if !is_digit(c) {
            proof {
                assert(!digit(body@[i as int]));
            }
            return None;
        }
        if acc > 0x0CCC_CCCC_CCCC_CCCC {
            proof {
                assert(all_digits(body@.take(i + 1)));
                assert(crate::ideas::ids::digits_value(body@.take(i + 1)) > 0x8000_0000_0000_0000);
                if all_digits(body@) {
                    digits_value_grows(body@, i + 1);
                }
            }
            return None;
        }
        let next = acc * 10 + (c as u64 - 48);
        if next > 0x8000_0000_0000_0000 {
            proof {
                assert(all_digits(body@.take(i + 1)));
                if all_digits(body@) {
                    digits_value_grows(body@, i + 1);
                }
            }
            return None;
        }
        acc = next;
        proof {
            assert(all_digits(body@.take(i + 1)));
        }
        i = i + 1;
    }
    proof {
        assert(body@.take(body@.len() as int) =~= body@);
    }
    Some(acc)
}

/// `str::parse::<i64>`, written out.
pub fn parse_i64(s: &str) -> (r: Option<i64>)
    ensures
        r == i64_text(s@),
{
    let cs = chars_of(s);
    let n = cs.len();
    let neg = n > 0 && cs[0] == '-';
    let signed = n > 0 && (cs[0] == '-' || cs[0] == '+');
    let mut body: Vec<char> = Vec::new();
    let mut i: usize = if signed { 1 } else { 0 };
    let start = i;
    while i < n
        invariant
            start <= i <= n,
            n == cs@.len(),
            body@ == cs@.subrange(start as int, i as int),
        decreases n - i,
    {
        body.push(cs[i]);
        proof {
            assert(body@ =~= cs@.subrange(start as int, i + 1));
        }
        i = i + 1;
    }
    proof {
        assert(body@ =~= unsigned_part(s@));
    }
    if body.len() == 0 {
        return None;
    }
    match magnitude_of(&body) {
        None => None,
        Some(m) => {
            if neg {
                Some((0i128 - m as i128) as i64)
            } else if m <= 0x7FFF_FFFF_FFFF_FFFF {
                Some(m as i64)
            } else {
                None
            }
        },
    }
}

/// A text without its leading whitespace.
pub open spec fn trim_start(s: Seq<char>) -> Seq<char>
    decreases s.len(),
{
    if s.len() > 0 && whitespace(s[0]) {
        trim_start(s.drop_first())
    } else {
        s
    }
}

/// A text without its trailing whitespace.
pub open spec fn trim_end(s: Seq<char>) -> Seq<char>
    decreases s.len(),
{
    if s.len() > 0 && whitespace(s.last()) {
        trim_end(s.drop_last())
    } else {
        s
    }
}

/// `str::trim`: a text without whitespace at either end.
pub open spec fn trimmed(s: Seq<char>) -> Seq<char> {
    trim_end(trim_start(s))
}

/// `str::trim`, written out.
pub fn trim(s: &str) -> (out: String)
    ensures
        out@ == trimmed(s@),
{
    let cs = chars_of(s);
    let n = cs.len();
    let mut lo: usize = 0;
    assert(cs@.skip(0) =~= cs@);
    while lo < n && is_whitespace(cs[lo])
        invariant
            lo <= n,
            n == cs@.len(),
            cs@ == s@,
            trim_start(s@) == trim_start(cs@.skip(lo as int)),
        decreases n - lo,
    {
        assert(cs@.skip(lo as int).drop_first() =~= cs@.skip(lo + 1));
        lo = lo + 1;
    }
    let mut hi: usize = n;
    assert(cs@.subrange(lo as int, n as int) =~= cs@.skip(lo as int));
    while hi > lo && is_whitespace(cs[hi - 1])
        invariant
            lo <= hi <= n,
            n == cs@.len(),
            cs@ == s@,
            trim_start(s@) == cs@.skip(lo as int),
            trim_end(cs@.skip(lo as int)) == trim_end(cs@.subrange(lo as int, hi as int)),
        decreases hi - lo,
    {
        assert(cs@.subrange(lo as int, hi as int).drop_last() =~= cs@.subrange(lo as int, hi - 1));
        hi = hi - 1;
    }
    string_of_range(&cs, lo, hi)
}

} // verus!