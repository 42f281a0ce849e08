//! Text as sequences of characters.
use crate::utf8::lemma_encoded_joined;
use vstd::prelude::*;
use vstd::utf8::encode_utf8;

verus! {

/// `String::push` appends one character.
pub assume_specification[ String::push ](s: &mut String, c: char)
    ensures
        final(s)@ == old(s)@.push(c),
;

/// The characters of a string.
pub fn chars_of(text: &str) -> (r: Vec<char>)
    ensures
        r@ == text@,
{
    let mut r: Vec<char> = Vec::new();
    for c in it: text.chars()
        invariant
            r@ == it.seq().take(it.index()),
            it.seq() == text@,
    {
        r.push(c);
    }
    r
}

/// The string that holds the given characters.
pub fn string_of(chars: &Vec<char>) -> (r: String)
    ensures
        r@ == chars@,
{
    let mut r: String = String::new();
    for i in 0..chars.len()
        invariant
            r@ == chars@.take(i as int),
    {
        r.push(chars[i]);
    }
    r
}

/// `text` with every occurrence of `pattern`, taken from the left and without overlaps, replaced
/// by `by`.
pub open spec fn replaced(text: Seq<char>, pattern: Seq<char>, by: Seq<char>) -> Seq<char>
    decreases text.len(),
{
    if pattern.len() == 0 || text.len() < pattern.len() {
        text
    } else if pattern.is_prefix_of(text) {
        by + replaced(text.skip(pattern.len() as int), pattern, by)
    } else {
        seq![text[0]] + replaced(text.skip(1), pattern, by)
    }
}

/// `pattern` stands in `text` at position `at`.
pub open spec fn occurs_at(text: Seq<char>, pattern: Seq<char>, at: int) -> bool {
    0 <= at && at + pattern.len() <= text.len() && text.subrange(at, at + pattern.len()) == pattern
}

/// Whether `pattern` stands in `text` at position `at`.
pub fn stands_at(text: &Vec<char>, pattern: &Vec<char>, at: usize) -> (r: bool)
    ensures
        r == occurs_at(text@, pattern@, at as int),
{
    if at > text.len() || text.len() - at < pattern.len() {
        return false;
    }
    let ghost window = text@.subrange(at as int, at + pattern@.len());
    for i in 0..pattern.len()
        invariant
            at + pattern.len() <= text.len(),
            window == text@.subrange(at as int, at + pattern@.len()),
            forall|j: int| 0 <= j < i ==> window[j] == pattern@[j],
    {
        if text[at + i] != pattern[i] {
            assert(window[i as int] != pattern@[i as int]);
            return false;
        }
    }
    assert(window == pattern@);
    true
}

/// Replaces every occurrence of `pattern`, taken from the left and without overlaps.
pub fn replace(text: &Vec<char>, pattern: &Vec<char>, by: &Vec<char>) -> (r: Vec<char>)
    requires
        pattern@.len() > 0,
    ensures
        r@ == replaced(text@, pattern@, by@),
{
    let mut out: Vec<char> = Vec::new();
    let mut i: usize = 0;
    assert(text@.skip(0) == text@);
    while i < text.len()
        invariant
            i <= text@.len(),
            pattern@.len() > 0,
            out@ + replaced(text@.skip(i as int), pattern@, by@) == replaced(
                text@,
                pattern@,
                by@,
            ),
        decreases text@.len() - i,
    {
        let ghost rest = text@.skip(i as int);
        let ghost before = out@;
        if stands_at(text, pattern, i) {
            assert(rest.take(pattern@.len() as int) == pattern@);
            assert(pattern@.is_prefix_of(rest));
            for j in 0..by.len()
                invariant
                    out@ == before + by@.take(j as int),
            {
                out.push(by[j]);
            }
            assert(by@.take(by@.len() as int) == by@);
            i = i + pattern.len();
            assert(rest.skip(pattern@.len() as int) == text@.skip(i as int));
            assert(out@ + replaced(text@.skip(i as int), pattern@, by@) == before + replaced(
                rest,
                pattern@,
                by@,
            ));
        } else {
            proof {
                if pattern@.is_prefix_of(rest) {
                    assert(text@.subrange(i as int, i + pattern@.len()) == pattern@);
                }
            }
            out.push(text[i]);
            i = i + 1;
            assert(rest.skip(1) == text@.skip(i as int));
            proof {
                if rest.len() < pattern@.len() {
                    assert(replaced(rest.skip(1), pattern@, by@) == rest.skip(1));
                    assert(seq![rest[0]] + rest.skip(1) == rest);
                }
            }
            assert(out@ == before + seq![rest[0]]);
            assert(out@ + replaced(text@.skip(i as int), pattern@, by@) == before + replaced(
                rest,
                pattern@,
                by@,
            ));
        }
    }
    assert(text@.skip(i as int) == Seq::<char>::empty());
    out
}

/// Replacing leaves a text alone in which the pattern does not occur.
pub proof fn law_replacing_nothing(text: Seq<char>, pattern: Seq<char>, by: Seq<char>)
    requires
        forall|at: int| !occurs_at(text, pattern, at),
    ensures
        replaced(text, pattern, by) == text,
    decreases text.len(),
{
    if 0 < pattern.len() <= text.len() {
        if pattern.is_prefix_of(text) {
            assert(text.subrange(0, pattern.len() as int) == pattern);
            assert(occurs_at(text, pattern, 0));
        }
        let rest = text.skip(1);
        assert forall|at: int| !occurs_at(rest, pattern, at) by {
            if occurs_at(rest, pattern, at) {
                assert(text.subrange(at + 1, at + 1 + pattern.len()) == pattern);
                assert(occurs_at(text, pattern, at + 1));
            }
        }
        law_replacing_nothing(rest, pattern, by);
        assert(seq![text[0]] + rest == text);
    }
}

/// Replacing by something no longer than the pattern does not lengthen a text.
pub proof fn law_replacing_does_not_lengthen(text: Seq<char>, pattern: Seq<char>, by: Seq<char>)
    requires
        by.len() <= pattern.len(),
    ensures
        replaced(text, pattern, by).len() <= text.len(),
    decreases text.len(),
{
    if 0 < pattern.len() <= text.len() {
        if pattern.is_prefix_of(text) {
            law_replacing_does_not_lengthen(text.skip(pattern.len() as int), pattern, by);
        } else {
            law_replacing_does_not_lengthen(text.skip(1), pattern, by);
        }
    }
}

/// Putting in one character that takes one byte, in place of a pattern, does not add bytes to a
/// text.
pub proof fn law_replacing_does_not_add_bytes(text: Seq<char>, pattern: Seq<char>, put: char)
    requires
        (put as u32) < 0x80,
    ensures
        encode_utf8(replaced(text, pattern, seq![put])).len() <= encode_utf8(text).len(),
    decreases text.len(),
{
    let r = replaced(text, pattern, seq![put]);
    if 0 < pattern.len() <= text.len() {
        let step = if pattern.is_prefix_of(text) {
            pattern.len() as int
        } else {
            1
        };
        let later = text.skip(step);
        law_replacing_does_not_add_bytes(later, pattern, put);
        let rest = replaced(later, pattern, seq![put]);
        assert(r.drop_first() == rest);
        assert(text == text.take(step) + later);
        lemma_encoded_joined(text.take(step), later);
        assert(text.take(step)[0] == text[0]);
        if !pattern.is_prefix_of(text) {
            assert(text.drop_first() == later);
        }
    }
}

/// An occurrence of `pattern` in `text` begins before the place `cut` and ends behind it.
pub open spec fn crossed_by(text: Seq<char>, pattern: Seq<char>, cut: int) -> bool {
    exists|at: int| #[trigger] occurs_at(text, pattern, at) && at < cut < at + pattern.len()
}

/// Where no occurrence lies across a cut, replacing on both sides of it is replacing in the whole.
pub proof fn law_replacing_in_parts(a: Seq<char>, b: Seq<char>, pattern: Seq<char>, by: Seq<char>)
    requires
        !crossed_by(a + b, pattern, a.len() as int),
    ensures
        replaced(a + b, pattern, by) == replaced(a, pattern, by) + replaced(b, pattern, by),
    decreases a.len(),
{
    let whole = a + b;
    let n = pattern.len() as int;
    if a.len() == 0 {
        assert(whole == b);
        assert(replaced(a, pattern, by) == a);
    } else if 0 < n <= whole.len() {
        if pattern.is_prefix_of(whole) {
            assert(whole.subrange(0, n) == pattern);
            assert(occurs_at(whole, pattern, 0));
            assert(n <= a.len());
            assert(a.take(n) == whole.take(n));
            lemma_cut_stays_clear(a, b, pattern, n);
            law_replacing_in_parts(a.skip(n), b, pattern, by);
            assert(whole.skip(n) == a.skip(n) + b);
        } else {
            if pattern.is_prefix_of(a) {
                assert(whole.take(n) == a.take(n));
            }
            lemma_cut_stays_clear(a, b, pattern, 1);
            law_replacing_in_parts(a.skip(1), b, pattern, by);
            assert(whole.skip(1) == a.skip(1) + b);
            if a.len() < n {
                assert(replaced(a.skip(1), pattern, by) == a.skip(1));
                assert(seq![a[0]] + a.skip(1) == a);
            }
        }
    }
}

/// What does not lie across a cut does not lie across it either once the text begins later.
proof fn lemma_cut_stays_clear(a: Seq<char>, b: Seq<char>, pattern: Seq<char>, n: int)
    requires
        !crossed_by(a + b, pattern, a.len() as int),
        0 <= n <= a.len(),
    ensures
        !crossed_by(a.skip(n) + b, pattern, a.len() - n),
{
    let rest = a.skip(n) + b;
    if crossed_by(rest, pattern, a.len() - n) {
        let at = choose|at: int| #[trigger]
            occurs_at(rest, pattern, at) && at < a.len() - n < at + pattern.len();
        assert((a + b).subrange(at + n, at + n + pattern.len()) == rest.subrange(
            at,
            at + pattern.len(),
        ));
        assert(occurs_at(a + b, pattern, at + n));
    }
}

/// A text that comes out of a replacement without the character that is put in had nothing to
/// replace.
proof fn lemma_untouched(text: Seq<char>, pattern: Seq<char>, put: char)
    requires
        !replaced(text, pattern, seq![put]).contains(put),
    ensures
        replaced(text, pattern, seq![put]) == text,
    decreases text.len(),
{
    let r = replaced(text, pattern, seq![put]);
    if 0 < pattern.len() <= text.len() {
        if pattern.is_prefix_of(text) {
            assert(r[0] == put);
        } else {
            let rest = replaced(text.skip(1), pattern, seq![put]);
            assert forall|i: int| 0 <= i < rest.len() implies rest[i] != put by {
                assert(r[i + 1] == rest[i]);
            }
            lemma_untouched(text.skip(1), pattern, put);
            assert(seq![text[0]] + text.skip(1) == text);
        }
    }
}

/// The start of a text that a replacement gives is the start of the text it was given, as far as
/// the character that is put in does not come up.
pub proof fn lemma_start_untouched(text: Seq<char>, pattern: Seq<char>, put: char, k: int)
    requires
        0 <= k <= replaced(text, pattern, seq![put]).len(),
        !replaced(text, pattern, seq![put]).take(k).contains(put),
    ensures
        k <= text.len(),
        text.take(k) == replaced(text, pattern, seq![put]).take(k),
    decreases text.len(),
{
    let r = replaced(text, pattern, seq![put]);
    if 0 < k && 0 < pattern.len() <= text.len() {
        if pattern.is_prefix_of(text) {
            assert(r.take(k)[0] == put);
        } else {
            let rest = replaced(text.skip(1), pattern, seq![put]);
            let start = rest.take(k - 1);
            assert forall|i: int| 0 <= i < start.len() implies start[i] != put by {
                assert(r.take(k)[i + 1] == rest[i]);
            }
            lemma_start_untouched(text.skip(1), pattern, put, k - 1);
            assert forall|i: int| 0 <= i < k implies text[i] == r[i] by {
                if i > 0 {
                    assert(text.skip(1).take(k - 1)[i - 1] == rest.take(k - 1)[i - 1]);
                }
            }
        }
    }
    assert(text.take(k) == r.take(k));
}

/// The end of a text that a replacement gives is the end of the text it was given, as far back as
/// the character that is put in does not come up.
proof fn lemma_end_untouched(text: Seq<char>, pattern: Seq<char>, put: char, k: int)
    requires
        0 <= k <= replaced(text, pattern, seq![put]).len(),
        ({
            let r = replaced(text, pattern, seq![put]);
            !r.skip(r.len() - k).contains(put)
        }),
    ensures
        k <= text.len(),
        ({
            let r = replaced(text, pattern, seq![put]);
            text.skip(text.len() - k) == r.skip(r.len() - k)
        }),
    decreases text.len(),
{
    let r = replaced(text, pattern, seq![put]);
    if 0 < pattern.len() <= text.len() {
        let step = if pattern.is_prefix_of(text) {
            pattern.len() as int
        } else {
            1
        };
        let later = text.skip(step);
        let rest = replaced(later, pattern, seq![put]);
        assert(r.len() == rest.len() + 1);
        if k <= rest.len() {
            assert(r.skip(r.len() - k) == rest.skip(rest.len() - k));
            lemma_end_untouched(later, pattern, put, k);
            assert(text.skip(text.len() - k) == later.skip(later.len() - k));
        } else {
            assert(r.skip(0) == r);
            lemma_untouched(text, pattern, put);
        }
    }
}

/// A replacement brings no occurrence of another pattern across a cut, if it puts in a character
/// that the other pattern does not hold.
pub proof fn lemma_replacing_brings_none_across(
    a: Seq<char>,
    b: Seq<char>,
    pattern: Seq<char>,
    put: char,
    other: Seq<char>,
)
    requires
        !crossed_by(a + b, other, a.len() as int),
        !other.contains(put),
    ensures
        ({
            let (x, y) = (replaced(a, pattern, seq![put]), replaced(b, pattern, seq![put]));
            !crossed_by(x + y, other, x.len() as int)
        }),
{
    let (x, y) = (replaced(a, pattern, seq![put]), replaced(b, pattern, seq![put]));
    if crossed_by(x + y, other, x.len() as int) {
        let at = choose|at: int| #[trigger]
            occurs_at(x + y, other, at) && at < x.len() < at + other.len();
        let k = x.len() - at;
        let j = other.len() - k;
        let found = (x + y).subrange(at, at + other.len());
        assert(x.skip(x.len() - k) == found.take(k));
        assert(y.take(j) == found.skip(k));
        let (end, start) = (x.skip(x.len() - k), y.take(j));
        assert forall|i: int| 0 <= i < end.len() implies end[i] != put by {
            assert(other[i] != put);
        }
        assert forall|i: int| 0 <= i < start.len() implies start[i] != put by {
            assert(other[k + i] != put);
        }
        lemma_end_untouched(a, pattern, put, k);
        lemma_start_untouched(b, pattern, put, j);
        let from = a.len() - k;
        assert((a + b).subrange(from, from + other.len()) == a.skip(from) + b.take(j));
        assert(other == other.take(k) + other.skip(k));
        assert(occurs_at(a + b, other, from));
    }
}

/// A decimal digit.
pub open spec fn is_digit(c: char) -> bool {
    '0' <= c <= '9'
}

pub open spec fn all_digits(s: Seq<char>) -> bool {
    forall|i: int| 0 <= i < s.len() ==> is_digit(#[trigger] s[i])
}

/// Number that a run of decimal digits stands for.
pub open spec fn digits_value(s: Seq<char>) -> nat
    decreases s.len(),
{
    if s.len() == 0 {
        0
    } else {
        10 * digits_value(s.drop_last()) + (s.last() as nat - '0' as nat) as nat
    }
}

/// What follows an optional plus sign.
pub open spec fn unsigned_part(s: Seq<char>) -> Seq<char> {
    if s.len() > 0 && s[0] == '+' {
        s.skip(1)
    } else {
        s
    }
}

/// The unsigned integer that `s` spells: an optional plus sign, then one or more digits, nothing
/// else, and no more than a `usize` holds.
pub open spec fn parsed(s: Seq<char>) -> Option<usize> {
    let digits = unsigned_part(s);
    if digits.len() == 0 || !all_digits(digits) || digits_value(digits)
        > usize::MAX {
        None
    } else {
        Some(digits_value(digits) as usize)
    }
}

/// The decimal digits of `n`, without leading zeros.
pub open spec fn decimal(n: nat) -> Seq<char>
    decreases n,
{
    if n < 10 {
        seq![(48 + n) as char]
    } else {
        decimal(n / 10).push((48 + n % 10) as char)
    }
}

proof fn lemma_digits_value_grows(s: Seq<char>, k: int)
    requires
        0 <= k <= s.len(),
    ensures
        digits_value(s.take(k)) <= digits_value(s),
    decreases s.len(),
{
    if k == s.len() {
        assert(s.take(k) == s);
    } else {
        lemma_digits_value_grows(s.drop_last(), k);
        assert(s.drop_last().take(k) == s.take(k));
    }
}

/// Reads the characters from `from` on as an unsigned integer.
fn parse_digits(chars: &Vec<char>, from: usize) -> (r: Option<usize>)
    requires
        from <= chars@.len(),
    ensures
        ({
            let digits = chars@.skip(from as int);
            r == if digits.len() == 0 || !all_digits(digits) || digits_value(
                digits,
            ) > usize::MAX {
                None
            } else {
                Some(digits_value(digits) as usize)
            }
        }),
{
    let ghost digits = chars@.skip(from as int);
    if from == chars.len() {
        return None;
    }
    let mut value: usize = 0;
    let mut i: usize = from;
    while i < chars.len()
        invariant
            from <= i <= chars.len(),
            digits == chars@.skip(from as int),
            value == digits_value(digits.take(i - from)),
            forall|j: int| 0 <= j < i - from ==> is_digit(digits[j]),
        decreases chars.len() - i,
    {
        let c: char = chars[i];
        assert(digits[i - from] == c);
        assert(digits.take(i - from + 1).drop_last() == digits.take(i - from));
        if c < '0' || c > '9' {
            assert(!is_digit(digits[i - from]));
            return None;
        }
        let d: usize = (c as u32 - 48) as usize;
        proof {
            lemma_digits_value_grows(digits, i - from + 1);
        }
        match value.checked_mul(10) {
            None => {
                return None;
            },
            Some(tens) => match tens.checked_add(d) {
                None => {
                    return None;
                },
                Some(next) => {
                    value = next;
                },
            },
        }
        i = i + 1;
    }
    assert(digits.take(digits.len() as int) == digits);
    Some(value)
}

/// Reads an unsigned integer.
pub fn parse(chars: &Vec<char>) -> (r: Option<usize>)
    ensures
        r == parsed(chars@),
{
    assert(chars@.skip(0) == chars@);
    if chars.len() > 0 && chars[0] == '+' {
        parse_digits(chars, 1)
    } else {
        parse_digits(chars, 0)
    }
}

/// Appends the decimal digits of `n`.
pub fn push_decimal(out: &mut String, n: usize)
    ensures
        final(out)@ == old(out)@ + decimal(n as nat),
    decreases n,
{
    if n >= 10 {
        push_decimal(out, n / 10);
    }
    out.push((48 + (n % 10) as u8) as char);
}

/// Decimal digits are read back as the number that they were written from.
pub proof fn law_decimal_is_read_back(n: usize)
    ensures
        parsed(decimal(n as nat)) == Some(n),
{
    lemma_decimal(n as nat);
}

proof fn lemma_decimal(n: nat)
    ensures
        decimal(n).len() > 0,
        all_digits(decimal(n)),
        digits_value(decimal(n)) == n,
    decreases n,
{
    let d = decimal(n);
    if n >= 10 {
        lemma_decimal(n / 10);
        assert(d.drop_last() == decimal(n / 10));
    } else {
        assert(d.drop_last() == Seq::<char>::empty());
        assert(digits_value(d.drop_last()) == 0);
    }
}

/// An occurrence at the beginning is replaced, whatever follows it; a character that no occurrence
/// begins with is kept.
pub proof fn law_replacing_first(rest: Seq<char>, c: char, pattern: Seq<char>, by: Seq<char>)
    requires
        pattern.len() > 0,
    ensures
        replaced(pattern + rest, pattern, by) == by + replaced(rest, pattern, by),
        !occurs_at(seq![c] + rest, pattern, 0) ==> replaced(seq![c] + rest, pattern, by) == seq![c]
            + replaced(rest, pattern, by),
        replaced(Seq::empty(), pattern, by) == Seq::<char>::empty(),
{
    let (whole, other) = (pattern + rest, seq![c] + rest);
    assert(whole.take(pattern.len() as int) == pattern);
    assert(pattern.is_prefix_of(whole));
    assert(whole.skip(pattern.len() as int) == rest);
    assert(other.skip(1) == rest);
    if !occurs_at(other, pattern, 0) {
        if pattern.is_prefix_of(other) {
            assert(other.subrange(0, pattern.len() as int) == pattern);
        }
        if other.len() < pattern.len() {
            assert(replaced(rest, pattern, by) == rest);
        }
    }
}

/// A single digit is read as its number, another digit behind a number makes it ten times as great
/// and adds to it, as long as the result fits, and nothing else may stand there. A plus sign may
/// stand first.
pub proof fn law_parsing_digit_by_digit(s: Seq<char>, c: char)
    requires
        s.len() > 0,
    ensures
        parsed(Seq::empty()) is None,
        parsed(seq!['+']) is None,
        parsed(seq![c]) == if '0' <= c <= '9' {
            Some((c as int - '0' as int) as usize)
        } else {
            None
        },
        s != seq!['+'] ==> parsed(s.push(c)) == match parsed(s) {
            Some(n) => if '0' <= c <= '9' && 10 * n + (c as int - '0' as int) <= usize::MAX {
                Some((10 * n + (c as int - '0' as int)) as usize)
            } else {
                None
            },
            None => None,
        },
        s[0] != '+' ==> parsed(seq!['+'] + s) == parsed(s),
        s[0] == '+' ==> parsed(seq!['+'] + s) is None,
{
    let none = Seq::<char>::empty();
    assert(seq!['+'].skip(1) == none);
    let one = seq![c];
    assert(one.drop_last() == none);
    assert(one[0] == c);
    assert(digits_value(none) == 0);
    assert(digits_value(one) == (c as nat - '0' as nat) as nat);
    if c == '+' {
        assert(one == seq!['+']);
    } else if '0' <= c <= '9' {
        assert(all_digits(one));
    } else {
        assert(!is_digit(one[0]));
    }
    let plus = seq!['+'] + s;
    assert(plus.skip(1) == s);
    if s[0] == '+' {
        assert(!is_digit(s[0]));
    }
    if s != seq!['+'] {
        let (d, more) = (unsigned_part(s), unsigned_part(s.push(c)));
        if s[0] == '+' {
            if s.len() == 1 {
                assert(s == seq!['+']);
            }
            assert(s.push(c).skip(1) == d.push(c));
        }
        assert(s.push(c)[0] == s[0]);
        assert(more == d.push(c));
        assert(more.drop_last() == d);
        assert(d.len() > 0);
        if all_digits(d) && is_digit(c) {
            assert(all_digits(more));
        }
        if !all_digits(d) {
            let i = choose|i: int| 0 <= i < d.len() && !is_digit(#[trigger] d[i]);
            assert(!is_digit(more[i]));
        }
        if !is_digit(c) {
            assert(!is_digit(more[d.len() as int]));
        }
    }
}

/// A number is written in digits alone, without zeros in front.
pub proof fn law_decimal_is_plain(n: nat)
    ensures
        decimal(n).len() > 0,
        forall|i: int| 0 <= i < decimal(n).len() ==> '0' <= #[trigger] decimal(n)[i] <= '9',
        decimal(n)[0] == '0' ==> n == 0 && decimal(n).len() == 1,
    decreases n,
{
    if n >= 10 {
        law_decimal_is_plain(n / 10);
        let d = decimal(n / 10);
        assert(decimal(n) == d.push((48 + n % 10) as char));
        assert(decimal(n)[0] == d[0]);
        assert forall|i: int| 0 <= i < decimal(n).len() implies '0' <= #[trigger] decimal(n)[i]
            <= '9' by {
            if i < d.len() {
                assert(decimal(n)[i] == d[i]);
            }
        }
    }
}

/// A pattern stands where the text before it ends, and where it stands the text is made of what is
/// before it, the pattern and what is behind it.
pub proof fn law_where_a_pattern_stands(a: Seq<char>, pattern: Seq<char>, b: Seq<char>, at: int)
    ensures
        occurs_at(a + pattern + b, pattern, a.len() as int),
        occurs_at(a, pattern, at) ==> {
            &&& 0 <= at <= a.len() - pattern.len()
            &&& a == a.take(at) + pattern + a.skip(at + pattern.len())
        },
{
    let n = a.len() as int;
    assert((a + pattern + b).subrange(n, n + pattern.len()) == pattern);
    if occurs_at(a, pattern, at) {
        assert(a == a.take(at) + a.subrange(at, at + pattern.len()) + a.skip(at + pattern.len()));
    }
}

} // verus!
