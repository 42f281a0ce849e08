//! Cleaning a text piece by piece, as it comes in.
//!
//! Escapes may share their spaces, as in " @,@ @.@ @-@ ". A space belongs to one escape only:
//! hyphens are turned back first, from the left, then periods, then commas. So a hyphen that stands
//! first is turned back whatever follows, a period unless a hyphen wants its last space, and a
//! comma unless a hyphen wants it or a period that is turned back itself.
use crate::escape::{
    cleaned, comma, hyphen, is_clear, law_cleaning_in_parts, lemma_escapes, period,
};
use crate::text::{
    chars_of, crossed_by, law_replacing_in_parts, lemma_start_untouched, occurs_at, replaced,
};
use vstd::prelude::*;
use vstd::utf8::encode_utf8;

verus! {

/// What makes the text after a space an escaped hyphen.
pub open spec fn hyphen_tail() -> Seq<char> {
    "@-@ "@
}

/// What makes the text after a space an escaped period.
pub open spec fn period_tail() -> Seq<char> {
    "@.@ "@
}

proof fn lemma_tails()
    ensures
        hyphen_tail() == seq!['@', '-', '@', ' '],
        period_tail() == seq!['@', '.', '@', ' '],
{
    reveal_strlit("@-@ ");
    reveal_strlit("@.@ ");
    assert(hyphen_tail() =~= seq!['@', '-', '@', ' ']);
    assert(period_tail() =~= seq!['@', '.', '@', ' ']);
}

/// `text` begins with `pattern`.
pub open spec fn starts(text: Seq<char>, pattern: Seq<char>) -> bool {
    &&& pattern.len() <= text.len()
    &&& forall|i: int| 0 <= i < pattern.len() ==> #[trigger] pattern[i] == text[i]
}

/// `text` is the beginning of `pattern` and no more: what follows the text may complete it.
pub open spec fn unfinished(text: Seq<char>, pattern: Seq<char>) -> bool {
    &&& text.len() < pattern.len()
    &&& forall|i: int| 0 <= i < text.len() ==> #[trigger] text[i] == pattern[i]
}

/// Length of the first piece of a text that can be cleaned by itself: an escape that is turned
/// back, the first four characters of one that has to leave its last space to another, or one
/// character.
pub open spec fn piece_len(text: Seq<char>) -> int {
    let rest = text.skip(5);
    if starts(text, hyphen()) {
        5
    } else if starts(text, period()) {
        if starts(rest, hyphen_tail()) {
            4
        } else {
            5
        }
    } else if starts(text, comma()) {
        if starts(rest, hyphen_tail()) || (starts(rest, period_tail()) && !starts(
            rest.skip(4),
            hyphen_tail(),
        )) {
            4
        } else {
            5
        }
    } else {
        1
    }
}

/// What follows the text may change its first piece.
pub open spec fn is_open(text: Seq<char>) -> bool {
    let rest = text.skip(5);
    ||| unfinished(text, hyphen())
    ||| unfinished(text, period())
    ||| unfinished(text, comma())
    ||| starts(text, period()) && unfinished(rest, hyphen_tail())
    ||| starts(text, comma()) && (unfinished(rest, hyphen_tail()) || unfinished(
        rest,
        period_tail(),
    ) || (starts(rest, period_tail()) && unfinished(rest.skip(4), hyphen_tail())))
}

/// The end of the pieces of a text that nothing can change that follows the text.
pub open spec fn cut_at(text: Seq<char>) -> int
    decreases text.len(),
{
    if is_open(text) || text.len() == 0 {
        0
    } else {
        proof {
            lemma_escapes();
        }
        piece_len(text) + cut_at(text.skip(piece_len(text)))
    }
}

/// Most characters that can lie behind a cut: an escaped comma, a period without its first space,
/// and all but the end of a hyphen without its first space.
pub const MOST_HELD: usize = 12;

/// A replacement leaves alone what no pattern can begin in: its first character may be an escape's,
/// but the escape is of another kind or lacks its last space.
proof fn lemma_short_front(kind: char, rest: Seq<char>, pattern: Seq<char>, z: char, put: char)
    requires
        pattern == seq![' ', '@', z, '@', ' '],
        kind != ' ',
        z != kind || rest.len() == 0 || rest[0] != ' ',
    ensures
        ({
            let front = seq![' ', '@', kind, '@'];
            replaced(front + rest, pattern, seq![put]) == front + replaced(
                rest,
                pattern,
                seq![put],
            )
        }),
{
    let front = seq![' ', '@', kind, '@'];
    let whole = front + rest;
    if crossed_by(whole, pattern, 4) {
        let at = choose|at: int| #[trigger]
            occurs_at(whole, pattern, at) && at < 4 < at + pattern.len();
        let found = whole.subrange(at, at + 5);
        assert(found[0] == whole[at] && found[2] == whole[at + 2] && found[4] == whole[at + 4]);
        assert(at == 0);
    }
    law_replacing_in_parts(front, rest, pattern, seq![put]);
}

/// A replacement leaves a whole escape of another kind alone, unless a pattern follows that wants
/// its last space.
proof fn lemma_whole_front(kind: char, rest: Seq<char>, pattern: Seq<char>, z: char, put: char)
    requires
        pattern == seq![' ', '@', z, '@', ' '],
        kind != ' ',
        z != kind,
        !starts(rest, pattern.skip(1)),
    ensures
        ({
            let front = seq![' ', '@', kind, '@', ' '];
            replaced(front + rest, pattern, seq![put]) == front + replaced(
                rest,
                pattern,
                seq![put],
            )
        }),
{
    let front = seq![' ', '@', kind, '@', ' '];
    let whole = front + rest;
    if crossed_by(whole, pattern, 5) {
        let at = choose|at: int| #[trigger]
            occurs_at(whole, pattern, at) && at < 5 < at + pattern.len();
        let found = whole.subrange(at, at + 5);
        assert(found[0] == whole[at]);
        assert(at == 4);
        assert forall|i: int| 0 <= i < 4 implies #[trigger] pattern.skip(1)[i] == rest[i] by {
            assert(found[i + 1] == whole[4 + i + 1]);
        }
    }
    law_replacing_in_parts(front, rest, pattern, seq![put]);
    assert(pattern[2] != front[2]);
    if pattern.is_prefix_of(front) {
        assert(pattern[2] == front[2]);
    }
    assert(replaced(front, pattern, seq![put]) == front) by {
        let later = front.skip(1);
        assert(replaced(later, pattern, seq![put]) == later);
        assert(seq![front[0]] + later == front);
    }
}

/// A replacement puts one character for a pattern that stands first.
proof fn lemma_pattern_first(rest: Seq<char>, pattern: Seq<char>, put: char)
    requires
        pattern.len() == 5,
    ensures
        replaced(pattern + rest, pattern, seq![put]) == seq![put] + replaced(
            rest,
            pattern,
            seq![put],
        ),
{
    let whole = pattern + rest;
    assert(whole.take(5) == pattern);
    assert(pattern.is_prefix_of(whole));
    assert(whole.skip(5) == rest);
}

/// A replacement leaves a first character alone that is not a space.
proof fn lemma_other_first(c: char, rest: Seq<char>, pattern: Seq<char>, put: char)
    requires
        pattern.len() == 5,
        pattern[0] == ' ',
        c != ' ',
    ensures
        replaced(seq![c] + rest, pattern, seq![put]) == seq![c] + replaced(
            rest,
            pattern,
            seq![put],
        ),
{
    let whole = seq![c] + rest;
    if pattern.is_prefix_of(whole) {
        assert(pattern[0] == whole[0]);
    }
    assert(whole.skip(1) == rest);
    if whole.len() < 5 {
        assert(replaced(rest, pattern, seq![put]) == rest);
    }
}

/// The hyphen that stands first is turned back.
proof fn lemma_clean_hyphen(rest: Seq<char>)
    ensures
        cleaned(hyphen() + rest) == seq!['-'] + cleaned(rest),
        replaced(hyphen() + rest, hyphen(), "-"@) == seq!['-'] + replaced(rest, hyphen(), "-"@),
{
    lemma_escapes();
    let x = replaced(rest, hyphen(), "-"@);
    let y = replaced(x, period(), "."@);
    lemma_pattern_first(rest, hyphen(), '-');
    lemma_other_first('-', x, period(), '.');
    lemma_other_first('-', y, comma(), ',');
}

/// The period that stands first is turned back, if no hyphen wants its last space.
proof fn lemma_clean_period(rest: Seq<char>)
    requires
        !starts(rest, hyphen_tail()),
    ensures
        cleaned(period() + rest) == seq!['.'] + cleaned(rest),
        replaced(period() + rest, hyphen(), "-"@) == period() + replaced(rest, hyphen(), "-"@),
{
    lemma_escapes();
    lemma_tails();
    assert(hyphen().skip(1) =~= hyphen_tail());
    let x = replaced(rest, hyphen(), "-"@);
    let y = replaced(x, period(), "."@);
    lemma_whole_front('.', rest, hyphen(), '-', '-');
    lemma_pattern_first(x, period(), '.');
    lemma_other_first('.', y, comma(), ',');
}

/// A period or a comma leaves its last space to a hyphen.
proof fn lemma_clean_before_hyphen(kind: char, rest: Seq<char>)
    requires
        kind == '.' || kind == ',',
    ensures
        cleaned(seq![' ', '@', kind, '@'] + (hyphen() + rest)) == seq![' ', '@', kind, '@']
            + cleaned(hyphen() + rest),
{
    lemma_escapes();
    let next = hyphen() + rest;
    let x = replaced(next, hyphen(), "-"@);
    let y = replaced(x, period(), "."@);
    lemma_clean_hyphen(rest);
    assert(x[0] == '-');
    lemma_other_first('-', replaced(rest, hyphen(), "-"@), period(), '.');
    assert(y[0] == '-');
    lemma_short_front(kind, next, hyphen(), '-', '-');
    lemma_short_front(kind, x, period(), '.', '.');
    lemma_short_front(kind, y, comma(), ',', ',');
}

/// A comma leaves its last space to a period, if no hyphen wants that one's.
proof fn lemma_clean_before_period(rest: Seq<char>)
    requires
        !starts(rest, hyphen_tail()),
    ensures
        cleaned(seq![' ', '@', ',', '@'] + (period() + rest)) == seq![' ', '@', ',', '@']
            + cleaned(period() + rest),
{
    lemma_escapes();
    let next = period() + rest;
    let x = replaced(next, hyphen(), "-"@);
    let y = replaced(x, period(), "."@);
    lemma_clean_period(rest);
    lemma_pattern_first(replaced(rest, hyphen(), "-"@), period(), '.');
    assert(y[0] == '.');
    lemma_short_front(',', next, hyphen(), '-', '-');
    lemma_short_front(',', x, period(), '.', '.');
    lemma_short_front(',', y, comma(), ',', ',');
}

/// The comma that stands first is turned back, if neither a hyphen wants its last space nor a
/// period that is turned back itself.
proof fn lemma_clean_comma(rest: Seq<char>)
    requires
        !starts(rest, hyphen_tail()),
        starts(rest, period_tail()) ==> starts(rest.skip(4), hyphen_tail()),
    ensures
        cleaned(comma() + rest) == seq![','] + cleaned(rest),
{
    lemma_escapes();
    lemma_tails();
    assert(hyphen().skip(1) =~= hyphen_tail());
    assert(period().skip(1) =~= period_tail());
    let x = replaced(rest, hyphen(), "-"@);
    let y = replaced(x, period(), "."@);
    lemma_whole_front(',', rest, hyphen(), '-', '-');
    if starts(x, period_tail()) {
        assert(x.take(4) =~= period_tail());
        assert(!x.take(4).contains('-'));
        lemma_start_untouched(rest, hyphen(), '-', 4);
        assert forall|i: int| 0 <= i < 4 implies #[trigger] period_tail()[i] == rest[i] by {
            assert(rest.take(4)[i] == rest[i]);
        }
        assert(starts(rest, period_tail()));
        let later = rest.skip(8);
        let next = hyphen() + later;
        assert(rest =~= seq!['@', '.', '@'] + next) by {
            assert forall|i: int| 0 <= i < rest.len() implies rest[i] == (seq!['@', '.', '@']
                + next)[i] by {
                if 4 <= i < 8 {
                    assert(hyphen_tail()[i - 4] == rest.skip(4)[i - 4]);
                } else if i < 4 {
                    assert(period_tail()[i] == rest[i]);
                }
            }
        }
        lemma_clean_hyphen(later);
        lemma_other_first('@', next, hyphen(), '-');
        lemma_other_first('.', seq!['@'] + next, hyphen(), '-');
        lemma_other_first('@', seq!['.'] + (seq!['@'] + next), hyphen(), '-');
        assert(rest =~= seq!['@'] + (seq!['.'] + (seq!['@'] + next)));
        assert(x[3] == '-');
        assert(period_tail()[3] == x[3]);
    }
    lemma_whole_front(',', x, period(), '.', '.');
    lemma_pattern_first(y, comma(), ',');
}

proof fn lemma_starts(text: Seq<char>, pattern: Seq<char>)
    requires
        starts(text, pattern),
    ensures
        text == pattern + text.skip(pattern.len() as int),
{
    let n = pattern.len() as int;
    assert forall|i: int| 0 <= i < text.len() implies text[i] == (pattern + text.skip(n))[i] by {
        if i < n {
            assert(pattern[i] == text[i]);
        }
    }
    assert(text =~= pattern + text.skip(n));
}

/// A text that is no longer than an escape without its last space is kept as it is.
proof fn lemma_short_is_kept(text: Seq<char>)
    requires
        text.len() < 5,
    ensures
        cleaned(text) == text,
{
    lemma_escapes();
}

/// Cleaning the first piece of a text and the rest by itself is cleaning the text.
pub proof fn law_cleaning_by_pieces(text: Seq<char>)
    requires
        text.len() > 0,
    ensures
        1 <= piece_len(text) <= 5,
        piece_len(text) <= text.len(),
        cleaned(text) == cleaned(text.take(piece_len(text))) + cleaned(
            text.skip(piece_len(text)),
        ),
{
    lemma_escapes();
    lemma_tails();
    let none = Seq::<char>::empty();
    lemma_short_is_kept(none);
    let rest = text.skip(5);
    let n = piece_len(text);
    if starts(text, hyphen()) {
        lemma_starts(text, hyphen());
        lemma_clean_hyphen(rest);
        lemma_clean_hyphen(none);
        assert(text.take(5) == hyphen() + none);
    } else if starts(text, period()) {
        lemma_starts(text, period());
        if n == 5 {
            lemma_clean_period(rest);
            lemma_clean_period(none);
            assert(text.take(5) == period() + none);
        } else {
            lemma_front('.', text);
            lemma_clean_before_hyphen('.', rest.skip(4));
            lemma_short_is_kept(text.take(4));
        }
    } else if starts(text, comma()) {
        lemma_starts(text, comma());
        if n == 5 {
            lemma_clean_comma(rest);
            lemma_clean_comma(none);
            assert(text.take(5) == comma() + none);
        } else {
            lemma_front(',', text);
            lemma_short_is_kept(text.take(4));
            if starts(rest, hyphen_tail()) {
                lemma_clean_before_hyphen(',', rest.skip(4));
            } else {
                lemma_clean_before_period(rest.skip(4));
            }
        }
    } else {
        let (first, later) = (text.take(1), text.skip(1));
        assert(first + later == text);
        lemma_nothing_first(text, hyphen());
        lemma_nothing_first(text, period());
        lemma_nothing_first(text, comma());
        assert(is_clear(first + later, 1));
        law_cleaning_in_parts(first, later);
    }
}

/// The first four characters of an escape that gives its last space away, and the escape that gets
/// it.
proof fn lemma_front(kind: char, text: Seq<char>)
    requires
        starts(text, seq![' ', '@', kind, '@', ' ']),
    ensures
        text == seq![' ', '@', kind, '@'] + text.skip(4),
        text.take(4) == seq![' ', '@', kind, '@'],
        starts(text.skip(5), hyphen_tail()) ==> text.skip(4) == hyphen() + text.skip(5).skip(4),
        starts(text.skip(5), period_tail()) ==> text.skip(4) == period() + text.skip(5).skip(4),
{
    lemma_escapes();
    lemma_tails();
    let whole = seq![' ', '@', kind, '@', ' '];
    lemma_starts(text, whole);
    let rest = text.skip(5);
    assert(text.take(4) =~= seq![' ', '@', kind, '@']);
    assert(text =~= seq![' ', '@', kind, '@'] + text.skip(4));
    if starts(rest, hyphen_tail()) {
        lemma_starts(rest, hyphen_tail());
        assert(text.skip(4) =~= seq![' '] + rest);
        assert(text.skip(4) =~= hyphen() + rest.skip(4));
    }
    if starts(rest, period_tail()) {
        lemma_starts(rest, period_tail());
        assert(text.skip(4) =~= seq![' '] + rest);
        assert(text.skip(4) =~= period() + rest.skip(4));
    }
}

proof fn lemma_nothing_first(text: Seq<char>, pattern: Seq<char>)
    requires
        !starts(text, pattern),
    ensures
        !crossed_by(text, pattern, 1),
{
    if crossed_by(text, pattern, 1) {
        let at = choose|at: int| #[trigger]
            occurs_at(text, pattern, at) && at < 1 < at + pattern.len();
        let found = text.subrange(0, pattern.len() as int);
        assert forall|i: int| 0 <= i < pattern.len() implies #[trigger] pattern[i] == text[i] by {
            assert(found[i] == text[i]);
        }
    }
}

proof fn lemma_starts_with_more(text: Seq<char>, next: Seq<char>, pattern: Seq<char>)
    requires
        !unfinished(text, pattern),
    ensures
        starts(text + next, pattern) == starts(text, pattern),
{
    let whole = text + next;
    if starts(text, pattern) {
        assert forall|i: int| 0 <= i < pattern.len() implies #[trigger] pattern[i] == whole[i] by {
            assert(pattern[i] == text[i]);
        }
    } else if starts(whole, pattern) {
        if text.len() < pattern.len() {
            let i = choose|i: int| 0 <= i < text.len() && #[trigger] text[i] != pattern[i];
            assert(pattern[i] == whole[i]);
        } else {
            let i = choose|i: int| 0 <= i < pattern.len() && #[trigger] pattern[i] != text[i];
            assert(pattern[i] == whole[i]);
        }
    }
}

proof fn lemma_starts_with_less(text: Seq<char>, n: int, pattern: Seq<char>)
    requires
        0 <= n <= text.len(),
    ensures
        starts(text.take(n), pattern) ==> starts(text, pattern),
        starts(text, pattern) && pattern.len() <= n ==> starts(text.take(n), pattern),
{
    let part = text.take(n);
    if starts(part, pattern) {
        assert forall|i: int| 0 <= i < pattern.len() implies #[trigger] pattern[i] == text[i] by {
            assert(pattern[i] == part[i]);
        }
    }
    if starts(text, pattern) && pattern.len() <= n {
        assert forall|i: int| 0 <= i < pattern.len() implies #[trigger] pattern[i] == part[i] by {
            assert(pattern[i] == text[i]);
        }
    }
}

/// What follows a text does not change its first piece, unless the text is open.
pub proof fn law_piece_is_settled(text: Seq<char>, next: Seq<char>)
    requires
        !is_open(text),
    ensures
        text.len() > 0,
        piece_len(text + next) == piece_len(text),
{
    lemma_escapes();
    lemma_tails();
    let whole = text + next;
    lemma_starts_with_more(text, next, hyphen());
    lemma_starts_with_more(text, next, period());
    lemma_starts_with_more(text, next, comma());
    if text.len() >= 5 {
        let rest = text.skip(5);
        assert(whole.skip(5) == rest + next);
        if !unfinished(rest, hyphen_tail()) {
            lemma_starts_with_more(rest, next, hyphen_tail());
        }
        if !unfinished(rest, period_tail()) {
            lemma_starts_with_more(rest, next, period_tail());
        }
        if starts(rest, period_tail()) {
            assert((rest + next).skip(4) == rest.skip(4) + next);
            if !unfinished(rest.skip(4), hyphen_tail()) {
                lemma_starts_with_more(rest.skip(4), next, hyphen_tail());
            }
        }
    }
}

/// The cut lies within the text, and what lies behind it is open.
pub proof fn lemma_cut(text: Seq<char>)
    ensures
        0 <= cut_at(text) <= text.len(),
        is_open(text.skip(cut_at(text))),
        cut_at(text.skip(cut_at(text))) == 0,
    decreases text.len(),
{
    lemma_escapes();
    if is_open(text) {
        assert(text.skip(0) == text);
    } else {
        law_piece_is_settled(text, text);
        law_cleaning_by_pieces(text);
        let n = piece_len(text);
        let later = text.skip(n);
        lemma_cut(later);
        assert(text.skip(n + cut_at(later)) == later.skip(cut_at(later)));
    }
}

proof fn lemma_cut_after_other(text: Seq<char>)
    requires
        text.len() > 0,
        text[0] != ' ',
    ensures
        !is_open(text),
        piece_len(text) == 1,
        cut_at(text) == 1 + cut_at(text.skip(1)),
{
    lemma_escapes();
    assert(hyphen()[0] == ' ' && period()[0] == ' ' && comma()[0] == ' ');
}

proof fn lemma_cut_after_hyphen(rest: Seq<char>)
    ensures
        cut_at(hyphen() + rest) == 5 + cut_at(rest),
{
    lemma_escapes();
    let text = hyphen() + rest;
    assert(text.skip(5) == rest);
    assert(starts(text, hyphen()));
    assert(!starts(text, period())) by {
        assert(period()[2] != text[2]);
    }
    assert(!starts(text, comma())) by {
        assert(comma()[2] != text[2]);
    }
}

/// An escape that a piece leaves its last space to lies before the cut.
proof fn lemma_cut_behind_next(text: Seq<char>)
    requires
        !is_open(text),
        piece_len(text) == 4,
    ensures
        cut_at(text) >= 9,
{
    lemma_escapes();
    lemma_tails();
    let rest = text.skip(5);
    let next = text.skip(4);
    let kind = text[2];
    assert(starts(text, seq![' ', '@', kind, '@', ' ']));
    lemma_front(kind, text);
    lemma_cut(rest.skip(4));
    if starts(rest, hyphen_tail()) {
        lemma_cut_after_hyphen(rest.skip(4));
    } else {
        assert(next.skip(5) =~= rest.skip(4));
        assert(starts(next, period()));
        lemma_one_escape_first(next);
        assert(cut_at(next) == 5 + cut_at(rest.skip(4)));
    }
}

/// The period and the hyphen that let a comma have its last space lie before the cut.
proof fn lemma_cut_behind_both(text: Seq<char>)
    requires
        !is_open(text),
        starts(text, comma()),
        starts(text.skip(5), period_tail()),
        starts(text.skip(5).skip(4), hyphen_tail()),
    ensures
        cut_at(text) >= 13,
{
    lemma_escapes();
    lemma_tails();
    let rest = text.skip(5);
    let later = rest.skip(3);
    lemma_one_escape_first(text);
    assert(!starts(rest, hyphen_tail())) by {
        if starts(rest, hyphen_tail()) {
            lemma_tails_differ(rest);
        }
    }
    assert(piece_len(text) == 5);
    assert(period_tail()[0] == rest[0] && period_tail()[1] == rest[1] && period_tail()[2]
        == rest[2] && period_tail()[3] == rest[3]);
    lemma_starts(rest.skip(4), hyphen_tail());
    assert(later =~= seq![' '] + rest.skip(4));
    assert(rest.skip(4).skip(4) =~= rest.skip(8));
    assert(later =~= hyphen() + rest.skip(8));
    lemma_cut_after_hyphen(rest.skip(8));
    lemma_cut(rest.skip(8));
    lemma_cut_after_other(rest);
    lemma_cut_after_other(rest.skip(1));
    lemma_cut_after_other(rest.skip(2));
    assert(rest.skip(1).skip(1) =~= rest.skip(2));
    assert(rest.skip(2).skip(1) =~= later);
}

/// A text that ends sooner has the same first piece, if it still holds what decides on it.
proof fn lemma_piece_of_less(text: Seq<char>, m: int)
    requires
        piece_len(text) <= m <= text.len(),
        piece_len(text) == 4 ==> m >= 9,
        starts(text, comma()) && starts(text.skip(5), period_tail()) && starts(
            text.skip(5).skip(4),
            hyphen_tail(),
        ) ==> m >= 13,
    ensures
        piece_len(text.take(m)) == piece_len(text),
{
    lemma_escapes();
    lemma_tails();
    let part = text.take(m);
    lemma_starts_with_less(text, m, hyphen());
    lemma_starts_with_less(text, m, period());
    lemma_starts_with_less(text, m, comma());
    if m >= 5 {
        let rest = text.skip(5);
        assert(part.skip(5) =~= rest.take(m - 5));
        lemma_starts_with_less(rest, m - 5, hyphen_tail());
        lemma_starts_with_less(rest, m - 5, period_tail());
        if m >= 9 {
            assert(rest.take(m - 5).skip(4) =~= rest.skip(4).take(m - 9));
            lemma_starts_with_less(rest.skip(4), m - 9, hyphen_tail());
        }
    }
}

/// Nothing that decides on the first piece lies behind the cut.
proof fn lemma_piece_before_cut(text: Seq<char>)
    requires
        !is_open(text),
    ensures
        piece_len(text.take(cut_at(text))) == piece_len(text),
{
    law_piece_is_settled(text, text);
    lemma_cut(text);
    lemma_cut(text.skip(piece_len(text)));
    if piece_len(text) == 4 {
        lemma_cut_behind_next(text);
    }
    if starts(text, comma()) && starts(text.skip(5), period_tail()) && starts(
        text.skip(5).skip(4),
        hyphen_tail(),
    ) {
        lemma_cut_behind_both(text);
    }
    lemma_piece_of_less(text, cut_at(text));
}

/// The first piece, and the rest with what follows the text.
proof fn lemma_piece_with_more(text: Seq<char>, next: Seq<char>)
    requires
        !is_open(text),
    ensures
        ({
            let n = piece_len(text);
            &&& 0 < n <= text.len()
            &&& cleaned(text + next) == cleaned(text.take(n)) + cleaned(text.skip(n) + next)
        }),
{
    let n = piece_len(text);
    let whole = text + next;
    law_piece_is_settled(text, next);
    law_cleaning_by_pieces(text);
    law_cleaning_by_pieces(whole);
    assert(whole.take(n) =~= text.take(n));
    assert(whole.skip(n) =~= text.skip(n) + next);
}

/// The first piece, and the rest of what lies before the cut.
#[verifier::rlimit(30)]
proof fn lemma_piece_and_cut(text: Seq<char>)
    requires
        !is_open(text),
    ensures
        ({
            let n = piece_len(text);
            let later = text.skip(n);
            let cut = cut_at(later);
            &&& 0 <= cut <= later.len()
            &&& cut_at(text) == n + cut
            &&& cleaned(text.take(n + cut)) == cleaned(text.take(n)) + cleaned(later.take(cut))
            &&& text.skip(n + cut) == later.skip(cut)
        }),
{
    let n = piece_len(text);
    law_piece_is_settled(text, text);
    law_cleaning_by_pieces(text);
    let later = text.skip(n);
    lemma_cut(later);
    let cut = cut_at(later);
    lemma_piece_before_cut(text);
    let before = text.take(n + cut);
    law_cleaning_by_pieces(before);
    assert(before.take(n) =~= text.take(n));
    assert(before.skip(n) =~= later.take(cut));
    assert(later.skip(cut) =~= text.skip(n + cut));
}

/// What lies before the cut of a text can be cleaned by itself, whatever follows the text.
pub proof fn law_cut_is_settled(text: Seq<char>, next: Seq<char>)
    ensures
        cleaned(text + next) == cleaned(text.take(cut_at(text))) + cleaned(
            text.skip(cut_at(text)) + next,
        ),
    decreases text.len(),
{
    if is_open(text) {
        assert(cut_at(text) == 0);
        lemma_short_is_kept(text.take(0));
        assert(text.skip(0) =~= text);
        assert(text.take(0) + cleaned(text + next) =~= cleaned(text + next));
    } else {
        let n = piece_len(text);
        let later = text.skip(n);
        let cut = cut_at(later);
        lemma_piece_with_more(text, next);
        lemma_piece_and_cut(text);
        law_cut_is_settled(later, next);
        let (a, b, c) = (
            cleaned(text.take(n)),
            cleaned(later.take(cut)),
            cleaned(later.skip(cut) + next),
        );
        assert(a + (b + c) =~= (a + b) + c);
    }
}

/// An open text is short, and each of its characters takes one byte.
pub proof fn law_open_text_is_short(text: Seq<char>)
    requires
        is_open(text),
    ensures
        text.len() <= MOST_HELD,
        encode_utf8(text).len() == text.len(),
{
    lemma_escapes();
    lemma_tails();
    assert forall|i: int| 0 <= i < text.len() implies '\0' <= #[trigger] text[i] <= '\u{7f}' by {
        if text.len() >= 5 {
            let rest = text.skip(5);
            if i < 5 {
                if starts(text, period()) {
                    assert(period()[i] == text[i]);
                } else {
                    assert(comma()[i] == text[i]);
                }
            } else {
                assert(rest[i - 5] == text[i]);
                if i >= 9 {
                    assert(rest.skip(4)[i - 9] == text[i]);
                } else if starts(rest, period_tail()) {
                    assert(period_tail()[i - 5] == rest[i - 5]);
                }
            }
        }
    }
    assert(vstd::utf8::is_ascii_chars(text));
    vstd::utf8::is_ascii_chars_encode_utf8(text);
}

fn starts_here(text: &Vec<char>, at: usize, pattern: &Vec<char>) -> (r: bool)
    requires
        at <= text@.len(),
    ensures
        r == starts(text@.skip(at as int), pattern@),
{
    if text.len() - at < pattern.len() {
        return false;
    }
    for i in 0..pattern.len()
        invariant
            at + pattern@.len() <= text@.len(),
            at + pattern.len() <= text.len(),
            forall|j: int| 0 <= j < i ==> #[trigger] pattern@[j] == text@.skip(at as int)[j],
    {
        if text[at + i] != pattern[i] {
            assert(pattern@[i as int] != text@.skip(at as int)[i as int]);
            return false;
        }
    }
    true
}

fn unfinished_here(text: &Vec<char>, at: usize, pattern: &Vec<char>) -> (r: bool)
    requires
        at <= text@.len(),
    ensures
        r == unfinished(text@.skip(at as int), pattern@),
{
    let len: usize = text.len() - at;
    if len >= pattern.len() {
        return false;
    }
    for i in 0..len
        invariant
            at + len == text.len(),
            len < pattern@.len(),
            forall|j: int| 0 <= j < i ==> #[trigger] text@.skip(at as int)[j] == pattern@[j],
    {
        if text[at + i] != pattern[i] {
            assert(text@.skip(at as int)[i as int] != pattern@[i as int]);
            return false;
        }
    }
    true
}

/// The characters that pieces are told by.
struct Marks {
    hyphen: Vec<char>,
    period: Vec<char>,
    comma: Vec<char>,
    hyphen_tail: Vec<char>,
    period_tail: Vec<char>,
}

impl Marks {
    spec fn wf(&self) -> bool {
        &&& self.hyphen@ == hyphen()
        &&& self.period@ == period()
        &&& self.comma@ == comma()
        &&& self.hyphen_tail@ == hyphen_tail()
        &&& self.period_tail@ == period_tail()
    }

    fn new() -> (r: Marks)
        ensures
            r.wf(),
    {
        Marks {
            hyphen: chars_of(" @-@ "),
            period: chars_of(" @.@ "),
            comma: chars_of(" @,@ "),
            hyphen_tail: chars_of("@-@ "),
            period_tail: chars_of("@.@ "),
        }
    }

    /// Length of the piece at `at`, if nothing that follows the text can change it.
    fn piece(&self, text: &Vec<char>, at: usize) -> (r: Option<usize>)
        requires
            self.wf(),
            at <= text@.len(),
        ensures
            ({
                let rest = text@.skip(at as int);
                match r {
                    Some(n) => !is_open(rest) && n == piece_len(rest) && at + n <= text@.len(),
                    None => is_open(rest),
                }
            }),
    {
        let ghost here = text@.skip(at as int);
        proof {
            lemma_escapes();
            lemma_tails();
        }
        if at < text.len() && text[at] != ' ' {
            proof {
                lemma_cut_after_other(here);
            }
            return Some(1);
        }
        if unfinished_here(text, at, &self.hyphen) || unfinished_here(text, at, &self.period)
            || unfinished_here(text, at, &self.comma) {
            return None;
        }
        let is_hyphen: bool = starts_here(text, at, &self.hyphen);
        let is_period: bool = starts_here(text, at, &self.period);
        let is_comma: bool = starts_here(text, at, &self.comma);
        proof {
            lemma_one_escape_first(here);
        }
        if is_hyphen {
            return Some(5);
        }
        if !is_period && !is_comma {
            return Some(1);
        }
        let next: usize = at + 5;
        assert(here.skip(5) =~= text@.skip(next as int));
        if unfinished_here(text, next, &self.hyphen_tail) {
            return None;
        }
        if starts_here(text, next, &self.hyphen_tail) {
            proof {
                lemma_tails_differ(here.skip(5));
            }
            return Some(4);
        }
        if is_period {
            return Some(5);
        }
        if unfinished_here(text, next, &self.period_tail) {
            return None;
        }
        if !starts_here(text, next, &self.period_tail) {
            return Some(5);
        }
        let last: usize = next + 4;
        assert(here.skip(5).skip(4) =~= text@.skip(last as int));
        if unfinished_here(text, last, &self.hyphen_tail) {
            None
        } else if starts_here(text, last, &self.hyphen_tail) {
            Some(5)
        } else {
            Some(4)
        }
    }
}

/// A text begins with one escape at most.
proof fn lemma_one_escape_first(text: Seq<char>)
    ensures
        starts(text, hyphen()) ==> !starts(text, period()) && !starts(text, comma()),
        starts(text, period()) ==> !starts(text, comma()),
{
    lemma_escapes();
    if text.len() >= 5 {
        assert(starts(text, hyphen()) ==> hyphen()[2] == text[2]);
        assert(starts(text, period()) ==> period()[2] == text[2]);
        assert(starts(text, comma()) ==> comma()[2] == text[2]);
    }
}

/// What begins as an escaped hyphen does not begin as an escaped period.
proof fn lemma_tails_differ(text: Seq<char>)
    requires
        starts(text, hyphen_tail()),
    ensures
        !starts(text, period_tail()),
        !unfinished(text, period_tail()),
{
    lemma_tails();
    assert(hyphen_tail()[1] == text[1]);
    assert(starts(text, period_tail()) ==> period_tail()[1] == text[1]);
}

/// The end of the pieces of a text that nothing can change that follows the text.
pub fn cut_place(text: &Vec<char>) -> (r: usize)
    ensures
        r == cut_at(text@),
        r <= text@.len(),
{
    let marks = Marks::new();
    let len: usize = text.len();
    let mut at: usize = 0;
    assert(text@.skip(0) =~= text@);
    loop
        invariant
            marks.wf(),
            at <= len == text@.len(),
            cut_at(text@) == at + cut_at(text@.skip(at as int)),
        decreases text@.len() - at,
    {
        match marks.piece(text, at) {
            Some(n) => {
                let ghost here = text@.skip(at as int);
                proof {
                    law_piece_is_settled(here, here);
                    law_cleaning_by_pieces(here);
                    assert(here.skip(n as int) =~= text@.skip(at + n));
                }
                at = at + n;
            },
            None => {
                return at;
            },
        }
    }
}

/// Whether an escape that stands first is turned back shows in the first character.
proof fn lemma_first_character(text: Seq<char>)
    requires
        starts(text, period()) || starts(text, comma()),
    ensures
        cleaned(text).len() > 0,
        piece_len(text) == 5 ==> cleaned(text)[0] == '.' || cleaned(text)[0] == ',',
        piece_len(text) == 4 ==> cleaned(text)[0] == ' ',
{
    lemma_escapes();
    lemma_tails();
    law_cleaning_by_pieces(text);
    let none = Seq::<char>::empty();
    if piece_len(text) == 4 {
        lemma_short_is_kept(text.take(4));
        assert(period()[0] == ' ' && comma()[0] == ' ');
    } else if starts(text, period()) {
        lemma_starts(text, period());
        lemma_clean_period(none);
        assert(text.take(5) == period() + none);
    } else {
        lemma_starts(text, comma());
        lemma_clean_comma(none);
        assert(text.take(5) == comma() + none);
    }
}

/// Text is held back only where it matters: something may follow it with which it has to be cleaned
/// as one.
pub proof fn law_held_back_only_where_it_matters(text: Seq<char>)
    requires
        text.len() > 0,
        is_open(text),
    ensures
        exists|next: Seq<char>|
            #[trigger] cleaned(text + next) != cleaned(text) + cleaned(next),
{
    lemma_escapes();
    lemma_tails();
    let none = Seq::<char>::empty();
    let n = text.len() as int;
    let rest = text.skip(5);
    if n < 5 {
        let (whole, kind) = if unfinished(text, hyphen()) {
            (hyphen(), '-')
        } else if unfinished(text, period()) {
            (period(), '.')
        } else {
            (comma(), ',')
        };
        let next = whole.skip(n);
        assert(whole[0] == text[0]);
        assert(text + next =~= whole);
        lemma_clean_hyphen(none);
        lemma_clean_period(none);
        lemma_clean_comma(none);
        assert(whole + none =~= whole);
        assert(cleaned(whole)[0] == kind);
        lemma_short_is_kept(text);
        assert((cleaned(text) + cleaned(next))[0] == ' ');
        assert(cleaned(text + next) != cleaned(text) + cleaned(next));
    } else {
        let later = rest.skip(4);
        let next = if unfinished(rest, hyphen_tail()) {
            hyphen_tail().skip(rest.len() as int)
        } else if starts(text, comma()) && unfinished(rest, period_tail()) {
            period_tail().skip(rest.len() as int)
        } else {
            hyphen_tail().skip(later.len() as int)
        };
        let whole = text + next;
        let after = whole.skip(5);
        assert(after =~= rest + next);
        lemma_starts_with_more(text, next, period());
        lemma_starts_with_more(text, next, comma());
        if unfinished(rest, hyphen_tail()) {
            assert(after =~= hyphen_tail());
        } else if starts(text, comma()) && unfinished(rest, period_tail()) {
            assert(after =~= period_tail());
        } else {
            lemma_starts_with_more(rest, next, period_tail());
            assert(after.skip(4) =~= later + next);
            assert(after.skip(4) =~= hyphen_tail());
            assert(period_tail()[1] == after[1] && period_tail()[1] == rest[1]);
            assert(hyphen_tail()[1] == '-');
        }
        assert(period()[2] == '.' && comma()[2] == ',' && hyphen()[2] == '-');
        lemma_first_character(text);
        lemma_first_character(whole);
        assert((cleaned(text) + cleaned(next))[0] == cleaned(text)[0]);
        assert(cleaned(text + next) != cleaned(text) + cleaned(next));
    }
}

} // verus!
