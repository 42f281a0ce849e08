//! The corpus's escaped punctuation.
//!
//! " @-@ " stands for a hyphen, " @.@ " and " @,@ " for a period and a comma inside a number.
use crate::text::{
    chars_of, crossed_by, law_replacing_does_not_add_bytes, law_replacing_does_not_lengthen,
    law_replacing_first, law_replacing_in_parts, law_replacing_nothing,
    lemma_replacing_brings_none_across, occurs_at, replace, replaced,
};
use vstd::prelude::*;
use vstd::utf8::encode_utf8;

verus! {

pub open spec fn hyphen() -> Seq<char> {
    " @-@ "@
}

pub open spec fn period() -> Seq<char> {
    " @.@ "@
}

pub open spec fn comma() -> Seq<char> {
    " @,@ "@
}

/// Text with its escaped punctuation turned back into plain punctuation.
pub open spec fn cleaned(text: Seq<char>) -> Seq<char> {
    let hyphens = replaced(text, hyphen(), "-"@);
    let periods = replaced(hyphens, period(), "."@);
    replaced(periods, comma(), ","@)
}

/// The characters of the escapes and of what they stand for.
pub proof fn lemma_escapes()
    ensures
        hyphen() == seq![' ', '@', '-', '@', ' '],
        period() == seq![' ', '@', '.', '@', ' '],
        comma() == seq![' ', '@', ',', '@', ' '],
        "-"@ == seq!['-'],
        "."@ == seq!['.'],
        ","@ == seq![','],
{
    reveal_strlit(" @-@ ");
    reveal_strlit(" @.@ ");
    reveal_strlit(" @,@ ");
    reveal_strlit("-");
    reveal_strlit(".");
    reveal_strlit(",");
    assert(hyphen() =~= seq![' ', '@', '-', '@', ' ']);
    assert(period() =~= seq![' ', '@', '.', '@', ' ']);
    assert(comma() =~= seq![' ', '@', ',', '@', ' ']);
    assert("-"@ =~= seq!['-']);
    assert("."@ =~= seq!['.']);
    assert(","@ =~= seq![',']);
}

/// Turns escaped punctuation back into plain punctuation.
pub fn clean(text: &Vec<char>) -> (r: Vec<char>)
    ensures
        r@ == cleaned(text@),
{
    proof {
        lemma_escapes();
    }
    let hyphens = replace(text, &chars_of(" @-@ "), &chars_of("-"));
    let periods = replace(&hyphens, &chars_of(" @.@ "), &chars_of("."));
    replace(&periods, &chars_of(" @,@ "), &chars_of(","))
}

/// Text without escapes is kept as it is.
pub proof fn law_plain_text_is_kept(text: Seq<char>)
    requires
        forall|at: int| !escape_at(text, at),
    ensures
        cleaned(text) == text,
{
    assert forall|at: int|
        !occurs_at(text, hyphen(), at) && !occurs_at(text, period(), at) && !occurs_at(
            text,
            comma(),
            at,
        ) by {
        assert(!escape_at(text, at));
    }
    law_replacing_nothing(text, hyphen(), "-"@);
    law_replacing_nothing(text, period(), "."@);
    law_replacing_nothing(text, comma(), ","@);
}

/// Cleaning never lengthens a text, neither in characters nor in bytes.
pub proof fn law_cleaning_does_not_lengthen(text: Seq<char>)
    ensures
        cleaned(text).len() <= text.len(),
        encode_utf8(cleaned(text)).len() <= encode_utf8(text).len(),
{
    lemma_escapes();
    let hyphens = replaced(text, hyphen(), "-"@);
    let periods = replaced(hyphens, period(), "."@);
    law_replacing_does_not_lengthen(text, hyphen(), "-"@);
    law_replacing_does_not_lengthen(hyphens, period(), "."@);
    law_replacing_does_not_lengthen(periods, comma(), ","@);
    law_replacing_does_not_add_bytes(text, hyphen(), '-');
    law_replacing_does_not_add_bytes(hyphens, period(), '.');
    law_replacing_does_not_add_bytes(periods, comma(), ',');
}

/// One of the escapes stands in `text` at position `at`.
pub open spec fn escape_at(text: Seq<char>, at: int) -> bool {
    ||| occurs_at(text, hyphen(), at)
    ||| occurs_at(text, period(), at)
    ||| occurs_at(text, comma(), at)
}

/// No whole escape lies across `cut`.
pub open spec fn is_clear(text: Seq<char>, cut: int) -> bool {
    &&& !crossed_by(text, hyphen(), cut)
    &&& !crossed_by(text, period(), cut)
    &&& !crossed_by(text, comma(), cut)
}

/// Where no escape lies across a cut, cleaning both sides of it is cleaning the whole.
pub proof fn law_cleaning_in_parts(a: Seq<char>, b: Seq<char>)
    requires
        is_clear(a + b, a.len() as int),
    ensures
        cleaned(a + b) == cleaned(a) + cleaned(b),
{
    lemma_escapes();
    assert(!period().contains('-') && !comma().contains('-') && !comma().contains('.'));
    law_replacing_in_parts(a, b, hyphen(), "-"@);
    lemma_replacing_brings_none_across(a, b, hyphen(), '-', period());
    lemma_replacing_brings_none_across(a, b, hyphen(), '-', comma());
    let (a1, b1) = (replaced(a, hyphen(), "-"@), replaced(b, hyphen(), "-"@));
    law_replacing_in_parts(a1, b1, period(), "."@);
    lemma_replacing_brings_none_across(a1, b1, period(), '.', comma());
    let (a2, b2) = (replaced(a1, period(), "."@), replaced(b1, period(), "."@));
    law_replacing_in_parts(a2, b2, comma(), ","@);
}

/// An escape is turned back into the one character that it stands for, wherever it stands, if no
/// other escape lies across either of its ends.
pub proof fn law_escapes_are_turned_back(a: Seq<char>, mark: char, b: Seq<char>)
    requires
        mark == '-' || mark == '.' || mark == ',',
        is_clear(a + seq![' ', '@', mark, '@', ' '] + b, a.len() as int),
        is_clear(a + seq![' ', '@', mark, '@', ' '] + b, a.len() as int + 5),
    ensures
        cleaned(a + seq![' ', '@', mark, '@', ' '] + b) == cleaned(a) + seq![mark] + cleaned(b),
{
    lemma_escapes();
    let e = seq![' ', '@', mark, '@', ' '];
    let whole = a + e + b;
    assert(whole == a + (e + b));
    law_cleaning_in_parts(a, e + b);
    assert(is_clear(e + b, 5)) by {
        lemma_later_is_clear(a, e + b, hyphen(), 5);
        lemma_later_is_clear(a, e + b, period(), 5);
        lemma_later_is_clear(a, e + b, comma(), 5);
    }
    law_cleaning_in_parts(e, b);
    lemma_one_escape(mark);
    assert(cleaned(a) + (seq![mark] + cleaned(b)) == cleaned(a) + seq![mark] + cleaned(b));
}

/// What does not lie across a cut of a text does not lie across it in the text's end either.
proof fn lemma_later_is_clear(a: Seq<char>, b: Seq<char>, pattern: Seq<char>, cut: int)
    requires
        !crossed_by(a + b, pattern, a.len() + cut),
    ensures
        !crossed_by(b, pattern, cut),
{
    if crossed_by(b, pattern, cut) {
        let at = choose|at: int| #[trigger]
            occurs_at(b, pattern, at) && at < cut < at + pattern.len();
        let from = a.len() + at;
        assert((a + b).subrange(from, from + pattern.len()) == b.subrange(
            at,
            at + pattern.len(),
        ));
        assert(occurs_at(a + b, pattern, from));
    }
}

proof fn lemma_one_escape(mark: char)
    requires
        mark == '-' || mark == '.' || mark == ',',
    ensures
        cleaned(seq![' ', '@', mark, '@', ' ']) == seq![mark],
{
    lemma_escapes();
    let e = seq![' ', '@', mark, '@', ' '];
    let none = Seq::<char>::empty();
    assert(e + none == e);
    assert(e[2] == mark && hyphen()[2] == '-' && period()[2] == '.' && comma()[2] == ',');
    let (h, p) = (replaced(e, hyphen(), "-"@), replaced(e, period(), "."@));
    if mark == '-' {
        law_replacing_first(none, ' ', hyphen(), "-"@);
        assert(h == seq!['-']);
    } else {
        lemma_other_escape(e, hyphen(), "-"@);
        if mark == '.' {
            law_replacing_first(none, ' ', period(), "."@);
            assert(p == seq!['.']);
        } else {
            lemma_other_escape(e, period(), "."@);
            law_replacing_first(none, ' ', comma(), ","@);
        }
    }
    assert(cleaned(e) == seq![mark]);
}

/// An escape is left alone where another is replaced.
proof fn lemma_other_escape(e: Seq<char>, pattern: Seq<char>, by: Seq<char>)
    requires
        e.len() == 5,
        pattern.len() == 5,
        e[2] != pattern[2],
    ensures
        replaced(e, pattern, by) == e,
{
    assert forall|at: int| !occurs_at(e, pattern, at) by {
        if occurs_at(e, pattern, at) {
            assert(e.subrange(at, at + 5)[2] == e[2]);
        }
    }
    law_replacing_nothing(e, pattern, by);
}

/// Where escapes share a space, hyphens are turned back first, then periods, then commas.
pub proof fn law_hyphens_go_first(text: Seq<char>)
    ensures
        cleaned(text) == replaced(
            replaced(
                replaced(text, seq![' ', '@', '-', '@', ' '], seq!['-']),
                seq![' ', '@', '.', '@', ' '],
                seq!['.'],
            ),
            seq![' ', '@', ',', '@', ' '],
            seq![','],
        ),
{
    lemma_escapes();
}

} // verus!
