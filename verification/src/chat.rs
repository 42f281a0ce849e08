//! The chat prompt.
use crate::text::{chars_of, string_of};
use vstd::prelude::*;

verus! {

/// Characters with the Unicode property White_Space.
pub open spec fn is_white_space(c: char) -> bool {
    let u = c as u32;
    ||| 0x09 <= u <= 0x0d
    ||| u == 0x20
    ||| u == 0x85
    ||| u == 0xa0
    ||| u == 0x1680
    ||| 0x2000 <= u <= 0x200a
    ||| u == 0x2028
    ||| u == 0x2029
    ||| u == 0x202f
    ||| u == 0x205f
    ||| u == 0x3000
}

fn white_space(c: char) -> (r: bool)
    ensures
        r == is_white_space(c),
{
    let u: u32 = c as u32;
    (0x09 <= u && u <= 0x0d) || u == 0x20 || u == 0x85 || u == 0xa0 || u == 0x1680 || (0x2000 <= u
        && u <= 0x200a) || u == 0x2028 || u == 0x2029 || u == 0x202f || u == 0x205f || u == 0x3000
}

/// `text` without white space at either end.
pub open spec fn trimmed(text: Seq<char>) -> Seq<char>
    decreases text.len(),
{
    if text.len() == 0 {
        text
    } else if is_white_space(text[0]) {
        trimmed(text.skip(1))
    } else if is_white_space(text.last()) {
        trimmed(text.drop_last())
    } else {
        text
    }
}

/// What a line from the prompt asks for.
pub enum ChatInput {
    /// The input has ended.
    End,
    /// Nothing was typed.
    Blank,
    /// A prompt to answer.
    Prompt(String),
}

/// Removes white space at both ends.
pub fn trim(text: &str) -> (r: String)
    ensures
        r@ == trimmed(text@),
{
    let chars = chars_of(text);
    let mut from: usize = 0;
    let mut to: usize = chars.len();
    assert(chars@.subrange(0, chars@.len() as int) == chars@);
    while from < to && white_space(chars[from])
        invariant
            from <= to <= chars@.len(),
            trimmed(chars@.subrange(from as int, to as int)) == trimmed(chars@),
        decreases to - from,
    {
        let ghost now = chars@.subrange(from as int, to as int);
        assert(now.skip(1) == chars@.subrange(from + 1, to as int));
        assert(now[0] == chars@[from as int]);
        from = from + 1;
    }
    while from < to && white_space(chars[to - 1])
        invariant
            from <= to <= chars@.len(),
            from < to ==> !is_white_space(chars@[from as int]),
            trimmed(chars@.subrange(from as int, to as int)) == trimmed(chars@),
        decreases to - from,
    {
        let ghost now = chars@.subrange(from as int, to as int);
        assert(now.drop_last() == chars@.subrange(from as int, to - 1));
        assert(now[0] == chars@[from as int]);
        assert(now.last() == chars@[to - 1]);
        to = to - 1;
    }
    let mut kept: Vec<char> = Vec::new();
    for i in from..to
        invariant
            from <= i <= to <= chars@.len(),
            kept@ == chars@.subrange(from as int, i as int),
    {
        kept.push(chars[i]);
    }
    string_of(&kept)
}

/// What a line asks for, of which `bytes_read` bytes were read.
pub fn chat_input(bytes_read: usize, line: &str) -> (r: ChatInput)
    ensures
        match r {
            ChatInput::End => bytes_read == 0,
            ChatInput::Blank => bytes_read > 0 && trimmed(line@).len() == 0,
            ChatInput::Prompt(text) => {
                &&& bytes_read > 0
                &&& text@ == trimmed(line@)
                &&& trimmed(line@).len() > 0
            },
        },
{
    if bytes_read == 0 {
        return ChatInput::End;
    }
    let text = trim(line);
    if text.as_str().is_empty() {
        ChatInput::Blank
    } else {
        ChatInput::Prompt(text)
    }
}

/// Path of the model to chat with: that of the latest checkpoint if it is asked for and there is
/// one, else that of the finished model.
pub fn chat_model_path(use_latest_checkpoint: bool, latest: Option<String>) -> (r: String)
    ensures
        r@ == if use_latest_checkpoint && latest is Some {
            latest->0@
        } else {
            "checkpoints\\model_final.bin"@
        },
{
    if use_latest_checkpoint {
        match latest {
            Some(path) => path,
            None => "checkpoints\\model_final.bin".to_owned(),
        }
    } else {
        "checkpoints\\model_final.bin".to_owned()
    }
}

/// A prompt neither begins nor ends with white space, and trimming it again changes nothing.
pub proof fn law_trimming_is_final(text: Seq<char>)
    ensures
        trimmed(text).len() > 0 ==> !is_white_space(trimmed(text)[0]) && !is_white_space(
            trimmed(text).last(),
        ),
        trimmed(trimmed(text)) == trimmed(text),
    decreases text.len(),
{
    if text.len() > 0 {
        if is_white_space(text[0]) {
            law_trimming_is_final(text.skip(1));
        } else if is_white_space(text.last()) {
            law_trimming_is_final(text.drop_last());
        }
    }
}

/// `text` from `from` up to `to` has white space alone around it.
pub open spec fn is_surrounded(text: Seq<char>, from: int, to: int) -> bool {
    &&& 0 <= from <= to <= text.len()
    &&& forall|i: int| 0 <= i < from ==> is_white_space(#[trigger] text[i])
    &&& forall|i: int| to <= i < text.len() ==> is_white_space(#[trigger] text[i])
}

/// White space put in front of a text is around what it is around.
proof fn lemma_surrounded_from_the_front(text: Seq<char>, from: int, to: int)
    requires
        text.len() > 0,
        is_white_space(text[0]),
        is_surrounded(text.skip(1), from, to),
    ensures
        is_surrounded(text, from + 1, to + 1),
        text.skip(1).subrange(from, to) == text.subrange(from + 1, to + 1),
{
    let rest = text.skip(1);
    assert forall|i: int| 0 <= i < from + 1 implies is_white_space(#[trigger] text[i]) by {
        if i > 0 {
            assert(is_white_space(rest[i - 1]));
        }
    }
    assert forall|i: int| to + 1 <= i < text.len() implies is_white_space(#[trigger] text[i]) by {
        assert(is_white_space(rest[i - 1]));
    }
}

/// White space put behind a text is around what it is around.
proof fn lemma_surrounded_from_behind(text: Seq<char>, from: int, to: int)
    requires
        text.len() > 0,
        is_white_space(text.last()),
        is_surrounded(text.drop_last(), from, to),
    ensures
        is_surrounded(text, from, to),
        text.drop_last().subrange(from, to) == text.subrange(from, to),
{
    let rest = text.drop_last();
    assert forall|i: int| 0 <= i < from implies is_white_space(#[trigger] text[i]) by {
        assert(is_white_space(rest[i]));
    }
    assert forall|i: int| to <= i < text.len() implies is_white_space(#[trigger] text[i]) by {
        if i < rest.len() {
            assert(is_white_space(rest[i]));
        }
    }
}

/// Trimming removes nothing but white space at the ends.
pub proof fn law_trimming_keeps_the_rest(text: Seq<char>)
    ensures
        exists|from: int, to: int| #[trigger]
            is_surrounded(text, from, to) && trimmed(text) == text.subrange(from, to),
    decreases text.len(),
{
    if text.len() == 0 {
        assert(is_surrounded(text, 0, 0));
        assert(text.subrange(0, 0) == text);
    } else if is_white_space(text[0]) {
        let rest = text.skip(1);
        law_trimming_keeps_the_rest(rest);
        let (from, to) = choose|from: int, to: int| #[trigger]
            is_surrounded(rest, from, to) && trimmed(rest) == rest.subrange(from, to);
        lemma_surrounded_from_the_front(text, from, to);
    } else if is_white_space(text.last()) {
        let rest = text.drop_last();
        law_trimming_keeps_the_rest(rest);
        let (from, to) = choose|from: int, to: int| #[trigger]
            is_surrounded(rest, from, to) && trimmed(rest) == rest.subrange(from, to);
        lemma_surrounded_from_behind(text, from, to);
    } else {
        assert(is_surrounded(text, 0, text.len() as int));
        assert(text.subrange(0, text.len() as int) == text);
    }
}

/// The white space characters, one by one: the control characters from tab to carriage return, the
/// space, next line, the no-break space, and the spaces and separators further up. There are no
/// others.
pub proof fn law_white_space_characters(c: char)
    ensures
        is_white_space(c) <==> c == '\t' || c == '\n' || c == '\u{b}' || c == '\u{c}' || c == '\r'
            || c == ' ' || c == '\u{85}' || c == '\u{a0}' || c == '\u{1680}' || c == '\u{2000}' || c
            == '\u{2001}' || c == '\u{2002}' || c == '\u{2003}' || c == '\u{2004}' || c
            == '\u{2005}' || c == '\u{2006}' || c == '\u{2007}' || c == '\u{2008}' || c
            == '\u{2009}' || c == '\u{200a}' || c == '\u{2028}' || c == '\u{2029}' || c
            == '\u{202f}' || c == '\u{205f}' || c == '\u{3000}',
{
}

} // verus!
