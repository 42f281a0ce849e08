//! Cutting a stream of bytes at the edges of UTF-8 characters.
use vstd::prelude::*;
use vstd::slice::slice_subrange;
use vstd::utf8::{
    decode_utf8, encode_utf8, length_of_first_scalar, partial_valid_utf8, pop_first_scalar,
    valid_first_scalar, valid_utf8,
};

verus! {

/// Length of the longest prefix that is valid UTF-8.
pub open spec fn valid_len(bytes: Seq<u8>) -> int
    decreases bytes.len(),
{
    if bytes.len() > 0 && valid_first_scalar(bytes) {
        length_of_first_scalar(bytes) + valid_len(pop_first_scalar(bytes))
    } else {
        0
    }
}

/// Text in the longest valid prefix.
pub open spec fn decoded(bytes: Seq<u8>) -> Seq<char> {
    decode_utf8(bytes.take(valid_len(bytes)))
}

/// Bytes after the longest valid prefix.
pub open spec fn carried(bytes: Seq<u8>) -> Seq<u8> {
    bytes.skip(valid_len(bytes))
}

/// `core::str::from_utf8` accepts exactly the valid encodings and gives their text. On anything
/// else `Utf8Error::valid_up_to` is the largest index up to which the input is valid, which is
/// what the error holds here.
#[verifier::external_body]
fn checked_text(bytes: &[u8]) -> (r: Result<&str, usize>)
    ensures
        match r {
            Ok(text) => valid_utf8(bytes@) && text@ == decode_utf8(bytes@),
            Err(n) => {
                &&& !valid_utf8(bytes@)
                &&& partial_valid_utf8(bytes@, n as int)
                &&& forall|m: int| n < m <= bytes@.len() ==> !partial_valid_utf8(bytes@, m)
            },
        },
{
    match core::str::from_utf8(bytes) {
        Ok(text) => Ok(text),
        Err(e) => Err(e.valid_up_to()),
    }
}

/// What a decoded prefix leaves does not begin with a whole character.
pub proof fn law_nothing_whole_is_held_back(bytes: Seq<u8>)
    ensures
        valid_len(carried(bytes)) == 0,
{
    lemma_valid_len(bytes);
}

/// The recursive count stops within the input, at a valid prefix.
proof fn lemma_valid_len(bytes: Seq<u8>)
    ensures
        0 <= valid_len(bytes) <= bytes.len(),
        valid_utf8(bytes.take(valid_len(bytes))),
        valid_len(carried(bytes)) == 0,
    decreases bytes.len(),
{
    if bytes.len() > 0 && valid_first_scalar(bytes) {
        let k = length_of_first_scalar(bytes);
        let rest = pop_first_scalar(bytes);
        let n = valid_len(rest);
        lemma_valid_len(rest);
        let whole = bytes.take(valid_len(bytes));
        assert(pop_first_scalar(whole) == rest.take(n));
        assert(carried(bytes) == carried(rest));
    } else {
        assert(bytes.skip(0) == bytes);
    }
}

/// No longer prefix is valid.
proof fn lemma_valid_len_is_largest(bytes: Seq<u8>, m: int)
    requires
        partial_valid_utf8(bytes, m),
    ensures
        m <= valid_len(bytes),
    decreases bytes.len(),
{
    lemma_valid_len(bytes);
    if m > 0 {
        let head = bytes.subrange(0, m);
        let k = length_of_first_scalar(head);
        assert(valid_first_scalar(head));
        assert(valid_first_scalar(bytes) && length_of_first_scalar(bytes) == k);
        let rest = pop_first_scalar(bytes);
        assert(pop_first_scalar(head) == rest.subrange(0, m - k));
        lemma_valid_len_is_largest(rest, m - k);
    }
}

/// Nothing is held back of bytes that are valid as a whole.
pub proof fn law_valid_bytes_are_decoded_whole(bytes: Seq<u8>)
    requires
        valid_utf8(bytes),
    ensures
        valid_len(bytes) == bytes.len(),
        decoded(bytes) == decode_utf8(bytes),
        carried(bytes) == Seq::<u8>::empty(),
{
    assert(bytes.subrange(0, bytes.len() as int) == bytes);
    lemma_valid_len_is_largest(bytes, bytes.len() as int);
    lemma_valid_len(bytes);
    assert(bytes.take(bytes.len() as int) == bytes);
}

/// Text in the longest valid prefix of `bytes`, and the length of that prefix.
pub fn decode_prefix(bytes: &[u8]) -> (r: (&str, usize))
    ensures
        r.0@ == decoded(bytes@),
        r.1 == valid_len(bytes@),
        r.1 <= bytes@.len(),
{
    proof {
        lemma_valid_len(bytes@);
    }
    match checked_text(bytes) {
        Ok(text) => {
            proof {
                law_valid_bytes_are_decoded_whole(bytes@);
            }
            (text, bytes.len())
        },
        Err(n) => {
            proof {
                lemma_valid_len_is_largest(bytes@, n as int);
                assert(bytes@.subrange(0, valid_len(bytes@)) == bytes@.take(valid_len(bytes@)));
                assert(partial_valid_utf8(bytes@, valid_len(bytes@)));
                assert(bytes@.subrange(0, n as int) == bytes@.take(n as int));
            }
            let head = slice_subrange(bytes, 0, n);
            match checked_text(head) {
                Ok(text) => (text, n),
                Err(_) => {
                    assert(false);
                    ("", 0)
                },
            }
        },
    }
}

/// Decoding a prefix first, and then what it left together with the bytes that follow, gives the
/// text of the whole and leaves what the whole leaves.
pub proof fn law_cut_anywhere(first: Seq<u8>, second: Seq<u8>)
    ensures
        decoded(first + second) == decoded(first) + decoded(carried(first) + second),
        carried(first + second) == carried(carried(first) + second),
        valid_len(first + second) == valid_len(first) + valid_len(carried(first) + second),
    decreases first.len(),
{
    let whole = first + second;
    lemma_valid_len(first);
    lemma_valid_len(whole);
    if first.len() > 0 && valid_first_scalar(first) {
        let k = length_of_first_scalar(first);
        let rest = pop_first_scalar(first);
        assert(valid_first_scalar(whole) && length_of_first_scalar(whole) == k);
        assert(pop_first_scalar(whole) == rest + second);
        assert(carried(first) == carried(rest)) by {
            lemma_valid_len(rest);
        }
        law_cut_anywhere(rest, second);
        lemma_valid_len(rest + second);
        lemma_decoded_step(first);
        lemma_decoded_step(whole);
        assert(carried(whole) == carried(rest + second));
    } else {
        assert(first.skip(0) == first);
        assert(first.take(0) == Seq::<u8>::empty());
        assert(decoded(first) == Seq::<char>::empty());
    }
}

/// The first character of the decoded text comes from the first encoded scalar.
proof fn lemma_decoded_step(bytes: Seq<u8>)
    requires
        bytes.len() > 0,
        valid_first_scalar(bytes),
    ensures
        decoded(bytes) == seq![vstd::utf8::decode_first_scalar(bytes) as char] + decoded(
            pop_first_scalar(bytes),
        ),
{
    let rest = pop_first_scalar(bytes);
    lemma_valid_len(bytes);
    lemma_valid_len(rest);
    let head = bytes.take(valid_len(bytes));
    assert(pop_first_scalar(head) == rest.take(valid_len(rest)));
    assert(vstd::utf8::decode_first_scalar(head) == vstd::utf8::decode_first_scalar(bytes));
}

/// Text handed on and bytes still held back after a run of chunks, decoded one after another.
pub open spec fn decoded_in_chunks(chunks: Seq<Seq<u8>>) -> (Seq<char>, Seq<u8>)
    decreases chunks.len(),
{
    if chunks.len() == 0 {
        (Seq::empty(), Seq::empty())
    } else {
        let (text, held) = decoded_in_chunks(chunks.drop_last());
        let pending = held + chunks.last();
        (text + decoded(pending), carried(pending))
    }
}

/// However a stream is cut into chunks, the text handed on is that of the longest valid prefix of
/// the whole stream: no character is lost or torn at a cut.
pub proof fn law_chunking_is_invisible(chunks: Seq<Seq<u8>>)
    ensures
        decoded_in_chunks(chunks).0 == decoded(chunks.flatten()),
        decoded_in_chunks(chunks).1 == carried(chunks.flatten()),
    decreases chunks.len(),
{
    if chunks.len() == 0 {
        assert(chunks.flatten() == Seq::<u8>::empty());
        let none = Seq::<u8>::empty();
        assert(none.take(0) == none);
        assert(none.skip(0) == none);
    } else {
        let before = chunks.drop_last();
        law_chunking_is_invisible(before);
        chunks.lemma_flatten_and_flatten_alt_are_equivalent();
        before.lemma_flatten_and_flatten_alt_are_equivalent();
        assert(chunks.flatten() == before.flatten() + chunks.last());
        law_cut_anywhere(before.flatten(), chunks.last());
    }
}

/// A stream that is valid as a whole is read whole, however it is cut, and nothing is held back in
/// the end.
pub proof fn law_valid_stream_is_read_whole(chunks: Seq<Seq<u8>>)
    requires
        valid_utf8(chunks.flatten()),
    ensures
        decoded_in_chunks(chunks).0 == decode_utf8(chunks.flatten()),
        decoded_in_chunks(chunks).1 == Seq::<u8>::empty(),
{
    law_chunking_is_invisible(chunks);
    law_valid_bytes_are_decoded_whole(chunks.flatten());
}

/// At most three bytes of a valid stream are held back at any cut, so that what is held does not
/// grow with the stream.
pub proof fn law_little_is_held_back(read: Seq<u8>, to_come: Seq<u8>)
    requires
        valid_utf8(read + to_come),
    ensures
        carried(read).len() <= 3,
    decreases read.len(),
{
    lemma_valid_len(read);
    let whole = read + to_come;
    if read.len() > 0 {
        let k = length_of_first_scalar(whole);
        assert(valid_first_scalar(whole));
        if read.len() >= k {
            assert(valid_first_scalar(read) && length_of_first_scalar(read) == k);
            let rest = pop_first_scalar(read);
            assert(pop_first_scalar(whole) == rest + to_come);
            law_little_is_held_back(rest, to_come);
            lemma_valid_len(rest);
            assert(carried(read) == carried(rest));
        }
    }
}

/// Texts are encoded one after another.
pub proof fn lemma_encoded_joined(a: Seq<char>, b: Seq<char>)
    ensures
        encode_utf8(a + b) == encode_utf8(a) + encode_utf8(b),
    decreases a.len(),
{
    if a.len() == 0 {
        assert(a + b == b);
    } else {
        lemma_encoded_joined(a.drop_first(), b);
        assert((a + b).drop_first() == a.drop_first() + b);
    }
}

/// The text of the longest valid prefix, encoded, is that prefix.
pub proof fn lemma_decoded_len(bytes: Seq<u8>)
    ensures
        encode_utf8(decoded(bytes)).len() == valid_len(bytes),
        0 <= valid_len(bytes) <= bytes.len(),
{
    lemma_valid_len(bytes);
    vstd::utf8::decode_utf8_encode_utf8(bytes.take(valid_len(bytes)));
}

/// The prefix that is decoded is valid, and no longer one is.
pub proof fn law_longest_valid_prefix(bytes: Seq<u8>, n: int)
    requires
        0 <= n <= bytes.len(),
    ensures
        0 <= valid_len(bytes) <= bytes.len(),
        valid_utf8(bytes.take(valid_len(bytes))),
        valid_utf8(bytes.take(n)) ==> n <= valid_len(bytes),
        decoded(bytes) == decode_utf8(bytes.take(valid_len(bytes))),
        bytes == bytes.take(valid_len(bytes)) + carried(bytes),
{
    lemma_valid_len(bytes);
    if valid_utf8(bytes.take(n)) {
        assert(bytes.subrange(0, n) == bytes.take(n));
        lemma_valid_len_is_largest(bytes, n);
    }
}

} // verus!
