//! The training corpus: cleaning, chunked loading and batches.
use crate::escape::{clean, cleaned, law_cleaning_does_not_lengthen};
use crate::pieces::{
    cut_at, cut_place, is_open, law_cut_is_settled, law_open_text_is_short, lemma_cut, MOST_HELD,
};
use crate::text::{chars_of, string_of};
use crate::utf8::{
    carried, decode_prefix, decoded, decoded_in_chunks, law_chunking_is_invisible,
    law_little_is_held_back, law_nothing_whole_is_held_back, lemma_decoded_len,
    lemma_encoded_joined, valid_len,
};
use rand::Rng;
use vstd::prelude::*;
use vstd::slice::slice_subrange;
use vstd::utf8::{encode_utf8, valid_utf8};

verus! {

/// Turns the corpus's escaped punctuation back into plain punctuation, so that the model does not
/// learn the escapes as words.
pub fn clean_wikitext_markup(text: &str) -> (r: String)
    ensures
        r@ == cleaned(text@),
{
    string_of(&clean(&chars_of(text)))
}

/// Tokens of a corpus, cut into training sequences of one length.
pub struct Dataset {
    tokens: Vec<u32>,
    seq_len: usize,
}

/// For each start the `len` tokens that begin `shift` after it, one run after another.
pub open spec fn windows(tokens: Seq<u32>, len: int, shift: int, starts: Seq<usize>) -> Seq<u32>
    decreases starts.len(),
{
    if starts.len() == 0 {
        Seq::empty()
    } else {
        let from = starts.last() + shift;
        windows(tokens, len, shift, starts.drop_last()) + tokens.subrange(from, from + len)
    }
}

/// Position `i` of run `b` in a batch is the token `i` after the start of that run, and its target
/// is the token after it. A batch holds one full run for each start.
pub proof fn law_targets_follow_inputs(
    tokens: Seq<u32>,
    len: int,
    starts: Seq<usize>,
    b: int,
    i: int,
)
    requires
        forall|k: int|
            0 <= k < starts.len() ==> #[trigger] starts[k] + len + 1 <= tokens.len(),
        0 <= b < starts.len(),
        0 <= i < len,
    ensures
        windows(tokens, len, 0, starts).len() == starts.len() * len,
        windows(tokens, len, 1, starts).len() == starts.len() * len,
        0 <= b * len + i < starts.len() * len,
        windows(tokens, len, 0, starts)[b * len + i] == tokens[starts[b] + i],
        windows(tokens, len, 1, starts)[b * len + i] == tokens[starts[b] + i + 1],
{
    lemma_window_at(tokens, len, 0, starts, b, i);
    lemma_window_at(tokens, len, 1, starts, b, i);
}

proof fn lemma_windows_len(tokens: Seq<u32>, len: int, shift: int, starts: Seq<usize>)
    requires
        0 <= len,
        0 <= shift,
        forall|k: int|
            0 <= k < starts.len() ==> #[trigger] starts[k] + len + shift <= tokens.len(),
    ensures
        windows(tokens, len, shift, starts).len() == starts.len() * len,
    decreases starts.len(),
{
    if starts.len() > 0 {
        let before = starts.drop_last();
        assert(starts.last() + len + shift <= tokens.len());
        assert forall|k: int| 0 <= k < before.len() implies #[trigger] before[k] + len + shift
            <= tokens.len() by {
            assert(starts[k] + len + shift <= tokens.len());
        }
        lemma_windows_len(tokens, len, shift, before);
        assert(starts.len() * len == before.len() * len + len) by (nonlinear_arith)
            requires
                starts.len() == before.len() + 1,
        ;
    }
}

proof fn lemma_window_at(
    tokens: Seq<u32>,
    len: int,
    shift: int,
    starts: Seq<usize>,
    b: int,
    i: int,
)
    requires
        0 <= shift,
        forall|k: int|
            0 <= k < starts.len() ==> #[trigger] starts[k] + len + shift <= tokens.len(),
        0 <= b < starts.len(),
        0 <= i < len,
    ensures
        windows(tokens, len, shift, starts).len() == starts.len() * len,
        0 <= b * len + i < starts.len() * len,
        windows(tokens, len, shift, starts)[b * len + i] == tokens[starts[b] + shift + i],
    decreases starts.len(),
{
    let before = starts.drop_last();
    assert forall|k: int| 0 <= k < before.len() implies #[trigger] before[k] + len + shift
        <= tokens.len() by {
        assert(starts[k] + len + shift <= tokens.len());
    }
    assert(starts.last() + len + shift <= tokens.len());
    lemma_windows_len(tokens, len, shift, before);
    lemma_windows_len(tokens, len, shift, starts);
    assert(0 <= b * len && b * len + i < starts.len() * len) by (nonlinear_arith)
        requires
            0 <= b,
            b + 1 <= starts.len(),
            0 <= i < len,
    ;
    if b < before.len() {
        lemma_window_at(tokens, len, shift, before, b, i);
    }
}

/// `rand::rngs::ThreadRng`, the random number generator of a thread. Nothing is known of what it
/// holds.
#[verifier::external_type_specification]
#[verifier::external_body]
pub struct ExThreadRng(rand::rngs::ThreadRng);

/// `rand::Rng::gen_range` on the range `0..bound` gives a number of that range. Which one is left
/// to chance. The range may not be empty. The generator takes a new seed from the operating
/// system now and then; if the system fails to give one, the call panics.
#[verifier::external_body]
fn random_below(rng: &mut rand::rngs::ThreadRng, bound: usize) -> (r: usize)
    requires
        0 < bound,
    ensures
        r < bound,
{
    rng.gen_range(0..bound)
}

/// A source of random numbers. What it can give is told by `drawn`, of which nothing else is known:
/// a number has been drawn only if the source was asked for it.
pub trait Draws: Sized {
    /// Asked for a number below `bound`, a source in the state `before` can give `r` and be left in
    /// the state `after`.
    spec fn drawn(before: Self, bound: usize, r: usize, after: Self) -> bool;

    /// Draws a number below `bound`.
    fn below(&mut self, bound: usize) -> (r: usize)
        requires
            0 < bound,
        ensures
            r < bound,
            Self::drawn(*old(self), bound, r, *final(self)),
    ;
}

/// Asks `f`.
fn ask<F: Fn(&mut rand::rngs::ThreadRng, usize) -> usize>(
    f: F,
    rng: &mut rand::rngs::ThreadRng,
    bound: usize,
) -> (r: usize)
    requires
        forall|m: &mut rand::rngs::ThreadRng| #[trigger] call_requires(f, (m, bound)),
    ensures
        exists|m: &mut rand::rngs::ThreadRng|
            *m == *old(rng) && #[trigger] call_ensures(f, (m, bound), r),
{
    f(rng, bound)
}

impl Draws for rand::rngs::ThreadRng {
    /// The generator, as it was before, gives `r` when it is asked for a number below `bound`.
    closed spec fn drawn(
        before: rand::rngs::ThreadRng,
        bound: usize,
        r: usize,
        after: rand::rngs::ThreadRng,
    ) -> bool {
        exists|m: &mut rand::rngs::ThreadRng|
            *m == before && #[trigger] call_ensures(random_below, (m, bound), r)
    }

    fn below(&mut self, bound: usize) -> (r: usize) {
        ask(random_below, self, bound)
    }
}

/// The thread's generator gives a number only where it is asked for one below the very bound that
/// was wanted.
proof fn law_generator_is_asked(
    before: rand::rngs::ThreadRng,
    bound: usize,
    r: usize,
    after: rand::rngs::ThreadRng,
)
    requires
        <rand::rngs::ThreadRng as Draws>::drawn(before, bound, r, after),
    ensures
        exists|m: &mut rand::rngs::ThreadRng|
            *m == before && #[trigger] call_ensures(random_below, (m, bound), r),
{
}

impl Dataset {
    pub closed spec fn tokens(&self) -> Seq<u32> {
        self.tokens@
    }

    pub closed spec fn seq_len(&self) -> usize {
        self.seq_len
    }

    /// `start` leaves room for a training sequence and the token after it.
    pub open spec fn has_room_at(&self, start: int) -> bool {
        0 <= start && start + self.seq_len() + 1 <= self.tokens().len()
    }

    pub fn token_count(&self) -> (r: usize)
        ensures
            r == self.tokens().len(),
    {
        self.tokens.len()
    }

    /// Length of a training sequence.
    pub fn sequence_length(&self) -> (r: usize)
        ensures
            r == self.seq_len(),
    {
        self.seq_len
    }

    /// Inputs and targets of the training sequences that begin at `starts`. A target is the token
    /// that follows its input.
    pub fn batch_at(&self, starts: &Vec<usize>) -> (r: (Vec<u32>, Vec<u32>))
        requires
            forall|b: int|
                0 <= b < starts@.len() ==> self.has_room_at(#[trigger] starts@[b] as int),
        ensures
            r.0@ == windows(self.tokens(), self.seq_len() as int, 0, starts@),
            r.1@ == windows(self.tokens(), self.seq_len() as int, 1, starts@),
    {
        let mut inputs: Vec<u32> = Vec::new();
        let mut targets: Vec<u32> = Vec::new();
        let ghost len = self.seq_len as int;
        let count: usize = self.tokens.len();
        for b in 0..starts.len()
            invariant
                len == self.seq_len,
                count == self.tokens@.len(),
                forall|k: int|
                    0 <= k < starts@.len() ==> self.has_room_at(#[trigger] starts@[k] as int),
                inputs@ == windows(self.tokens@, len, 0, starts@.take(b as int)),
                targets@ == windows(self.tokens@, len, 1, starts@.take(b as int)),
        {
            let start: usize = starts[b];
            assert(self.has_room_at(starts@[b as int] as int));
            assert(starts@.take(b + 1).drop_last() == starts@.take(b as int));
            let end: usize = start + self.seq_len;
            inputs.extend_from_slice(slice_subrange(self.tokens.as_slice(), start, end));
            targets.extend_from_slice(slice_subrange(self.tokens.as_slice(), start + 1, end + 1));
            assert(inputs@ == windows(self.tokens@, len, 0, starts@.take(b + 1)));
            assert(targets@ == windows(self.tokens@, len, 1, starts@.take(b + 1)));
        }
        assert(starts@.take(starts@.len() as int) == starts@);
        (inputs, targets)
    }

    /// Number of places that a random training sequence may begin at: all that have room but the
    /// last one.
    pub fn start_count(&self) -> (r: usize)
        requires
            self.has_room_at(1),
        ensures
            r == self.tokens().len() - self.seq_len() - 1,
            r > 0,
    {
        self.tokens.len() - self.seq_len - 1
    }

    /// Inputs and targets of `batch_size` training sequences, each of which begins at a place of
    /// its own, drawn from the first `start_count` ones.
    pub fn random_batch<D: Draws>(&self, batch_size: usize, rng: &mut D) -> (r: (
        Vec<u32>,
        Vec<u32>,
    ))
        requires
            batch_size > 0 ==> self.has_room_at(1),
            batch_size * self.seq_len() * 4 <= isize::MAX,
        ensures
            exists|starts: Seq<usize>, states: Seq<D>|
                #![trigger windows(self.tokens(), self.seq_len() as int, 0, starts), states.last()]
                {
                    &&& starts.len() == batch_size
                    &&& states.len() == batch_size + 1
                    &&& states[0] == *old(rng)
                    &&& states.last() == *final(rng)
                    &&& forall|b: int|
                        0 <= b < batch_size ==> D::drawn(
                            states[b],
                            (self.tokens().len() - self.seq_len() - 1) as usize,
                            #[trigger] starts[b],
                            states[b + 1],
                        )
                    &&& forall|b: int|
                        0 <= b < batch_size ==> self.has_room_at(#[trigger] starts[b] + 1)
                    &&& r.0@ == windows(self.tokens(), self.seq_len() as int, 0, starts)
                    &&& r.1@ == windows(self.tokens(), self.seq_len() as int, 1, starts)
                },
    {
        let mut starts: Vec<usize> = Vec::new();
        let ghost mut states: Seq<D> = seq![*rng];
        let ghost count = (self.tokens().len() - self.seq_len() - 1) as usize;
        while starts.len() < batch_size
            invariant
                count == (self.tokens().len() - self.seq_len() - 1) as usize,
                starts@.len() <= batch_size,
                states.len() == starts@.len() + 1,
                states[0] == *old(rng),
                states.last() == *rng,
                forall|b: int|
                    0 <= b < starts@.len() ==> D::drawn(
                        states[b],
                        count,
                        #[trigger] starts@[b],
                        states[b + 1],
                    ),
                batch_size > 0 ==> self.has_room_at(1),
                forall|b: int|
                    0 <= b < starts@.len() ==> self.has_room_at(#[trigger] starts@[b] + 1),
            decreases batch_size - starts@.len(),
        {
            let ghost (before, told) = (states, starts@);
            let start: usize = rng.below(self.start_count());
            starts.push(start);
            proof {
                states = states.push(*rng);
                assert forall|b: int| 0 <= b < starts@.len() implies D::drawn(
                    states[b],
                    count,
                    #[trigger] starts@[b],
                    states[b + 1],
                ) by {
                    assert(states[b] == before[b]);
                    if b < told.len() {
                        assert(starts@[b] == told[b]);
                        assert(states[b + 1] == before[b + 1]);
                    }
                }
            }
        }
        proof {
            assert forall|b: int| 0 <= b < starts@.len() implies self.has_room_at(
                #[trigger] starts@[b] as int,
            ) by {
                assert(self.has_room_at(starts@[b] + 1));
            }
        }
        let r = self.batch_at(&starts);
        r
    }
}

/// Sequence `b` of a batch begins where its own draw says: with `starts[b]` for the number drawn in
/// turn `b`, its input `i` is the token `starts[b] + i`, and its target the token after it.
pub proof fn law_each_sequence_has_its_draw<D: Draws>(
    tokens: Seq<u32>,
    len: int,
    starts: Seq<usize>,
    states: Seq<D>,
    bound: usize,
    b: int,
    i: int,
)
    requires
        bound == tokens.len() - len - 1,
        states.len() == starts.len() + 1,
        forall|k: int|
            0 <= k < starts.len() ==> D::drawn(
                states[k],
                bound,
                #[trigger] starts[k],
                states[k + 1],
            ) && starts[k] < bound,
        0 <= b < starts.len(),
        0 <= i < len,
    ensures
        D::drawn(states[b], bound, starts[b], states[b + 1]),
        0 <= b * len + i < windows(tokens, len, 0, starts).len(),
        windows(tokens, len, 0, starts).len() == starts.len() * len,
        windows(tokens, len, 1, starts).len() == starts.len() * len,
        windows(tokens, len, 0, starts)[b * len + i] == tokens[starts[b] + i],
        windows(tokens, len, 1, starts)[b * len + i] == tokens[starts[b] + i + 1],
{
    assert forall|k: int| 0 <= k < starts.len() implies #[trigger] starts[k] + len + 1
        <= tokens.len() by {
        assert(starts[k] < bound);
    }
    law_targets_follow_inputs(tokens, len, starts, b, i);
}

/// Loads a corpus chunk by chunk, so that no more than one chunk's text and a few characters are
/// held at a time.
///
/// For each chunk read, `take_text` gives the text to tokenize and `absorb` takes its tokens. A
/// character that the chunk's end cuts in two is held back for the next chunk, and so is the end of
/// the text if what follows may decide on an escape in it.
pub struct DatasetLoader {
    tokens: Vec<u32>,
    leftover: Vec<u8>,
    pending: Vec<char>,
    seq_len: usize,
}

impl DatasetLoader {
    pub closed spec fn tokens(&self) -> Seq<u32> {
        self.tokens@
    }

    /// Bytes held back.
    pub closed spec fn leftover(&self) -> Seq<u8> {
        self.leftover@
    }

    /// Text held back.
    pub closed spec fn pending(&self) -> Seq<char> {
        self.pending@
    }

    pub closed spec fn seq_len(&self) -> usize {
        self.seq_len
    }

    /// The bytes held back do not begin with a whole character, and what follows may decide on the
    /// beginning of the text held back.
    pub open spec fn wf(&self) -> bool {
        &&& valid_len(self.leftover()) == 0
        &&& is_open(self.pending())
    }

    pub fn new(seq_len: usize) -> (r: DatasetLoader)
        ensures
            r.wf(),
            r.tokens() == Seq::<u32>::empty(),
            r.leftover() == Seq::<u8>::empty(),
            r.pending() == Seq::<char>::empty(),
            r.seq_len() == seq_len,
    {
        proof {
            lemma_cut(Seq::empty());
            assert(Seq::<char>::empty().skip(0) == Seq::<char>::empty());
        }
        DatasetLoader { tokens: Vec::new(), leftover: Vec::new(), pending: Vec::new(), seq_len }
    }

    /// Text to tokenize once `chunk` has been read.
    pub fn take_text(&mut self, chunk: &[u8]) -> (r: String)
        ensures
            ({
                let bytes = old(self).leftover() + chunk@;
                let text = old(self).pending() + decoded(bytes);
                &&& r@ == cleaned(text.take(cut_at(text)))
                &&& final(self).pending() == text.skip(cut_at(text))
                &&& final(self).leftover() == carried(bytes)
            }),
            advanced(
                Progress {
                    given: Seq::empty(),
                    pending: old(self).pending(),
                    leftover: old(self).leftover(),
                },
                chunk@,
            ) == (Progress {
                given: r@,
                pending: final(self).pending(),
                leftover: final(self).leftover(),
            }),
            final(self).tokens() == old(self).tokens(),
            final(self).seq_len() == old(self).seq_len(),
            final(self).wf(),
    {
        self.leftover.extend_from_slice(chunk);
        assert(self.leftover@ == old(self).leftover@ + chunk@);
        proof {
            law_nothing_whole_is_held_back(self.leftover@);
        }
        let (decoded_text, boundary) = decode_prefix(self.leftover.as_slice());
        let mut chars = chars_of(decoded_text);
        self.leftover = self.leftover.split_off(boundary);
        let mut text: Vec<char> = Vec::new();
        std::mem::swap(&mut text, &mut self.pending);
        text.append(&mut chars);
        proof {
            lemma_cut(text@);
        }
        let ghost whole = text@;
        let cut: usize = cut_place(&text);
        self.pending = text.split_off(cut);
        assert(self.pending@ == whole.skip(cut as int));
        assert(text@ == whole.take(cut as int));
        string_of(&clean(&text))
    }

    /// Takes the tokens of the text given last.
    pub fn absorb(&mut self, tokens: &[u32])
        ensures
            final(self).tokens() == old(self).tokens() + tokens@,
            final(self).leftover() == old(self).leftover(),
            final(self).pending() == old(self).pending(),
            final(self).seq_len() == old(self).seq_len(),
    {
        self.tokens.extend_from_slice(tokens);
        assert(self.tokens@ == old(self).tokens@ + tokens@);
    }

    pub fn token_count(&self) -> (r: usize)
        ensures
            r == self.tokens().len(),
    {
        self.tokens.len()
    }

    /// Text still to be tokenized once the last chunk has been read: what was held back because of
    /// what might have followed. Bytes that are held back then belong to a broken or unfinished
    /// character and are dropped.
    pub fn last_text(&self) -> (r: Option<String>)
        ensures
            match r {
                Some(text) => self.pending().len() > 0 && text@ == cleaned(self.pending()),
                None => self.pending().len() == 0,
            },
    {
        if self.pending.len() == 0 {
            None
        } else {
            Some(string_of(&clean(&self.pending)))
        }
    }

    /// The dataset of all tokens taken.
    pub fn finish(self) -> (r: Dataset)
        ensures
            r.tokens() == self.tokens(),
            r.seq_len() == self.seq_len(),
    {
        Dataset { tokens: self.tokens, seq_len: self.seq_len }
    }
}

/// Where a loader stands after a run of chunks.
pub ghost struct Progress {
    /// The texts given for the chunks, joined.
    pub given: Seq<char>,
    pub pending: Seq<char>,
    pub leftover: Seq<u8>,
}

/// Where a loader stands that stood at `before` and takes `chunk`.
pub open spec fn advanced(before: Progress, chunk: Seq<u8>) -> Progress {
    let bytes = before.leftover + chunk;
    let text = before.pending + decoded(bytes);
    Progress {
        given: before.given + cleaned(text.take(cut_at(text))),
        pending: text.skip(cut_at(text)),
        leftover: carried(bytes),
    }
}

/// Where a loader stands that has taken `chunks` one after another.
pub open spec fn progress(chunks: Seq<Seq<u8>>) -> Progress
    decreases chunks.len(),
{
    if chunks.len() == 0 {
        Progress { given: Seq::empty(), pending: Seq::empty(), leftover: Seq::empty() }
    } else {
        advanced(progress(chunks.drop_last()), chunks.last())
    }
}

/// However a corpus is cut into chunks, what reaches the tokenizer, the last text included, is the
/// cleaned text of the whole: no character is lost or torn at a cut, and no escape gets past.
pub proof fn law_chunks_are_cleaned_as_a_whole(chunks: Seq<Seq<u8>>)
    ensures
        progress(chunks).given + cleaned(progress(chunks).pending) == cleaned(
            decoded(chunks.flatten()),
        ),
        progress(chunks).leftover == carried(chunks.flatten()),
{
    let p = progress(chunks);
    let none = Seq::<char>::empty();
    law_chunking_is_invisible(chunks);
    lemma_progress(chunks, none);
    assert(decoded(chunks.flatten()) + none =~= decoded(chunks.flatten()));
    assert(p.pending + none =~= p.pending);
}

/// Whatever follows, what has been given is the beginning of the cleaned text, and what is pending
/// can be cleaned with what follows by itself.
proof fn lemma_progress(chunks: Seq<Seq<u8>>, next: Seq<char>)
    ensures
        ({
            let p = progress(chunks);
            let (text, held) = decoded_in_chunks(chunks);
            &&& held == p.leftover
            &&& cleaned(text + next) == p.given + cleaned(p.pending + next)
        }),
    decreases chunks.len(),
{
    let p = progress(chunks);
    if chunks.len() == 0 {
        let none = Seq::<char>::empty();
        assert(none + cleaned(none + next) =~= cleaned(none + next));
    } else {
        let before = progress(chunks.drop_last());
        let so_far = decoded_in_chunks(chunks.drop_last()).0;
        let added = decoded(before.leftover + chunks.last());
        let text = before.pending + added;
        lemma_progress(chunks.drop_last(), added + next);
        law_cut_is_settled(text, next);
        assert(so_far + added + next =~= so_far + (added + next));
        assert(text + next =~= before.pending + (added + next));
        let (a, b, c) = (
            before.given,
            cleaned(text.take(cut_at(text))),
            cleaned(text.skip(cut_at(text)) + next),
        );
        assert(a + (b + c) =~= (a + b) + c);
    }
}

/// What is pending is open.
proof fn lemma_pending(chunks: Seq<Seq<u8>>)
    ensures
        is_open(progress(chunks).pending),
{
    if chunks.len() == 0 {
        let none = Seq::<char>::empty();
        lemma_cut(none);
        assert(none.skip(0) =~= none);
    } else {
        let before = progress(chunks.drop_last());
        lemma_cut(before.pending + decoded(before.leftover + chunks.last()));
    }
}

/// What a loader handles at once does not grow with the corpus. While a valid stream is read, at
/// most three bytes and [`MOST_HELD`] characters of text are held back, each of one byte, and the
/// text given for a chunk has no more bytes than these and the chunk together. The last text is
/// made of what is held back alone.
pub proof fn law_memory_is_bounded(chunks: Seq<Seq<u8>>, chunk: Seq<u8>, to_come: Seq<u8>)
    requires
        valid_utf8(chunks.flatten() + to_come),
    ensures
        ({
            let p = progress(chunks);
            let text = p.pending + decoded(p.leftover + chunk);
            &&& p.leftover.len() <= 3
            &&& p.pending.len() <= MOST_HELD
            &&& encode_utf8(p.pending).len() == p.pending.len()
            &&& encode_utf8(cleaned(text.take(cut_at(text)))).len() <= chunk.len() + 3 + MOST_HELD
            &&& encode_utf8(cleaned(p.pending)).len() <= MOST_HELD
        }),
{
    let p = progress(chunks);
    law_chunks_are_cleaned_as_a_whole(chunks);
    law_little_is_held_back(chunks.flatten(), to_come);
    lemma_pending(chunks);
    law_open_text_is_short(p.pending);
    law_cleaning_does_not_lengthen(p.pending);
    let bytes = p.leftover + chunk;
    let text = p.pending + decoded(bytes);
    lemma_cut(text);
    let head = text.take(cut_at(text));
    law_cleaning_does_not_lengthen(head);
    lemma_decoded_len(bytes);
    lemma_encoded_joined(p.pending, decoded(bytes));
    assert(head + text.skip(cut_at(text)) == text);
    lemma_encoded_joined(head, text.skip(cut_at(text)));
    assert(encode_utf8(text).len() <= chunk.len() + 3 + MOST_HELD);
}

} // verus!
