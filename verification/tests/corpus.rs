use akasha_core::convert::{is_shard, shard_order, Extraction};
use akasha_core::data::{clean_wikitext_markup, Dataset, DatasetLoader};
use akasha_core::pieces::MOST_HELD;

/// A tokenizer with one token for each character.
fn encode(text: &str) -> Vec<u32> {
    text.chars().map(|c| c as u32).collect()
}

fn load(bytes: &[u8], chunk: usize) -> (String, DatasetLoader) {
    let mut loader = DatasetLoader::new(4);
    let mut texts = String::new();
    for piece in bytes.chunks(chunk) {
        let text = loader.take_text(piece);
        loader.absorb(&encode(&text));
        texts.push_str(&text);
    }
    if let Some(text) = loader.last_text() {
        loader.absorb(&encode(&text));
        texts.push_str(&text);
    }
    (texts, loader)
}

/// The texts that a loader gives for some chunks, the last one included.
fn texts_of(chunks: &[&str]) -> (Vec<String>, Option<String>) {
    let mut loader = DatasetLoader::new(4);
    let texts = chunks.iter().map(|chunk| loader.take_text(chunk.as_bytes())).collect();
    (texts, loader.last_text())
}

fn dataset(tokens: &[u32], seq_len: usize) -> Dataset {
    let mut loader = DatasetLoader::new(seq_len);
    loader.absorb(tokens);
    loader.finish()
}

#[test]
fn escaped_punctuation_is_turned_back() {
    assert_eq!(
        clean_wikitext_markup("the anti @-@ Byzantine conflict"),
        "the anti-Byzantine conflict"
    );
    assert_eq!(clean_wikitext_markup("3 @.@ 5 and 1 @,@ 000"), "3.5 and 1,000");
    assert_eq!(clean_wikitext_markup("a @-@ b @-@ c"), "a-b-c");
}

#[test]
fn plain_text_is_kept() {
    for text in ["", "plain", "a@b.c", " @-@", "@-@ ", "a @@ b", " @;@ ", "naïve 日本"] {
        assert_eq!(clean_wikitext_markup(text), text);
    }
}

#[test]
fn escapes_that_share_a_space() {
    assert_eq!(clean_wikitext_markup("a @-@ @-@ b"), "a-@-@ b");
    assert_eq!(clean_wikitext_markup(" @-@  @.@  @,@ "), "-.,");
}

#[test]
fn what_is_left_may_look_escaped_again() {
    assert_eq!(clean_wikitext_markup(" @ @-@ @ "), " @-@ ");
    assert_eq!(clean_wikitext_markup(" @. @-@ @ "), " @.-@ ");
}

#[test]
fn cleaning_does_not_lengthen() {
    for text in ["", "x", " @-@ ", "a @,@ b", " @.@  @.@ "] {
        assert!(clean_wikitext_markup(text).len() <= text.len());
    }
}

#[test]
fn chunks_may_cut_characters() {
    let text = "Gödel, 日本語 and \u{1f600}: äöü";
    for chunk in 1..text.len() + 1 {
        let (texts, loader) = load(text.as_bytes(), chunk);
        assert_eq!(texts, text);
        assert_eq!(loader.token_count(), text.chars().count());
        assert_eq!(loader.finish().token_count(), text.chars().count());
    }
}

#[test]
fn an_escape_may_be_cut_in_two() {
    assert_eq!(
        texts_of(&["anti @-", "@ Byzantine"]),
        (vec!["anti".to_string(), "-Byzantine".to_string()], None)
    );
    let text = "the anti @-@ Byzantine conflict of 1 @,@ 000 men, 3 @.@ 5 each @-@ @.@ é @-@ ";
    for chunk in 1..text.len() + 1 {
        let (texts, loader) = load(text.as_bytes(), chunk);
        assert_eq!(texts, clean_wikitext_markup(text));
        assert_eq!(loader.token_count(), texts.chars().count());
    }
}

#[test]
fn escapes_that_share_spaces_are_cleaned_as_a_whole() {
    for text in [
        " @.@ @-@ @.@ x",
        " @,@ @.@ @-@ @,@ @.@ @,@ ",
        " @-@ @-@ @-@ @-@ @-@ @-@ ",
        " @ @-@ @ @.@ @",
        "   @-@   @@-@ -@ ",
    ] {
        for chunk in 1..text.len() + 1 {
            let (texts, _) = load(text.as_bytes(), chunk);
            assert_eq!(texts, clean_wikitext_markup(text));
        }
    }
}

#[test]
fn what_may_go_on_is_held_back() {
    let first = |chunk: &str| {
        let (texts, last) = texts_of(&[chunk]);
        (texts[0].clone(), last)
    };
    assert_eq!(first("word"), ("word".to_string(), None));
    assert_eq!(first("word "), ("word".to_string(), Some(" ".to_string())));
    assert_eq!(first("word @-@"), ("word".to_string(), Some(" @-@".to_string())));
    assert_eq!(first("word @;"), ("word @;".to_string(), None));
    assert_eq!(first("a @-@ "), ("a-".to_string(), None));
    assert_eq!(first("a @-@ b"), ("a-b".to_string(), None));
    assert_eq!(first("a @.@ "), ("a".to_string(), Some(".".to_string())));
    assert_eq!(first("a @.@ @-"), ("a".to_string(), Some(".@-".to_string())));
    assert_eq!(first("a @.@ @-@ "), ("a @.@-".to_string(), None));
    assert_eq!(first("a @,@ @.@ @-@"), ("a".to_string(), Some(" @,@.@-@".to_string())));
    assert_eq!(first("a @,@ @.@ @-@ "), ("a,@.@-".to_string(), None));
    assert_eq!(first("a @,@ @.@ x"), ("a @,@.x".to_string(), None));
}

/// Loads a text in chunks of one size and checks what the loader gives and holds at each of them.
fn check_bounds(text: &str, chunk: usize) {
    let mut loader = DatasetLoader::new(4);
    let mut texts = String::new();
    for piece in text.as_bytes().chunks(chunk) {
        let given = loader.take_text(piece);
        assert!(given.len() <= piece.len() + 3 + MOST_HELD);
        assert!(loader.last_text().map_or(0, |t| t.len()) <= MOST_HELD);
        texts.push_str(&given);
    }
    texts.push_str(&loader.last_text().unwrap_or_default());
    assert_eq!(texts, clean_wikitext_markup(text));
}

#[test]
fn little_text_is_held_back() {
    let text = "in 1 @,@ 000 words @-@ or so @.@ 5 and on @,@ @.@ @-@ @,@ ";
    for chunk in 1..text.len() + 1 {
        check_bounds(text, chunk);
    }
}

#[test]
fn a_long_run_of_escapes_is_not_held_back() {
    for run in [" @-@", " @.@", " @,@", " @,@ @.@", " @.@ @-@", " @,@ @.@ @-@", " @,@ @,@ @.@"] {
        let text = run.repeat(20_000) + " ";
        for chunk in [999, 1000, 4096, 50_000] {
            check_bounds(&text, chunk);
        }
    }
}

#[test]
fn all_short_runs_are_cleaned_as_a_whole() {
    let kinds = ["-", ".", ",", ""];
    for code in 0..4usize.pow(5) {
        let mut text = String::from("x ");
        let mut rest = code;
        for _ in 0..5 {
            let kind = kinds[rest % 4];
            rest /= 4;
            text.push_str(&format!("@{}@ ", kind));
        }
        for chunk in [1, 2, 3, 5, 7] {
            check_bounds(&text, chunk);
        }
    }
}

#[test]
fn a_character_without_end_is_dropped() {
    let (texts, loader) = load(&"ab日".as_bytes()[..4], 3);
    assert_eq!(texts, "ab");
    assert_eq!(loader.token_count(), 2);
}

#[test]
fn nothing_follows_an_invalid_byte() {
    let (texts, loader) = load(b"ab\xffcdefgh", 4);
    assert_eq!(texts, "ab");
    assert_eq!(loader.finish().token_count(), 2);
}

#[test]
fn an_empty_corpus_has_no_tokens() {
    let (texts, loader) = load(b"", 8);
    assert_eq!(texts, "");
    let data = loader.finish();
    assert_eq!(data.token_count(), 0);
    assert_eq!(data.sequence_length(), 4);
}

#[test]
fn targets_follow_inputs() {
    let data = dataset(&[10, 11, 12, 13, 14, 15], 3);
    let (inputs, targets) = data.batch_at(&vec![0, 2, 1]);
    assert_eq!(inputs, vec![10, 11, 12, 12, 13, 14, 11, 12, 13]);
    assert_eq!(targets, vec![11, 12, 13, 13, 14, 15, 12, 13, 14]);
    assert_eq!(data.batch_at(&vec![]), (vec![], vec![]));
}

#[test]
fn places_that_a_sequence_may_begin_at() {
    assert_eq!(dataset(&[7, 8, 9, 10, 11], 3).start_count(), 1);
    assert_eq!(dataset(&[7; 100], 5).start_count(), 94);
}

#[test]
fn every_start_is_drawn() {
    let tokens: Vec<u32> = (0..10).collect();
    let data = dataset(&tokens, 4);
    let mut rng = rand::thread_rng();
    let mut drawn = vec![false; data.start_count()];
    for _ in 0..2000 {
        let (inputs, _) = data.random_batch(1, &mut rng);
        drawn[inputs[0] as usize] = true;
    }
    assert_eq!(drawn, vec![true; 5]);
}

#[test]
fn the_only_start_is_drawn() {
    let data = dataset(&[7, 8, 9, 10, 11], 3);
    let mut rng = rand::thread_rng();
    for _ in 0..50 {
        let (inputs, targets) = data.random_batch(2, &mut rng);
        assert_eq!(inputs, vec![7, 8, 9, 7, 8, 9]);
        assert_eq!(targets, vec![8, 9, 10, 8, 9, 10]);
    }
}

#[test]
fn random_batches_are_runs_of_the_corpus() {
    let tokens: Vec<u32> = (100..200).collect();
    let data = dataset(&tokens, 5);
    let mut rng = rand::thread_rng();
    let mut starts = Vec::new();
    for _ in 0..500 {
        let (inputs, targets) = data.random_batch(3, &mut rng);
        assert_eq!(inputs.len(), 15);
        for run in inputs.chunks(5) {
            assert!(100 <= run[0] && run[0] < 194);
            for i in 1..5 {
                assert_eq!(run[i], run[0] + i as u32);
            }
            starts.push(run[0]);
        }
        for (input, target) in inputs.iter().zip(&targets) {
            assert_eq!(*target, *input + 1);
        }
    }
    starts.sort();
    starts.dedup();
    assert!(starts.len() > 50);
}

#[test]
fn an_empty_batch_needs_no_tokens() {
    let data = dataset(&[], 3);
    let mut rng = rand::thread_rng();
    assert_eq!(data.random_batch(0, &mut rng), (vec![], vec![]));
}

#[test]
fn shards_are_told_by_their_extension() {
    for name in ["a.parquet", "train-00000-of-00080.parquet", "..parquet", "x.txt.parquet"] {
        assert!(is_shard(&name.as_bytes().to_vec()));
    }
    for name in [".parquet", "parquet", "a.parquet.txt", "a.Parquet", "aparquet", "", "x"] {
        assert!(!is_shard(&name.as_bytes().to_vec()));
    }
    assert!(is_shard(&b"\xff.parquet".to_vec()));
}

#[test]
fn shards_are_taken_by_name() {
    let names: Vec<Vec<u8>> = ["b.parquet", "readme.md", "a.parquet", "a1.parquet", "B.parquet"]
        .iter()
        .map(|n| n.as_bytes().to_vec())
        .collect();
    assert_eq!(shard_order(&names), vec![4, 2, 3, 0]);
    assert_eq!(shard_order(&vec![]), vec![]);
}

#[test]
fn documents_are_set_apart_by_empty_lines() {
    let mut extraction = Extraction::new();
    let rows = vec![Some("one".to_string()), None, Some("zwölf\nlines".to_string())];
    assert_eq!(extraction.take_batch(&rows), "one\n\nzwölf\nlines\n\n".as_bytes().to_vec());
    assert_eq!(extraction.documents_in_shard(), 2);
    assert_eq!(extraction.documents(), 0);
    assert_eq!(extraction.bytes(), 19);
    assert_eq!(extraction.end_shard(), 2);
    assert_eq!(extraction.documents(), 2);
    assert_eq!(extraction.documents_in_shard(), 0);
    assert_eq!(extraction.take_batch(&vec![Some(String::new())]), b"\n\n".to_vec());
    assert_eq!(extraction.end_shard(), 1);
    assert_eq!(extraction.documents(), 3);
    assert_eq!(extraction.bytes(), 21);
}

#[test]
fn batches_do_not_matter() {
    let rows = vec![Some("a".to_string()), None, Some("b".to_string()), Some("c".to_string())];
    let mut whole = Extraction::new();
    let expected = whole.take_batch(&rows);
    for cut in 0..rows.len() + 1 {
        let mut parts = Extraction::new();
        let mut out = parts.take_batch(&rows[..cut].to_vec());
        out.extend(parts.take_batch(&rows[cut..].to_vec()));
        assert_eq!(out, expected);
        assert_eq!(parts.end_shard(), 3);
        assert_eq!(parts.bytes(), whole.bytes());
    }
}
