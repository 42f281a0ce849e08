use akasha_core::chat::{chat_input, chat_model_path, trim, ChatInput};
use akasha_core::cli::{argument_or, select_mode, Mode};
use akasha_core::order::sorted_positions;
use akasha_core::text::{chars_of, parse, push_decimal, replace, stands_at, string_of};
use akasha_core::utf8::decode_prefix;

fn args(words: &[&str]) -> Vec<String> {
    words.iter().map(|w| w.to_string()).collect()
}

#[test]
fn characters_make_up_a_string() {
    let text = "naïve 日本 \u{1f600}";
    let chars = chars_of(text);
    assert_eq!(chars.len(), 10);
    assert_eq!(string_of(&chars), text);
}

#[test]
fn replacing_is_that_of_strings() {
    let texts = ["", "a", "aaa", "aaaa", "xaaya", "aXa", "日a本aa"];
    for text in texts {
        for pattern in ["a", "aa", "日a"] {
            for by in ["", "b", "aab"] {
                let r = replace(&chars_of(text), &chars_of(pattern), &chars_of(by));
                assert_eq!(string_of(&r), text.replace(pattern, by));
            }
        }
    }
}

#[test]
fn replacing_what_is_not_there_changes_nothing() {
    let text = chars_of("no escapes here");
    assert_eq!(replace(&text, &chars_of(" @-@ "), &chars_of("-")), text);
}

#[test]
fn a_pattern_stands_only_where_it_fits() {
    let text = chars_of("model_step_7.bin");
    assert!(stands_at(&text, &chars_of("model_step_"), 0));
    assert!(stands_at(&text, &chars_of(".bin"), 12));
    assert!(!stands_at(&text, &chars_of(".bin"), 13));
    assert!(!stands_at(&text, &chars_of("x"), 100));
    assert!(stands_at(&text, &chars_of(""), 16));
}

#[test]
fn parsing_is_that_of_unsigned_integers() {
    let texts = [
        "",
        "+",
        "-",
        "0",
        "7",
        "+5",
        "++5",
        "-0",
        "007",
        "195000",
        "18446744073709551615",
        "18446744073709551616",
        "99999999999999999999999",
        " 1",
        "1 ",
        "1_000",
        "１",
        "12a",
    ];
    for text in texts {
        assert_eq!(parse(&chars_of(text)), text.parse::<usize>().ok());
    }
}

#[test]
fn decimals_are_read_back() {
    for n in [0usize, 9, 10, 99, 100, 195_000, 500_000, usize::MAX] {
        let mut text = String::from("n=");
        push_decimal(&mut text, n);
        assert_eq!(text, format!("n={}", n));
        assert_eq!(parse(&chars_of(&text[2..])), Some(n));
    }
}

#[test]
fn trimming_is_that_of_strings() {
    let texts = [
        "",
        " ",
        "\r\n",
        "hello\r\n",
        "  two words \t",
        "\u{3000}wide\u{a0}",
        "\u{200b}zero width stays\u{200b}",
        "\u{85}\u{2028}x\u{1680}\u{205f}",
    ];
    for text in texts {
        assert_eq!(trim(text), text.trim());
        assert_eq!(trim(&trim(text)), trim(text));
    }
    for u in 0..0x3100u32 {
        if let Some(c) = char::from_u32(u) {
            let text = format!("{}x{}", c, c);
            assert_eq!(trim(&text), text.trim());
        }
    }
}

#[test]
fn lines_of_the_prompt() {
    assert!(matches!(chat_input(0, ""), ChatInput::End));
    assert!(matches!(chat_input(1, "\n"), ChatInput::Blank));
    assert!(matches!(chat_input(4, " \t\r\n"), ChatInput::Blank));
    match chat_input(8, "  hello\n") {
        ChatInput::Prompt(text) => assert_eq!(text, "hello"),
        _ => panic!("expected a prompt"),
    }
}

#[test]
fn model_to_chat_with() {
    let finished = "checkpoints\\model_final.bin";
    let latest = || Some("checkpoints\\model_step_5000.bin".to_string());
    assert_eq!(chat_model_path(false, None), finished);
    assert_eq!(chat_model_path(false, latest()), finished);
    assert_eq!(chat_model_path(true, None), finished);
    assert_eq!(chat_model_path(true, latest()), "checkpoints\\model_step_5000.bin");
}

#[test]
fn modes_of_the_program() {
    assert_eq!(select_mode(&args(&["akasha-core"])), Mode::Train);
    assert_eq!(select_mode(&args(&["akasha-core", "--chat"])), Mode::Chat);
    assert_eq!(select_mode(&args(&["akasha-core", "--chat-checkpoint"])), Mode::ChatCheckpoint);
    assert_eq!(
        select_mode(&args(&["akasha-core", "--chat", "x", "--chat-checkpoint"])),
        Mode::ChatCheckpoint
    );
    assert_eq!(select_mode(&args(&["akasha-core", "--chatty", "-chat"])), Mode::Train);
    assert_eq!(select_mode(&args(&[])), Mode::Train);
}

#[test]
fn arguments_have_defaults() {
    let given = args(&["convert", "in"]);
    assert_eq!(argument_or(&given, 1, "default"), "in");
    assert_eq!(argument_or(&given, 2, "default"), "default");
}

#[test]
fn sorting_is_stable() {
    let keys: Vec<usize> = vec![3, 1, 2, 1, 3, 0];
    assert_eq!(sorted_positions(&keys), vec![5, 1, 3, 2, 0, 4]);
    let none: Vec<usize> = vec![];
    assert_eq!(sorted_positions(&none), vec![]);
}

#[test]
fn longest_valid_prefix() {
    let bytes = "né日\u{1f600}".as_bytes();
    assert_eq!(decode_prefix(bytes), ("né日\u{1f600}", 10));
    assert_eq!(decode_prefix(&bytes[..9]), ("né日", 6));
    assert_eq!(decode_prefix(&bytes[..4]), ("né", 3));
    assert_eq!(decode_prefix(&bytes[..2]), ("n", 1));
    assert_eq!(decode_prefix(b"ab\xffcd"), ("ab", 2));
    assert_eq!(decode_prefix(b"\x80"), ("", 0));
    assert_eq!(decode_prefix(b""), ("", 0));
}

#[test]
fn only_scalar_values_are_valid() {
    assert_eq!(decode_prefix(b"x\xed\xa0\x80"), ("x", 1));
    assert_eq!(decode_prefix(b"\xc0\xaf"), ("", 0));
    assert_eq!(decode_prefix(b"\xf4\x90\x80\x80"), ("", 0));
}

#[test]
fn at_most_three_bytes_are_held_back() {
    let bytes = "aé日\u{1f600}ß".as_bytes();
    for cut in 0..bytes.len() + 1 {
        let (text, len) = decode_prefix(&bytes[..cut]);
        assert!(cut - len <= 3);
        assert_eq!(text.len(), len);
    }
}
