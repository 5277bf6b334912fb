use tspl::chars::{is_digit, is_name_char, is_number_char, is_space};
use tspl::error::{expected_at, expected_with_at};
use tspl::number::strip_separators;
use tspl::text::{byte_len, char_at, same_text, slice, utf8_width};
use tspl::{Cursor, Parser};

#[test]
fn is_space_is_ascii_whitespace() {
    for code in 0..=0x2FFFu32 {
        if let Some(c) = char::from_u32(code) {
            assert_eq!(is_space(c), c.is_ascii_whitespace(), "{:?}", c);
        }
    }
    assert!(!is_space('\x0B'));
}

#[test]
fn is_name_char_is_alphanumeric_or_extension() {
    for code in 0..=0x2FFFu32 {
        if let Some(c) = char::from_u32(code) {
            assert_eq!(
                is_name_char(c),
                c.is_ascii_alphanumeric() || "_.-/$".contains(c),
                "{:?}",
                c
            );
        }
    }
}

#[test]
fn is_digit_agrees_with_the_radix() {
    for radix in [2u32, 8, 10, 16, 36] {
        for code in 0..=0x2FFFu32 {
            if let Some(c) = char::from_u32(code) {
                assert_eq!(is_digit(c, radix), c.is_digit(radix), "{:?} in {}", c, radix);
            }
        }
    }
    assert!(is_digit('f', 16));
    assert!(is_digit('F', 16));
    assert!(!is_digit('g', 16));
    assert!(!is_digit('2', 2));
    assert!(!is_digit('a', 10));
}

#[test]
fn is_number_char_adds_the_separator() {
    assert!(is_number_char('_', 2));
    assert!(is_number_char('_', 16));
    assert!(is_number_char('9', 10));
    assert!(!is_number_char('9', 2));
    assert!(!is_number_char('-', 10));
}

#[test]
fn utf8_width_is_the_encoded_length() {
    for code in (0..=0x10FFFFu32).step_by(7) {
        if let Some(c) = char::from_u32(code) {
            assert_eq!(utf8_width(c), c.len_utf8());
        }
    }
    assert_eq!(utf8_width('\u{7F}'), 1);
    assert_eq!(utf8_width('\u{80}'), 2);
    assert_eq!(utf8_width('\u{7FF}'), 2);
    assert_eq!(utf8_width('\u{800}'), 3);
    assert_eq!(utf8_width('\u{FFFF}'), 3);
    assert_eq!(utf8_width('\u{10000}'), 4);
    assert_eq!(utf8_width('\u{10FFFF}'), 4);
}

#[test]
fn byte_len_counts_bytes() {
    assert_eq!(byte_len(""), 0);
    assert_eq!(byte_len("abc"), 3);
    assert_eq!(byte_len("aé€😀"), 10);
}

#[test]
fn char_at_reads_at_a_boundary() {
    let text = "aé€😀";
    assert_eq!(char_at(text, 0), Some('a'));
    assert_eq!(char_at(text, 1), Some('é'));
    assert_eq!(char_at(text, 3), Some('€'));
    assert_eq!(char_at(text, 6), Some('😀'));
    assert_eq!(char_at(text, 10), None);
}

#[test]
fn slice_cuts_between_boundaries() {
    let text = "aé€😀";
    assert_eq!(slice(text, 0, 0), "");
    assert_eq!(slice(text, 1, 6), "é€");
    assert_eq!(slice(text, 0, 10), text);
    assert_eq!(slice(text, 10, 10), "");
}

#[test]
fn same_text_compares_contents() {
    assert!(same_text("", ""));
    assert!(same_text("λx", "λx"));
    assert!(!same_text("λx", "λy"));
    assert!(!same_text("ab", "abc"));
    assert!(!same_text("abc", "ab"));
    assert!(!same_text("é", "e\u{301}"));
}

#[test]
fn strip_separators_keeps_the_digits() {
    assert_eq!(strip_separators(""), "");
    assert_eq!(strip_separators("___"), "");
    assert_eq!(strip_separators("1_000_000"), "1000000");
    assert_eq!(strip_separators("_dead_BEEF_"), "deadBEEF");
    assert_eq!(strip_separators("é_€"), "é€");
}

#[test]
fn expected_at_renders_at_the_offset() {
    let text = "one\ntwo";
    let e = expected_at(text, 4, "three");
    assert_eq!(e.span, (4, 5));
    assert_eq!(
        e.message,
        format!(
            "\x1b[1mPARSE_ERROR\n- expected: \x1b[0mthree\x1b[1m\n- detected:\n\x1b[0m{}",
            highlight_error::highlight_error(4, 5, text)
        )
    );
    let e = expected_with_at(text, 7, "more", "nothing left");
    assert_eq!(e.span, (7, 8));
    assert_eq!(
        e.message,
        format!(
            "\x1b[1mPARSE_ERROR\n- expected: \x1b[0mmore\x1b[1m\n- detected:\n\x1b[0m{}\x1b[1m\n - info:\n\x1b[0mnothing left",
            highlight_error::highlight_error(7, 8, text)
        )
    );
}

#[test]
fn take_while_calls_the_closure_in_order() {
    let mut seen = String::new();
    let mut c = Cursor::new("abc def");
    let taken = c.take_while(|ch| {
        seen.push(ch);
        ch != ' '
    });
    assert_eq!(taken, "abc");
    assert_eq!(seen, "abc ");
    assert_eq!(c.position(), 3);
}

#[test]
fn input_accessor_returns_the_whole_text() {
    let mut c = Cursor::new("whole text");
    c.advance_many(6);
    assert_eq!(c.input(), "whole text");
    assert_eq!(*c.index(), 6);
}
