use tspl::{Cursor, Parser};

fn escape(text: &str) -> String {
    let mut out = String::from("\"");
    for c in text.chars() {
        if c == '\\' || c == '"' {
            out.push('\\');
        }
        out.push(c);
    }
    out.push('"');
    out
}

#[test]
fn consume_matches_after_trivia() {
    let mut c = Cursor::new("  // note\n (x)");
    assert!(c.consume("(").is_ok());
    assert_eq!(c.position(), 12);
    assert!(c.consume("x").is_ok());
    assert!(c.consume(")").is_ok());
    assert!(c.is_eof());
}

#[test]
fn consume_takes_a_longer_literal() {
    let mut c = Cursor::new("λ→ x");
    assert!(c.consume("λ→").is_ok());
    assert_eq!(c.position(), 5);
    assert!(c.consume("").is_ok());
    assert_eq!(c.position(), 6);
}

#[test]
fn consume_mismatch_keeps_the_trivia_skipped() {
    let mut c = Cursor::new("   x");
    let e = c.consume("(").unwrap_err();
    assert_eq!(e.span, (3, 4));
    assert_eq!(c.position(), 3);
}

#[test]
fn parse_name_takes_the_extended_identifier() {
    let mut c = Cursor::new("foo-bar.1/$x rest");
    assert_eq!(c.parse_name().unwrap(), "foo-bar.1/$x");
    assert_eq!(c.position(), 12);
    assert_eq!(c.peek_one(), Some(' '));
    assert_eq!(c.parse_name().unwrap(), "rest");
    assert!(c.is_eof());
}

#[test]
fn parse_name_skips_trivia_first() {
    let mut c = Cursor::new(" // c\n  A_z9");
    assert_eq!(c.parse_name().unwrap(), "A_z9");
}

#[test]
fn parse_name_fails_on_an_empty_run() {
    let mut c = Cursor::new("  (x)");
    let e = c.parse_name().unwrap_err();
    assert_eq!(e.span, (2, 3));
    assert!(e.message.contains("expected"));
    assert!(e.message.contains("name"));
    assert_eq!(c.position(), 2);
    let mut c = Cursor::new("λ");
    assert!(c.parse_name().is_err());
    let mut c = Cursor::new("");
    assert_eq!(c.parse_name().unwrap_err().span, (0, 1));
}

#[test]
fn parse_u64_reads_the_three_bases() {
    assert_eq!(Cursor::new("0x1F").parse_u64().unwrap(), 31);
    assert_eq!(Cursor::new("0b101").parse_u64().unwrap(), 5);
    assert_eq!(Cursor::new("1_000").parse_u64().unwrap(), 1000);
    assert_eq!(Cursor::new("0").parse_u64().unwrap(), 0);
    assert_eq!(Cursor::new("0xff").parse_u64().unwrap(), 255);
    assert_eq!(Cursor::new("0xDead_Beef").parse_u64().unwrap(), 0xDEAD_BEEF);
    assert_eq!(Cursor::new("  // n\n 42;").parse_u64().unwrap(), 42);
    assert_eq!(Cursor::new("007").parse_u64().unwrap(), 7);
}

#[test]
fn parse_u64_stops_at_the_first_foreign_character() {
    let mut c = Cursor::new("0b102");
    assert_eq!(c.parse_u64().unwrap(), 2);
    assert_eq!(c.position(), 4);
    let mut c = Cursor::new("12ab");
    assert_eq!(c.parse_u64().unwrap(), 12);
    assert_eq!(c.position(), 2);
    let mut c = Cursor::new("0xfg");
    assert_eq!(c.parse_u64().unwrap(), 15);
    assert_eq!(c.position(), 3);
    let mut c = Cursor::new("1__2_ x");
    assert_eq!(c.parse_u64().unwrap(), 12);
    assert_eq!(c.position(), 5);
}

#[test]
fn parse_u64_reaches_the_largest_value() {
    assert_eq!(Cursor::new("18446744073709551615").parse_u64().unwrap(), u64::MAX);
    assert_eq!(Cursor::new("0xFFFF_FFFF_FFFF_FFFF").parse_u64().unwrap(), u64::MAX);
    assert_eq!(
        Cursor::new("0b1111111111111111111111111111111111111111111111111111111111111111")
            .parse_u64()
            .unwrap(),
        u64::MAX
    );
}

#[test]
fn parse_u64_empty_input_wants_a_digit() {
    let mut c = Cursor::new("");
    let e = c.parse_u64().unwrap_err();
    assert_eq!(e.span, (0, 1));
    assert!(e.message.contains("numeric digit"));
}

#[test]
fn parse_u64_wants_a_digit_after_prefix_and_separators() {
    let mut c = Cursor::new("0x");
    let e = c.parse_u64().unwrap_err();
    assert_eq!(e.span, (2, 3));
    assert!(e.message.contains("numeric digit"));
    let mut c = Cursor::new("___ 1");
    let e = c.parse_u64().unwrap_err();
    assert_eq!(e.span, (3, 4));
    let mut c = Cursor::new("0b2");
    let e = c.parse_u64().unwrap_err();
    assert_eq!(e.span, (2, 3));
    let mut c = Cursor::new("x");
    assert_eq!(c.parse_u64().unwrap_err().span, (0, 1));
}

#[test]
fn parse_u64_overflow_reports_an_integer() {
    let mut c = Cursor::new("18446744073709551616 rest");
    let e = c.parse_u64().unwrap_err();
    assert_eq!(e.span, (20, 21));
    assert_eq!(c.position(), 20);
    let detail = u64::from_str_radix("18446744073709551616", 10).unwrap_err().to_string();
    let context = highlight_error::highlight_error(20, 21, "18446744073709551616 rest");
    assert_eq!(
        e.message,
        format!(
            "\x1b[1mPARSE_ERROR\n- expected: \x1b[0minteger\x1b[1m\n- detected:\n\x1b[0m{}\x1b[1m\n - info:\n\x1b[0m{}",
            context, detail
        )
    );
    assert!(Cursor::new("0x1_0000_0000_0000_0000").parse_u64().is_err());
}

#[test]
fn parse_char_reads_plain_characters() {
    let mut c = Cursor::new("aλ \"");
    assert_eq!(c.parse_char().unwrap(), 'a');
    assert_eq!(c.parse_char().unwrap(), 'λ');
    assert_eq!(c.parse_char().unwrap(), ' ');
    assert_eq!(c.parse_char().unwrap(), '"');
    assert!(c.is_eof());
}

#[test]
fn parse_char_reads_the_simple_escapes() {
    let mut c = Cursor::new("\\0\\n\\r\\t\\'\\\"\\\\");
    assert_eq!(c.parse_char().unwrap(), '\0');
    assert_eq!(c.parse_char().unwrap(), '\n');
    assert_eq!(c.parse_char().unwrap(), '\r');
    assert_eq!(c.parse_char().unwrap(), '\t');
    assert_eq!(c.parse_char().unwrap(), '\'');
    assert_eq!(c.parse_char().unwrap(), '"');
    assert_eq!(c.parse_char().unwrap(), '\\');
    assert!(c.is_eof());
}

#[test]
fn parse_char_reads_a_unicode_escape() {
    let mut c = Cursor::new("\\u{1F600}");
    assert_eq!(c.parse_char().unwrap(), '\u{1F600}');
    assert!(c.is_eof());
    assert_eq!(Cursor::new("\\u{41}").parse_char().unwrap(), 'A');
    assert_eq!(Cursor::new("\\u{0}").parse_char().unwrap(), '\0');
    assert_eq!(Cursor::new("\\u{10ffff}").parse_char().unwrap(), '\u{10FFFF}');
    assert_eq!(Cursor::new("\\u{00000000000000000041}").parse_char().unwrap(), 'A');
    assert_eq!(Cursor::new("\\u{D7FF}").parse_char().unwrap(), '\u{D7FF}');
    assert_eq!(Cursor::new("\\u{e000}").parse_char().unwrap(), '\u{E000}');
}

#[test]
fn parse_char_allows_trivia_before_the_braces() {
    let mut c = Cursor::new("\\u {41 // x\n }!");
    assert_eq!(c.parse_char().unwrap(), 'A');
    assert_eq!(c.peek_one(), Some('!'));
}

#[test]
fn parse_char_rejects_what_is_no_code_point() {
    for text in ["\\u{D800}", "\\u{DFFF}", "\\u{110000}", "\\u{}", "\\u{FFFFFFFFF}",
        "\\u{100000000}", "\\u{FFFFFFFFFFFFFFFFFFFF}"]
    {
        let mut c = Cursor::new(text);
        let e = c.parse_char().unwrap_err();
        assert!(e.message.contains("unicode-codepoint"), "{}", text);
        assert!(c.is_eof());
        assert_eq!(e.span.0, text.len());
    }
}

#[test]
fn parse_char_wants_both_braces() {
    let mut c = Cursor::new("\\u41");
    let e = c.parse_char().unwrap_err();
    assert_eq!(e.span, (2, 3));
    assert!(e.message.contains("expected: \x1b[0m{"));
    let mut c = Cursor::new("\\u{41");
    let e = c.parse_char().unwrap_err();
    assert_eq!(e.span, (5, 6));
    assert!(e.message.contains("expected: \x1b[0m}"));
    let mut c = Cursor::new("\\u{4g}");
    let e = c.parse_char().unwrap_err();
    assert_eq!(e.span, (4, 5));
}

#[test]
fn parse_char_names_an_unknown_escape() {
    let mut c = Cursor::new("\\q");
    let e = c.parse_char().unwrap_err();
    assert!(e.message.contains("\\q"));
    assert_eq!(e.span, (2, 3));
    assert_eq!(
        e.message,
        format!(
            "\x1b[1mPARSE_ERROR\n- expected: \x1b[0m\\q\x1b[1m\n- detected:\n\x1b[0m{}",
            highlight_error::highlight_error(2, 3, "\\q")
        )
    );
    let e = Cursor::new("\\λ").parse_char().unwrap_err();
    assert!(e.message.contains("\\λ"));
    assert_eq!(e.span, (3, 4));
}

#[test]
fn parse_char_at_the_end_of_input() {
    let mut c = Cursor::new("");
    let e = c.parse_char().unwrap_err();
    assert_eq!(e.span, (0, 1));
    assert!(e.message.contains("expected: \x1b[0mchar\x1b[1m"));
    let mut c = Cursor::new("\\");
    let e = c.parse_char().unwrap_err();
    assert_eq!(e.span, (1, 2));
    assert!(e.message.contains("escaped-char"));
}

#[test]
fn parse_quoted_char_reads_one_character() {
    assert_eq!(Cursor::new("'a'").parse_quoted_char(), Ok('a'));
    assert_eq!(Cursor::new("  // c\n '\\n'").parse_quoted_char(), Ok('\n'));
    assert_eq!(Cursor::new("'\\''").parse_quoted_char(), Ok('\''));
    assert_eq!(Cursor::new("'\\u{3bb}'").parse_quoted_char(), Ok('λ'));
    assert_eq!(Cursor::new("'\"'").parse_quoted_char(), Ok('"'));
    let mut c = Cursor::new("'x' y");
    assert_eq!(c.parse_quoted_char(), Ok('x'));
    assert_eq!(c.position(), 3);
}

#[test]
fn parse_quoted_char_allows_trivia_before_the_closing_quote() {
    let mut c = Cursor::new("'a  '");
    assert_eq!(c.parse_quoted_char(), Ok('a'));
    assert!(c.is_eof());
    assert_eq!(Cursor::new("' '").parse_quoted_char(), Ok(' '));
}

#[test]
fn parse_quoted_char_fails_with_the_message() {
    let mut c = Cursor::new("'ab'");
    let message = c.parse_quoted_char().unwrap_err();
    assert_eq!(c.position(), 2);
    assert_eq!(
        message,
        format!(
            "\x1b[1mPARSE_ERROR\n- expected: \x1b[0m'\x1b[1m\n- detected:\n\x1b[0m{}",
            highlight_error::highlight_error(2, 3, "'ab'")
        )
    );
    assert!(Cursor::new("a'").parse_quoted_char().unwrap_err().contains("expected"));
    assert!(Cursor::new("'").parse_quoted_char().unwrap_err().contains("char"));
    assert!(Cursor::new("'\\q'").parse_quoted_char().unwrap_err().contains("\\q"));
    assert!(Cursor::new("''").parse_quoted_char().is_err());
}

#[test]
fn parse_quoted_string_reads_the_body() {
    assert_eq!(Cursor::new("\"foobar\"").parse_quoted_string().unwrap(), "foobar");
    assert_eq!(Cursor::new("\"\"").parse_quoted_string().unwrap(), "");
    assert_eq!(Cursor::new("  \"a b\" tail").parse_quoted_string().unwrap(), "a b");
    assert_eq!(Cursor::new("\"// no comment\"").parse_quoted_string().unwrap(), "// no comment");
    assert_eq!(Cursor::new("\"λ€😀\"").parse_quoted_string().unwrap(), "λ€😀");
    let mut c = Cursor::new("\"one\"\"two\"");
    assert_eq!(c.parse_quoted_string().unwrap(), "one");
    assert_eq!(c.position(), 5);
    assert_eq!(c.parse_quoted_string().unwrap(), "two");
}

#[test]
fn parse_quoted_string_reads_escapes() {
    assert_eq!(
        Cursor::new("\"a\\\"b\\\\c\\n\\u{41}\\t'\"").parse_quoted_string().unwrap(),
        "a\"b\\c\nA\t'"
    );
}

#[test]
fn parse_quoted_string_unterminated_wants_the_closing_quote() {
    let mut c = Cursor::new("\"abc");
    let e = c.parse_quoted_string().unwrap_err();
    assert_eq!(e.span, (4, 5));
    assert!(e.message.contains("expected: \x1b[0m\"\x1b[1m"));
    let mut c = Cursor::new("\"abc\\");
    let e = c.parse_quoted_string().unwrap_err();
    assert_eq!(e.span, (5, 6));
    assert!(e.message.contains("escaped-char"));
}

#[test]
fn parse_quoted_string_wants_the_opening_quote() {
    let mut c = Cursor::new("  abc\"");
    let e = c.parse_quoted_string().unwrap_err();
    assert_eq!(e.span, (2, 3));
    assert_eq!(c.position(), 2);
}

#[test]
fn parse_quoted_string_passes_on_a_bad_escape() {
    let mut c = Cursor::new("\"ab\\qcd\"");
    let e = c.parse_quoted_string().unwrap_err();
    assert_eq!(e.span, (5, 6));
    assert!(e.message.contains("\\q"));
}

#[test]
fn parse_quoted_string_round_trips() {
    for text in ["", "plain", "with \"quotes\"", "back\\slash", "\\\"\\\"", "tab\tnew\nline",
        "λ → 😀", "'single'", "// comment", "\\u{41}", "trailing\\"]
    {
        let written = escape(text);
        let mut c = Cursor::new(&written);
        assert_eq!(c.parse_quoted_string().unwrap(), text);
        assert!(c.is_eof());
        let followed = format!("{} \"next\"", written);
        let mut c = Cursor::new(&followed);
        assert_eq!(c.parse_quoted_string().unwrap(), text);
        assert_eq!(c.position(), written.len());
    }
}
