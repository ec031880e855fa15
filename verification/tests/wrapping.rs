use jj_pr::wrap::{join_wrapped, terminal_width, wrap_message};

#[test]
fn plain_text_wraps_at_spaces() {
    assert_eq!(wrap_message("one two three four", 9), "one two\nthree\nfour");
}

#[test]
fn short_line_untouched() {
    assert_eq!(wrap_message("short", 80), "short");
}

#[test]
fn long_word_hard_broken() {
    assert_eq!(wrap_message("abcdefghij", 4), "abcd\nefgh\nij");
}

#[test]
fn sgr_sequences_are_zero_width() {
    // "bold text" is 9 columns; the SGR codes must not count.
    assert_eq!(wrap_message("\x1b[1mbold\x1b[0m text", 9), "\x1b[1mbold\x1b[0m text");
    assert_eq!(wrap_message("\x1b[1mbold\x1b[0m text", 8), "\x1b[1mbold\x1b[0m\ntext");
}

#[test]
fn osc8_hyperlinks_are_zero_width() {
    // "PR #1 tail" is 10 columns; the OSC 8 link wrapper must not count.
    let line = "\x1b]8;;https://example.com\x07PR #1\x1b]8;;\x07 tail";
    assert_eq!(wrap_message(line, 10), line);
}

#[test]
fn wide_chars_measured_by_display_width() {
    // Each CJK char is 2 columns wide.
    assert_eq!(wrap_message("漢字 漢字", 4), "漢字\n漢字");
}

#[test]
fn unspaced_cjk_breaks_between_ideographs() {
    // Unspaced CJK text has break opportunities between characters
    // (UAX #14, via the unicode-linebreak feature).
    assert_eq!(wrap_message("長い日本語の題名", 6), "長い日\n本語の\n題名");
}

#[test]
fn no_break_before_cjk_closing_punctuation() {
    // A line must not start with a full stop (kinsoku shori): the break
    // moves earlier so 。 stays attached to 名.
    assert_eq!(wrap_message("題名。", 4), "題\n名。");
}

#[test]
fn multi_line_message() {
    assert_eq!(wrap_message("first line\nsecond line", 6), "first\nline\nsecond\nline");
}

#[test]
fn short_lines_lose_trailing_spaces() {
    assert_eq!(wrap_message("ab  \n\ncd ", 80), "ab\n\ncd");
    assert_eq!(wrap_message("", 80), "");
}

#[test]
fn wrapped_lines_are_joined() {
    let parts = vec!["a".to_owned(), "b".to_owned()];
    assert_eq!(join_wrapped(&parts), "a\nb");
}

#[test]
fn terminal_width_needs_a_terminal() {
    assert_eq!(terminal_width(true, Some(80)), Some(80));
    assert_eq!(terminal_width(false, Some(80)), None);
    assert_eq!(terminal_width(true, Some(0)), None);
    assert_eq!(terminal_width(true, None), None);
}
