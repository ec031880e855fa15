//! The texts and their styles.
use jj_pr::gh::{CheckStatus, PrNum, PrState, PrStatus, ReviewDecision};
use jj_pr::render::{ci_review_indicators, draw_rows, Row};
use jj_pr::style;
use jj_pr::text;
use jj_pr::types::{Bookmark, ChangeId, CommitId};

#[test]
fn texts_have_their_colors() {
    let name = Bookmark("feat".to_owned());
    assert_eq!(style::bookmark(&name, true), "\x1b[1m\x1b[35mfeat\x1b[0m");
    assert_eq!(style::bookmark_label(&name, true), "\x1b[1m\x1b[35mfeat\x1b[0m");
    assert_eq!(style::status(PrState::Open, true, true), "\x1b[33mDraft\x1b[0m");
    assert_eq!(style::status(PrState::Open, false, true), "\x1b[32mReady\x1b[0m");
    assert_eq!(style::status(PrState::Closed, true, true), "\x1b[31mClosed\x1b[0m");
    assert_eq!(style::status(PrState::Merged, true, true), "\x1b[2mMerged\x1b[0m");
    assert_eq!(style::bold("x", true), "\x1b[1mx\x1b[0m");
    assert_eq!(style::dim("x", true), "\x1b[2mx\x1b[0m");
    assert_eq!(style::warn("x", true), "\x1b[33mx\x1b[0m");
    assert_eq!(style::trunk(true), "\x1b[1m\x1b[32mtrunk()\x1b[0m");
    assert_eq!(style::root(true), "\x1b[2m(elided revisions)\x1b[0m");
    assert_eq!(style::empty_marker(true), "\x1b[32m(empty)\x1b[0m");
    assert_eq!(style::glyph_immutable(true), "\x1b[1m\x1b[36m◆\x1b[0m");
    assert_eq!(style::glyph_elided(true), "\x1b[2m~\x1b[0m");
    assert_eq!(style::glyph_conflicted(true), "\x1b[31m✗\x1b[0m");
    assert_eq!(style::glyph_current(true), "\x1b[1m\x1b[32m@\x1b[0m");
    assert_eq!(style::glyph_current_conflicted(true), "\x1b[31m@\x1b[0m");
    assert_eq!(style::glyph_warning_conflicted(true), "\x1b[31m⚠\x1b[0m");
}

#[test]
fn without_color_texts_are_plain() {
    assert_eq!(style::trunk(false), "trunk()");
    assert_eq!(style::glyph_current(false), "@");
    let url = Some("https://github.com/o/r/pull/1");
    assert_eq!(style::pr_num(PrNum::new(1).unwrap(), url, false), "PR #1");
    assert_eq!(style::status(PrState::Merged, false, false), "Merged");
}

#[test]
fn pr_numbers_are_links() {
    let n = PrNum::new(12).unwrap();
    assert_eq!(
        style::pr_num(n, Some("u"), true),
        "\x1b[1m\x1b[36m\x1b]8;;u\x07PR #12\x1b]8;;\x07\x1b[0m"
    );
    assert_eq!(style::pr_num(n, None, true), "\x1b[1m\x1b[36mPR #12\x1b[0m");
    assert_eq!(style::pr_label(12, None, false), "PR #12");
}

#[test]
fn ids_are_shortened() {
    let change = ChangeId("abcdefghijklmnop".to_owned());
    assert_eq!(style::change_id(&change, false), "abcdefghijkl");
    let commit = CommitId("0123456789abcdef".to_owned());
    assert_eq!(style::commit_id_short(&commit, true), "\x1b[34m0123456789ab\x1b[0m");
    assert_eq!(style::commit_id_short(&CommitId("c1".to_owned()), false), "c1");
}

#[test]
fn descriptions_show_their_first_line() {
    assert_eq!(style::description_first_line("one\ntwo", true), "one");
    assert_eq!(
        style::description_first_line("\ntwo", true),
        "\x1b[32m(no description set)\x1b[0m"
    );
    assert_eq!(style::description_first_line("", false), "(no description set)");
}

#[test]
fn color_can_be_forced() {
    assert!(style::use_color(true, true));
    assert!(style::use_color(false, false));
    assert!(!style::use_color(false, true));
}

#[test]
fn checks_and_reviews_have_marks() {
    assert_eq!(style::ci_status(CheckStatus::Pass, false), "✓CI");
    assert_eq!(style::ci_status(CheckStatus::Fail, false), "✗CI");
    assert_eq!(style::ci_status(CheckStatus::Pending, true), "\x1b[33m●CI\x1b[0m");
    assert_eq!(style::review_status(Some(ReviewDecision::Approved), false), "✓Review");
    assert_eq!(style::review_status(Some(ReviewDecision::ChangesRequested), false), "✗Review");
    assert_eq!(style::review_status(Some(ReviewDecision::ReviewRequired), false), "●Review");
    assert_eq!(style::review_status(None, false), "●Review");
}

#[test]
fn indicators_leave_out_missing_checks() {
    let status = PrStatus {
        review_decision: Some(ReviewDecision::Approved),
        checks_status: Some(CheckStatus::Pass),
    };
    assert_eq!(ci_review_indicators(&status, false), " ✓CI ✓Review");
    let status = PrStatus { review_decision: None, checks_status: None };
    assert_eq!(ci_review_indicators(&status, false), " ●Review");
}

fn row(node: u64, links: &[u64], message: &str) -> Row {
    Row {
        node,
        links: links.to_vec(),
        glyph: "o".to_owned(),
        message: message.to_owned(),
    }
}

#[test]
fn rows_are_drawn_as_a_graph() {
    let rows = vec![row(3, &[1], "three\nmore"), row(2, &[1], "two"), row(1, &[], "one")];
    assert_eq!(draw_rows(&rows), "o  three\n│  more\n│ o  two\n├─╯\no  one\n");
    assert_eq!(draw_rows(&vec![]), "");
}

// --- Texts ---

#[test]
fn numbers_are_read_back() {
    for n in [0, 7, 10, 1234567890, u64::MAX] {
        assert_eq!(text::parse_u64(&text::u64_to_string(n)), Some(n));
        assert_eq!(text::u64_to_string(n), n.to_string());
    }
    for s in ["", "+", "-1", "1a", " 1", "18446744073709551616"] {
        assert_eq!(text::parse_u64(s), None, "{s}");
    }
    assert_eq!(text::parse_u64("+7"), "+7".parse().ok());
    assert_eq!(text::parse_u64("007"), Some(7));
}

#[test]
fn texts_are_taken_apart_as_in_std() {
    for s in ["", "a", " a ", "\u{a0}x\u{3000}\n", "a\r\nb\n\nc", "\n", "a\r", "x\u{2028}y "] {
        assert_eq!(text::trim(s), s.trim(), "{s:?}");
        assert_eq!(text::trim_end(s), s.trim_end(), "{s:?}");
        assert_eq!(text::lines(s), s.lines().collect::<Vec<_>>(), "{s:?}");
        assert_eq!(text::starts_with(s, "a"), s.starts_with('a'), "{s:?}");
        assert_eq!(text::contains(s, "b\n"), s.contains("b\n"), "{s:?}");
        assert_eq!(text::ends_with(s, '\n'), s.ends_with('\n'), "{s:?}");
        assert_eq!(text::strip_prefix(s, "a").as_deref(), s.strip_prefix('a'), "{s:?}");
        assert_eq!(text::same_text(s, "a"), s == "a", "{s:?}");
        for t in ["", "a", "ab", "b", "é"] {
            assert_eq!(text::less(s, t), s < t, "{s:?} {t:?}");
        }
    }
}

#[test]
fn prefixes_keep_characters_whole() {
    assert_eq!(text::byte_prefix("aé", 2), "a");
    assert_eq!(text::byte_prefix("aé", 3), "aé");
    assert_eq!(text::char_prefix("éab", 2), "éa");
}

#[test]
fn escaped_texts_have_no_bare_quotes() {
    assert_eq!(text::escape("a\"b\\"), "a\\\"b\\\\");
    assert_eq!(text::escape("plain"), "plain");
    assert_eq!(text::lower("YeS É"), "yes É");
}
