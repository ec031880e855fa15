use jj_pr::gh::PrNum;
use jj_pr::jj::{parse_pr_trailer, remove_pr_trailer, set_pr_trailer};

#[test]
fn parse_pr_trailer_basic() {
    assert_eq!(parse_pr_trailer("some commit\n\nPR: #42\n"), PrNum::new(42));
}

#[test]
fn parse_pr_trailer_with_other_trailers() {
    let desc = "fix bug\n\nCo-authored-by: Alice\nPR: #123\n";
    assert_eq!(parse_pr_trailer(desc), PrNum::new(123));
}

#[test]
fn parse_pr_trailer_missing() {
    assert_eq!(parse_pr_trailer("just a commit message\n"), None);
}

#[test]
fn parse_pr_trailer_no_trailing_newline() {
    assert_eq!(parse_pr_trailer("msg\n\nPR: #7"), PrNum::new(7));
}

#[test]
fn set_pr_trailer_append_new() {
    let result = set_pr_trailer("add feature\n", PrNum::new(99).unwrap());
    assert_eq!(result, "add feature\n\nPR: #99\n");
}

#[test]
fn set_pr_trailer_replace_existing() {
    let result = set_pr_trailer("fix\n\nPR: #10\n", PrNum::new(20).unwrap());
    assert_eq!(result, "fix\n\nPR: #20\n");
}

#[test]
fn set_pr_trailer_append_to_existing_trailers() {
    let result = set_pr_trailer("fix\n\nCo-authored-by: Bob\n", PrNum::new(55).unwrap());
    assert_eq!(result, "fix\n\nCo-authored-by: Bob\nPR: #55\n");
}

#[test]
fn set_pr_trailer_empty_description() {
    let result = set_pr_trailer("", PrNum::new(1).unwrap());
    assert_eq!(result, "PR: #1\n");
}

#[test]
fn parse_pr_trailer_trailing_blank_lines() {
    assert_eq!(parse_pr_trailer("msg\n\nPR: #42\n\n"), PrNum::new(42));
    assert_eq!(parse_pr_trailer("msg\n\nPR: #42\n\n\n"), PrNum::new(42));
}

#[test]
fn set_pr_trailer_replace_with_trailing_blank_lines() {
    let result = set_pr_trailer("fix\n\nPR: #10\n\n", PrNum::new(20).unwrap());
    assert_eq!(result, "fix\n\nPR: #20\n\n");
}

#[test]
fn parse_pr_trailer_ends_at_the_block() {
    assert_eq!(parse_pr_trailer("PR: #5\n\nbody\n"), None);
    assert_eq!(parse_pr_trailer("fix\n\nPR: #5\nReviewed-by: Eve\n"), PrNum::new(5));
}

#[test]
fn parse_pr_trailer_skips_what_is_no_number() {
    assert_eq!(parse_pr_trailer("fix\n\nPR: #5\nPR: #x\n"), PrNum::new(5));
    assert_eq!(parse_pr_trailer("fix\n\nPR: #0\n"), None);
    assert_eq!(parse_pr_trailer("fix\n\nPR: #18446744073709551616\n"), None);
    assert_eq!(parse_pr_trailer("fix\n\nPR: # +7 \r\n"), PrNum::new(7));
}

#[test]
fn set_trailer_is_read_back() {
    let n = PrNum::new(8).unwrap();
    for desc in ["", "\n\n", "a", "a: b", "a\n\nPR: #x\nPR: #1\r\r\n", "PR: #9\n\nb\n", "x\r\n\r\nPR: #3\r\n"] {
        assert_eq!(parse_pr_trailer(&set_pr_trailer(desc, n)), Some(n), "{desc:?}");
    }
}

#[test]
fn set_pr_trailer_keeps_the_rest() {
    let n = PrNum::new(8).unwrap();
    assert_eq!(set_pr_trailer("a\n\nPR: #1\nX: y", n), "a\n\nPR: #8\nX: y");
    assert_eq!(set_pr_trailer("a  \n \n", n), "a\n\nPR: #8\n");
}

#[test]
fn remove_pr_trailer_with_separator() {
    assert_eq!(remove_pr_trailer("fix\n\nPR: #10\n"), "fix\n");
    assert_eq!(remove_pr_trailer("fix\n\nPR: #10"), "fix");
    assert_eq!(remove_pr_trailer("fix\n\nPR: #10\n\n"), "fix\n");
    assert_eq!(remove_pr_trailer("PR: #1\n"), "\n");
    assert_eq!(remove_pr_trailer("no trailer"), "no trailer");
    assert_eq!(remove_pr_trailer("a\r\nb\n\n\n"), "a\r\nb\n\n\n");
}

#[test]
fn remove_pr_trailer_in_the_last_block() {
    assert_eq!(
        remove_pr_trailer("PR: #5 broke this\n\nfix\n\nPR: #7\n"),
        "PR: #5 broke this\n\nfix\n"
    );
    assert_eq!(remove_pr_trailer("PR: #5\n\nfix\n"), "PR: #5\n\nfix\n");
    assert_eq!(remove_pr_trailer("PR: #1\nPR: #2"), "PR: #1");
}

#[test]
fn remove_pr_trailer_keeps_the_separator_of_other_lines() {
    assert_eq!(
        remove_pr_trailer("fix\n\nPR: #1\nCo-authored-by: Bob\n"),
        "fix\n\nCo-authored-by: Bob\n"
    );
    assert_eq!(remove_pr_trailer("fix\n\nX: y\nPR: #10\n"), "fix\n\nX: y\n");
    // Any other line of the block keeps the blank line before it, trailer or not.
    assert_eq!(remove_pr_trailer("a\n\nPR: #1\nb\n"), "a\n\nb\n");
}

#[test]
fn removing_undoes_setting() {
    let n = PrNum::new(8).unwrap();
    for (desc, want) in [
        ("a\n", "a\n"),
        ("a\n\nX: y\n \n", "a\n\nX: y\n"),
        ("PR: #5 broke this\n\nfix", "PR: #5 broke this\n\nfix\n"),
        ("", "\n"),
        ("a\r\nb", "a\nb\n"),
    ] {
        assert_eq!(remove_pr_trailer(&set_pr_trailer(desc, n)), want, "{desc:?}");
    }
}
