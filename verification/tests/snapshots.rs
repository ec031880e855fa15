//! The graphs and plans of small repos.
use std::collections::BTreeMap;

use jj_pr::create;
use jj_pr::gh::{CheckStatus, GhPr, PrNum, PrState, PrStatus, ReviewDecision};
use jj_pr::input::InputData;
use jj_pr::jj::{JjBookmark, JjCommit, JjLogEntry, JjRemoteBookmark};
use jj_pr::pr_dag;
use jj_pr::render;
use jj_pr::sets::TextSet;
use jj_pr::sync;
use jj_pr::types::{Bookmark, ChangeId, CommitId};

fn build(input: &InputData) -> pr_dag::RepoState {
    pr_dag::build(
        &input.jj_entries,
        &input.prs_map(),
        &input.default_branch,
        input.tracked_bookmarks.as_ref(),
        "origin",
    )
    .unwrap_or_else(|e| panic!("{e:?}"))
}

fn render_show(input: &InputData, show_all: bool, reversed: bool) -> String {
    render_show_with_statuses(input, &BTreeMap::new(), show_all, reversed)
}

fn render_show_with_statuses(
    input: &InputData,
    pr_statuses: &BTreeMap<u64, PrStatus>,
    show_all: bool,
    reversed: bool,
) -> String {
    let prs = input.prs_map();
    render::render_show(&build(input), &prs, pr_statuses, show_all, reversed, true)
}

fn render_log(input: &InputData, show_all: bool, reversed: bool) -> String {
    let prs = input.prs_map();
    render::render_log(
        &build(input),
        &prs,
        &BTreeMap::new(),
        &input.jj_entries,
        show_all,
        reversed,
        true,
    )
}

fn plan_sync(input: &InputData) -> String {
    let prs = input.prs_map();
    match sync::plan_sync(
        &build(input),
        &prs,
        &input.jj_entries,
        &input.default_branch,
        input.existing_merge_commits.as_ref(),
    ) {
        Ok(plan) => {
            let mut lines: Vec<String> = plan.warnings.clone();
            lines.extend(plan.actions.iter().map(|a| a.display()));
            lines.join("\n")
        }
        Err(e) => format!("ERROR: {}", e.message()),
    }
}

fn plan_create(input: &InputData, bookmark: &str) -> String {
    let prs = input.prs_map();
    match create::plan_create(
        &build(input),
        &prs,
        &input.jj_entries,
        &input.default_branch,
        bookmark,
        None,
        None,
    ) {
        Ok(plan) => plan.display(),
        Err(e) => format!("ERROR: {}", e.message()),
    }
}

fn names(list: &[&str]) -> TextSet {
    let mut set = TextSet::new();
    for name in list {
        set.insert(name);
    }
    set
}

// --- Fixture helpers ---

fn entry(
    cid: &str,
    chid: &str,
    parents: &[&str],
    desc: &str,
    bookmarks: &[&str],
    is_trunk_tip: bool,
) -> JjLogEntry {
    JjLogEntry {
        commit: JjCommit {
            commit_id: CommitId(cid.to_owned()),
            change_id: ChangeId(chid.to_owned()),
            parents: parents.iter().map(|s| CommitId(s.to_string())).collect(),
            description: desc.to_owned(),
        },
        local_bookmarks: bookmarks
            .iter()
            .map(|name| JjBookmark {
                name: Bookmark(name.to_string()),
                target: vec![Some(CommitId(cid.to_owned()))],
            })
            .collect(),
        remote_bookmarks: vec![],
        immutable: is_trunk_tip,
        is_trunk_tip,
        empty: false,
        is_working_copy: false,
        conflict: false,
    }
}

fn on_remote(mut e: JjLogEntry, name: &str, remote: &str) -> JjLogEntry {
    e.remote_bookmarks.push(JjRemoteBookmark {
        name: Bookmark(name.to_owned()),
        remote: Some(remote.to_owned()),
        target: vec![Some(CommitId(e.commit.commit_id.0.clone()))],
    });
    e
}

fn with_remote(e: JjLogEntry, name: &str) -> JjLogEntry {
    on_remote(e, name, "origin")
}

fn with_git_remote(e: JjLogEntry, name: &str) -> JjLogEntry {
    on_remote(e, name, "git")
}

fn with_empty(mut e: JjLogEntry) -> JjLogEntry {
    e.empty = true;
    e
}

fn with_working_copy(mut e: JjLogEntry) -> JjLogEntry {
    e.is_working_copy = true;
    e
}

fn gh_pr(number: u64, head: &str, base: &str) -> GhPr {
    GhPr {
        number: PrNum::new(number).unwrap(),
        head_ref_name: Bookmark(head.to_owned()),
        base_ref_name: Bookmark(base.to_owned()),
        state: PrState::Open,
        is_draft: true,
        url: format!("https://github.com/test/repo/pull/{number}"),
        title: format!("PR #{number}"),
        head_repo_owner: None,
        merge_commit_oid: None,
    }
}

fn gh_pr_merged(number: u64, head: &str, base: &str) -> GhPr {
    let mut pr = gh_pr(number, head, base);
    pr.state = PrState::Merged;
    pr.is_draft = false;
    pr.merge_commit_oid = Some(CommitId(format!("merge_commit_{number}")));
    pr
}

fn gh_pr_closed(number: u64, head: &str, base: &str) -> GhPr {
    let mut pr = gh_pr(number, head, base);
    pr.state = PrState::Closed;
    pr.is_draft = false;
    pr
}

fn fixture(
    entries: Vec<JjLogEntry>,
    prs: Vec<GhPr>,
    tracked_bookmarks: Option<TextSet>,
) -> InputData {
    InputData {
        jj_entries: entries,
        prs,
        default_branch: Bookmark("main".to_owned()),
        tracked_bookmarks,
        existing_merge_commits: None,
    }
}

/// Writes out the styles of an expected text: each stands in braces, as a name or as a style
/// and a text.
fn styled(text: &str) -> String {
    let mut out = String::new();
    for (i, part) in text.split(['{', '}']).enumerate() {
        if i % 2 == 0 {
            out.push_str(part);
            continue;
        }
        let (style, shown) = match part {
            "Draft" => ("\x1b[33m", "Draft"),
            "Ready" => ("\x1b[32m", "Ready"),
            "Closed" => ("\x1b[31m", "Closed"),
            "Merged" => ("\x1b[2m", "Merged"),
            "trunk" => ("\x1b[1m\x1b[32m", "trunk()"),
            "elided" => ("\x1b[2m", "(elided revisions)"),
            "~" => ("\x1b[2m", "~"),
            "◆" => ("\x1b[1m\x1b[36m", "◆"),
            "@" => ("\x1b[1m\x1b[32m", "@"),
            "empty" => ("\x1b[32m", "(empty)"),
            "none" => ("\x1b[32m", "(no description set)"),
            _ => match part.split_once(' ') {
                Some(("b", name)) => ("\x1b[1m\x1b[35m", name),
                Some(("i", id)) => ("\x1b[34m", id),
                Some(("warn", text)) => ("\x1b[33m", text),
                Some(("dim", text)) => ("\x1b[2m", text),
                Some(("red", text)) => ("\x1b[31m", text),
                Some(("green", text)) => ("\x1b[32m", text),
                _ => ("\x1b[1m\x1b[36m", part),
            },
        };
        out.push_str(style);
        match shown.strip_prefix('#') {
            Some(n) => out.push_str(&format!(
                "\x1b]8;;https://github.com/test/repo/pull/{n}\x07PR #{n}\x1b]8;;\x07"
            )),
            None => out.push_str(shown),
        }
        out.push_str("\x1b[0m");
    }
    out
}

fn check(name: &str, text: String, lines: &[&str]) {
    let want = lines.concat();
    assert_eq!(text, styled(&want), "{name}\n{text}");
}

// --- Snapshot tests ---

#[test]
fn single_pr() {
    let f = fixture(
        vec![
            with_remote(
                entry("c2", "ch2", &["c1"], "feat\n\nPR: #1\n", &["feat"], false),
                "feat",
            ),
            entry("c1", "ch1", &["c2_parent"], "first\n\nPR: #1\n", &[], false),
            entry("trunk", "chtrunk", &[], "trunk\n", &["main"], true),
        ],
        vec![gh_pr(1, "feat", "main")],
        None,
    );
    check(
        "single_pr_show",
        render_show(&f, true, false),
        &[
            "{◆}  {trunk}\n",
            "○  {#1}  {Draft}  {b feat}\n",
            "│  PR #1\n",
            "{~}  {elided}\n",
        ],
    );
    check(
        "single_pr_log",
        render_log(&f, false, false),
        &[
            "○  {b ch2} {i c2} {b feat} {#1} {Draft}\n",
            "│  feat\n",
            "○  {b ch1} {i c1} {#1} {Draft}\n",
            "│  first\n",
            "│ {◆}  {b chtrunk} {i trunk} {b main} {trunk}\n",
            "│    trunk\n",
            "{~}  {elided}\n",
        ],
    );
    check(
        "single_pr_sync",
        plan_sync(&f),
        &[],
    );
}

#[test]
fn current_change() {
    // @ is on the tip commit of PR #2 in a stack.
    let f = fixture(
        vec![
            with_working_copy(with_remote(
                entry("b1", "chb1", &["a1"], "b\n\nPR: #2\n", &["feat-b"], false),
                "feat-b",
            )),
            with_remote(
                entry("a1", "cha1", &["trunk"], "a\n\nPR: #1\n", &["feat-a"], false),
                "feat-a",
            ),
            entry("trunk", "chtrunk", &[], "trunk\n", &["main"], true),
        ],
        vec![gh_pr(1, "feat-a", "main"), gh_pr(2, "feat-b", "feat-a")],
        None,
    );
    check(
        "current_change_show",
        render_show(&f, true, false),
        &[
            "{@}  {#2}  {Draft}  {b feat-b}\n",
            "│  PR #2\n",
            "○  {#1}  {Draft}  {b feat-a}\n",
            "│  PR #1\n",
            "{◆}  {trunk}\n",
            "{~}  {elided}\n",
        ],
    );
    check(
        "current_change_log",
        render_log(&f, false, false),
        &[
            "{@}  {b chb1} {i b1} {b feat-b} {#2} {Draft}\n",
            "│  b\n",
            "○  {b cha1} {i a1} {b feat-a} {#1} {Draft}\n",
            "│  a\n",
            "{◆}  {b chtrunk} {i trunk} {b main} {trunk}\n",
            "   trunk\n",
            "{~}  {elided}\n",
        ],
    );
}

#[test]
fn stacked_prs() {
    let f = fixture(
        vec![
            with_remote(
                entry("b1", "chb1", &["a1"], "b\n\nPR: #2\n", &["feat-b"], false),
                "feat-b",
            ),
            with_remote(
                entry("a1", "cha1", &["trunk"], "a\n\nPR: #1\n", &["feat-a"], false),
                "feat-a",
            ),
            entry("trunk", "chtrunk", &[], "trunk\n", &["main"], true),
        ],
        vec![gh_pr(1, "feat-a", "main"), gh_pr(2, "feat-b", "feat-a")],
        None,
    );
    check(
        "stacked_prs_show",
        render_show(&f, true, false),
        &[
            "○  {#2}  {Draft}  {b feat-b}\n",
            "│  PR #2\n",
            "○  {#1}  {Draft}  {b feat-a}\n",
            "│  PR #1\n",
            "{◆}  {trunk}\n",
            "{~}  {elided}\n",
        ],
    );
    check(
        "stacked_prs_show_reversed",
        render_show(&f, true, true),
        &[
            "{~}  {elided}\n",
            "{◆}  {trunk}\n",
            "○  {#1}  {Draft}  {b feat-a}\n",
            "│  PR #1\n",
            "○  {#2}  {Draft}  {b feat-b}\n",
            "   PR #2\n",
        ],
    );
    check(
        "stacked_prs_log",
        render_log(&f, false, false),
        &[
            "○  {b chb1} {i b1} {b feat-b} {#2} {Draft}\n",
            "│  b\n",
            "○  {b cha1} {i a1} {b feat-a} {#1} {Draft}\n",
            "│  a\n",
            "{◆}  {b chtrunk} {i trunk} {b main} {trunk}\n",
            "   trunk\n",
            "{~}  {elided}\n",
        ],
    );
    check(
        "stacked_prs_log_reversed",
        render_log(&f, false, true),
        &[
            "{~}  {elided}\n",
            "{◆}  {b chtrunk} {i trunk} {b main} {trunk}\n",
            "│  trunk\n",
            "○  {b cha1} {i a1} {b feat-a} {#1} {Draft}\n",
            "│  a\n",
            "○  {b chb1} {i b1} {b feat-b} {#2} {Draft}\n",
            "   b\n",
        ],
    );
    check(
        "stacked_prs_sync",
        plan_sync(&f),
        &[],
    );
}

/// Regression test: reversed log with non-PR siblings of trunk should not produce
/// dangling graph edges. The non-PR commits (wip1, wip2) are children of trunk but
/// have no PR association, so they get filtered when show_all=false. In reversed mode,
/// trunk's children_map must not include these filtered commits.
#[test]
fn log_reversed_with_non_pr_siblings() {
    let f = fixture(
        vec![
            entry("wip2", "chwip2", &["trunk"], "unrelated wip 2\n", &[], false),
            entry("wip1", "chwip1", &["trunk"], "unrelated wip 1\n", &[], false),
            with_remote(
                entry("b1", "chb1", &["a1"], "b\n\nPR: #2\n", &["feat-b"], false),
                "feat-b",
            ),
            with_remote(
                entry("a1", "cha1", &["trunk"], "a\n\nPR: #1\n", &["feat-a"], false),
                "feat-a",
            ),
            entry("trunk", "chtrunk", &[], "trunk\n", &["main"], true),
        ],
        vec![gh_pr(1, "feat-a", "main"), gh_pr(2, "feat-b", "feat-a")],
        None,
    );
    check(
        "log_reversed_non_pr_siblings",
        render_log(&f, false, true),
        &[
            "{~}  {elided}\n",
            "{◆}  {b chtrunk} {i trunk} {b main} {trunk}\n",
            "│  trunk\n",
            "○  {b cha1} {i a1} {b feat-a} {#1} {Draft}\n",
            "│  a\n",
            "○  {b chb1} {i b1} {b feat-b} {#2} {Draft}\n",
            "   b\n",
        ],
    );
    check(
        "log_non_pr_siblings",
        render_log(&f, false, false),
        &[
            "○  {b chb1} {i b1} {b feat-b} {#2} {Draft}\n",
            "│  b\n",
            "○  {b cha1} {i a1} {b feat-a} {#1} {Draft}\n",
            "│  a\n",
            "{◆}  {b chtrunk} {i trunk} {b main} {trunk}\n",
            "   trunk\n",
            "{~}  {elided}\n",
        ],
    );
}

#[test]
fn diamond_ambiguous() {
    let f = fixture(
        vec![
            with_remote(entry("a1", "cha1", &["xyz"], "a\n", &["feat-a"], false), "feat-a"),
            with_remote(entry("b1", "chb1", &["xyz"], "b\n", &["feat-b"], false), "feat-b"),
            entry("xyz", "chxyz", &["trunk"], "shared\n", &[], false),
            entry("trunk", "chtrunk", &[], "trunk\n", &["main"], true),
        ],
        vec![gh_pr(1, "feat-a", "main"), gh_pr(2, "feat-b", "main")],
        None,
    );
    check(
        "diamond_ambiguous_show",
        render_show(&f, true, false),
        &[
            "○  {#2}  {Draft}  {b feat-b}\n",
            "│  PR #2\n",
            "│ ○  {#1}  {Draft}  {b feat-a}\n",
            "├─╯  PR #1\n",
            "{warn ⚠}  {warn ambiguous} branches: {#1}, {#2}\n",
            "│  {dim (restructure PRs to resolve — stack one on the other)}\n",
            "{◆}  {trunk}\n",
            "{~}  {elided}\n",
        ],
    );
    check(
        "diamond_ambiguous_log",
        render_log(&f, true, false),
        &[
            "○  {b cha1} {i a1} {b feat-a} {#1} {Draft}\n",
            "│  a\n",
            "│ ○  {b chb1} {i b1} {b feat-b} {#2} {Draft}\n",
            "├─╯  b\n",
            "{warn ⚠}  {b chxyz} {i xyz} {warn ambiguous} {warn [}{#1}, {#2}{warn ]}\n",
            "│  shared\n",
            "{◆}  {b chtrunk} {i trunk} {b main} {trunk}\n",
            "   trunk\n",
            "{~}  {elided}\n",
        ],
    );
}

#[test]
fn merged_parent() {
    let f = fixture(
        vec![
            with_remote(
                entry("b1", "chb1", &["a1"], "child\n\nPR: #2\n", &["feat-b"], false),
                "feat-b",
            ),
            entry("a1", "cha1", &["trunk"], "parent\n\nPR: #1\n", &["feat-a"], false),
            entry("trunk", "chtrunk", &[], "trunk\n", &["main"], true),
        ],
        vec![gh_pr_merged(1, "feat-a", "main"), gh_pr(2, "feat-b", "feat-a")],
        None,
    );
    check(
        "merged_parent_show",
        render_show(&f, true, false),
        &[
            "○  {#2}*  {Draft}  {b feat-b}\n",
            "│  PR #2\n",
            "○  {#1}  {Merged}  {b feat-a}\n",
            "│  PR #1\n",
            "{◆}  {trunk}\n",
            "{~}  {elided}\n",
        ],
    );
    check(
        "merged_parent_sync",
        plan_sync(&f),
        &[
            "abandon merged #1 (delete feat-a)\n",
            "push: #2 (feat-b)\n",
            "update #2 (feat-b) base -> main",
        ],
    );
}

#[test]
fn needs_push() {
    let f = fixture(
        vec![
            entry("c2", "ch2", &["c1"], "update\n\nPR: #1\n", &["feat"], false),
            with_remote(entry("c1", "ch1", &["trunk"], "feat\n\nPR: #1\n", &[], false), "feat"),
            entry("trunk", "chtrunk", &[], "trunk\n", &["main"], true),
        ],
        vec![gh_pr(1, "feat", "main")],
        None,
    );
    check(
        "needs_push_show",
        render_show(&f, true, false),
        &[
            "○  {#1}*  {Draft}  {b feat}\n",
            "│  PR #1\n",
            "{◆}  {trunk}\n",
            "{~}  {elided}\n",
        ],
    );
    check(
        "needs_push_sync",
        plan_sync(&f),
        &[
            "push: #1 (feat)",
        ],
    );
}

#[test]
fn no_push_when_only_git_remote() {
    // Bookmark has @git but no @origin — not tracked on origin, should NOT push.
    let f = InputData {
        jj_entries: vec![
            with_git_remote(
                entry("c2", "ch2", &["c1"], "update\n\nPR: #1\n", &["feat"], false),
                "feat",
            ),
            entry("c1", "ch1", &["trunk"], "feat\n\nPR: #1\n", &[], false),
            entry("trunk", "chtrunk", &[], "trunk\n", &["main"], true),
        ],
        prs: vec![gh_pr(1, "feat", "main")],
        default_branch: Bookmark("main".to_owned()),
        tracked_bookmarks: Some(names(&[])),
        existing_merge_commits: None, // Not tracked on origin.
    };
    check(
        "no_push_when_only_git_remote",
        plan_sync(&f),
        &[],
    );
}

#[test]
fn needs_push_tracked_but_no_origin_in_revset() {
    // Bookmark is tracked on origin but @origin commit is outside the revset
    // (e.g. after amending). Should still detect push needed.
    let f = InputData {
        jj_entries: vec![
            with_git_remote(
                entry("c2", "ch2", &["c1"], "update\n\nPR: #1\n", &["feat"], false),
                "feat",
            ),
            entry("c1", "ch1", &["trunk"], "feat\n\nPR: #1\n", &[], false),
            entry("trunk", "chtrunk", &[], "trunk\n", &["main"], true),
        ],
        prs: vec![gh_pr(1, "feat", "main")],
        default_branch: Bookmark("main".to_owned()),
        tracked_bookmarks: Some(names(&["feat"])), // Tracked on origin.
        existing_merge_commits: None,
    };
    check(
        "needs_push_tracked_but_no_origin_in_revset",
        plan_sync(&f),
        &[
            "push: #1 (feat)",
        ],
    );
}

#[test]
fn base_mismatch() {
    let f = fixture(
        vec![
            with_remote(
                entry("b1", "chb1", &["a1"], "b\n\nPR: #2\n", &["feat-b"], false),
                "feat-b",
            ),
            with_remote(
                entry("a1", "cha1", &["trunk"], "a\n\nPR: #1\n", &["feat-a"], false),
                "feat-a",
            ),
            entry("trunk", "chtrunk", &[], "trunk\n", &["main"], true),
        ],
        vec![gh_pr(1, "feat-a", "main"), gh_pr(2, "feat-b", "main")], // wrong base for #2
        None,
    );
    check(
        "base_mismatch_show",
        render_show(&f, true, false),
        &[
            "○  {#2}*  {Draft}  {b feat-b}\n",
            "│  PR #2\n",
            "○  {#1}  {Draft}  {b feat-a}\n",
            "│  PR #1\n",
            "{◆}  {trunk}\n",
            "{~}  {elided}\n",
        ],
    );
    check(
        "base_mismatch_sync",
        plan_sync(&f),
        &[
            "push: #2 (feat-b)\n",
            "update #2 (feat-b) base -> feat-a",
        ],
    );
}

#[test]
fn closed_pr_base_mismatch_skips_update() {
    // Closed PR #2 stacked on #1 with wrong base — should NOT get a base update.
    let f = fixture(
        vec![
            with_remote(
                entry("b1", "chb1", &["a1"], "b\n\nPR: #2\n", &["feat-b"], false),
                "feat-b",
            ),
            with_remote(
                entry("a1", "cha1", &["trunk"], "a\n\nPR: #1\n", &["feat-a"], false),
                "feat-a",
            ),
            entry("trunk", "chtrunk", &[], "trunk\n", &["main"], true),
        ],
        vec![gh_pr(1, "feat-a", "main"), gh_pr_closed(2, "feat-b", "main")], // wrong base, but closed
        None,
    );
    check(
        "closed_pr_base_mismatch_sync",
        plan_sync(&f),
        &[],
    );
}

#[test]
fn nothing_to_sync() {
    let f = fixture(
        vec![
            with_remote(
                entry("c1", "ch1", &["trunk"], "feat\n\nPR: #1\n", &["feat"], false),
                "feat",
            ),
            entry("trunk", "chtrunk", &[], "trunk\n", &["main"], true),
        ],
        vec![gh_pr(1, "feat", "main")],
        None,
    );
    check(
        "nothing_to_sync",
        plan_sync(&f),
        &[],
    );
}

#[test]
fn merge_child() {
    // PR #3 merges PR #1 and PR #2.
    let f = fixture(
        vec![
            with_remote(
                entry("c1", "chc1", &["a1", "b1"], "merge\n", &["feat-c"], false),
                "feat-c",
            ),
            with_remote(entry("a1", "cha1", &["trunk"], "a\n", &["feat-a"], false), "feat-a"),
            with_remote(entry("b1", "chb1", &["trunk"], "b\n", &["feat-b"], false), "feat-b"),
            entry("trunk", "chtrunk", &[], "trunk\n", &["main"], true),
        ],
        vec![
            gh_pr(1, "feat-a", "main"),
            gh_pr(2, "feat-b", "main"),
            gh_pr(3, "feat-c", "feat-a"),
        ],
        None,
    );
    check(
        "merge_child_show",
        render_show(&f, true, false),
        &[
            "○    {#3}*  {Draft}  {b feat-c}\n",
            "├─╮  PR #3\n",
            "│ ○  {#2}  {Draft}  {b feat-b}\n",
            "│ │  PR #2\n",
            "○ │  {#1}  {Draft}  {b feat-a}\n",
            "├─╯  PR #1\n",
            "{◆}  {trunk}\n",
            "{~}  {elided}\n",
        ],
    );
    check(
        "merge_child_log",
        render_log(&f, false, false),
        &[
            "○    {b chc1} {i c1} {b feat-c} {#3}* {Draft}\n",
            "├─╮  merge\n",
            "○ │  {b cha1} {i a1} {b feat-a} {#1} {Draft}\n",
            "│ │  a\n",
            "│ ○  {b chb1} {i b1} {b feat-b} {#2} {Draft}\n",
            "├─╯  b\n",
            "{◆}  {b chtrunk} {i trunk} {b main} {trunk}\n",
            "   trunk\n",
            "{~}  {elided}\n",
        ],
    );
}

#[test]
fn empty_and_no_description() {
    // Tests all four combinations of empty/non-empty × description/no-description.
    let f = fixture(
        vec![
            with_remote(
                entry("c4", "ch4", &["c3"], "has desc\n\nPR: #1\n", &["feat"], false),
                "feat",
            ),
            with_empty(entry("c3", "ch3", &["c2"], "empty with desc\n\nPR: #1\n", &[], false)),
            entry("c2", "ch2", &["c1"], "\n\nPR: #1\n", &[], false),
            with_empty(entry("c1", "ch1", &["trunk"], "\n\nPR: #1\n", &[], false)),
            entry("trunk", "chtrunk", &[], "trunk\n", &["main"], true),
        ],
        vec![gh_pr(1, "feat", "main")],
        None,
    );
    check(
        "empty_and_no_description_log",
        render_log(&f, false, false),
        &[
            "○  {b ch4} {i c4} {b feat} {#1} {Draft}\n",
            "│  has desc\n",
            "○  {b ch3} {i c3} {#1} {Draft}\n",
            "│  {empty} empty with desc\n",
            "○  {b ch2} {i c2} {#1} {Draft}\n",
            "│  {none}\n",
            "○  {b ch1} {i c1} {#1} {Draft}\n",
            "│  {empty} {none}\n",
            "{◆}  {b chtrunk} {i trunk} {b main} {trunk}\n",
            "   trunk\n",
            "{~}  {elided}\n",
        ],
    );
}

#[test]
fn conflicted_bookmark_merged_pr_with_null() {
    // Merged PR whose local bookmark is conflicted: [local_commit, base_commit, null].
    // This happens when the remote branch was deleted (squash-merge) while the local
    // side was rebased. Should auto-resolve by deleting the bookmark and abandoning.
    let mut tip = entry(
        "local",
        "ch_local",
        &["trunk"],
        "my change\n\nPR: #1\n",
        &["feat"],
        false,
    );
    // Set up conflicted target: [local_commit, base_commit, null]
    tip.local_bookmarks[0].target = vec![
        Some(CommitId("local".to_owned())),
        Some(CommitId("base".to_owned())),
        None,
    ];
    let f = fixture(
        vec![tip, entry("trunk", "chtrunk", &[], "trunk\n", &["main"], true)],
        vec![gh_pr_merged(1, "feat", "main")],
        None,
    );
    check(
        "conflicted_merged_null_show",
        render_show(&f, true, false),
        &[
            "○  {#1}  {Merged}  {b feat}\n",
            "│  PR #1\n",
            "{◆}  {trunk}\n",
            "{~}  {elided}\n",
        ],
    );
    check(
        "conflicted_merged_null_sync",
        plan_sync(&f),
        &[
            "abandon merged #1 (delete feat)",
        ],
    );
}

#[test]
fn conflicted_bookmark_open_pr_blocks_sync() {
    // Open PR with conflicted bookmark should still block sync.
    let mut tip = entry(
        "local",
        "ch_local",
        &["trunk"],
        "my change\n\nPR: #1\n",
        &["feat"],
        false,
    );
    tip.local_bookmarks[0].target = vec![
        Some(CommitId("local".to_owned())),
        Some(CommitId("base".to_owned())),
        None,
    ];
    let f = fixture(
        vec![tip, entry("trunk", "chtrunk", &[], "trunk\n", &["main"], true)],
        vec![gh_pr(1, "feat", "main")],
        None,
    );
    check(
        "conflicted_open_show",
        render_show(&f, true, false),
        &[
            "{warn ⚠}  {warn ambiguous} trailers: {#1}\n",
            "│  {dim (edit commit description to fix PR: trailer)}\n",
            "{◆}  {trunk}\n",
            "{~}  {elided}\n",
        ],
    );
    check(
        "conflicted_open_log",
        render_log(&f, false, false),
        &[
            "{warn ⚠}  {b ch_local} {i local} {b feat} {warn ambiguous} {warn [}trailers: {#1}{warn ]}\n",
            "│  my change\n",
            "{◆}  {b chtrunk} {i trunk} {b main} {trunk}\n",
            "   trunk\n",
            "{~}  {elided}\n",
        ],
    );
    check(
        "conflicted_open_blocks_sync",
        plan_sync(&f),
        &[
            "ERROR: Conflicted bookmark(s): feat. Resolve with `jj bookmark` before syncing.",
        ],
    );
}

#[test]
fn conflicted_working_copy() {
    // Conflicted commit that is also the working copy should show red @.
    let mut tip = entry(
        "local",
        "ch_local",
        &["trunk"],
        "my change\n\nPR: #1\n",
        &["feat"],
        false,
    );
    tip.conflict = true;
    tip.is_working_copy = true;
    let f = fixture(
        vec![tip, entry("trunk", "chtrunk", &[], "trunk\n", &["main"], true)],
        vec![gh_pr(1, "feat", "main")],
        None,
    );
    check(
        "conflicted_working_copy_show",
        render_show(&f, true, false),
        &[
            "{red @}  {#1}*  {Draft}  {b feat}\n",
            "│  PR #1\n",
            "{◆}  {trunk}\n",
            "{~}  {elided}\n",
        ],
    );
    check(
        "conflicted_working_copy_log",
        render_log(&f, false, false),
        &[
            "{red @}  {b ch_local} {i local} {b feat} {#1}* {Draft}\n",
            "│  my change\n",
            "{◆}  {b chtrunk} {i trunk} {b main} {trunk}\n",
            "   trunk\n",
            "{~}  {elided}\n",
        ],
    );
}

#[test]
fn conflicted_bookmark_no_null_blocks_sync() {
    // Conflicted bookmark without null (both sides point to commits) should block sync
    // even for merged PRs.
    let mut tip = entry(
        "local",
        "ch_local",
        &["trunk"],
        "my change\n\nPR: #1\n",
        &["feat"],
        false,
    );
    tip.local_bookmarks[0].target = vec![
        Some(CommitId("local".to_owned())),
        Some(CommitId("base".to_owned())),
        Some(CommitId("remote".to_owned())),
    ];
    let f = fixture(
        vec![tip, entry("trunk", "chtrunk", &[], "trunk\n", &["main"], true)],
        vec![gh_pr_merged(1, "feat", "main")],
        None,
    );
    check(
        "conflicted_no_null_blocks_sync",
        plan_sync(&f),
        &[
            "ERROR: Conflicted bookmark(s): feat. Resolve with `jj bookmark` before syncing.",
        ],
    );
}

#[test]
fn ci_review_status_indicators() {
    let f = fixture(
        vec![
            with_remote(
                entry("b1", "chb1", &["a1"], "b\n\nPR: #2\n", &["feat-b"], false),
                "feat-b",
            ),
            with_remote(
                entry("a1", "cha1", &["trunk"], "a\n\nPR: #1\n", &["feat-a"], false),
                "feat-a",
            ),
            entry("trunk", "chtrunk", &[], "trunk\n", &["main"], true),
        ],
        vec![gh_pr(1, "feat-a", "main"), gh_pr(2, "feat-b", "feat-a")],
        None,
    );
    let statuses = BTreeMap::from([
        (
            1,
            PrStatus {
                review_decision: Some(ReviewDecision::Approved),
                checks_status: Some(CheckStatus::Pass),
            },
        ),
        (
            2,
            PrStatus {
                review_decision: Some(ReviewDecision::ChangesRequested),
                checks_status: Some(CheckStatus::Fail),
            },
        ),
    ]);
    check(
        "ci_review_status_show",
        render_show_with_statuses(&f, &statuses, true, false),
        &[
            "○  {#2}  {Draft} {red ✗CI} {red ✗Review}  {b feat-b}\n",
            "│  PR #2\n",
            "○  {#1}  {Draft} {green ✓CI} {green ✓Review}  {b feat-a}\n",
            "│  PR #1\n",
            "{◆}  {trunk}\n",
            "{~}  {elided}\n",
        ],
    );
}

#[test]
fn create_new_pr() {
    // Bookmark "feat" with two unstamped commits, no existing PR.
    let f = fixture(
        vec![
            entry("c2", "ch2", &["c1"], "second commit\n", &["feat"], false),
            entry("c1", "ch1", &["trunk"], "first commit\n", &[], false),
            entry("trunk", "chtrunk", &[], "trunk\n", &["main"], true),
        ],
        vec![],
        None,
    );
    check(
        "create_new_pr",
        plan_create(&f, "feat"),
        &[
            "push feat\n",
            "create PR: \"second commit\" (feat → main) [draft]\n",
            "stamp trailer on 2 commit(s)\n",
        ],
    );
}

#[test]
fn create_stacked_pr() {
    // Bookmark "feat-b" stacked on existing PR #1 ("feat-a").
    let f = fixture(
        vec![
            entry("b1", "chb1", &["a1"], "child\n", &["feat-b"], false),
            with_remote(
                entry("a1", "cha1", &["trunk"], "parent\n\nPR: #1\n", &["feat-a"], false),
                "feat-a",
            ),
            entry("trunk", "chtrunk", &[], "trunk\n", &["main"], true),
        ],
        vec![gh_pr(1, "feat-a", "main")],
        None,
    );
    check(
        "create_stacked_pr",
        plan_create(&f, "feat-b"),
        &[
            "push feat-b\n",
            "create PR: \"child\" (feat-b → feat-a) [draft]\n",
            "stamp trailer on 1 commit(s)\n",
        ],
    );
}

#[test]
fn create_already_exists() {
    // Bookmark "feat" already has PR #1 — should error.
    let f = fixture(
        vec![
            with_remote(
                entry("c1", "ch1", &["trunk"], "feat\n\nPR: #1\n", &["feat"], false),
                "feat",
            ),
            entry("trunk", "chtrunk", &[], "trunk\n", &["main"], true),
        ],
        vec![gh_pr(1, "feat", "main")],
        None,
    );
    check(
        "create_already_exists",
        plan_create(&f, "feat"),
        &[
            "ERROR: bookmark 'feat' already has #1 — use `jj-pr sync` to update it",
        ],
    );
}

#[test]
fn create_conflicted_bookmark_rejected() {
    // Conflicted bookmark should be rejected by plan_create.
    let mut tip = entry("c1", "ch1", &["trunk"], "feat\n", &["feat"], false);
    tip.local_bookmarks[0].target = vec![
        Some(CommitId("c1".to_owned())),
        Some(CommitId("other".to_owned())),
        Some(CommitId("remote".to_owned())),
    ];
    let f = fixture(
        vec![tip, entry("trunk", "chtrunk", &[], "trunk\n", &["main"], true)],
        vec![],
        None,
    );
    check(
        "create_conflicted_bookmark",
        plan_create(&f, "feat"),
        &[
            "ERROR: bookmark 'feat' is conflicted — resolve with `jj bookmark set feat` before creating a PR",
        ],
    );
}

#[test]
fn bookmark_name_collision_no_remote() {
    // User has a local bookmark "fix-typo" that coincidentally matches someone else's PR.
    // No remote tracking, no trailer. Should NOT plan a push (not our PR).
    let f = InputData {
        jj_entries: vec![
            entry("c1", "ch1", &["trunk"], "my unrelated work\n", &["fix-typo"], false),
            entry("trunk", "chtrunk", &[], "trunk\n", &["main"], true),
        ],
        prs: vec![gh_pr(42, "fix-typo", "main")],
        default_branch: Bookmark("main".to_owned()),
        tracked_bookmarks: Some(names(&[])),
        existing_merge_commits: None, // No bookmarks tracked.
    };
    check(
        "bookmark_name_collision_no_remote",
        plan_sync(&f),
        &[],
    );
}

#[test]
fn stale_trunk_skips_abandon() {
    // PR #1 is merged but its merge commit is NOT in the local repo (trunk stale).
    // Should warn and skip the abandon, not prompt for action.
    let f = InputData {
        jj_entries: vec![
            with_remote(
                entry("c1", "ch1", &["trunk"], "feat\n\nPR: #1\n", &["feat"], false),
                "feat",
            ),
            entry("trunk", "chtrunk", &[], "trunk\n", &["main"], true),
        ],
        prs: vec![gh_pr_merged(1, "feat", "main")],
        default_branch: Bookmark("main".to_owned()),
        tracked_bookmarks: None,
        existing_merge_commits: Some(names(&[])), // Empty = nothing fetched.
    };
    check(
        "stale_trunk_skips_abandon",
        plan_sync(&f),
        &[
            "skip merged #1 (feat) — trunk stale, run `jj git fetch`",
        ],
    );
}

#[test]
fn closed_pr_hidden_by_default() {
    // Closed leaf PR #2 should be hidden; open PR #1 stays visible.
    let f = fixture(
        vec![
            with_remote(
                entry("b1", "chb1", &["a1"], "b\n\nPR: #2\n", &["feat-b"], false),
                "feat-b",
            ),
            with_remote(
                entry("a1", "cha1", &["trunk"], "a\n\nPR: #1\n", &["feat-a"], false),
                "feat-a",
            ),
            entry("trunk", "chtrunk", &[], "trunk\n", &["main"], true),
        ],
        vec![gh_pr(1, "feat-a", "main"), gh_pr_closed(2, "feat-b", "feat-a")],
        None,
    );
    check(
        "closed_pr_hidden_show",
        render_show(&f, false, false),
        &[
            "○  {#1}  {Draft}  {b feat-a}\n",
            "│  PR #1\n",
            "{◆}  {trunk}\n",
            "{~}  {elided}\n",
        ],
    );
    check(
        "closed_pr_hidden_log",
        render_log(&f, false, false),
        &[
            "○  {b cha1} {i a1} {b feat-a} {#1} {Draft}\n",
            "│  a\n",
            "{◆}  {b chtrunk} {i trunk} {b main} {trunk}\n",
            "   trunk\n",
            "{~}  {elided}\n",
        ],
    );
    // With --all, closed PR is visible.
    check(
        "closed_pr_visible_show",
        render_show(&f, true, false),
        &[
            "○  {#2}  {Closed}  {b feat-b}\n",
            "│  PR #2\n",
            "○  {#1}  {Draft}  {b feat-a}\n",
            "│  PR #1\n",
            "{◆}  {trunk}\n",
            "{~}  {elided}\n",
        ],
    );
    check(
        "closed_pr_visible_log",
        render_log(&f, true, false),
        &[
            "○  {b chb1} {i b1} {b feat-b} {#2} {Closed}\n",
            "│  b\n",
            "○  {b cha1} {i a1} {b feat-a} {#1} {Draft}\n",
            "│  a\n",
            "{◆}  {b chtrunk} {i trunk} {b main} {trunk}\n",
            "   trunk\n",
            "{~}  {elided}\n",
        ],
    );
}

#[test]
fn closed_pr_with_open_child_stays_visible() {
    // Closed PR #1 has open child PR #2 — should NOT be hidden.
    let f = fixture(
        vec![
            with_remote(
                entry("b1", "chb1", &["a1"], "b\n\nPR: #2\n", &["feat-b"], false),
                "feat-b",
            ),
            with_remote(
                entry("a1", "cha1", &["trunk"], "a\n\nPR: #1\n", &["feat-a"], false),
                "feat-a",
            ),
            entry("trunk", "chtrunk", &[], "trunk\n", &["main"], true),
        ],
        vec![gh_pr_closed(1, "feat-a", "main"), gh_pr(2, "feat-b", "feat-a")],
        None,
    );
    check(
        "closed_pr_with_open_child_show",
        render_show(&f, false, false),
        &[
            "○  {#2}*  {Draft}  {b feat-b}\n",
            "│  PR #2\n",
            "○  {#1}  {Closed}  {b feat-a}\n",
            "│  PR #1\n",
            "{◆}  {trunk}\n",
            "{~}  {elided}\n",
        ],
    );
    check(
        "closed_pr_with_open_child_log",
        render_log(&f, false, false),
        &[
            "○  {b chb1} {i b1} {b feat-b} {#2}* {Draft}\n",
            "│  b\n",
            "○  {b cha1} {i a1} {b feat-a} {#1} {Closed}\n",
            "│  a\n",
            "{◆}  {b chtrunk} {i trunk} {b main} {trunk}\n",
            "   trunk\n",
            "{~}  {elided}\n",
        ],
    );
}
