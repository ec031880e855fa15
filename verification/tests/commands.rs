//! The command lines, and what is read from their output.
use std::collections::BTreeMap;

use jj_pr::cli::{
    chosen_command, command_needs, create_decision, dry_run_note, install_aliases, installed_note,
    plan_lines, sync_decision, Cli, Command, Decision, InstallAliasesArgs, LogArgs, Needs,
    ShowArgs, UtilArgs, UtilCommand,
};
use jj_pr::command::CommandLine;
use jj_pr::gh;
use jj_pr::gh::{
    AliasKind, CheckState, CheckStatus, GraphQlResponse, PrNode, PrNum, PrState, PrStatus,
    ReplyError, RepositoryData, ReviewDecision, ReviewState, PR_NODE_FIELDS,
};
use jj_pr::jj;
use jj_pr::sync::{SyncAction, SyncPlan};
use jj_pr::types::{revset_union, AsRevset, Bookmark, ChangeId, CommitId};
use jj_pr::ui::{confirm, prompt};

fn bookmark(name: &str) -> Bookmark {
    Bookmark(name.to_owned())
}

fn check(c: &CommandLine, program: &str, args: &[&str], context: &str, failure: &str) {
    assert_eq!(c.program, program);
    assert_eq!(c.args, args);
    assert_eq!(c.context, context);
    assert_eq!(c.failure, failure);
}

// --- jj ---

#[test]
fn jj_log_commands() {
    let c = jj::resolve_revision("@-");
    assert_eq!(c.program, "jj");
    assert_eq!(c.args, ["log", "--no-graph", "-r", "@-", "-T", "commit_id"]);
    let c = jj::load_entries();
    assert_eq!(
        c.args,
        ["log", "--no-graph", "-r", "trunk().. | trunk()", "-T", jj::JJ_TEMPLATE]
    );
    let c = jj::load_entries_with_revset("mine()");
    assert_eq!(c.args, ["log", "--no-graph", "-r", "mine()", "-T", jj::JJ_TEMPLATE]);
    let c = jj::read_description("change_id(x)");
    assert_eq!(c.args, ["log", "--no-graph", "-r", "change_id(x)", "-T", "description"]);
    assert_eq!(c.stdin, None);
}

#[test]
fn describe_reads_its_input() {
    let c = jj::describe_stdin("change_id(x)", "text\n");
    assert_eq!(c.args, ["describe", "change_id(x)", "--stdin"]);
    assert_eq!(c.stdin, Some("text\n".to_owned()));
}

#[test]
fn push_commands_name_each_bookmark() {
    let c = jj::git_push_bookmark(&bookmark("feat"));
    assert_eq!(c.args, ["git", "push", "--bookmark", "feat"]);
    let c = jj::git_push_bookmarks(&vec![bookmark("a"), bookmark("b")]);
    assert_eq!(c.args, ["git", "push", "--bookmark", "a", "--bookmark", "b"]);
}

#[test]
fn bookmark_commands() {
    let name = bookmark("feat");
    assert_eq!(jj::bookmark_set(&name, "@").args, ["bookmark", "set", "feat", "-r", "@"]);
    assert_eq!(jj::bookmark_delete(&name).args, ["bookmark", "delete", "feat"]);
    let c = jj::bookmark_track(&name, "origin");
    assert_eq!(c.args[..2], ["bookmark", "track"]);
    assert!(c.args.iter().any(|a| a.contains("feat")));
    assert!(c.args.iter().any(|a| a.contains("origin")));
}

#[test]
fn rewriting_commands() {
    assert_eq!(jj::abandon("change_id(a)").args, ["abandon", "change_id(a)"]);
    let c = jj::rebase("roots(x)", "trunk()");
    assert_eq!(c.args, ["rebase", "-s", "roots(x)", "-d", "trunk()"]);
    assert_eq!(jj::git_root().args, ["git", "root"]);
}

#[test]
fn failures_tell_what_was_printed() {
    let c = jj::git_root();
    assert_eq!(c.error("no repo"), format!("{}: no repo", c.failure));
}

#[test]
fn blank_lines_are_no_json() {
    assert_eq!(jj::json_lines("{1}\n\n  \n{2}"), ["{1}", "{2}"]);
    assert!(jj::json_lines("").is_empty());
}

// --- Revsets ---

#[test]
fn ids_make_revsets() {
    assert_eq!(CommitId("c1".to_owned()).as_revset().0, "commit_id(c1)");
    assert_eq!(ChangeId("x".to_owned()).as_revset().0, "change_id(x)");
    assert_eq!(bookmark("a/b-c").as_revset().0, "bookmark(\"a/b-c\")");
}

#[test]
fn quotes_in_bookmarks_are_escaped() {
    assert_eq!(bookmark("a\"b\\c").as_revset().0, "bookmark(\"a\\\"b\\\\c\")");
}

#[test]
fn revsets_are_joined() {
    let ids = vec![ChangeId("a".to_owned()), ChangeId("b".to_owned())];
    assert_eq!(revset_union(&ids).0, "change_id(a) | change_id(b)");
    let refs: Vec<&ChangeId> = ids.iter().collect();
    assert_eq!(revset_union(&refs).0, "change_id(a) | change_id(b)");
    assert_eq!(revset_union::<ChangeId>(&vec![]).0, "");
}

// --- gh ---

#[test]
fn query_asks_by_number_and_by_branch() {
    let nums = vec![PrNum::new(3).unwrap(), PrNum::new(12).unwrap()];
    let names = vec!["a".to_owned(), "q\"uote".to_owned()];
    let f = PR_NODE_FIELDS;
    let want = format!(
        "query($owner: String!, $repo: String!) {{ repository(owner: $owner, name: $repo) \
         {{ defaultBranchRef {{ name }} pr3: pullRequest(number: 3) {{ {f} }} pr12: \
         pullRequest(number: 12) {{ {f} }} br0: pullRequests(first:1, headRefName:\"a\") \
         {{ nodes {{ {f} }} }} br1: pullRequests(first:1, headRefName:\"q\\\"uote\") \
         {{ nodes {{ {f} }} }} }} }}"
    );
    assert_eq!(gh::graphql_query(&nums, &names), want);
    let c = gh::load_prs_and_default_branch(&nums, &names);
    let field = format!("query={want}");
    check(
        &c,
        "gh",
        &["api", "graphql", "-f", &field, "-F", "owner={owner}", "-F", "repo={repo}"],
        "Failed to run `gh api graphql`",
        "gh api graphql failed",
    );
}

#[test]
fn aliases_tell_their_kind() {
    assert_eq!(gh::alias_kind("pr12"), AliasKind::Number);
    assert_eq!(gh::alias_kind("br0"), AliasKind::Branch);
    assert_eq!(gh::alias_kind("defaultBranchRef"), AliasKind::Other);
}

fn node(number: u64, head: &str) -> PrNode {
    PrNode {
        number: PrNum::new(number).unwrap(),
        head_ref_name: bookmark(head),
        base_ref_name: bookmark("main"),
        state: PrState::Open,
        is_draft: true,
        url: format!("u{number}"),
        title: format!("t{number}"),
        review_decision: None,
        latest_reviews: None,
        merge_commit: None,
        head_repository_owner: Some("me".to_owned()),
        commits: vec![],
    }
}

#[test]
fn reply_gives_each_pr_once() {
    let mut first = node(7, "b");
    first.merge_commit = Some(CommitId("m".to_owned()));
    let nodes = vec![first, node(3, "a"), node(7, "other")];
    let reply = GraphQlResponse {
        data: Some(Some(RepositoryData { default_branch: bookmark("main"), pr_nodes: nodes })),
        errors: None,
    };
    let (prs, statuses, default_branch) = gh::read_reply(&reply).unwrap();
    let heads: Vec<&str> = prs.iter().map(|p| p.head_ref_name.as_str()).collect();
    assert_eq!(heads, ["a", "b"]);
    assert_eq!(prs[1].url, "u7");
    assert_eq!(prs[1].title, "t7");
    assert_eq!(prs[1].merge_commit_oid, Some(CommitId("m".to_owned())));
    assert_eq!(prs[1].head_repo_owner, Some("me".to_owned()));
    assert!(prs[0].is_draft);
    assert_eq!(statuses.len(), 2);
    assert_eq!(default_branch, bookmark("main"));
}

fn status(node: PrNode) -> PrStatus {
    let (_, statuses) = gh::collect_prs(&vec![node]);
    let all: BTreeMap<u64, PrStatus> = statuses;
    all[&1]
}

#[test]
fn reviews_stand_in_for_a_decision() {
    let mut n = node(1, "a");
    n.latest_reviews = Some(vec![ReviewState::Approved, ReviewState::Commented]);
    assert_eq!(status(n).review_decision, Some(ReviewDecision::Approved));
    let mut n = node(1, "a");
    n.latest_reviews = Some(vec![ReviewState::Approved, ReviewState::ChangesRequested]);
    assert_eq!(status(n).review_decision, Some(ReviewDecision::ChangesRequested));
    let mut n = node(1, "a");
    n.latest_reviews = Some(vec![ReviewState::Dismissed, ReviewState::Pending]);
    assert_eq!(status(n).review_decision, None);
    let mut n = node(1, "a");
    n.review_decision = Some(ReviewDecision::ReviewRequired);
    n.latest_reviews = Some(vec![ReviewState::Approved]);
    assert_eq!(status(n).review_decision, Some(ReviewDecision::ReviewRequired));
}

#[test]
fn checks_are_summed_up() {
    for (state, want) in [
        (CheckState::Success, CheckStatus::Pass),
        (CheckState::Failure, CheckStatus::Fail),
        (CheckState::Error, CheckStatus::Fail),
        (CheckState::Pending, CheckStatus::Pending),
        (CheckState::Expected, CheckStatus::Pending),
    ] {
        assert_eq!(CheckStatus::from(state), want);
        let mut n = node(1, "a");
        n.commits = vec![Some(state)];
        assert_eq!(status(n).checks_status, Some(want));
    }
    let mut n = node(1, "a");
    n.commits = vec![None];
    assert_eq!(status(n).checks_status, None);
    assert_eq!(status(node(1, "a")).checks_status, None);
}

#[test]
fn replies_without_data_are_errors() {
    let errors = Some(vec!["one".to_owned(), "two".to_owned()]);
    let e = gh::read_reply(&GraphQlResponse { data: None, errors }).unwrap_err();
    assert!(matches!(e, ReplyError::Errors(_)));
    assert_eq!(e.message(), "GraphQL errors: one; two");
    let e = gh::read_reply(&GraphQlResponse { data: None, errors: None }).unwrap_err();
    assert!(matches!(e, ReplyError::NoData));
    assert_eq!(e.message(), "GraphQL response missing `data`");
    let e = gh::read_reply(&GraphQlResponse { data: Some(None), errors: None }).unwrap_err();
    assert!(matches!(e, ReplyError::NoRepository));
    assert_eq!(
        e.message(),
        "GraphQL response missing `repository` (not found or insufficient permissions)"
    );
}

#[test]
fn pr_numbers_are_read_from_urls() {
    assert_eq!(gh::parse_pr_url("https://github.com/o/r/pull/123"), PrNum::new(123));
    assert_eq!(gh::parse_pr_url("17"), PrNum::new(17));
    assert_eq!(gh::parse_pr_url("https://github.com/o/r/pull/0"), None);
    assert_eq!(gh::parse_pr_url("https://github.com/o/r/pull/"), None);
    assert_eq!(
        gh::created_pr("https://github.com/o/r/pull/5\n"),
        Ok((PrNum::new(5).unwrap(), "https://github.com/o/r/pull/5".to_owned()))
    );
    assert_eq!(
        gh::created_pr(" oops \n"),
        Err("Could not parse PR number from gh output: oops".to_owned())
    );
}

#[test]
fn pr_commands() {
    check(
        &gh::create_pr(&bookmark("feat"), &bookmark("main"), "T", "B", true, None),
        "gh",
        &[
            "pr", "create", "--head", "feat", "--base", "main", "--title", "T", "--body", "B",
            "--draft",
        ],
        "Failed to run `gh pr create`",
        "gh pr create failed",
    );
    let c = gh::create_pr(&bookmark("feat"), &bookmark("main"), "T", "", false, Some("me"));
    assert_eq!(c.args[3], "me:feat");
    assert_eq!(c.args[c.args.len() - 1], "");
    check(
        &gh::edit_base(7, &bookmark("main")),
        "gh",
        &["pr", "edit", "7", "--base", "main"],
        "Failed to run `gh pr edit`",
        "gh pr edit 7 --base main failed",
    );
    assert_eq!(gh::set_ready(7, true).args, ["pr", "ready", "7"]);
    assert_eq!(gh::set_ready(7, false).args, ["pr", "ready", "7", "--undo"]);
    assert_eq!(
        gh::repo_owner().args,
        ["repo", "view", "--json", "owner", "-q", ".owner.login"]
    );
}

#[test]
fn pr_numbers_are_not_zero() {
    assert_eq!(PrNum::new(0), None);
    assert_eq!(PrNum::new(9).unwrap().get(), 9);
    assert_eq!(PrNum::new(9).unwrap().display(), "#9");
    assert!(PrNum::new(3) < PrNum::new(12));
}

// --- The program's own commands ---

#[test]
fn show_is_the_default() {
    let none = Cli { yes: false, command: None };
    assert!(matches!(
        chosen_command(none),
        Command::Show(ShowArgs { all: false, reversed: false })
    ));
    let log = Command::Log(LogArgs { all: true, reversed: true });
    let some = Cli { yes: true, command: Some(log) };
    assert!(matches!(
        chosen_command(some),
        Command::Log(LogArgs { all: true, reversed: true })
    ));
}

#[test]
fn utilities_need_no_state() {
    let dump = Command::Util(UtilArgs { command: UtilCommand::Dump });
    assert!(matches!(command_needs(&dump), Needs::Input));
    let install = UtilCommand::InstallAliases(InstallAliasesArgs { repo: true });
    let install = Command::Util(UtilArgs { command: install });
    assert!(matches!(command_needs(&install), Needs::Aliases(true)));
    let show = Command::Show(ShowArgs { all: false, reversed: false });
    assert!(matches!(command_needs(&show), Needs::State));
}

#[test]
fn plans_are_asked_about() {
    assert!(matches!(sync_decision(0, true), Decision::Nothing));
    assert!(matches!(sync_decision(2, true), Decision::DryRun));
    match sync_decision(3, false) {
        Decision::Ask(message) => assert_eq!(message, "Apply 3 action(s)?"),
        _ => panic!("no question"),
    }
    assert!(matches!(create_decision(true), Decision::DryRun));
    match create_decision(false) {
        Decision::Ask(message) => assert_eq!(message, "Create PR?"),
        _ => panic!("no question"),
    }
    assert_eq!(dry_run_note(false), "\nDry run: no changes applied.");
    assert_eq!(dry_run_note(true), "\n\x1b[33mDry run: no changes applied.\x1b[0m");
}

#[test]
fn plans_are_listed() {
    let plan = SyncPlan {
        actions: vec![SyncAction::StampTrailer {
            change_id: ChangeId("abcdefghijklmnop".to_owned()),
            pr: PrNum::new(4).unwrap(),
        }],
        warnings: vec!["careful".to_owned()],
    };
    assert_eq!(
        plan_lines(&plan, true),
        ["  \x1b[33mcareful\x1b[0m", "  stamp #4 trailer on abcdefghijkl"]
    );
}

#[test]
fn aliases_are_installed() {
    let lines = install_aliases(true);
    let args: Vec<Vec<&str>> =
        lines.iter().map(|c| c.args.iter().map(|a| a.as_str()).collect()).collect();
    assert_eq!(
        args,
        [
            ["config", "set", "--repo", "aliases.pr", r#"["util", "exec", "--", "jj-pr"]"#],
            [
                "config",
                "set",
                "--repo",
                r#"revset-aliases."pr(n)""#,
                r#"description(regex:"(?m)^PR: #" ++ n ++ "$")"#,
            ],
            ["config", "set", "--repo", r#"revset-aliases."pr_root(n)""#, "roots(pr(n))"],
        ]
    );
    check(
        &lines[0],
        "jj",
        &args[0],
        "Failed to run `jj config set` for alias",
        "jj config set failed for aliases.pr",
    );
    assert!(install_aliases(false).iter().all(|c| c.args[2] == "--user"));
    assert!(installed_note(false).starts_with("Installed to --user config:\n"));
    assert!(installed_note(true).contains("\n  revset aliases: pr(n), pr_root(n)\n"));
}

#[test]
fn answers_are_read() {
    assert_eq!(prompt("Go?"), "Go? [Y/n] ");
    for yes in ["\n", "y\n", "Y", " yes \n", "YES\n"] {
        assert!(confirm(false, Some(yes)), "{yes}");
    }
    for no in ["n\n", "no", "yess", "0"] {
        assert!(!confirm(false, Some(no)), "{no}");
        assert!(confirm(true, Some(no)));
    }
    assert!(confirm(false, None));
}
