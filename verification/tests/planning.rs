//! What follows from a state: pending actions, plans and the steps that carry them out.
use jj_pr::create::{
    create_steps, created_steps, find_base_branch, plan_create, CreateError, CreatePlan, CreateStep,
};
use jj_pr::gh::{GhPr, PrNum, PrState};
use jj_pr::input::{local_bookmark_names, merge_oids, InputData};
use jj_pr::jj::{
    parse_pr_trailer, remove_pr_trailer, set_pr_trailer, JjBookmark, JjCommit, JjLogEntry,
    JjRemoteBookmark,
};
use jj_pr::pr_dag::{build, RepoState};
use jj_pr::render::{log_rows, show_rows, Row};
use jj_pr::sets::TextSet;
use jj_pr::sync::{plan_sync, pr_of_commit, sync_steps, SyncAction, SyncStep};
use jj_pr::types::{Bookmark, ChangeId, CommitId};

fn pr(n: u64) -> PrNum {
    PrNum::new(n).unwrap()
}

fn bookmark(name: &str) -> Bookmark {
    Bookmark(name.to_owned())
}

fn commit(id: &str) -> CommitId {
    CommitId(id.to_owned())
}

fn entry(cid: &str, parents: &[&str], desc: &str, bookmarks: &[&str]) -> JjLogEntry {
    JjLogEntry {
        commit: JjCommit {
            commit_id: commit(cid),
            change_id: ChangeId(format!("ch{cid}")),
            parents: parents.iter().map(|s| commit(s)).collect(),
            description: desc.to_owned(),
        },
        local_bookmarks: bookmarks
            .iter()
            .map(|name| JjBookmark { name: bookmark(name), target: vec![Some(commit(cid))] })
            .collect(),
        remote_bookmarks: vec![],
        immutable: false,
        is_trunk_tip: false,
        empty: false,
        is_working_copy: false,
        conflict: false,
    }
}

fn pushed(cid: &str, parents: &[&str], desc: &str, name: &str) -> JjLogEntry {
    let mut e = entry(cid, parents, desc, &[name]);
    e.remote_bookmarks.push(JjRemoteBookmark {
        name: bookmark(name),
        remote: Some("origin".to_owned()),
        target: vec![Some(commit(cid))],
    });
    e
}

fn trunk() -> JjLogEntry {
    let mut e = entry("trunk", &["old"], "trunk\n", &["main"]);
    e.immutable = true;
    e.is_trunk_tip = true;
    e
}

fn gh_pr(number: u64, head: &str, base: &str, state: PrState) -> GhPr {
    GhPr {
        number: pr(number),
        head_ref_name: bookmark(head),
        base_ref_name: bookmark(base),
        state,
        is_draft: false,
        url: format!("u{number}"),
        title: format!("t{number}"),
        head_repo_owner: None,
        merge_commit_oid: None,
    }
}

fn input(jj_entries: Vec<JjLogEntry>, prs: Vec<GhPr>) -> InputData {
    InputData {
        jj_entries,
        prs,
        default_branch: bookmark("main"),
        tracked_bookmarks: None,
        existing_merge_commits: None,
    }
}

fn state(f: &InputData) -> RepoState {
    let r = build(&f.jj_entries, &f.prs_map(), &f.default_branch, None, "origin");
    r.unwrap_or_else(|e| panic!("{e:?}"))
}

fn sync_texts(f: &InputData) -> Vec<String> {
    let plan = plan_sync(&state(f), &f.prs_map(), &f.jj_entries, &f.default_branch, None)
        .unwrap_or_else(|e| panic!("{}", e.message()));
    let mut all = plan.warnings;
    all.extend(plan.actions.iter().map(|a| a.display()));
    all
}

// --- Pending actions ---

#[test]
fn pushes_concern_descendants() {
    let f = input(
        vec![
            pushed("c", &["b"], "c\n\nPR: #3\n", "feat-c"),
            pushed("b", &["a"], "b\n\nPR: #2\n", "feat-b"),
            entry("a", &["trunk"], "a\n\nPR: #1\n", &["feat-a"]),
            trunk(),
        ],
        vec![
            gh_pr(1, "feat-a", "main", PrState::Open),
            gh_pr(2, "feat-b", "feat-a", PrState::Closed),
            gh_pr(3, "feat-c", "main", PrState::Open),
        ],
    );
    assert_eq!(sync_texts(&f), ["push: #1 (feat-a), #2 (feat-b), #3 (feat-c)"]);
}

#[test]
fn other_bases_concern_no_descendants() {
    let f = input(
        vec![
            pushed("b", &["a"], "b\n\nPR: #2\n", "feat-b"),
            pushed("a", &["trunk"], "a\n\nPR: #1\n", "feat-a"),
            trunk(),
        ],
        vec![
            gh_pr(1, "feat-a", "other", PrState::Open),
            gh_pr(2, "feat-b", "feat-a", PrState::Open),
        ],
    );
    assert_eq!(sync_texts(&f), ["push: #1 (feat-a)", "update #1 (feat-a) base -> main"]);
}

#[test]
fn updated_bases_are_settled() {
    let entries = || {
        vec![
            pushed("b", &["a"], "b\n\nPR: #2\n", "feat-b"),
            pushed("a", &["trunk"], "a\n\nPR: #1\n", "feat-a"),
            trunk(),
        ]
    };
    let open = |base| {
        vec![
            gh_pr(1, "feat-a", "main", PrState::Open),
            gh_pr(2, "feat-b", base, PrState::Open),
        ]
    };
    let before = input(entries(), open("main"));
    assert_eq!(
        sync_texts(&before),
        ["push: #2 (feat-b)", "update #2 (feat-b) base -> feat-a"]
    );
    assert!(sync_texts(&input(entries(), open("feat-a"))).is_empty());
}

#[test]
fn merged_prs_pass_actions_on() {
    let f = input(
        vec![
            pushed("c", &["b"], "c\n\nPR: #3\n", "feat-c"),
            pushed("b", &["a"], "b\n\nPR: #2\n", "feat-b"),
            entry("a", &["trunk"], "a\n\nPR: #1\n", &["feat-a"]),
            trunk(),
        ],
        vec![
            gh_pr(1, "feat-a", "main", PrState::Open),
            gh_pr(2, "feat-b", "feat-a", PrState::Merged),
            gh_pr(3, "feat-c", "feat-b", PrState::Open),
        ],
    );
    assert_eq!(
        sync_texts(&f),
        [
            "abandon merged #2 (delete feat-b)",
            "push: #1 (feat-a), #3 (feat-c)",
            "update #3 (feat-c) base -> main",
        ]
    );
}

#[test]
fn conflicts_stop_pushes_above() {
    let mut low = entry("a", &["trunk"], "a\n\nPR: #1\n", &["feat-a"]);
    low.conflict = true;
    let f = input(
        vec![pushed("b", &["a"], "b\n\nPR: #2\n", "feat-b"), low, trunk()],
        vec![
            gh_pr(1, "feat-a", "main", PrState::Open),
            gh_pr(2, "feat-b", "feat-a", PrState::Open),
        ],
    );
    assert_eq!(
        sync_texts(&f),
        [
            "skip push #1 (feat-a) — has content conflicts",
            "skip push #2 (feat-b) — ancestor has content conflicts",
        ]
    );
}

#[test]
fn missing_trailers_are_stamped() {
    let f = input(
        vec![
            pushed("b", &["a"], "b\n", "feat"),
            entry("a", &["trunk"], "a\n\nPR: #1\n", &[]),
            trunk(),
        ],
        vec![gh_pr(1, "feat", "main", PrState::Open)],
    );
    assert_eq!(sync_texts(&f), ["stamp #1 trailer on chb"]);
    // Once it is stamped nothing is left to do.
    let text = set_pr_trailer("b\n", pr(1));
    let done = input(
        vec![
            pushed("b", &["a"], &text, "feat"),
            entry("a", &["trunk"], "a\n\nPR: #1\n", &[]),
            trunk(),
        ],
        vec![gh_pr(1, "feat", "main", PrState::Open)],
    );
    assert!(sync_texts(&done).is_empty());
}

#[test]
fn blocked_plans_name_the_bookmarks() {
    let mut a = entry("a", &["trunk"], "a\n", &["z", "b"]);
    for b in a.local_bookmarks.iter_mut() {
        b.target = vec![Some(commit("a")), None, Some(commit("x"))];
    }
    let f = input(
        vec![a, trunk()],
        vec![gh_pr(1, "z", "main", PrState::Open), gh_pr(2, "b", "main", PrState::Merged)],
    );
    let e = plan_sync(&state(&f), &f.prs_map(), &f.jj_entries, &f.default_branch, None).unwrap_err();
    assert_eq!(e.names, ["b", "z"]);
}

#[test]
fn commits_have_the_pr_of_the_nearest_bookmark() {
    // trunk <- a <- b (feat-b, PR #2) <- c (feat-c, PR #1)
    let f = input(
        vec![
            pushed("c", &["b"], "c\n", "feat-c"),
            pushed("b", &["a"], "b\n", "feat-b"),
            entry("a", &["trunk"], "a\n", &[]),
            trunk(),
        ],
        vec![
            gh_pr(1, "feat-c", "feat-b", PrState::Open),
            gh_pr(2, "feat-b", "main", PrState::Open),
        ],
    );
    let s = state(&f);
    assert_eq!(pr_of_commit(&s, &commit("c")), PrNum::new(1));
    assert_eq!(pr_of_commit(&s, &commit("b")), PrNum::new(2));
    assert_eq!(pr_of_commit(&s, &commit("a")), PrNum::new(2));
    assert_eq!(pr_of_commit(&s, &commit("trunk")), None);
    assert_eq!(pr_of_commit(&s, &commit("unknown")), None);
}

#[test]
fn expected_bases_follow_the_parents() {
    let f = input(
        vec![
            pushed("b", &["a"], "b\n\nPR: #2\n", "feat-b"),
            pushed("a", &["trunk"], "a\n\nPR: #1\n", "feat-a"),
            trunk(),
        ],
        vec![
            gh_pr(1, "feat-a", "main", PrState::Open),
            gh_pr(2, "feat-b", "feat-a", PrState::Open),
        ],
    );
    let s = state(&f);
    let prs = f.prs_map();
    // Parents first: the root, trunk, then the PRs.
    let bases: Vec<String> = s
        .topo_order
        .iter()
        .map(|k| s.expected_base(*k, &prs, &f.default_branch).0)
        .collect();
    assert_eq!(bases, ["main", "main", "main", "feat-a"]);
    assert!(s.topo_order.iter().all(|k| !s.is_node_conflicted(*k, &prs)));
    assert_eq!(s.expected_base(0, &prs, &f.default_branch).0, "main");
    assert_eq!(s.topo_order[0], s.root_node);
}

// --- The rows of the graphs ---

fn linked(rows: &[Row]) -> bool {
    rows.iter().all(|r| r.links.iter().all(|l| rows.iter().any(|o| o.node == *l)))
}

#[test]
fn links_lead_to_rows() {
    let f = input(
        vec![
            pushed("c", &["b"], "c\n\nPR: #3\n", "feat-c"),
            entry("wip", &["trunk"], "wip\n", &[]),
            pushed("b", &["a"], "b\n\nPR: #2\n", "feat-b"),
            pushed("a", &["trunk"], "a\n\nPR: #1\n", "feat-a"),
            trunk(),
        ],
        vec![
            gh_pr(1, "feat-a", "main", PrState::Open),
            gh_pr(2, "feat-b", "feat-a", PrState::Closed),
            gh_pr(3, "feat-c", "feat-b", PrState::Closed),
        ],
    );
    let s = state(&f);
    let prs = f.prs_map();
    let none = std::collections::BTreeMap::new();
    let few = show_rows(&s, &prs, &none, false, false, false);
    assert_eq!(few.len(), 3);
    assert!(linked(&few));
    let all = show_rows(&s, &prs, &none, true, false, false);
    assert_eq!(all.len(), 5);
    assert!(linked(&all));
    for show_all in [false, true] {
        for reversed in [false, true] {
            let rows = log_rows(&s, &prs, &none, &f.jj_entries, show_all, reversed, false);
            assert_eq!(rows.len(), if show_all { 6 } else { 3 });
            assert!(linked(&rows));
        }
    }
}

// --- Steps ---

fn step_text(step: &SyncStep) -> String {
    match step {
        SyncStep::Say(s) => format!("say {s}"),
        SyncStep::Stamp { revision, pr } => format!("stamp {revision} {}", pr.get()),
        SyncStep::DeleteBookmark(b) => format!("delete {}", b.0),
        SyncStep::Rebase { sources, dest } => format!("rebase {sources} {dest}"),
        SyncStep::Abandon(r) => format!("abandon {r}"),
        SyncStep::Push(list) => {
            let names: Vec<&str> = list.iter().map(|b| b.as_str()).collect();
            format!("push {}", names.join(" "))
        }
        SyncStep::EditBase { pr, base } => format!("base {} {}", pr.get(), base.0),
    }
}

fn steps_of(action: SyncAction) -> Vec<String> {
    sync_steps(&action, false).iter().map(step_text).collect()
}

#[test]
fn stamping_has_its_steps() {
    let action = SyncAction::StampTrailer { change_id: ChangeId("abc".to_owned()), pr: pr(1) };
    assert_eq!(steps_of(action), ["say Stamping PR #1 on abc", "stamp change_id(abc) 1"]);
}

#[test]
fn abandoning_has_its_steps() {
    let action = |bookmark_exists| SyncAction::AbandonMerged {
        change_ids: vec![ChangeId("a".to_owned()), ChangeId("b".to_owned())],
        pr: pr(1),
        bookmark: bookmark("feat"),
        bookmark_exists,
    };
    assert_eq!(
        steps_of(action(true)),
        [
            "say Abandoning merged PR #1 (delete feat)",
            "delete feat",
            "rebase roots(change_id(a) | change_id(b)) trunk()",
            "abandon change_id(a) | change_id(b)",
        ]
    );
    assert_eq!(
        steps_of(action(false)),
        [
            "say Abandoning merged PR #1 (feat already deleted)",
            "rebase roots(change_id(a) | change_id(b)) trunk()",
            "abandon change_id(a) | change_id(b)",
        ]
    );
    assert_eq!(action(false).display(), "abandon merged #1 (feat already deleted)");
}

#[test]
fn pushing_and_updating_have_their_steps() {
    let action = SyncAction::Push {
        bookmarks: vec![(pr(1), bookmark("a")), (pr(2), bookmark("b"))],
    };
    assert_eq!(steps_of(action), ["say Pushing 2 bookmark(s): a, b", "push a b"]);
    let action = SyncAction::UpdateBase {
        pr: pr(2),
        bookmark: bookmark("b"),
        new_base: bookmark("a"),
    };
    assert_eq!(steps_of(action), ["say Updating PR #2 (b) base -> a", "base 2 a"]);
}

// --- New PRs ---

fn planned(f: &InputData, name: &str, title: Option<&str>, body: Option<&str>) -> CreatePlan {
    let prs = f.prs_map();
    plan_create(&state(f), &prs, &f.jj_entries, &f.default_branch, name, title, body)
        .unwrap_or_else(|e| panic!("{}", e.message()))
}

#[test]
fn titles_and_bodies_come_from_the_tip() {
    let f = input(
        vec![
            entry("b", &["a"], "title\n\nbody\nmore\n", &["feat"]),
            entry("a", &["trunk"], "a\n", &[]),
            trunk(),
        ],
        vec![],
    );
    let plan = planned(&f, "feat", None, None);
    assert_eq!(plan.title, "title");
    assert_eq!(plan.body, "body\nmore");
    assert_eq!(plan.base, bookmark("main"));
    assert_eq!(plan.bookmark, bookmark("feat"));
    let ids: Vec<&str> = plan.stamp_change_ids.iter().map(|c| c.as_str()).collect();
    assert_eq!(ids, ["chb", "cha"]);
    let plan = planned(&f, "feat", Some("T"), Some("B"));
    assert_eq!((plan.title.as_str(), plan.body.as_str()), ("T", "B"));
}

#[test]
fn commits_of_other_prs_are_not_stamped() {
    let f = input(
        vec![
            entry("c", &["b"], "c\n", &["feat-c"]),
            entry("b", &["a"], "b\n", &[]),
            pushed("a", &["trunk"], "a\n\nPR: #1\n", "feat-a"),
            trunk(),
        ],
        vec![gh_pr(1, "feat-a", "main", PrState::Open)],
    );
    let plan = planned(&f, "feat-c", None, None);
    assert_eq!(plan.base, bookmark("feat-a"));
    let ids: Vec<&str> = plan.stamp_change_ids.iter().map(|c| c.as_str()).collect();
    assert_eq!(ids, ["chc", "chb"]);
}

#[test]
fn merged_prs_are_no_base() {
    let f = input(
        vec![
            entry("b", &["a"], "b\n", &["feat-b"]),
            pushed("a", &["trunk"], "a\n\nPR: #1\n", "feat-a"),
            trunk(),
        ],
        vec![gh_pr(1, "feat-a", "main", PrState::Merged)],
    );
    let prs = f.prs_map();
    let base = find_base_branch(&state(&f), &prs, &f.jj_entries, &bookmark("feat-b"), &f.default_branch);
    assert_eq!(base, bookmark("main"));
}

fn base_of(f: &InputData, name: &str) -> String {
    find_base_branch(&state(f), &f.prs_map(), &f.jj_entries, &bookmark(name), &f.default_branch).0
}

#[test]
fn the_trunk_is_passed_over() {
    let f = input(
        vec![
            entry("m", &["trunk", "a1"], "m\n", &["feat-m"]),
            pushed("a1", &["trunk"], "a\n\nPR: #1\n", "feat-a"),
            trunk(),
        ],
        vec![gh_pr(1, "feat-a", "main", PrState::Open)],
    );
    assert_eq!(base_of(&f, "feat-m"), "feat-a");
    assert_eq!(planned(&f, "feat-m", None, None).base, bookmark("feat-a"));
}

#[test]
fn the_nearest_ancestor_pr_is_the_base() {
    // m -> gone, b, w; b -> a (open) -> trunk; w -> x (closed), as far off as a.
    let stack = |b: PrState| input(
        vec![
            entry("m", &["gone", "b", "w"], "m\n", &["feat-m"]),
            pushed("b", &["a"], "b\n\nPR: #2\n", "feat-b"),
            entry("w", &["x"], "w\n", &[]),
            pushed("a", &["trunk"], "a\n\nPR: #1\n", "feat-a"),
            pushed("x", &["trunk"], "x\n\nPR: #3\n", "feat-x"),
            trunk(),
        ],
        vec![
            gh_pr(1, "feat-a", "main", PrState::Open),
            gh_pr(2, "feat-b", "feat-a", b),
            gh_pr(3, "feat-x", "main", PrState::Closed),
        ],
    );
    // The search ends at the nearest PR, which has no branch to base on once it is merged.
    assert_eq!(base_of(&stack(PrState::Merged), "feat-m"), "main");
    assert_eq!(base_of(&stack(PrState::Closed), "feat-m"), "feat-b");
    let f = stack(PrState::Open);
    assert_eq!(base_of(&f, "feat-m"), "feat-b");
    assert_eq!(base_of(&f, "feat-b"), "feat-a");
    assert_eq!(base_of(&f, "no-such"), "main");
    assert_eq!(base_of(&f, "feat-x"), "main");
}

#[test]
fn new_prs_can_be_refused() {
    let mut twice = entry("x", &["trunk"], "x\n", &["split"]);
    twice.local_bookmarks[0].target = vec![Some(commit("x")), None, Some(commit("y"))];
    let f = input(
        vec![twice, pushed("a", &["trunk"], "a\n\nPR: #1\n", "feat"), trunk()],
        vec![gh_pr(1, "feat", "main", PrState::Open)],
    );
    let prs = f.prs_map();
    let plan = |name: &str| {
        plan_create(&state(&f), &prs, &f.jj_entries, &f.default_branch, name, None, None).unwrap_err()
    };
    let e = plan("gone");
    assert!(matches!(e, CreateError::NotFound(_)));
    assert_eq!(
        e.message(),
        "bookmark 'gone' not found — create it with `jj bookmark create gone`"
    );
    let e = plan("split");
    assert!(matches!(e, CreateError::Conflicted(_)));
    let e = plan("feat");
    assert!(matches!(e, CreateError::Exists(_, _)));
    assert_eq!(
        e.message(),
        "bookmark 'feat' already has #1 — use `jj-pr sync` to update it"
    );
}

fn create_text(step: &CreateStep) -> String {
    match step {
        CreateStep::Say(s) => format!("say {s}"),
        CreateStep::Track { bookmark, remote } => format!("track {} {remote}", bookmark.0),
        CreateStep::Push(b) => format!("push {}", b.0),
        CreateStep::Create { head, base, title, body, draft } => {
            format!("create {} {} {title} {body} {draft}", head.0, base.0)
        }
        CreateStep::Stamp { revision, pr } => format!("stamp {revision} {}", pr.get()),
    }
}

#[test]
fn creating_has_its_steps() {
    let mut plan = CreatePlan {
        bookmark: bookmark("feat"),
        base: bookmark("main"),
        title: "T".to_owned(),
        body: "B".to_owned(),
        stamp_change_ids: vec![ChangeId("a".to_owned()), ChangeId("b".to_owned())],
    };
    let steps: Vec<String> = create_steps(&plan, "origin", false).iter().map(create_text).collect();
    assert_eq!(
        steps,
        [
            "track feat origin",
            "say Pushing feat",
            "push feat",
            "say Creating PR: T (feat → main) [draft]",
            "create feat main T B true",
        ]
    );
    let after = |plan: &CreatePlan| -> Vec<String> {
        created_steps(plan, pr(7), "u", false).iter().map(create_text).collect()
    };
    assert_eq!(
        after(&plan),
        [
            "say Created PR #7",
            "stamp change_id(a) 7",
            "stamp change_id(b) 7",
            "say Stamped PR #7 on 2 commit(s)",
        ]
    );
    plan.stamp_change_ids = vec![];
    assert_eq!(after(&plan), ["say Created PR #7"]);
    assert_eq!(plan.display(), "push feat\ncreate PR: \"T\" (feat → main) [draft]\n");
}

// --- Input ---

#[test]
fn later_prs_replace_earlier_ones() {
    let f = input(
        vec![],
        vec![
            gh_pr(2, "b", "main", PrState::Open),
            gh_pr(1, "a", "main", PrState::Open),
            gh_pr(2, "c", "main", PrState::Open),
        ],
    );
    let prs = f.prs_map();
    let heads: Vec<&str> = prs.values().map(|p| p.head_ref_name.as_str()).collect();
    assert_eq!(heads, ["a", "c"]);
}

#[test]
fn bookmark_names_are_collected() {
    let names = local_bookmark_names(&vec![
        entry("a", &[], "a\n", &["z", "b"]),
        entry("c", &[], "c\n", &["b"]),
    ]);
    assert_eq!(*names.names(), ["b", "z"]);
    assert!(names.contains("z") && !names.contains("a"));
    assert!(TextSet::new().is_empty() && !names.is_empty());
}

#[test]
fn merge_commits_are_those_of_merged_prs() {
    let mut merged = gh_pr(1, "a", "main", PrState::Merged);
    merged.merge_commit_oid = Some(commit("m"));
    let mut open = gh_pr(2, "b", "main", PrState::Open);
    open.merge_commit_oid = Some(commit("o"));
    let squashed = gh_pr(3, "c", "main", PrState::Merged);
    assert_eq!(merge_oids(&vec![merged, open, squashed]), [commit("m")]);
}

#[test]
fn only_one_of_two_prs_of_a_branch_counts() {
    let f = input(
        vec![pushed("a", &["trunk"], "a\n", "feat"), trunk()],
        vec![
            gh_pr(1, "feat", "main", PrState::Open),
            gh_pr(2, "feat", "main", PrState::Closed),
        ],
    );
    assert_eq!(pr_of_commit(&state(&f), &commit("a")), PrNum::new(2));
}

// --- Trailers ---

#[test]
fn the_last_trailer_remains() {
    for text in ["", "a\n", "a\n\nSigned-off-by: x\n", "a\n\nPR: #4\nx", "a\n\nPR: #4\n\nb\n"] {
        let twice = set_pr_trailer(&set_pr_trailer(text, pr(1)), pr(2));
        assert_eq!(twice, set_pr_trailer(text, pr(2)), "{text:?}");
        assert_eq!(parse_pr_trailer(&twice), PrNum::new(2), "{text:?}");
        assert_eq!(set_pr_trailer(&twice, pr(2)), twice, "{text:?}");
    }
    // The ends of lines are made line feeds only where a trailer is replaced.
    let crlf = "a\r\nb";
    assert_eq!(set_pr_trailer(crlf, pr(1)), "a\r\nb\n\nPR: #1\n");
    assert_eq!(set_pr_trailer(&set_pr_trailer(crlf, pr(1)), pr(2)), "a\nb\n\nPR: #2\n");
}

#[test]
fn removed_trailers_are_gone() {
    for text in ["a\n", "a\n\nb", "PR: #4\n", "PR: #4\n\nb\n", "a\n\nX: y\n"] {
        let set = set_pr_trailer(text, pr(3));
        assert_eq!(parse_pr_trailer(&remove_pr_trailer(&set)), None, "{text:?}");
    }
    // The block before comes last then.
    assert_eq!(parse_pr_trailer(&remove_pr_trailer("PR: #4\n\nPR: #5\n")), PrNum::new(4));
}
