//! Searching and sorting graphs, and the graphs that no state can be built from.
use std::collections::{BTreeMap, BTreeSet};

use jj_pr::gh::{GhPr, PrNum, PrState};
use jj_pr::graph_algorithms::{dfs, topo_sort};
use jj_pr::jj::{JjBookmark, JjCommit, JjLogEntry};
use jj_pr::membership::{decide, decide_combine_child_nodes};
use jj_pr::pr_dag::{build, extract_pr_nums, BuildError, Node};
use jj_pr::types::{Bookmark, ChangeId, CommitId};

fn nexts(edges: &[(u64, &[u64])], n: u64) -> Vec<u64> {
    edges
        .iter()
        .filter(|(from, _)| *from == n)
        .flat_map(|(_, to)| to.iter().copied())
        .collect()
}

#[test]
fn dfs_visits_what_it_reaches_once() {
    let edges: [(u64, &[u64]); 4] = [(1, &[2, 3]), (2, &[4]), (3, &[4]), (5, &[1])];
    let order = dfs(1, |n| nexts(&edges, n));
    // The last successor is taken first.
    assert_eq!(order, vec![1, 3, 4, 2]);
}

#[test]
fn dfs_stops_on_a_cycle() {
    let edges: [(u64, &[u64]); 2] = [(1, &[2]), (2, &[1])];
    assert_eq!(dfs(1, |n| nexts(&edges, n)), vec![1, 2]);
    assert_eq!(dfs(7, |n| nexts(&edges, n)), vec![7]);
}

#[test]
fn topo_sort_lists_parents_first() {
    let edges: [(u64, &[u64]); 3] = [(1, &[2, 3]), (2, &[4]), (3, &[4])];
    assert_eq!(topo_sort(&vec![1, 2, 3, 4], |n| nexts(&edges, n)), Ok(vec![4, 2, 3, 1]));
    assert_eq!(topo_sort(&vec![], |n| nexts(&edges, n)), Ok(vec![]));
}

#[test]
fn topo_sort_adds_what_it_reaches() {
    let edges: [(u64, &[u64]); 1] = [(1, &[9])];
    assert_eq!(topo_sort(&vec![1], |n| nexts(&edges, n)), Ok(vec![9, 1]));
}

#[test]
fn topo_sort_returns_a_cycle() {
    let edges: [(u64, &[u64]); 4] = [(1, &[2]), (2, &[3]), (3, &[4]), (4, &[2])];
    let cycle = topo_sort(&vec![1, 2, 3, 4], |n| nexts(&edges, n)).unwrap_err();
    let members: BTreeSet<u64> = cycle.iter().copied().collect();
    assert_eq!(cycle.len(), 3);
    assert_eq!(members, BTreeSet::from([2, 3, 4]));
    let own: [(u64, &[u64]); 1] = [(1, &[1])];
    assert_eq!(topo_sort(&vec![1], |n| nexts(&own, n)), Err(vec![1]));
}

// --- Membership ---

fn pr(n: u64) -> PrNum {
    PrNum::new(n).unwrap()
}

fn gh_pr(number: u64, head: &str, state: PrState) -> GhPr {
    GhPr {
        number: pr(number),
        head_ref_name: Bookmark(head.to_owned()),
        base_ref_name: Bookmark("main".to_owned()),
        state,
        is_draft: false,
        url: String::new(),
        title: String::new(),
        head_repo_owner: None,
        merge_commit_oid: None,
    }
}

fn ambiguous(branch: &[u64], trailer: &[u64]) -> Node {
    Node::Ambiguous {
        branch_prs: branch.iter().copied().collect(),
        trailer_prs: trailer.iter().copied().collect(),
    }
}

fn show(r: Result<(Option<Node>, Option<u64>), BuildError>) -> String {
    match r {
        Ok((node, key)) => format!("{node:?} {key:?}"),
        Err(e) => format!("{e:?}"),
    }
}

fn shown(node: Node, key: Option<u64>) -> String {
    format!("{:?} {key:?}", Some(node))
}

#[test]
fn children_of_one_pr_are_joined() {
    let a = Node::Pr(pr(1));
    assert_eq!(show(decide_combine_child_nodes(&vec![])), "None None");
    let one = vec![(5, &a)];
    assert_eq!(show(decide_combine_child_nodes(&one)), shown(Node::Pr(pr(1)), Some(5)));
    let twice = vec![(5, &a), (5, &a)];
    assert_eq!(show(decide_combine_child_nodes(&twice)), shown(Node::Pr(pr(1)), Some(5)));
}

#[test]
fn children_of_several_prs_are_ambiguous() {
    let a = Node::Pr(pr(1));
    let b = Node::Pr(pr(2));
    let both = ambiguous(&[1, 2], &[]);
    let ab = vec![(5, &a), (6, &b)];
    let ba = vec![(6, &b), (5, &a)];
    assert_eq!(show(decide_combine_child_nodes(&ab)), shown(both.clone(), None));
    assert_eq!(show(decide_combine_child_nodes(&ba)), shown(both.clone(), None));
    // A PR that is among the branches already joins their node.
    let known = ambiguous(&[1, 2], &[3]);
    let joined = vec![(5, &a), (7, &known)];
    assert_eq!(show(decide_combine_child_nodes(&joined)), shown(known.clone(), Some(7)));
    // Nodes of the same branches have their trailers put together, others lose them.
    let other = ambiguous(&[1, 2], &[4]);
    let same = vec![(8, &other), (7, &known)];
    assert_eq!(
        show(decide_combine_child_nodes(&same)),
        shown(ambiguous(&[1, 2], &[3, 4]), Some(7))
    );
    let third = ambiguous(&[3], &[4]);
    let more = vec![(7, &known), (9, &third)];
    assert_eq!(
        show(decide_combine_child_nodes(&more)),
        shown(ambiguous(&[1, 2, 3], &[]), None)
    );
}

#[test]
fn order_of_children_does_not_matter() {
    let a = Node::Pr(pr(1));
    let b = Node::Pr(pr(2));
    let both = ambiguous(&[1, 2], &[3]);
    let twin = ambiguous(&[1, 2], &[4]);
    let lone = ambiguous(&[1], &[5]);
    let turned = |children: &[(u64, &Node)], want: String| {
        for start in 0..children.len() {
            let mut list: Vec<(u64, &Node)> = children.to_vec();
            list.rotate_left(start);
            assert_eq!(show(decide_combine_child_nodes(&list)), want);
            list.reverse();
            assert_eq!(show(decide_combine_child_nodes(&list)), want);
        }
    };
    turned(
        &[(5, &a), (6, &b), (9, &both), (8, &twin)],
        shown(ambiguous(&[1, 2], &[3, 4]), Some(8)),
    );
    // One ambiguous child that differs makes a new node.
    turned(
        &[(5, &a), (6, &b), (9, &both), (8, &twin), (7, &lone)],
        shown(ambiguous(&[1, 2], &[]), None),
    );
    // The node of a PR stays what it is.
    for list in [vec![(5, &a), (7, &lone)], vec![(7, &lone), (5, &a)]] {
        assert_eq!(show(decide_combine_child_nodes(&list)), shown(lone.clone(), Some(7)));
    }
}

#[test]
fn ambiguous_children_that_differ_make_a_new_node() {
    let both = ambiguous(&[1, 2], &[5]);
    let lone = ambiguous(&[1], &[6]);
    let none = ambiguous(&[], &[7]);
    let cases: [(&Node, &Node, &[u64]); 2] = [(&both, &lone, &[1, 2]), (&lone, &none, &[1])];
    for (x, y, all) in cases {
        let want = shown(ambiguous(all, &[]), None);
        assert_eq!(show(decide_combine_child_nodes(&vec![(3, x), (4, y)])), want);
        assert_eq!(show(decide_combine_child_nodes(&vec![(4, y), (3, x)])), want);
    }
}

#[test]
fn trunk_is_not_combined() {
    let a = Node::Pr(pr(1));
    let trunk = Node::TrunkTip;
    let list = vec![(5, &a), (6, &trunk)];
    assert_eq!(show(decide_combine_child_nodes(&list)), "Boundary");
}

fn decided(
    trunk: bool,
    tips: &[u64],
    children: &[(u64, Node)],
    trailer: Option<u64>,
    local: &[u64],
    found: &[u64],
    prs: &[GhPr],
) -> String {
    let tips: Vec<PrNum> = tips.iter().map(|n| pr(*n)).collect();
    let children: Vec<(u64, &Node)> = children.iter().map(|(k, n)| (*k, n)).collect();
    let map: BTreeMap<u64, &GhPr> = prs.iter().map(|p| (p.number.get(), p)).collect();
    show(decide(
        trunk,
        &tips,
        &children,
        trailer.map(pr),
        &local.iter().copied().collect(),
        &found.iter().copied().collect(),
        &map,
    ))
}

#[test]
fn trunk_tip_has_its_own_node() {
    assert_eq!(
        decided(true, &[1], &[], Some(2), &[1], &[], &[]),
        shown(Node::TrunkTip, None)
    );
}

#[test]
fn tips_start_nodes() {
    let child = [(5, Node::Pr(pr(9)))];
    assert_eq!(
        decided(false, &[1], &child, None, &[1], &[], &[]),
        shown(Node::Pr(pr(1)), None)
    );
    assert_eq!(
        decided(false, &[1], &child, Some(1), &[1], &[], &[]),
        shown(Node::Pr(pr(1)), None)
    );
    assert_eq!(
        decided(false, &[1, 2], &[], None, &[1, 2], &[], &[]),
        shown(ambiguous(&[1, 2], &[]), None)
    );
}

#[test]
fn commits_join_their_child() {
    let child = [(5, Node::Pr(pr(1)))];
    assert_eq!(
        decided(false, &[], &child, None, &[1], &[1], &[]),
        shown(Node::Pr(pr(1)), Some(5))
    );
    assert_eq!(decided(false, &[], &[], None, &[], &[], &[]), "None None");
}

#[test]
fn other_trailers_are_ambiguous() {
    let child = [(5, Node::Pr(pr(1)))];
    let open = [gh_pr(2, "b", PrState::Open)];
    assert_eq!(
        decided(false, &[], &child, Some(2), &[1], &[1], &open),
        shown(ambiguous(&[1], &[2]), None)
    );
    assert_eq!(
        decided(false, &[], &[], Some(2), &[], &[], &open),
        shown(ambiguous(&[], &[2]), None)
    );
    let shared = [(6, ambiguous(&[1, 3], &[4]))];
    assert_eq!(
        decided(false, &[], &shared, Some(2), &[1], &[1], &open),
        shown(ambiguous(&[1, 3], &[2, 4]), Some(6))
    );
}

#[test]
fn stale_trailers_are_ignored() {
    let child = [(5, Node::Pr(pr(1)))];
    let closed = [gh_pr(2, "b", PrState::Closed)];
    assert_eq!(
        decided(false, &[], &child, Some(2), &[1], &[1], &closed),
        shown(Node::Pr(pr(1)), Some(5))
    );
    // With a local bookmark the trailer counts.
    assert_eq!(
        decided(false, &[], &child, Some(2), &[1, 2], &[1], &closed),
        shown(ambiguous(&[1], &[2]), None)
    );
}

#[test]
fn deleted_branches_are_recovered() {
    let child = [(5, Node::Pr(pr(1)))];
    let merged = [gh_pr(2, "b", PrState::Merged)];
    assert_eq!(
        decided(false, &[], &child, Some(2), &[1], &[1], &merged),
        shown(Node::Pr(pr(2)), None)
    );
    // Not a second time.
    assert_eq!(
        decided(false, &[], &child, Some(2), &[1], &[1, 2], &merged),
        shown(ambiguous(&[1], &[2]), None)
    );
}

#[test]
fn trailers_below_trunk_are_refused() {
    let child = [(5, Node::TrunkTip)];
    assert_eq!(decided(false, &[], &child, Some(2), &[], &[], &[]), "Boundary");
}

#[test]
fn nodes_contain_their_prs() {
    assert!(Node::Pr(pr(1)).contains_pr(pr(1)));
    assert!(!Node::Pr(pr(1)).contains_pr(pr(2)));
    assert!(ambiguous(&[1], &[2]).contains_pr(pr(2)));
    assert!(ambiguous(&[1], &[2]).contains_pr(pr(1)));
    assert!(!ambiguous(&[1], &[2]).contains_pr(pr(3)));
    assert!(!Node::Root.contains_pr(pr(1)));
    assert!(!Node::TrunkTip.contains_pr(pr(1)));
}

// --- States that cannot be built ---

fn entry(cid: &str, parents: &[&str], desc: &str, bookmarks: &[&str], trunk: bool) -> JjLogEntry {
    JjLogEntry {
        commit: JjCommit {
            commit_id: CommitId(cid.to_owned()),
            change_id: ChangeId(format!("ch{cid}")),
            parents: parents.iter().map(|s| CommitId(s.to_string())).collect(),
            description: desc.to_owned(),
        },
        local_bookmarks: bookmarks
            .iter()
            .map(|name| JjBookmark {
                name: Bookmark(name.to_string()),
                target: vec![Some(CommitId(cid.to_owned()))],
            })
            .collect(),
        remote_bookmarks: vec![],
        immutable: trunk,
        is_trunk_tip: trunk,
        empty: false,
        is_working_copy: false,
        conflict: false,
    }
}

fn build_error(entries: Vec<JjLogEntry>, prs: &[GhPr]) -> BuildError {
    let map: BTreeMap<u64, &GhPr> = prs.iter().map(|p| (p.number.get(), p)).collect();
    match build(&entries, &map, &Bookmark("main".to_owned()), None, "origin") {
        Ok(_) => panic!("a state was built"),
        Err(e) => e,
    }
}

#[test]
fn commits_below_trunk_are_not_shared() {
    let e = build_error(
        vec![
            entry("a", &["x"], "a\n", &["feat"], false),
            entry("t", &["x"], "t\n", &[], true),
            entry("x", &[], "x\n", &[], false),
        ],
        &[gh_pr(1, "feat", PrState::Open)],
    );
    assert!(matches!(e, BuildError::Boundary));
}

#[test]
fn a_pr_has_one_node() {
    let e = build_error(
        vec![
            entry("a", &["t"], "a\n", &["feat"], false),
            entry("b", &["t"], "b\n", &["feat"], false),
            entry("t", &[], "t\n", &[], true),
        ],
        &[gh_pr(1, "feat", PrState::Open)],
    );
    assert!(matches!(e, BuildError::DuplicatePr(1)));
}

#[test]
fn interleaved_nodes_make_a_cycle() {
    // The bookmarks stand at two places each, and the commits between those are shared.
    let e = build_error(
        vec![
            entry("p", &["x"], "p\n", &["feat-a"], false),
            entry("q", &["x"], "q\n", &["feat-b"], false),
            entry("x", &["y", "w"], "x\n", &[], false),
            entry("y", &["z"], "y\n", &["feat-a", "feat-b"], false),
            entry("w", &["z"], "w\n", &[], false),
            entry("z", &["t"], "z\n", &[], false),
            entry("t", &[], "t\n", &[], true),
        ],
        &[gh_pr(1, "feat-a", PrState::Open), gh_pr(2, "feat-b", PrState::Open)],
    );
    match e {
        BuildError::Cycle(keys) => assert_eq!(keys.len(), 2),
        other => panic!("{other:?}"),
    }
}

#[test]
fn trailers_are_listed_in_order() {
    let entries = vec![
        entry("a", &[], "a\n\nPR: #7\n", &[], false),
        entry("b", &[], "b\n", &[], false),
        entry("c", &[], "c\n\nPR: #3\n", &[], false),
        entry("d", &[], "d\n\nPR: #7\n", &[], false),
    ];
    assert_eq!(extract_pr_nums(&entries), vec![pr(3), pr(7)]);
}
