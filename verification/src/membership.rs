//! Which node each commit belongs to.
//!
//! The commits are visited from children to parents. Each joins the node of its children or
//! starts a node of its own, by where the bookmarks of the pull requests are and by its trailer.
use std::collections::{BTreeMap, BTreeSet};
use vstd::prelude::*;

use crate::claims::{claimed, collect_claims, pr_in_state, tip_prs};
use crate::gh::{GhPr, PrNum, PrState};
use crate::jj::{parse_pr_trailer, JjLogEntry};
use crate::node_store::{MarkSet, NodeKey, NodeSlots};
use crate::pr_dag::{BuildError, Node, NodeView};
use crate::sets::{add_all, same_numbers, TextMap, TextSet};
use crate::text::same_text;
use crate::types::CommitId;

verus! {

// --- The decision ---

/// The node for a commit: what it is, and which of the existing nodes it is.
///
/// Without a key it is a new node; without a node the commit belongs to none.
pub struct Decision {
    pub node: Option<NodeView>,
    pub key: Option<NodeKey>,
}

/// What an optional node stands for.
pub open spec fn opt_node(node: Option<Node>) -> Option<NodeView> {
    match node {
        Some(n) => Some(n@),
        None => None,
    }
}

/// What a pair of node and key says.
pub open spec fn decision_view(pair: (Option<Node>, Option<NodeKey>)) -> Decision {
    Decision { node: opt_node(pair.0), key: pair.1 }
}

/// The keys of child nodes and what they stand for.
pub open spec fn child_views(children: Seq<(NodeKey, &Node)>) -> Seq<(NodeKey, NodeView)> {
    Seq::new(children.len(), |i: int| (children[i].0, children[i].1@))
}

/// Whether a node contains the given PR.
pub open spec fn node_contains(node: NodeView, n: u64) -> bool {
    match node {
        NodeView::Root => false,
        NodeView::TrunkTip => false,
        NodeView::Pr(other) => other == n,
        NodeView::Ambiguous { branch_prs, trailer_prs } => branch_prs.contains(n)
            || trailer_prs.contains(n),
    }
}

/// The branch PRs of a node.
pub open spec fn branch_set(node: NodeView) -> Set<u64> {
    match node {
        NodeView::Root => Set::empty(),
        NodeView::TrunkTip => Set::empty(),
        NodeView::Pr(n) => set![n],
        NodeView::Ambiguous { branch_prs, trailer_prs } => branch_prs,
    }
}

/// The branch PRs of all the given nodes.
pub open spec fn all_branches(children: Seq<(NodeKey, NodeView)>) -> Set<u64> {
    Set::new(
        |n: u64|
            exists|i: int|
                0 <= i < children.len() && branch_set((#[trigger] children[i]).1).contains(n),
    )
}

/// Whether the nodes can be combined: neither the root nor the trunk is among them.
pub open spec fn combinable(children: Seq<(NodeKey, NodeView)>) -> bool {
    forall|i: int|
        0 <= i < children.len() ==> (#[trigger] children[i]).1 is Pr || children[i].1 is Ambiguous
}

/// Whether all the nodes are of one and the same PR.
pub open spec fn all_of_one_pr(children: Seq<(NodeKey, NodeView)>) -> bool {
    &&& forall|i: int| 0 <= i < children.len() ==> (#[trigger] children[i]).1 is Pr
    &&& forall|i: int, j: int|
        0 <= i < children.len() && 0 <= j < children.len() ==> (#[trigger] children[i]).1 == (
        #[trigger] children[j]).1
}

/// Whether each ambiguous node has the branch PRs of all the nodes.
pub open spec fn ambiguous_agree(children: Seq<(NodeKey, NodeView)>) -> bool {
    forall|i: int|
        0 <= i < children.len() && (#[trigger] children[i]).1 is Ambiguous ==> branch_set(
            children[i].1,
        ) == all_branches(children)
}

/// Whether a node can stand for all the nodes: it has the branch PRs of all of them, and either
/// all are of one PR, or it is ambiguous and no ambiguous node has other branch PRs.
pub open spec fn stands_for(children: Seq<(NodeKey, NodeView)>, node: NodeView) -> bool {
    &&& branch_set(node) == all_branches(children)
    &&& all_of_one_pr(children) || (node is Ambiguous && ambiguous_agree(children))
}

/// Whether `k` is the key of one of the nodes that can stand for all, and the lowest.
pub open spec fn is_joint_key(children: Seq<(NodeKey, NodeView)>, k: NodeKey) -> bool {
    &&& exists|i: int|
        0 <= i < children.len() && (#[trigger] children[i]).0 == k && stands_for(
            children,
            children[i].1,
        )
    &&& forall|i: int|
        0 <= i < children.len() && stands_for(children, (#[trigger] children[i]).1) ==> k
            <= children[i].0
}

/// The key of the node that can stand for all the nodes, if there is one.
pub open spec fn joint_key(children: Seq<(NodeKey, NodeView)>) -> Option<NodeKey> {
    if exists|k: NodeKey| is_joint_key(children, k) {
        Some(choose|k: NodeKey| is_joint_key(children, k))
    } else {
        None
    }
}

/// The trailer PRs of a node.
pub open spec fn trailer_set(node: NodeView) -> Set<u64> {
    match node {
        NodeView::Ambiguous { branch_prs, trailer_prs } => trailer_prs,
        _ => Set::empty(),
    }
}

/// The trailer PRs of the nodes that can stand for all the nodes.
pub open spec fn joint_trailers(children: Seq<(NodeKey, NodeView)>) -> Set<u64> {
    Set::new(
        |n: u64|
            exists|i: int|
                0 <= i < children.len() && stands_for(children, (#[trigger] children[i]).1)
                    && trailer_set(children[i].1).contains(n),
    )
}

/// The node that the child nodes make together. There is none where the root or the trunk is to
/// be combined with another node.
///
/// Nodes of one PR make its node. Otherwise the node is ambiguous between the branch PRs of all
/// the children: it is a child that is that already, where all ambiguous children are, or a new
/// node.
pub open spec fn combined(children: Seq<(NodeKey, NodeView)>) -> Option<Decision> {
    if children.len() == 0 {
        Some(Decision { node: None, key: None })
    } else if children.len() == 1 {
        Some(Decision { node: Some(children[0].1), key: Some(children[0].0) })
    } else if !combinable(children) {
        None
    } else if all_of_one_pr(children) {
        Some(Decision { node: Some(children[0].1), key: joint_key(children) })
    } else {
        Some(
            Decision {
                node: Some(
                    NodeView::Ambiguous {
                        branch_prs: all_branches(children),
                        trailer_prs: joint_trailers(children),
                    },
                ),
                key: joint_key(children),
            },
        )
    }
}

/// The decision before the trailer is looked at: a PR's own tip, or what the children make.
pub open spec fn untrailed(tips: Seq<u64>, children: Seq<(NodeKey, NodeView)>) -> Option<Decision> {
    if tips.len() == 0 {
        combined(children)
    } else if tips.len() == 1 {
        Some(Decision { node: Some(NodeView::Pr(tips[0])), key: None })
    } else {
        Some(
            Decision {
                node: Some(
                    NodeView::Ambiguous { branch_prs: tips.to_set(), trailer_prs: Set::empty() },
                ),
                key: None,
            },
        )
    }
}

/// Takes the trailer of a commit into account.
///
/// The trailer of a closed PR without local bookmark is stale. The trailer of a merged PR
/// without local bookmark makes the commit the tip of that PR, where the PR was not met before.
/// Any other trailer has to agree with the branches: where it does not, the commit is ambiguous.
pub open spec fn trailed(
    d: Decision,
    n: u64,
    local: Set<u64>,
    found: Set<u64>,
    prs: Map<u64, &GhPr>,
) -> Option<Decision> {
    if !local.contains(n) && crate::claims::in_state(prs, n, PrState::Closed) {
        Some(d)
    } else if !local.contains(n) && crate::claims::in_state(prs, n, PrState::Merged)
        && !found.contains(n) && !(d.node is Some && node_contains(d.node->0, n)) {
        Some(Decision { node: Some(NodeView::Pr(n)), key: None })
    } else {
        match d.node {
            None => Some(
                Decision {
                    node: Some(
                        NodeView::Ambiguous { branch_prs: Set::empty(), trailer_prs: set![n] },
                    ),
                    key: None,
                },
            ),
            Some(NodeView::Root) => None,
            Some(NodeView::TrunkTip) => None,
            Some(NodeView::Pr(other)) => if other == n {
                Some(d)
            } else {
                Some(
                    Decision {
                        node: Some(
                            NodeView::Ambiguous {
                                branch_prs: set![other],
                                trailer_prs: set![n],
                            },
                        ),
                        key: None,
                    },
                )
            },
            Some(NodeView::Ambiguous { branch_prs, trailer_prs }) => Some(
                Decision {
                    node: Some(
                        NodeView::Ambiguous { branch_prs, trailer_prs: trailer_prs.insert(n) },
                    ),
                    key: d.key,
                },
            ),
        }
    }
}

/// The decision for a commit. There is none where the root or the trunk would have to be merged
/// with something else.
pub open spec fn decided(
    is_trunk_tip: bool,
    tips: Seq<u64>,
    children: Seq<(NodeKey, NodeView)>,
    trailer: Option<u64>,
    local: Set<u64>,
    found: Set<u64>,
    prs: Map<u64, &GhPr>,
) -> Option<Decision> {
    if is_trunk_tip {
        Some(Decision { node: Some(NodeView::TrunkTip), key: None })
    } else {
        match (untrailed(tips, children), trailer) {
            (None, _) => None,
            (Some(d), None) => Some(d),
            (Some(d), Some(n)) => trailed(d, n, local, found, prs),
        }
    }
}

fn single(n: u64) -> (r: BTreeSet<u64>)
    ensures
        r@ == set![n],
{
    let mut s: BTreeSet<u64> = BTreeSet::new();
    s.insert(n);
    s
}

impl Node {
    /// Whether this node contains the given PR.
    pub fn contains_pr(&self, pr_num: PrNum) -> (r: bool)
        ensures
            r == node_contains(self@, pr_num@),
    {
        broadcast use vstd::std_specs::btree::group_btree_axioms;

        match self {
            Node::Root => false,
            Node::TrunkTip => false,
            Node::Pr(other_pr_num) => other_pr_num.get() == pr_num.get(),
            Node::Ambiguous { branch_prs, trailer_prs } => branch_prs.contains(&pr_num.get())
                || trailer_prs.contains(&pr_num.get()),
        }
    }
}

/// The branch PRs of all child nodes, or an error where one is the root or the trunk.
fn join_branches(child_nodes: &Vec<(NodeKey, &Node)>) -> (r: Option<BTreeSet<u64>>)
    ensures
        r is Some <==> combinable(child_views(child_nodes@)),
        r is Some ==> r->0@ == all_branches(child_views(child_nodes@)),
{
    let ghost views = child_views(child_nodes@);
    let mut all: BTreeSet<u64> = BTreeSet::new();
    let mut i: usize = 0;
    assert(all@ == all_branches(views.take(0)));
    while i < child_nodes.len()
        invariant
            i <= child_nodes.len(),
            views == child_views(child_nodes@),
            forall|j: int|
                0 <= j < i ==> (#[trigger] views[j]).1 is Pr || views[j].1 is Ambiguous,
            all@ == all_branches(views.take(i as int)),
        decreases child_nodes.len() - i,
    {
        proof {
            lemma_all_branches(views.take(i + 1));
            assert(views.take(i + 1).drop_last() == views.take(i as int));
            assert(views[i as int].1 == child_nodes@[i as int].1@);
        }
        match child_nodes[i].1 {
            Node::Pr(n) => {
                all.insert(n.get());
                assert(all@ == all_branches(views.take(i as int)).union(set![n@]));
            },
            Node::Ambiguous { branch_prs, trailer_prs: _ } => {
                add_all(&mut all, branch_prs);
            },
            _ => {
                assert(!(views[i as int].1 is Pr || views[i as int].1 is Ambiguous));
                return None;
            },
        }
        i = i + 1;
    }
    assert(views.take(i as int) == views);
    Some(all)
}

/// The PR that all child nodes are of, if there is one.
fn only_pr(child_nodes: &Vec<(NodeKey, &Node)>) -> (r: Option<PrNum>)
    requires
        child_nodes@.len() > 0,
    ensures
        r is Some <==> all_of_one_pr(child_views(child_nodes@)),
        r is Some ==> child_views(child_nodes@)[0].1 == NodeView::Pr(r->0@),
{
    let ghost views = child_views(child_nodes@);
    let first = match child_nodes[0].1 {
        Node::Pr(n) => *n,
        _ => {
            assert(!(views[0].1 is Pr));
            return None;
        },
    };
    assert(views[0].1 == NodeView::Pr(first@));
    let mut i: usize = 0;
    while i < child_nodes.len()
        invariant
            i <= child_nodes.len(),
            child_nodes@.len() > 0,
            views == child_views(child_nodes@),
            views[0].1 == NodeView::Pr(first@),
            forall|j: int| 0 <= j < i ==> (#[trigger] views[j]).1 == NodeView::Pr(first@),
        decreases child_nodes.len() - i,
    {
        let same = match child_nodes[i].1 {
            Node::Pr(n) => n.get() == first.get(),
            _ => false,
        };
        assert(views[i as int].1 == child_nodes@[i as int].1@);
        if !same {
            assert(views[i as int].1 != views[0].1);
            return None;
        }
        i = i + 1;
    }
    Some(first)
}

/// Whether each ambiguous child node has the branch PRs of all, which are `all`.
fn do_ambiguous_agree(child_nodes: &Vec<(NodeKey, &Node)>, all: &BTreeSet<u64>) -> (r: bool)
    requires
        all@ == all_branches(child_views(child_nodes@)),
    ensures
        r == ambiguous_agree(child_views(child_nodes@)),
{
    let ghost views = child_views(child_nodes@);
    let mut i: usize = 0;
    while i < child_nodes.len()
        invariant
            i <= child_nodes.len(),
            views == child_views(child_nodes@),
            all@ == all_branches(views),
            forall|j: int|
                0 <= j < i && (#[trigger] views[j]).1 is Ambiguous ==> branch_set(views[j].1)
                    == all_branches(views),
        decreases child_nodes.len() - i,
    {
        assert(views[i as int].1 == child_nodes@[i as int].1@);
        if let Node::Ambiguous { branch_prs, trailer_prs: _ } = child_nodes[i].1 {
            if !same_numbers(branch_prs, all) {
                assert(branch_set(views[i as int].1) != all_branches(views));
                return false;
            }
        }
        i = i + 1;
    }
    true
}

/// The key of the node that can stand for all, and the trailer PRs of all that can. `all` has
/// the branch PRs of all, `one` tells whether all are of one PR.
fn join_nodes(child_nodes: &Vec<(NodeKey, &Node)>, all: &BTreeSet<u64>, one: bool) -> (r: (
    Option<NodeKey>,
    BTreeSet<u64>,
))
    requires
        all@ == all_branches(child_views(child_nodes@)),
        one == all_of_one_pr(child_views(child_nodes@)),
    ensures
        r.0 == joint_key(child_views(child_nodes@)),
        r.1@ == joint_trailers(child_views(child_nodes@)),
{
    let ghost views = child_views(child_nodes@);
    let agree = do_ambiguous_agree(child_nodes, all);
    let mut key: Option<NodeKey> = None;
    let mut trailers: BTreeSet<u64> = BTreeSet::new();
    let mut i: usize = 0;
    while i < child_nodes.len()
        invariant
            i <= child_nodes.len(),
            views == child_views(child_nodes@),
            one == all_of_one_pr(views),
            agree == ambiguous_agree(views),
            key is None ==> forall|j: int|
                0 <= j < i ==> !stands_for(views, (#[trigger] views[j]).1),
            key is Some ==> exists|j: int|
                0 <= j < i && (#[trigger] views[j]).0 == key->0 && stands_for(views, views[j].1),
            key is Some ==> forall|j: int|
                0 <= j < i && stands_for(views, (#[trigger] views[j]).1) ==> key->0 <= views[j].0,
            forall|n: u64| #[trigger]
                trailers@.contains(n) <==> exists|j: int|
                    0 <= j < i && stands_for(views, (#[trigger] views[j]).1) && trailer_set(
                        views[j].1,
                    ).contains(n),
        decreases child_nodes.len() - i,
    {
        let (k, node) = child_nodes[i];
        let ghost at = i as int;
        assert(views[at] == (k, node@));
        let stands = match node {
            Node::Ambiguous { branch_prs: _, trailer_prs: _ } => agree,
            Node::Pr(_) => one,
            _ => false,
        };
        proof {
            if node@ is Pr && one {
                lemma_one_pr(views);
            }
            if !(node@ is Pr) {
                assert(!all_of_one_pr(views));
            }
        }
        assert(stands == stands_for(views, views[at].1));
        let ghost before = trailers@;
        if stands {
            key = match key {
                Some(other) => if other <= k {
                    Some(other)
                } else {
                    Some(k)
                },
                None => Some(k),
            };
            if let Node::Ambiguous { branch_prs: _, trailer_prs } = node {
                add_all(&mut trailers, trailer_prs);
            }
            assert(trailers@ == before.union(trailer_set(views[at].1)));
        }
        i = i + 1;
        assert forall|n: u64| #[trigger]
            trailers@.contains(n) <==> exists|j: int|
                0 <= j < i && stands_for(views, (#[trigger] views[j]).1) && trailer_set(
                    views[j].1,
                ).contains(n) by {
            if before.contains(n) {
                let j = choose|j: int|
                    0 <= j < at && stands_for(views, (#[trigger] views[j]).1) && trailer_set(
                        views[j].1,
                    ).contains(n);
                assert(stands_for(views, views[j].1));
            }
            if exists|j: int|
                0 <= j < i && stands_for(views, (#[trigger] views[j]).1) && trailer_set(
                    views[j].1,
                ).contains(n) {
                let j = choose|j: int|
                    0 <= j < i && stands_for(views, (#[trigger] views[j]).1) && trailer_set(
                        views[j].1,
                    ).contains(n);
                if j < at {
                    assert(before.contains(n));
                }
            }
        }
    }
    proof {
        assert(trailers@ =~= joint_trailers(views));
        if key is Some {
            assert(is_joint_key(views, key->0));
            lemma_joint_key(views, key->0);
        } else {
            assert forall|k: NodeKey| !is_joint_key(views, k) by {}
        }
    }
    (key, trailers)
}

/// [`decide`] helper for combining child nodes. The result does not depend on their order.
pub fn decide_combine_child_nodes(child_nodes: &Vec<(NodeKey, &Node)>) -> (r: Result<
    (Option<Node>, Option<NodeKey>),
    BuildError,
>)
    ensures
        match combined(child_views(child_nodes@)) {
            Some(d) => r is Ok && decision_view(r->Ok_0) == d,
            None => r is Err && r->Err_0 is Boundary,
        },
{
    if child_nodes.len() == 0 {
        return Ok((None, None));
    }
    if child_nodes.len() == 1 {
        return Ok((Some(child_nodes[0].1.clone()), Some(child_nodes[0].0)));
    }
    let branch_prs = match join_branches(child_nodes) {
        Some(all) => all,
        None => {
            return Err(BuildError::Boundary);
        },
    };
    let one = only_pr(child_nodes);
    let (key, trailer_prs) = join_nodes(child_nodes, &branch_prs, one.is_some());
    match one {
        Some(n) => Ok((Some(Node::Pr(n)), key)),
        None => Ok((Some(Node::Ambiguous { branch_prs, trailer_prs }), key)),
    }
}

proof fn lemma_all_branches(children: Seq<(NodeKey, NodeView)>)
    requires
        children.len() > 0,
    ensures
        all_branches(children) == all_branches(children.drop_last()).union(
            branch_set(children.last().1),
        ),
{
    let head = children.drop_last();
    let last = children.len() - 1;
    assert forall|n: u64| #[trigger]
        all_branches(children).contains(n) <==> all_branches(head).union(
            branch_set(children.last().1),
        ).contains(n) by {
        if all_branches(children).contains(n) {
            let i = choose|i: int|
                0 <= i < children.len() && branch_set((#[trigger] children[i]).1).contains(n);
            if i < last {
                assert(branch_set(head[i].1).contains(n));
            }
        }
        if all_branches(head).contains(n) {
            let i = choose|i: int|
                0 <= i < head.len() && branch_set((#[trigger] head[i]).1).contains(n);
            assert(branch_set(children[i].1).contains(n));
        }
        if branch_set(children.last().1).contains(n) {
            assert(branch_set(children[last].1).contains(n));
        }
    }
    assert(all_branches(children) =~= all_branches(head).union(branch_set(children.last().1)));
}

/// The nodes of one PR all have its branch alone.
proof fn lemma_one_pr(children: Seq<(NodeKey, NodeView)>)
    requires
        children.len() > 0,
        all_of_one_pr(children),
    ensures
        all_branches(children) == branch_set(children[0].1),
        forall|i: int| 0 <= i < children.len() ==> stands_for(children, (#[trigger] children[i]).1),
{
    assert forall|n: u64| #[trigger]
        all_branches(children).contains(n) <==> branch_set(children[0].1).contains(n) by {
        if all_branches(children).contains(n) {
            let i = choose|i: int|
                0 <= i < children.len() && branch_set((#[trigger] children[i]).1).contains(n);
            assert(children[i].1 == children[0].1);
        }
    }
    assert(all_branches(children) =~= branch_set(children[0].1));
    assert forall|i: int| 0 <= i < children.len() implies stands_for(
        children,
        (#[trigger] children[i]).1,
    ) by {
        assert(children[i].1 == children[0].1);
    }
}

/// There is one joint key at most.
proof fn lemma_joint_key(children: Seq<(NodeKey, NodeView)>, k: NodeKey)
    requires
        is_joint_key(children, k),
    ensures
        joint_key(children) == Some(k),
{
    let other = choose|k: NodeKey| is_joint_key(children, k);
    let i = choose|i: int|
        0 <= i < children.len() && (#[trigger] children[i]).0 == k && stands_for(
            children,
            children[i].1,
        );
    let j = choose|j: int|
        0 <= j < children.len() && (#[trigger] children[j]).0 == other && stands_for(
            children,
            children[j].1,
        );
    assert(other <= children[i].0 && k <= children[j].0);
}

/// Where a node can stand for all, there is a joint key.
proof fn lemma_joint_key_exists(children: Seq<(NodeKey, NodeView)>, i: int)
    requires
        0 <= i < children.len(),
        stands_for(children, children[i].1),
    ensures
        joint_key(children) is Some,
    decreases children[i].0,
{
    if exists|j: int|
        0 <= j < children.len() && stands_for(children, (#[trigger] children[j]).1)
            && children[j].0 < children[i].0 {
        let j = choose|j: int|
            0 <= j < children.len() && stands_for(children, (#[trigger] children[j]).1)
                && children[j].0 < children[i].0;
        lemma_joint_key_exists(children, j);
    } else {
        assert(is_joint_key(children, children[i].0));
    }
}

/// The main decision logic for assigning a commit to a `Node`.
///
/// Return value is `(new_node_value, existing_node_key)`, both options.
/// If the existing node key is `Some`, that key will be used, and possibly updated, in-place.
/// If the new node value is `Some`, that value will be used (inserted or updated based on key).
/// Both are `None` if the commit should be skipped.
pub fn decide(
    is_trunk_tip: bool,
    tip_pr_nums: &Vec<PrNum>,
    child_nodes: &Vec<(NodeKey, &Node)>,
    trailer_pr_num: Option<PrNum>,
    pr_local: &BTreeSet<u64>,
    already_found_prs: &BTreeSet<u64>,
    prs: &BTreeMap<u64, &GhPr>,
) -> (r: Result<(Option<Node>, Option<NodeKey>), BuildError>)
    ensures
        match decided(
            is_trunk_tip,
            crate::claims::pr_views(tip_pr_nums@),
            child_views(child_nodes@),
            crate::jj::opt_pr(trailer_pr_num),
            pr_local@,
            already_found_prs@,
            prs@,
        ) {
            Some(d) => r is Ok && decision_view(r->Ok_0) == d,
            None => r is Err && r->Err_0 is Boundary,
        },
{
    broadcast use vstd::std_specs::btree::group_btree_axioms;

    if is_trunk_tip {
        return Ok((Some(Node::TrunkTip), None));
    }
    let (node, node_key) = if tip_pr_nums.len() == 0 {
        // If no tip PR nums, inherit from the children.
        match decide_combine_child_nodes(child_nodes) {
            Ok(pair) => pair,
            Err(e) => {
                return Err(e);
            },
        }
    } else if tip_pr_nums.len() == 1 {
        // If single tip PR num, use it.
        (Some(Node::Pr(tip_pr_nums[0])), None)
    } else {
        // If there are multiple, ambiguous.
        (
            Some(
                Node::Ambiguous {
                    branch_prs: collect_numbers(tip_pr_nums),
                    trailer_prs: BTreeSet::new(),
                },
            ),
            None,
        )
    };
    let ghost before = decision_view((node, node_key));
    assert(untrailed(crate::claims::pr_views(tip_pr_nums@), child_views(child_nodes@)) == Some(
        before,
    ));
    // Finally, incorporate the trailer PR num.
    let trailer = match trailer_pr_num {
        Some(n) => n,
        None => {
            return Ok((node, node_key));
        },
    };
    let is_local = pr_local.contains(&trailer.get());
    if !is_local && pr_in_state(prs, trailer.get(), PrState::Closed) {
        return Ok((node, node_key));
    }
    if !is_local && pr_in_state(prs, trailer.get(), PrState::Merged) {
        let known = already_found_prs.contains(&trailer.get()) || match &node {
            Some(n) => n.contains_pr(trailer),
            None => false,
        };
        if !known {
            return Ok((Some(Node::Pr(trailer)), None));
        }
    }
    match node {
        None => {
            // A trailer PR num alone is not enough to start a PR node.
            Ok(
                (
                    Some(
                        Node::Ambiguous {
                            branch_prs: BTreeSet::new(),
                            trailer_prs: single(trailer.get()),
                        },
                    ),
                    None,
                ),
            )
        },
        Some(Node::Root) => Err(BuildError::Boundary),
        Some(Node::TrunkTip) => Err(BuildError::Boundary),
        Some(Node::Pr(other)) => {
            if other.get() == trailer.get() {
                Ok((Some(Node::Pr(other)), node_key))
            } else {
                Ok(
                    (
                        Some(
                            Node::Ambiguous {
                                branch_prs: single(other.get()),
                                trailer_prs: single(trailer.get()),
                            },
                        ),
                        None,
                    ),
                )
            }
        },
        Some(Node::Ambiguous { branch_prs, trailer_prs }) => {
            let mut trailers = trailer_prs.clone();
            trailers.insert(trailer.get());
            Ok((Some(Node::Ambiguous { branch_prs, trailer_prs: trailers }), node_key))
        },
    }
}

fn collect_numbers(nums: &Vec<PrNum>) -> (r: BTreeSet<u64>)
    ensures
        r@ == crate::claims::pr_views(nums@).to_set(),
{
    let mut out: BTreeSet<u64> = BTreeSet::new();
    let ghost views = crate::claims::pr_views(nums@);
    let mut i: usize = 0;
    assert(views.take(0).to_set() == Set::<u64>::empty());
    while i < nums.len()
        invariant
            i <= nums.len(),
            views == crate::claims::pr_views(nums@),
            out@ == views.take(i as int).to_set(),
        decreases nums.len() - i,
    {
        assert(views.take(i + 1) == views.take(i as int).push(views[i as int]));
        proof {
            crate::sets::lemma_push_to_set(views.take(i as int), views[i as int]);
        }
        out.insert(nums[i].get());
        i = i + 1;
    }
    assert(views.take(i as int) == views);
    out
}

// --- The pass over the commits ---

/// The nodes, the node of each commit, the PRs that got a node and the nodes with a conflict.
#[verifier::ext_equal]
pub struct Membership {
    pub nodes: Seq<NodeView>,
    pub owner: Map<Seq<char>, NodeKey>,
    pub found: Set<u64>,
    pub conflicted: Set<NodeKey>,
}

/// Whether `commit` is a parent of the entry.
pub open spec fn is_parent(entry: JjLogEntry, commit: Seq<char>) -> bool {
    exists|j: int|
        0 <= j < entry.commit.parents@.len() && #[trigger] entry.commit.parents@[j]@ == commit
}

/// The nodes of the children of a commit, each once, in the order of the entries.
pub open spec fn child_keys(
    entries: Seq<JjLogEntry>,
    owner: Map<Seq<char>, NodeKey>,
    commit: Seq<char>,
) -> Seq<NodeKey>
    decreases entries.len(),
{
    if entries.len() == 0 {
        Seq::empty()
    } else {
        let before = child_keys(entries.drop_last(), owner, commit);
        let child = entries.last().commit.commit_id@;
        if is_parent(entries.last(), commit) && owner.contains_key(child) && !before.contains(
            owner[child],
        ) {
            before.push(owner[child])
        } else {
            before
        }
    }
}

/// The keys with the nodes that they are of.
pub open spec fn keyed(keys: Seq<NodeKey>, nodes: Seq<NodeView>) -> Seq<(NodeKey, NodeView)> {
    Seq::new(keys.len(), |i: int| (keys[i], nodes[crate::node_store::place(keys[i])]))
}

/// Makes the commit of an entry part of the node `key`.
pub open spec fn assigned(m: Membership, entry: JjLogEntry, key: NodeKey) -> Membership {
    Membership {
        owner: m.owner.insert(entry.commit.commit_id@, key),
        conflicted: if entry.conflict {
            m.conflicted.insert(key)
        } else {
            m.conflicted
        },
        ..m
    }
}

/// The membership after the commit of one more entry. Immutable commits are left out, but for
/// the tip of the trunk.
pub open spec fn visited(
    prs: Map<u64, &GhPr>,
    claims: Seq<crate::claims::Claim>,
    entries: Seq<JjLogEntry>,
    m: Membership,
    entry: JjLogEntry,
) -> Result<Membership, BuildError> {
    if entry.immutable && !entry.is_trunk_tip {
        Ok(m)
    } else {
        let commit = entry.commit.commit_id@;
        match decided(
            entry.is_trunk_tip,
            crate::claims::tips(claims, commit),
            keyed(child_keys(entries, m.owner, commit), m.nodes),
            crate::jj::pr_trailer(entry.commit.description@),
            crate::claims::local_prs(claims),
            m.found,
            prs,
        ) {
            None => Err(BuildError::Boundary),
            Some(d) => settled(m, entry, d),
        }
    }
}

/// Carries a decision out.
pub open spec fn settled(m: Membership, entry: JjLogEntry, d: Decision) -> Result<
    Membership,
    BuildError,
> {
    match (d.node, d.key) {
        (None, None) => Ok(m),
        (None, Some(key)) => Ok(assigned(m, entry, key)),
        (Some(node), Some(key)) => Ok(
            assigned(
                Membership { nodes: m.nodes.update(crate::node_store::place(key), node), ..m },
                entry,
                key,
            ),
        ),
        (Some(node), None) => {
            let grown = Membership { nodes: m.nodes.push(node), ..m };
            let key = crate::node_store::key_at(m.nodes.len() as int);
            match node {
                NodeView::Pr(n) => if m.found.contains(n) {
                    Err(BuildError::DuplicatePr(n))
                } else {
                    Ok(assigned(Membership { found: m.found.insert(n), ..grown }, entry, key))
                },
                _ => Ok(assigned(grown, entry, key)),
            }
        },
    }
}

/// The membership before any commit: there is the root alone.
pub open spec fn rooted() -> Membership {
    Membership {
        nodes: seq![NodeView::Root],
        owner: Map::empty(),
        found: Set::empty(),
        conflicted: Set::empty(),
    }
}

/// The membership after the commits of the first `k` entries.
pub open spec fn members(
    prs: Map<u64, &GhPr>,
    claims: Seq<crate::claims::Claim>,
    entries: Seq<JjLogEntry>,
    k: nat,
) -> Result<Membership, BuildError>
    decreases k,
{
    if k == 0 {
        Ok(rooted())
    } else {
        match members(prs, claims, entries, (k - 1) as nat) {
            Ok(m) => visited(prs, claims, entries, m, entries[k - 1]),
            Err(e) => Err(e),
        }
    }
}

/// What holds of the membership after every commit: the first node is the root and the only
/// one; a PR has one node at most, and its data is known; the nodes of commits exist and are
/// not the root.
pub open spec fn members_ok(prs: Map<u64, &GhPr>, m: Membership) -> bool {
    &&& m.nodes.len() >= 1
    &&& forall|i: int| 0 <= i < m.nodes.len() ==> (#[trigger] m.nodes[i] is Root <==> i == 0)
    &&& forall|i: int|
        0 <= i < m.nodes.len() && #[trigger] m.nodes[i] is Pr ==> m.found.contains(m.nodes[i]->Pr_0)
            && prs.contains_key(m.nodes[i]->Pr_0)
    &&& forall|i: int, j: int|
        0 <= i < j < m.nodes.len() && #[trigger] m.nodes[i] is Pr && #[trigger] m.nodes[j] is Pr
            ==> m.nodes[i]->Pr_0 != m.nodes[j]->Pr_0
    &&& forall|c: Seq<char>| #[trigger]
        m.owner.contains_key(c) ==> member_key(m.owner[c], m.nodes.len())
    &&& forall|k: NodeKey| #[trigger]
        m.conflicted.contains(k) ==> member_key(k, m.nodes.len())
}

/// Whether `k` is the key of one of `n` nodes, but not of the root.
pub open spec fn member_key(k: NodeKey, n: nat) -> bool {
    crate::node_store::key_of(k, n) && k != crate::node_store::key_at(0)
}

proof fn lemma_child_keys(
    entries: Seq<JjLogEntry>,
    owner: Map<Seq<char>, NodeKey>,
    commit: Seq<char>,
)
    ensures
        forall|i: int|
            0 <= i < child_keys(entries, owner, commit).len() ==> exists|c: Seq<char>|
                owner.contains_key(c) && owner[c] == #[trigger] child_keys(
                    entries,
                    owner,
                    commit,
                )[i],
    decreases entries.len(),
{
    if entries.len() > 0 {
        lemma_child_keys(entries.drop_last(), owner, commit);
        let keys = child_keys(entries, owner, commit);
        let before = child_keys(entries.drop_last(), owner, commit);
        let child = entries.last().commit.commit_id@;
        assert forall|i: int| 0 <= i < keys.len() implies exists|c: Seq<char>|
            owner.contains_key(c) && owner[c] == #[trigger] keys[i] by {
            if i < before.len() {
                assert(keys[i] == before[i]);
            } else {
                assert(owner.contains_key(child) && owner[child] == keys[i]);
            }
        }
    }
}

/// Whether a decision is about the given child nodes: a key is one of theirs, and a node that
/// has a key and is a PR or the trunk is that child's.
spec fn about(children: Seq<(NodeKey, NodeView)>, d: Decision) -> bool {
    &&& d.key is Some ==> exists|i: int|
        0 <= i < children.len() && (#[trigger] children[i]).0 == d.key->0 && (d.node is Some
            && !(d.node->0 is Ambiguous) ==> children[i].1 == d.node->0)
    &&& d.key is Some ==> d.node is Some
    &&& d.node is Some && d.node->0 is Root ==> exists|i: int|
        0 <= i < children.len() && (#[trigger] children[i]).1 is Root
    &&& d.node is Some && d.node->0 is Pr ==> d.key is Some
}

proof fn lemma_combined(children: Seq<(NodeKey, NodeView)>)
    requires
        combined(children) is Some,
    ensures
        about(children, combined(children)->0),
        children.len() > 0 ==> combined(children)->0.node is Some,
{
    let d = combined(children)->0;
    if children.len() == 1 {
        assert(children[0].0 == d.key->0);
    } else if children.len() > 1 {
        if all_of_one_pr(children) {
            lemma_one_pr(children);
            lemma_joint_key_exists(children, 0);
        }
        if d.key is Some {
            let k = choose|k: NodeKey| is_joint_key(children, k);
            let i = choose|i: int|
                0 <= i < children.len() && (#[trigger] children[i]).0 == k && stands_for(
                    children,
                    children[i].1,
                );
            assert(children[i].0 == d.key->0);
        }
    }
}

/// The claims are of PRs that are known.
pub proof fn lemma_claims_known(
    prs: Map<u64, &GhPr>,
    tracking: Option<Set<Seq<char>>>,
    entries: Seq<JjLogEntry>,
)
    ensures
        forall|i: int|
            0 <= i < crate::claims::claims(prs, tracking, entries).len() ==> prs.contains_key(
                (#[trigger] crate::claims::claims(prs, tracking, entries)[i]).pr,
            ),
    decreases entries.len(),
{
    if entries.len() > 0 {
        lemma_claims_known(prs, tracking, entries.drop_last());
        let e = entries.last();
        lemma_entry_claims_known(prs, tracking, e, e.local_bookmarks@.len());
        let all = crate::claims::claims(prs, tracking, entries);
        let head = crate::claims::claims(prs, tracking, entries.drop_last());
        let tail = crate::claims::entry_claims(prs, tracking, e, e.local_bookmarks@.len());
        assert forall|i: int| 0 <= i < all.len() implies prs.contains_key(
            (#[trigger] all[i]).pr,
        ) by {
            if i < head.len() {
                assert(all[i] == head[i]);
            } else {
                assert(all[i] == tail[i - head.len()]);
            }
        }
    }
}

proof fn lemma_entry_claims_known(
    prs: Map<u64, &GhPr>,
    tracking: Option<Set<Seq<char>>>,
    entry: JjLogEntry,
    k: nat,
)
    ensures
        forall|i: int|
            0 <= i < crate::claims::entry_claims(prs, tracking, entry, k).len()
                ==> prs.contains_key(
                (#[trigger] crate::claims::entry_claims(prs, tracking, entry, k)[i]).pr,
            ),
    decreases k,
{
    if k > 0 {
        lemma_entry_claims_known(prs, tracking, entry, (k - 1) as nat);
        let bm = entry.local_bookmarks[k - 1];
        crate::claims::head_pr_exists(prs, bm.name@);
        let all = crate::claims::entry_claims(prs, tracking, entry, k);
        let head = crate::claims::entry_claims(prs, tracking, entry, (k - 1) as nat);
        assert forall|i: int| 0 <= i < all.len() implies prs.contains_key(
            (#[trigger] all[i]).pr,
        ) by {
            if i < head.len() {
                assert(all[i] == head[i]);
            }
        }
    }
}

proof fn lemma_tips_known(
    prs: Map<u64, &GhPr>,
    claims: Seq<crate::claims::Claim>,
    commit: Seq<char>,
)
    requires
        forall|i: int| 0 <= i < claims.len() ==> prs.contains_key((#[trigger] claims[i]).pr),
    ensures
        forall|i: int|
            0 <= i < crate::claims::tips(claims, commit).len() ==> prs.contains_key(
                #[trigger] crate::claims::tips(claims, commit)[i],
            ),
    decreases claims.len(),
{
    if claims.len() > 0 {
        let head = claims.drop_last();
        assert forall|i: int| 0 <= i < head.len() implies prs.contains_key(
            (#[trigger] head[i]).pr,
        ) by {
            assert(head[i] == claims[i]);
        }
        lemma_tips_known(prs, head, commit);
        let all = crate::claims::tips(claims, commit);
        let before = crate::claims::tips(head, commit);
        assert forall|i: int| 0 <= i < all.len() implies prs.contains_key(#[trigger] all[i]) by {
            if i < before.len() {
                assert(all[i] == before[i]);
            } else {
                assert(all[i] == claims[claims.len() - 1].pr);
            }
        }
    }
}

/// Whether a decision fits a membership: its key is a node's, a node with a key that is a PR
/// or the trunk stays what it was, and a PR is known.
spec fn fits(prs: Map<u64, &GhPr>, m: Membership, d: Decision) -> bool {
    &&& d.key is Some ==> d.node is Some && member_key(d.key->0, m.nodes.len()) && (
    !(d.node->0 is Ambiguous) ==> m.nodes[crate::node_store::place(d.key->0)] == d.node->0)
    &&& d.node is Some ==> !(d.node->0 is Root)
    &&& d.node is Some && d.node->0 is Pr ==> prs.contains_key(d.node->0->Pr_0)
}

proof fn lemma_fits(
    prs: Map<u64, &GhPr>,
    claims: Seq<crate::claims::Claim>,
    entries: Seq<JjLogEntry>,
    m: Membership,
    entry: JjLogEntry,
)
    requires
        members_ok(prs, m),
        forall|i: int| 0 <= i < claims.len() ==> prs.contains_key((#[trigger] claims[i]).pr),
    ensures
        ({
            let commit = entry.commit.commit_id@;
            let d = decided(
                entry.is_trunk_tip,
                crate::claims::tips(claims, commit),
                keyed(child_keys(entries, m.owner, commit), m.nodes),
                crate::jj::pr_trailer(entry.commit.description@),
                crate::claims::local_prs(claims),
                m.found,
                prs,
            );
            d is Some ==> fits(prs, m, d->0)
        }),
{
    let commit = entry.commit.commit_id@;
    let keys = child_keys(entries, m.owner, commit);
    let children = keyed(keys, m.nodes);
    let tips = crate::claims::tips(claims, commit);
    lemma_child_keys(entries, m.owner, commit);
    lemma_tips_known(prs, claims, commit);
    assert forall|i: int| 0 <= i < children.len() implies member_key(
        (#[trigger] children[i]).0,
        m.nodes.len(),
    ) && children[i].1 == m.nodes[crate::node_store::place(children[i].0)] by {
        let c = choose|c: Seq<char>| m.owner.contains_key(c) && m.owner[c] == keys[i];
        assert(m.owner.contains_key(c));
    }
    let base = untrailed(tips, children);
    if base is Some {
        if tips.len() == 0 {
            lemma_combined(children);
            let d = base->0;
            if d.key is Some {
                let i = choose|i: int|
                    0 <= i < children.len() && (#[trigger] children[i]).0 == d.key->0 && (
                    d.node is Some && !(d.node->0 is Ambiguous) ==> children[i].1 == d.node->0);
                assert(member_key(children[i].0, m.nodes.len()));
            }
            if d.node is Some && d.node->0 is Root {
                let i = choose|i: int|
                    0 <= i < children.len() && (#[trigger] children[i]).1 is Root;
                assert(member_key(children[i].0, m.nodes.len()));
                assert(m.nodes[crate::node_store::place(children[i].0)] is Root);
            }
        } else {
            assert(prs.contains_key(tips[0]));
        }
        assert(fits(prs, m, base->0));
    }
}

proof fn lemma_settled(prs: Map<u64, &GhPr>, m: Membership, entry: JjLogEntry, d: Decision)
    requires
        members_ok(prs, m),
        fits(prs, m, d),
        m.nodes.len() < crate::node_store::max_nodes(),
        settled(m, entry, d) is Ok,
    ensures
        members_ok(prs, settled(m, entry, d)->Ok_0),
        m.nodes.len() <= settled(m, entry, d)->Ok_0.nodes.len() <= m.nodes.len() + 1,
{
    let r = settled(m, entry, d)->Ok_0;
    if d.node is Some && d.key is Some {
        let at = crate::node_store::place(d.key->0);
        assert(at != 0);
        assert forall|i: int| 0 <= i < r.nodes.len() && #[trigger] r.nodes[i] is Pr implies
            m.nodes[i] == r.nodes[i] by {}
    } else if d.node is Some {
        assert forall|i: int| 0 <= i < m.nodes.len() implies r.nodes[i] == m.nodes[i] by {}
    }
    assert forall|c: Seq<char>| #[trigger] r.owner.contains_key(c) implies member_key(
        r.owner[c],
        r.nodes.len(),
    ) by {
        if c != entry.commit.commit_id@ {
            assert(m.owner.contains_key(c));
        }
    }
    assert forall|i: int, j: int|
        0 <= i < j < r.nodes.len() && #[trigger] r.nodes[i] is Pr && #[trigger] r.nodes[j] is Pr
        implies r.nodes[i]->Pr_0 != r.nodes[j]->Pr_0 by {
        if j < m.nodes.len() {
            assert(m.nodes[i] is Pr && m.nodes[j] is Pr);
        } else {
            assert(m.nodes[i] is Pr);
            assert(m.found.contains(m.nodes[i]->Pr_0));
        }
    }
}

/// After every commit the membership is in order. In particular no PR ever has two nodes.
pub proof fn members_are_ok(
    prs: Map<u64, &GhPr>,
    tracking: Option<Set<Seq<char>>>,
    entries: Seq<JjLogEntry>,
    k: nat,
)
    requires
        k <= entries.len() < crate::node_store::max_nodes(),
    ensures
        ({
            let claims = crate::claims::claims(prs, tracking, entries);
            members(prs, claims, entries, k) is Ok ==> members_ok(
                prs,
                members(prs, claims, entries, k)->Ok_0,
            ) && members(prs, claims, entries, k)->Ok_0.nodes.len() <= k + 1
        }),
    decreases k,
{
    let claims = crate::claims::claims(prs, tracking, entries);
    if k > 0 && members(prs, claims, entries, k) is Ok {
        members_are_ok(prs, tracking, entries, (k - 1) as nat);
        lemma_claims_known(prs, tracking, entries);
        let m = members(prs, claims, entries, (k - 1) as nat)->Ok_0;
        let e = entries[k - 1];
        lemma_fits(prs, claims, entries, m, e);
        if !(e.immutable && !e.is_trunk_tip) {
            let commit = e.commit.commit_id@;
            let d = decided(
                e.is_trunk_tip,
                crate::claims::tips(claims, commit),
                keyed(child_keys(entries, m.owner, commit), m.nodes),
                crate::jj::pr_trailer(e.commit.description@),
                crate::claims::local_prs(claims),
                m.found,
                prs,
            );
            lemma_settled(prs, m, e, d->0);
        }
    }
}

/// The nodes, the node of each commit, the PRs that got a node and the nodes with a conflict.
pub struct Members {
    pub nodes: NodeSlots,
    pub owner: TextMap,
    pub found: BTreeSet<u64>,
    pub conflicted: MarkSet,
}

/// What a list of nodes stands for.
pub open spec fn node_views(nodes: Seq<Node>) -> Seq<NodeView> {
    Seq::new(nodes.len(), |i: int| nodes[i]@)
}

impl View for Members {
    type V = Membership;

    open spec fn view(&self) -> Membership {
        Membership {
            nodes: node_views(self.nodes@),
            owner: self.owner@,
            found: self.found@,
            conflicted: self.conflicted@,
        }
    }
}

fn has_parent(entry: &JjLogEntry, commit: &CommitId) -> (r: bool)
    ensures
        r == is_parent(*entry, commit@),
{
    let mut j: usize = 0;
    while j < entry.commit.parents.len()
        invariant
            j <= entry.commit.parents.len(),
            forall|i: int| 0 <= i < j ==> #[trigger] entry.commit.parents@[i]@ != commit@,
        decreases entry.commit.parents.len() - j,
    {
        if same_text(entry.commit.parents[j].as_str(), commit.as_str()) {
            assert(entry.commit.parents@[j as int]@ == commit@);
            return true;
        }
        j = j + 1;
    }
    false
}

fn has_number(list: &Vec<u64>, n: u64) -> (r: bool)
    ensures
        r == list@.contains(n),
{
    let mut i: usize = 0;
    while i < list.len()
        invariant
            i <= list.len(),
            forall|j: int| 0 <= j < i ==> list@[j] != n,
        decreases list.len() - i,
    {
        if list[i] == n {
            assert(list@[i as int] == n);
            return true;
        }
        i = i + 1;
    }
    false
}

fn children_of(jj_entries: &Vec<JjLogEntry>, owner: &TextMap, commit: &CommitId) -> (r: Vec<NodeKey>)
    requires
        owner.wf(),
    ensures
        r@ == child_keys(jj_entries@, owner@, commit@),
{
    let mut out: Vec<NodeKey> = Vec::new();
    let mut i: usize = 0;
    while i < jj_entries.len()
        invariant
            i <= jj_entries.len(),
            owner.wf(),
            out@ == child_keys(jj_entries@.take(i as int), owner@, commit@),
        decreases jj_entries.len() - i,
    {
        assert(jj_entries@.take(i + 1).drop_last() == jj_entries@.take(i as int));
        let entry = &jj_entries[i];
        if has_parent(entry, commit) {
            if let Some(key) = owner.get(entry.commit.commit_id.as_str()) {
                if !has_number(&out, key) {
                    out.push(key);
                }
            }
        }
        i = i + 1;
    }
    assert(jj_entries@.take(i as int) == jj_entries@);
    out
}

/// The nodes of the given keys.
fn lookup<'a>(nodes: &'a NodeSlots, keys: &Vec<NodeKey>) -> (r: Vec<(NodeKey, &'a Node)>)
    requires
        forall|i: int|
            0 <= i < keys.len() ==> crate::node_store::key_of(#[trigger] keys@[i], nodes@.len()),
    ensures
        child_views(r@) == keyed(keys@, node_views(nodes@)),
{
    let mut out: Vec<(NodeKey, &'a Node)> = Vec::new();
    let mut i: usize = 0;
    let ghost all = keyed(keys@, node_views(nodes@));
    assert(child_views(out@) == all.take(0));
    while i < keys.len()
        invariant
            i <= keys.len(),
            forall|i: int|
                0 <= i < keys.len() ==> crate::node_store::key_of(
                    #[trigger] keys@[i],
                    nodes@.len(),
                ),
            all == keyed(keys@, node_views(nodes@)),
            child_views(out@) == all.take(i as int),
        decreases keys.len() - i,
    {
        let key = keys[i];
        if let Some(node) = nodes.get(key) {
            let ghost before = out@;
            out.push((key, node));
            assert(child_views(out@) == child_views(before).push((key, node@)));
            assert(all.take(i + 1) == all.take(i as int).push(all[i as int]));
        }
        i = i + 1;
    }
    assert(all.take(i as int) == all);
    out
}

impl Members {
    /// Makes the commit of an entry part of the node `key`.
    fn assign(&mut self, entry: &JjLogEntry, key: NodeKey)
        requires
            old(self).owner.wf(),
            crate::node_store::is_key(key),
        ensures
            final(self).owner.wf(),
            final(self)@ == assigned(old(self)@, *entry, key),
    {
        self.owner.insert(entry.commit.commit_id.as_str(), key);
        if entry.conflict {
            self.conflicted.insert(key);
        }
    }

    /// Carries a decision out.
    fn settle(
        &mut self,
        entry: &JjLogEntry,
        node: Option<Node>,
        key: Option<NodeKey>,
        prs: &BTreeMap<u64, &GhPr>,
    ) -> (r: Result<(), BuildError>)
        requires
            old(self).owner.wf(),
            old(self)@.nodes.len() < crate::node_store::max_nodes(),
            fits(prs@, old(self)@, decision_view((node, key))),
        ensures
            match settled(old(self)@, *entry, decision_view((node, key))) {
                Ok(m) => r is Ok && final(self).owner.wf() && final(self)@ == m,
                Err(e) => r is Err && r->Err_0 == e,
            },
    {
        broadcast use vstd::std_specs::btree::group_btree_axioms;

        let ghost before = self.nodes@;
        match (node, key) {
            (None, None) => {},
            (None, Some(key)) => {
                self.assign(entry, key);
            },
            (Some(node), Some(key)) => {
                let ghost view = node@;
                self.nodes.set(key, node);
                assert(node_views(self.nodes@) == node_views(before).update(
                    crate::node_store::place(key),
                    view,
                ));
                self.assign(entry, key);
            },
            (Some(node), None) => {
                let ghost view = node@;
                if let Node::Pr(pr_num) = &node {
                    if self.found.contains(&pr_num.get()) {
                        return Err(BuildError::DuplicatePr(pr_num.get()));
                    }
                    self.found.insert(pr_num.get());
                }
                let key = self.nodes.insert(node);
                assert(node_views(self.nodes@) == node_views(before).push(view));
                self.assign(entry, key);
            },
        }
        Ok(())
    }
}

/// Assigns the commits to nodes. Also returns the names of the bookmarks that block sync.
pub fn assign_nodes(
    jj_entries: &Vec<JjLogEntry>,
    prs: &BTreeMap<u64, &GhPr>,
    tracking: Option<&TextSet>,
) -> (r: Result<(Members, TextSet), BuildError>)
    requires
        jj_entries@.len() < crate::node_store::max_nodes(),
        crate::claims::prs_wf(prs@),
        crate::claims::tracked_wf(tracking),
    ensures
        ({
            let claims = crate::claims::claims(
                prs@,
                crate::claims::tracked_names(tracking),
                jj_entries@,
            );
            match members(prs@, claims, jj_entries@, jj_entries@.len()) {
                Ok(m) => {
                    &&& r is Ok
                    &&& (r->Ok_0).0@ == m
                    &&& (r->Ok_0).0.owner.wf()
                    &&& (r->Ok_0).1.wf()
                    &&& (r->Ok_0).1@ == crate::claims::blocking_names(claims)
                },
                Err(e) => r is Err && r->Err_0 == e,
            }
        }),
{
    let all = collect_claims(jj_entries, prs, tracking);
    let (pr_local, blocking) = claimed(&all);
    let ghost names = crate::claims::tracked_names(tracking);
    let ghost claims = crate::claims::claims(prs@, names, jj_entries@);
    let mut m = Members {
        nodes: NodeSlots::new(),
        owner: TextMap::new(),
        found: BTreeSet::new(),
        conflicted: MarkSet::new(),
    };
    m.nodes.insert(Node::Root);
    assert(m@ == rooted());
    let mut i: usize = 0;
    while i < jj_entries.len()
        invariant
            i <= jj_entries.len(),
            jj_entries@.len() < crate::node_store::max_nodes(),
            names == crate::claims::tracked_names(tracking),
            claims == crate::claims::claims(prs@, names, jj_entries@),
            claims == crate::claims::claim_views(all@),
            pr_local@ == crate::claims::local_prs(claims),
            m.owner.wf(),
            blocking.wf(),
            blocking@ == crate::claims::blocking_names(claims),
            members(prs@, claims, jj_entries@, i as nat) == Ok::<Membership, BuildError>(m@),
        decreases jj_entries.len() - i,
    {
        let entry = &jj_entries[i];
        proof {
            members_are_ok(prs@, names, jj_entries@, i as nat);
            lemma_claims_known(prs@, names, jj_entries@);
            lemma_fits(prs@, claims, jj_entries@, m@, *entry);
        }
        i = i + 1;
        assert(members(prs@, claims, jj_entries@, i as nat) == visited(
            prs@,
            claims,
            jj_entries@,
            m@,
            *entry,
        ));
        // Immutable commits that aren't trunk tip are historical/foreign commits (e.g., other
        // people's PRs fetched from origin) that shouldn't produce nodes.
        if entry.immutable && !entry.is_trunk_tip {
            continue ;
        }
        let commit = &entry.commit.commit_id;
        let tip_pr_nums = tip_prs(&all, commit);
        let keys = children_of(jj_entries, &m.owner, commit);
        proof {
            lemma_child_keys(jj_entries@, m@.owner, commit@);
            assert forall|k: int| 0 <= k < keys.len() implies crate::node_store::key_of(
                #[trigger] keys@[k],
                m.nodes@.len(),
            ) by {
                let c = choose|c: Seq<char>| m@.owner.contains_key(c) && m@.owner[c] == keys@[k];
                assert(m@.owner.contains_key(c));
            }
        }
        let decision = {
            let child_nodes = lookup(&m.nodes, &keys);
            let trailer_pr_num = parse_pr_trailer(entry.commit.description.as_str());
            decide(
                entry.is_trunk_tip,
                &tip_pr_nums,
                &child_nodes,
                trailer_pr_num,
                &pr_local,
                &m.found,
                prs,
            )
        };
        match decision {
            Ok((node, key)) => {
                match m.settle(entry, node, key, prs) {
                    Ok(_) => {},
                    Err(e) => {
                        proof {
                            lemma_members_stop(prs@, claims, jj_entries@, i as nat);
                        }
                        return Err(e);
                    },
                }
            },
            Err(e) => {
                proof {
                    lemma_members_stop(prs@, claims, jj_entries@, i as nat);
                }
                return Err(e);
            },
        }
    }
    Ok((m, blocking))
}

proof fn lemma_members_stop(
    prs: Map<u64, &GhPr>,
    claims: Seq<crate::claims::Claim>,
    entries: Seq<JjLogEntry>,
    k: nat,
)
    requires
        k <= entries.len(),
        members(prs, claims, entries, k) is Err,
    ensures
        members(prs, claims, entries, entries.len()) == members(prs, claims, entries, k),
    decreases entries.len() - k,
{
    if k < entries.len() {
        lemma_members_stop(prs, claims, entries, k + 1);
    }
}

// --- Laws of the decision ---

/// Whether two lists have the same child nodes, in whatever order.
pub open spec fn same_children(
    a: Seq<(NodeKey, NodeView)>,
    b: Seq<(NodeKey, NodeView)>,
) -> bool {
    a.len() == b.len() && forall|c: (NodeKey, NodeView)| #[trigger]
        a.contains(c) <==> #[trigger] b.contains(c)
}

/// What child nodes make together does not depend on their order.
pub proof fn order_of_children_does_not_matter(
    a: Seq<(NodeKey, NodeView)>,
    b: Seq<(NodeKey, NodeView)>,
)
    requires
        same_children(a, b),
    ensures
        combined(a) == combined(b),
{
    if a.len() == 1 {
        assert(a.contains(a[0]));
        assert(b.contains(a[0]));
    } else if a.len() > 1 {
        lemma_same_children(a, b);
        lemma_same_children(b, a);
        assert(all_branches(a) =~= all_branches(b));
        lemma_same_agreement(a, b);
        lemma_same_agreement(b, a);
        assert(joint_trailers(a) =~= joint_trailers(b)) by {
            assert forall|n: u64| #[trigger]
                joint_trailers(a).contains(n) <==> joint_trailers(b).contains(n) by {
                lemma_same_trailers(a, b, n);
                lemma_same_trailers(b, a, n);
            }
        }
        assert(joint_key(a) == joint_key(b)) by {
            assert forall|k: NodeKey| is_joint_key(a, k) == is_joint_key(b, k) by {
                lemma_same_key(a, b, k);
                lemma_same_key(b, a, k);
            }
            if exists|k: NodeKey| is_joint_key(a, k) {
                let k = choose|k: NodeKey| is_joint_key(a, k);
                lemma_joint_key(a, k);
                lemma_joint_key(b, k);
            }
        }
        if all_of_one_pr(a) {
            assert(b.contains(b[0]));
            assert(a.contains(b[0]));
            let i = choose|i: int| 0 <= i < a.len() && a[i] == b[0];
            assert(a[i].1 == a[0].1);
        }
    }
}

/// The decision for a commit does not depend on the order of its child nodes.
pub proof fn decision_does_not_depend_on_order(
    is_trunk_tip: bool,
    tips: Seq<u64>,
    a: Seq<(NodeKey, NodeView)>,
    b: Seq<(NodeKey, NodeView)>,
    trailer: Option<u64>,
    local: Set<u64>,
    found: Set<u64>,
    prs: Map<u64, &GhPr>,
)
    requires
        same_children(a, b),
    ensures
        decided(is_trunk_tip, tips, a, trailer, local, found, prs) == decided(
            is_trunk_tip,
            tips,
            b,
            trailer,
            local,
            found,
            prs,
        ),
{
    order_of_children_does_not_matter(a, b);
}

proof fn lemma_same_children(a: Seq<(NodeKey, NodeView)>, b: Seq<(NodeKey, NodeView)>)
    requires
        same_children(a, b),
    ensures
        combinable(a) ==> combinable(b),
        all_of_one_pr(a) ==> all_of_one_pr(b),
        all_branches(a).subset_of(all_branches(b)),
{
    assert forall|i: int| 0 <= i < b.len() implies exists|j: int|
        0 <= j < a.len() && #[trigger] a[j] == #[trigger] b[i] by {
        assert(b.contains(b[i]));
        assert(a.contains(b[i]));
    }
    assert forall|n: u64| all_branches(a).contains(n) implies all_branches(b).contains(n) by {
        let i = choose|i: int|
            0 <= i < a.len() && branch_set((#[trigger] a[i]).1).contains(n);
        assert(a.contains(a[i]));
        assert(b.contains(a[i]));
        let j = choose|j: int| 0 <= j < b.len() && b[j] == a[i];
        assert(branch_set(b[j].1).contains(n));
    }
    if combinable(a) {
        assert forall|i: int| 0 <= i < b.len() implies (#[trigger] b[i]).1 is Pr
            || b[i].1 is Ambiguous by {
            let j = choose|j: int| 0 <= j < a.len() && #[trigger] a[j] == b[i];
            assert(a[j].1 is Pr || a[j].1 is Ambiguous);
        }
    }
    if all_of_one_pr(a) {
        assert forall|i: int| 0 <= i < b.len() implies (#[trigger] b[i]).1 is Pr by {
            let j = choose|j: int| 0 <= j < a.len() && #[trigger] a[j] == b[i];
            assert(a[j].1 is Pr);
        }
        assert forall|i: int, k: int| 0 <= i < b.len() && 0 <= k < b.len() implies (
        #[trigger] b[i]).1 == (#[trigger] b[k]).1 by {
            let j = choose|j: int| 0 <= j < a.len() && #[trigger] a[j] == b[i];
            let l = choose|l: int| 0 <= l < a.len() && #[trigger] a[l] == b[k];
            assert(a[j].1 == a[l].1);
        }
    }
}

proof fn lemma_same_agreement(a: Seq<(NodeKey, NodeView)>, b: Seq<(NodeKey, NodeView)>)
    requires
        same_children(a, b),
        all_branches(a) == all_branches(b),
    ensures
        ambiguous_agree(a) ==> ambiguous_agree(b),
{
    if ambiguous_agree(a) {
        assert forall|i: int| 0 <= i < b.len() && (#[trigger] b[i]).1 is Ambiguous implies
            branch_set(b[i].1) == all_branches(b) by {
            assert(b.contains(b[i]));
            assert(a.contains(b[i]));
            let j = choose|j: int| 0 <= j < a.len() && a[j] == b[i];
            assert(branch_set(a[j].1) == all_branches(a));
        }
    }
}

proof fn lemma_same_trailers(a: Seq<(NodeKey, NodeView)>, b: Seq<(NodeKey, NodeView)>, n: u64)
    requires
        same_children(a, b),
        all_branches(a) == all_branches(b),
        all_of_one_pr(a) == all_of_one_pr(b),
        ambiguous_agree(a) == ambiguous_agree(b),
    ensures
        joint_trailers(a).contains(n) ==> joint_trailers(b).contains(n),
{
    if joint_trailers(a).contains(n) {
        let i = choose|i: int|
            0 <= i < a.len() && stands_for(a, (#[trigger] a[i]).1) && trailer_set(
                a[i].1,
            ).contains(n);
        assert(a.contains(a[i]));
        assert(b.contains(a[i]));
        let j = choose|j: int| 0 <= j < b.len() && b[j] == a[i];
        assert(stands_for(b, b[j].1) && trailer_set(b[j].1).contains(n));
    }
}

proof fn lemma_same_key(a: Seq<(NodeKey, NodeView)>, b: Seq<(NodeKey, NodeView)>, k: NodeKey)
    requires
        same_children(a, b),
        all_branches(a) == all_branches(b),
        all_of_one_pr(a) == all_of_one_pr(b),
        ambiguous_agree(a) == ambiguous_agree(b),
    ensures
        is_joint_key(a, k) ==> is_joint_key(b, k),
{
    if is_joint_key(a, k) {
        let i = choose|i: int|
            0 <= i < a.len() && (#[trigger] a[i]).0 == k && stands_for(a, a[i].1);
        assert(a.contains(a[i]));
        assert(b.contains(a[i]));
        let j = choose|j: int| 0 <= j < b.len() && b[j] == a[i];
        assert(b[j].0 == k && stands_for(b, b[j].1));
        assert forall|l: int| 0 <= l < b.len() && stands_for(b, (#[trigger] b[l]).1) implies k
            <= b[l].0 by {
            assert(b.contains(b[l]));
            assert(a.contains(b[l]));
            let h = choose|h: int| 0 <= h < a.len() && a[h] == b[l];
            assert(stands_for(a, a[h].1));
        }
    }
}

/// The node that child nodes make together has the branch PRs of all of them.
pub proof fn combined_branches_are_all(children: Seq<(NodeKey, NodeView)>)
    requires
        combined(children) is Some,
    ensures
        children.len() == 0 ==> combined(children)->0.node is None,
        children.len() > 0 ==> combined(children)->0.node is Some && branch_set(
            combined(children)->0.node->0,
        ) == all_branches(children),
{
    if children.len() == 1 {
        lemma_all_branches(children);
        assert(all_branches(children.drop_last()) =~= Set::empty());
        assert(all_branches(children) =~= branch_set(children[0].1));
    } else if children.len() > 1 && all_of_one_pr(children) {
        lemma_one_pr(children);
    }
}

/// The node of a PR is never turned into another one: where child nodes make a node that is one
/// of them, a child that is a PR stays what it is.
pub proof fn pr_nodes_are_kept(children: Seq<(NodeKey, NodeView)>, i: int)
    requires
        combined(children) is Some,
        combined(children)->0.key is Some,
        forall|a: int, b: int|
            0 <= a < b < children.len() ==> (#[trigger] children[a]).0 != (
            #[trigger] children[b]).0,
        0 <= i < children.len(),
        children[i].0 == combined(children)->0.key->0,
        children[i].1 is Pr,
    ensures
        combined(children)->0.node == Some(children[i].1),
{
    if children.len() > 1 {
        let k = choose|k: NodeKey| is_joint_key(children, k);
        let j = choose|j: int|
            0 <= j < children.len() && (#[trigger] children[j]).0 == k && stands_for(
                children,
                children[j].1,
            );
        assert(children[j].0 == children[i].0);
        assert(i == j);
        assert(children[i].1 == children[0].1);
    }
}

/// Child nodes of several PRs, and of nothing else, make an ambiguous node of those PRs, which
/// is a new one; those of one PR make its node.
pub proof fn combined_prs(children: Seq<(NodeKey, NodeView)>)
    requires
        children.len() > 0,
        forall|i: int| 0 <= i < children.len() ==> (#[trigger] children[i]).1 is Pr,
        forall|i: int, j: int|
            0 <= i < j < children.len() ==> (#[trigger] children[i]).1 != (
            #[trigger] children[j]).1,
    ensures
        combined(children) == if children.len() == 1 {
            Some(Decision { node: Some(children[0].1), key: Some(children[0].0) })
        } else {
            Some(
                Decision {
                    node: Some(
                        NodeView::Ambiguous {
                            branch_prs: all_branches(children),
                            trailer_prs: Set::empty(),
                        },
                    ),
                    key: None,
                },
            )
        },
        forall|n: u64|
            all_branches(children).contains(n) ==> exists|i: int|
                0 <= i < children.len() && (#[trigger] children[i]).1 == NodeView::Pr(n),
{
    assert forall|n: u64| all_branches(children).contains(n) implies exists|i: int|
        0 <= i < children.len() && (#[trigger] children[i]).1 == NodeView::Pr(n) by {
        let i = choose|i: int|
            0 <= i < children.len() && branch_set((#[trigger] children[i]).1).contains(n);
        assert(children[i].1 == NodeView::Pr(n));
    }
    if children.len() > 1 {
        assert(children[0].1 != children[1].1);
        assert(!all_of_one_pr(children));
        assert forall|i: int| 0 <= i < children.len() implies !stands_for(
            children,
            (#[trigger] children[i]).1,
        ) by {}
        assert(joint_trailers(children) =~= Set::empty());
        assert forall|k: NodeKey| !is_joint_key(children, k) by {}
    }
}

/// The tip of a single PR starts the node of that PR, where its trailer does not name another
/// one.
pub proof fn tip_starts_its_pr(
    n: u64,
    children: Seq<(NodeKey, NodeView)>,
    trailer: Option<u64>,
    local: Set<u64>,
    found: Set<u64>,
    prs: Map<u64, &GhPr>,
)
    requires
        trailer is None || trailer == Some(n),
    ensures
        decided(false, seq![n], children, trailer, local, found, prs) == Some(
            Decision { node: Some(NodeView::Pr(n)), key: None },
        ),
{
}

/// A commit that is no tip and has a single child node belongs to that node, where its trailer
/// does not name another PR.
pub proof fn commit_joins_its_child(
    key: NodeKey,
    n: u64,
    trailer: Option<u64>,
    local: Set<u64>,
    found: Set<u64>,
    prs: Map<u64, &GhPr>,
)
    requires
        trailer is None || trailer == Some(n),
    ensures
        decided(
            false,
            Seq::empty(),
            seq![(key, NodeView::Pr(n))],
            trailer,
            local,
            found,
            prs,
        ) == Some(Decision { node: Some(NodeView::Pr(n)), key: Some(key) }),
{
    let children = seq![(key, NodeView::Pr(n))];
    assert(children.len() == 1 && children[0] == (key, NodeView::Pr(n)));
}

/// The trailer of a closed PR without local bookmark has no effect.
pub proof fn stale_trailer_is_ignored(
    is_trunk_tip: bool,
    tips: Seq<u64>,
    children: Seq<(NodeKey, NodeView)>,
    n: u64,
    local: Set<u64>,
    found: Set<u64>,
    prs: Map<u64, &GhPr>,
)
    requires
        !local.contains(n),
        crate::claims::in_state(prs, n, PrState::Closed),
    ensures
        decided(is_trunk_tip, tips, children, Some(n), local, found, prs) == decided(
            is_trunk_tip,
            tips,
            children,
            None,
            local,
            found,
            prs,
        ),
{
}

/// A commit whose trailer names a merged PR that has no local bookmark, and that was not met
/// before, is the tip of that PR: so merged PRs are found when their branches are deleted.
pub proof fn deleted_branch_is_recovered(
    tips: Seq<u64>,
    children: Seq<(NodeKey, NodeView)>,
    n: u64,
    local: Set<u64>,
    found: Set<u64>,
    prs: Map<u64, &GhPr>,
)
    requires
        !local.contains(n),
        !found.contains(n),
        crate::claims::in_state(prs, n, PrState::Merged),
        untrailed(tips, children) is Some,
        untrailed(tips, children)->0.node is Some ==> !node_contains(
            untrailed(tips, children)->0.node->0,
            n,
        ),
    ensures
        decided(false, tips, children, Some(n), local, found, prs) == Some(
            Decision { node: Some(NodeView::Pr(n)), key: None },
        ),
{
}

// --- Laws of the pass ---

/// Whether the commit of an entry gets its node from bookmarks, children and trailer.
pub open spec fn is_decided(entry: JjLogEntry) -> bool {
    !entry.immutable && !entry.is_trunk_tip
}

/// Whether the trailer of an entry, if it has one, names the PR `n`.
pub open spec fn trailer_agrees(entry: JjLogEntry, n: u64) -> bool {
    let trailer = crate::jj::pr_trailer(entry.commit.description@);
    trailer is None || trailer == Some(n)
}

/// The commit that the bookmark of a PR points to belongs to that PR.
pub proof fn tip_belongs_to_its_pr(
    prs: Map<u64, &GhPr>,
    claims: Seq<crate::claims::Claim>,
    entries: Seq<JjLogEntry>,
    m: Membership,
    entry: JjLogEntry,
    n: u64,
)
    requires
        is_decided(entry),
        crate::claims::tips(claims, entry.commit.commit_id@) == seq![n],
        trailer_agrees(entry, n),
        !m.found.contains(n),
        m.nodes.len() < crate::node_store::max_nodes(),
    ensures
        visited(prs, claims, entries, m, entry) matches Ok(next) && {
            let commit = entry.commit.commit_id@;
            &&& next.owner.contains_key(commit)
            &&& next.nodes[crate::node_store::place(next.owner[commit])] == NodeView::Pr(n)
            &&& next.found == m.found.insert(n)
        },
{
    tip_starts_its_pr(
        n,
        keyed(child_keys(entries, m.owner, entry.commit.commit_id@), m.nodes),
        crate::jj::pr_trailer(entry.commit.description@),
        crate::claims::local_prs(claims),
        m.found,
        prs,
    );
}

/// A commit without a bookmark of its own whose children all belong to one PR belongs to that
/// PR: the one whose bookmark is its nearest descendant.
pub proof fn commit_belongs_to_its_children(
    prs: Map<u64, &GhPr>,
    claims: Seq<crate::claims::Claim>,
    entries: Seq<JjLogEntry>,
    m: Membership,
    entry: JjLogEntry,
    key: NodeKey,
    n: u64,
)
    requires
        is_decided(entry),
        crate::claims::tips(claims, entry.commit.commit_id@) == Seq::<u64>::empty(),
        child_keys(entries, m.owner, entry.commit.commit_id@) == seq![key],
        crate::node_store::key_of(key, m.nodes.len()),
        m.nodes[crate::node_store::place(key)] == NodeView::Pr(n),
        trailer_agrees(entry, n),
    ensures
        visited(prs, claims, entries, m, entry) == Ok::<Membership, BuildError>(
            assigned(m, entry, key),
        ),
{
    let children = keyed(child_keys(entries, m.owner, entry.commit.commit_id@), m.nodes);
    assert(children == seq![(key, NodeView::Pr(n))]);
    commit_joins_its_child(
        key,
        n,
        crate::jj::pr_trailer(entry.commit.description@),
        crate::claims::local_prs(claims),
        m.found,
        prs,
    );
    assert(m.nodes.update(crate::node_store::place(key), NodeView::Pr(n)) == m.nodes);
}

/// A commit without a bookmark and a trailer of its own whose children belong to several PRs,
/// and to nothing else, is ambiguous between these.
pub proof fn shared_commit_is_ambiguous(
    prs: Map<u64, &GhPr>,
    claims: Seq<crate::claims::Claim>,
    entries: Seq<JjLogEntry>,
    m: Membership,
    entry: JjLogEntry,
)
    requires
        is_decided(entry),
        crate::claims::tips(claims, entry.commit.commit_id@) == Seq::<u64>::empty(),
        crate::jj::pr_trailer(entry.commit.description@) is None,
        m.nodes.len() < crate::node_store::max_nodes(),
        ({
            let children = keyed(
                child_keys(entries, m.owner, entry.commit.commit_id@),
                m.nodes,
            );
            &&& children.len() > 1
            &&& forall|i: int| 0 <= i < children.len() ==> (#[trigger] children[i]).1 is Pr
            &&& forall|i: int, j: int|
                0 <= i < j < children.len() ==> (#[trigger] children[i]).1 != (
                #[trigger] children[j]).1
        }),
    ensures
        visited(prs, claims, entries, m, entry) matches Ok(next) && {
            let commit = entry.commit.commit_id@;
            let children = keyed(child_keys(entries, m.owner, commit), m.nodes);
            &&& next.owner.contains_key(commit)
            &&& next.nodes[crate::node_store::place(next.owner[commit])] == NodeView::Ambiguous {
                branch_prs: all_branches(children),
                trailer_prs: Set::empty(),
            }
        },
{
    combined_prs(keyed(child_keys(entries, m.owner, entry.commit.commit_id@), m.nodes));
}

// --- Laws of the whole pass ---

/// Whether no two entries are of one commit.
pub open spec fn distinct_commits(entries: Seq<JjLogEntry>) -> bool {
    forall|i: int, j: int|
        0 <= i < j < entries.len() ==> (#[trigger] entries[i]).commit.commit_id@ != (
        #[trigger] entries[j]).commit.commit_id@
}

/// Whether the entry `i` is of a child of the commit of the entry `j`.
pub open spec fn is_child(entries: Seq<JjLogEntry>, i: int, j: int) -> bool {
    0 <= i < entries.len() && 0 <= j < entries.len() && exists|p: int|
        0 <= p < entries[i].commit.parents@.len() && (#[trigger] entries[i].commit.parents@[p])@
            == entries[j].commit.commit_id@
}

/// Whether the children of a commit come before it.
pub open spec fn children_first(entries: Seq<JjLogEntry>) -> bool {
    forall|i: int, j: int| #[trigger] is_child(entries, i, j) ==> i < j
}

/// The node of a commit, if it has one.
pub open spec fn node_of(
    nodes: Seq<NodeView>,
    owner: Map<Seq<char>, NodeKey>,
    entry: JjLogEntry,
) -> Option<NodeView> {
    if owner.contains_key(entry.commit.commit_id@) {
        Some(nodes[crate::node_store::place(owner[entry.commit.commit_id@])])
    } else {
        None
    }
}

/// Whether a node has become another one only as ambiguous nodes do, which gain trailers.
pub open spec fn has_grown(a: NodeView, b: NodeView) -> bool {
    a == b || (a is Ambiguous && b is Ambiguous && a->Ambiguous_branch_prs
        == b->Ambiguous_branch_prs && a->Ambiguous_trailer_prs.subset_of(
        b->Ambiguous_trailer_prs,
    ))
}

/// The membership after the first `k` entries.
pub open spec fn members_at(
    prs: Map<u64, &GhPr>,
    tracking: Option<Set<Seq<char>>>,
    entries: Seq<JjLogEntry>,
    k: nat,
) -> Result<Membership, BuildError> {
    members(prs, crate::claims::claims(prs, tracking, entries), entries, k)
}

/// The node that a decision with a key replaces only grows.
proof fn lemma_key_grows(children: Seq<(NodeKey, NodeView)>)
    requires
        combined(children) is Some,
        combined(children)->0.key is Some,
    ensures
        combined(children)->0.node is Some,
        exists|i: int|
            0 <= i < children.len() && (#[trigger] children[i]).0 == combined(children)->0.key->0
                && has_grown(children[i].1, combined(children)->0.node->0),
{
    let d = combined(children)->0;
    if children.len() == 1 {
        assert(children[0].0 == d.key->0);
    } else {
        let k = choose|k: NodeKey| is_joint_key(children, k);
        let i = choose|i: int|
            0 <= i < children.len() && (#[trigger] children[i]).0 == k && stands_for(
                children,
                children[i].1,
            );
        assert(children[i].0 == d.key->0);
        if all_of_one_pr(children) {
            assert(children[i].1 == children[0].1);
        } else {
            assert(children[i].1->Ambiguous_trailer_prs.subset_of(joint_trailers(children))) by {
                assert forall|n: u64| children[i].1->Ambiguous_trailer_prs.contains(n) implies
                    joint_trailers(children).contains(n) by {
                    assert(trailer_set(children[i].1).contains(n));
                }
            }
        }
    }
}

/// The child nodes of a commit.
spec fn child_list(
    entries: Seq<JjLogEntry>,
    m: Membership,
    entry: JjLogEntry,
) -> Seq<(NodeKey, NodeView)> {
    keyed(child_keys(entries, m.owner, entry.commit.commit_id@), m.nodes)
}

/// The decision for a commit, after those before it.
spec fn decision_at(
    prs: Map<u64, &GhPr>,
    tracking: Option<Set<Seq<char>>>,
    entries: Seq<JjLogEntry>,
    m: Membership,
    entry: JjLogEntry,
) -> Option<Decision> {
    let claims = crate::claims::claims(prs, tracking, entries);
    decided(
        entry.is_trunk_tip,
        crate::claims::tips(claims, entry.commit.commit_id@),
        child_list(entries, m, entry),
        crate::jj::pr_trailer(entry.commit.description@),
        crate::claims::local_prs(claims),
        m.found,
        prs,
    )
}

/// One step of the pass: the commit gets a node at most, conflicts are kept, and nodes only grow.
proof fn lemma_step(
    prs: Map<u64, &GhPr>,
    tracking: Option<Set<Seq<char>>>,
    entries: Seq<JjLogEntry>,
    k: nat,
)
    requires
        0 < k <= entries.len() < crate::node_store::max_nodes(),
        members_at(prs, tracking, entries, k) is Ok,
    ensures
        members_at(prs, tracking, entries, (k - 1) as nat) is Ok,
        ({
            let m = members_at(prs, tracking, entries, (k - 1) as nat)->Ok_0;
            let r = members_at(prs, tracking, entries, k)->Ok_0;
            let e = entries[k - 1];
            let c = e.commit.commit_id@;
            &&& m.nodes.len() <= r.nodes.len()
            &&& forall|i: int|
                0 <= i < m.nodes.len() ==> has_grown(m.nodes[i], #[trigger] r.nodes[i])
            &&& r == m || (r.owner == m.owner.insert(c, r.owner[c]) && r.conflicted
                == if e.conflict {
                m.conflicted.insert(r.owner[c])
            } else {
                m.conflicted
            })
            &&& forall|n: u64| #[trigger]
                r.found.contains(n) ==> m.found.contains(n) || (r != m && r.nodes[
                crate::node_store::place(r.owner[c])] == NodeView::Pr(n))
            &&& e.immutable && !e.is_trunk_tip ==> r == m
            &&& !(e.immutable && !e.is_trunk_tip) ==> {
                let d = decision_at(prs, tracking, entries, m, e);
                &&& d is Some
                &&& d->0.node is None ==> r == m
                &&& d->0.node is Some ==> r.owner == m.owner.insert(c, r.owner[c]) && r.nodes[
                crate::node_store::place(r.owner[c])] == d->0.node->0 && (d->0.key is Some
                    ==> r.owner[c] == d->0.key->0)
            }
        }),
{
    let m = members_at(prs, tracking, entries, (k - 1) as nat)->Ok_0;
    let r = members_at(prs, tracking, entries, k)->Ok_0;
    let e = entries[k - 1];
    let c = e.commit.commit_id@;
    let claims = crate::claims::claims(prs, tracking, entries);
    members_are_ok(prs, tracking, entries, (k - 1) as nat);
    lemma_claims_known(prs, tracking, entries);
    lemma_fits(prs, claims, entries, m, e);
    if !(e.immutable && !e.is_trunk_tip) {
        let children = child_list(entries, m, e);
        let tips = crate::claims::tips(claims, c);
        let d = decision_at(prs, tracking, entries, m, e)->0;
        assert(fits(prs, m, d));
        if d.key is Some {
            let at = crate::node_store::place(d.key->0);
            assert(tips.len() == 0);
            let base = combined(children)->0;
            lemma_key_grows(children);
            let i = choose|i: int|
                0 <= i < children.len() && (#[trigger] children[i]).0 == base.key->0 && has_grown(
                    children[i].1,
                    base.node->0,
                );
            assert(children[i].1 == m.nodes[at]);
            assert(has_grown(m.nodes[at], d.node->0));
            assert(r.owner == m.owner.insert(c, d.key->0));
        }
    }
}

/// What holds after the first `k` entries, up to a later membership: commits keep their nodes,
/// and nodes only grow.
proof fn lemma_later_members(
    prs: Map<u64, &GhPr>,
    tracking: Option<Set<Seq<char>>>,
    entries: Seq<JjLogEntry>,
    k: nat,
    l: nat,
)
    requires
        k <= l <= entries.len() < crate::node_store::max_nodes(),
        distinct_commits(entries),
        members_at(prs, tracking, entries, l) is Ok,
    ensures
        members_at(prs, tracking, entries, k) is Ok,
        ({
            let m = members_at(prs, tracking, entries, k)->Ok_0;
            let r = members_at(prs, tracking, entries, l)->Ok_0;
            &&& m.nodes.len() <= r.nodes.len()
            &&& forall|i: int|
                0 <= i < m.nodes.len() ==> has_grown(m.nodes[i], #[trigger] r.nodes[i])
            &&& forall|i: int|
                0 <= i < k ==> {
                    let c = (#[trigger] entries[i]).commit.commit_id@;
                    &&& m.owner.contains_key(c) <==> r.owner.contains_key(c)
                    &&& m.owner.contains_key(c) ==> m.owner[c] == r.owner[c]
                }
            &&& forall|c: Seq<char>| #[trigger]
                r.owner.contains_key(c) ==> exists|i: int|
                    0 <= i < l && (#[trigger] entries[i]).commit.commit_id@ == c
        }),
    decreases l,
{
    if l > k {
        lemma_step(prs, tracking, entries, l);
        lemma_later_members(prs, tracking, entries, k, (l - 1) as nat);
        let m = members_at(prs, tracking, entries, k)->Ok_0;
        let mid = members_at(prs, tracking, entries, (l - 1) as nat)->Ok_0;
        let r = members_at(prs, tracking, entries, l)->Ok_0;
        assert forall|i: int| 0 <= i < m.nodes.len() implies has_grown(
            m.nodes[i],
            #[trigger] r.nodes[i],
        ) by {
            assert(has_grown(m.nodes[i], mid.nodes[i]));
            assert(has_grown(mid.nodes[i], r.nodes[i]));
        }
        assert forall|i: int| 0 <= i < k implies ({
            let c = (#[trigger] entries[i]).commit.commit_id@;
            &&& m.owner.contains_key(c) <==> r.owner.contains_key(c)
            &&& m.owner.contains_key(c) ==> m.owner[c] == r.owner[c]
        }) by {
            assert(entries[i].commit.commit_id@ != entries[l - 1].commit.commit_id@);
        }
        assert forall|c: Seq<char>| #[trigger] r.owner.contains_key(c) implies exists|i: int|
            0 <= i < l && (#[trigger] entries[i]).commit.commit_id@ == c by {
            if mid.owner.contains_key(c) {
                let i = choose|i: int|
                    0 <= i < l - 1 && (#[trigger] entries[i]).commit.commit_id@ == c;
                assert(entries[i].commit.commit_id@ == c);
            } else {
                assert(entries[l - 1].commit.commit_id@ == c);
            }
        }
    } else {
        lemma_known_owners(prs, tracking, entries, k);
    }
}

/// Only the commits of entries have nodes.
proof fn lemma_known_owners(
    prs: Map<u64, &GhPr>,
    tracking: Option<Set<Seq<char>>>,
    entries: Seq<JjLogEntry>,
    k: nat,
)
    requires
        k <= entries.len() < crate::node_store::max_nodes(),
        members_at(prs, tracking, entries, k) is Ok,
    ensures
        forall|c: Seq<char>| #[trigger]
            members_at(prs, tracking, entries, k)->Ok_0.owner.contains_key(c) ==> exists|i: int|
                0 <= i < k && (#[trigger] entries[i]).commit.commit_id@ == c,
    decreases k,
{
    if k > 0 {
        lemma_step(prs, tracking, entries, k);
        lemma_known_owners(prs, tracking, entries, (k - 1) as nat);
        let m = members_at(prs, tracking, entries, (k - 1) as nat)->Ok_0;
        let r = members_at(prs, tracking, entries, k)->Ok_0;
        assert forall|c: Seq<char>| #[trigger] r.owner.contains_key(c) implies exists|i: int|
            0 <= i < k && (#[trigger] entries[i]).commit.commit_id@ == c by {
            if m.owner.contains_key(c) {
                let i = choose|i: int|
                    0 <= i < k - 1 && (#[trigger] entries[i]).commit.commit_id@ == c;
                assert(entries[i].commit.commit_id@ == c);
            } else {
                assert(entries[k - 1].commit.commit_id@ == c);
            }
        }
    }
}

proof fn lemma_conflicts(
    prs: Map<u64, &GhPr>,
    tracking: Option<Set<Seq<char>>>,
    entries: Seq<JjLogEntry>,
    k: nat,
    x: NodeKey,
)
    requires
        k <= entries.len() < crate::node_store::max_nodes(),
        distinct_commits(entries),
        members_at(prs, tracking, entries, k) is Ok,
    ensures
        ({
            let m = members_at(prs, tracking, entries, k)->Ok_0;
            m.conflicted.contains(x) <==> exists|i: int|
                0 <= i < k && (#[trigger] entries[i]).conflict && m.owner.contains_key(
                    entries[i].commit.commit_id@,
                ) && m.owner[entries[i].commit.commit_id@] == x
        }),
    decreases k,
{
    if k > 0 {
        lemma_step(prs, tracking, entries, k);
        lemma_conflicts(prs, tracking, entries, (k - 1) as nat, x);
        lemma_known_owners(prs, tracking, entries, (k - 1) as nat);
        let m = members_at(prs, tracking, entries, (k - 1) as nat)->Ok_0;
        let r = members_at(prs, tracking, entries, k)->Ok_0;
        let c = entries[k - 1].commit.commit_id@;
        assert(!m.owner.contains_key(c)) by {
            if m.owner.contains_key(c) {
                let i = choose|i: int|
                    0 <= i < k - 1 && (#[trigger] entries[i]).commit.commit_id@ == c;
                assert(entries[i].commit.commit_id@ != entries[k - 1].commit.commit_id@);
            }
        }
        if m.conflicted.contains(x) {
            let i = choose|i: int|
                0 <= i < k - 1 && (#[trigger] entries[i]).conflict && m.owner.contains_key(
                    entries[i].commit.commit_id@,
                ) && m.owner[entries[i].commit.commit_id@] == x;
            assert(entries[i].commit.commit_id@ != c);
            assert(entries[i].conflict && r.owner.contains_key(entries[i].commit.commit_id@)
                && r.owner[entries[i].commit.commit_id@] == x);
        } else if r.conflicted.contains(x) {
            assert(entries[k - 1].conflict && r.owner.contains_key(c) && r.owner[c] == x);
        }
        if exists|i: int|
            0 <= i < k && (#[trigger] entries[i]).conflict && r.owner.contains_key(
                entries[i].commit.commit_id@,
            ) && r.owner[entries[i].commit.commit_id@] == x {
            let i = choose|i: int|
                0 <= i < k && (#[trigger] entries[i]).conflict && r.owner.contains_key(
                    entries[i].commit.commit_id@,
                ) && r.owner[entries[i].commit.commit_id@] == x;
            if i < k - 1 {
                assert(entries[i].commit.commit_id@ != entries[k - 1].commit.commit_id@);
                assert(m.owner.contains_key(entries[i].commit.commit_id@));
            }
        }
    }
}

/// A node has content conflicts exactly where one of its commits has, whichever that is.
pub proof fn conflicted_commits_mark_their_nodes(
    prs: Map<u64, &GhPr>,
    tracking: Option<Set<Seq<char>>>,
    entries: Seq<JjLogEntry>,
    k: NodeKey,
)
    requires
        entries.len() < crate::node_store::max_nodes(),
        distinct_commits(entries),
        members_at(prs, tracking, entries, entries.len()) is Ok,
    ensures
        ({
            let m = members_at(prs, tracking, entries, entries.len())->Ok_0;
            m.conflicted.contains(k) <==> exists|i: int|
                0 <= i < entries.len() && (#[trigger] entries[i]).conflict && m.owner.contains_key(
                    entries[i].commit.commit_id@,
                ) && m.owner[entries[i].commit.commit_id@] == k
        }),
{
    lemma_conflicts(prs, tracking, entries, entries.len(), k);
}

/// What the step of an entry gives its commit, in the end.
proof fn lemma_settles(
    prs: Map<u64, &GhPr>,
    tracking: Option<Set<Seq<char>>>,
    entries: Seq<JjLogEntry>,
    i: int,
)
    requires
        0 <= i < entries.len() < crate::node_store::max_nodes(),
        distinct_commits(entries),
        members_at(prs, tracking, entries, entries.len()) is Ok,
    ensures
        members_at(prs, tracking, entries, i as nat) is Ok,
        ({
            let m = members_at(prs, tracking, entries, i as nat)->Ok_0;
            let r = members_at(prs, tracking, entries, entries.len())->Ok_0;
            let e = entries[i];
            let c = e.commit.commit_id@;
            &&& e.immutable && !e.is_trunk_tip ==> !r.owner.contains_key(c)
            &&& !(e.immutable && !e.is_trunk_tip) ==> {
                let d = decision_at(prs, tracking, entries, m, e);
                &&& d is Some
                &&& d->0.node is None ==> !r.owner.contains_key(c)
                &&& d->0.node is Some ==> r.owner.contains_key(c) && has_grown(
                    d->0.node->0,
                    r.nodes[crate::node_store::place(r.owner[c])],
                ) && (d->0.key is Some ==> r.owner[c] == d->0.key->0)
            }
        }),
{
    lemma_later_members(prs, tracking, entries, i as nat, entries.len());
    lemma_later_members(prs, tracking, entries, (i + 1) as nat, entries.len());
    lemma_step(prs, tracking, entries, (i + 1) as nat);
    members_are_ok(prs, tracking, entries, (i + 1) as nat);
    lemma_known_owners(prs, tracking, entries, i as nat);
    let m = members_at(prs, tracking, entries, i as nat)->Ok_0;
    let next = members_at(prs, tracking, entries, (i + 1) as nat)->Ok_0;
    let r = members_at(prs, tracking, entries, entries.len())->Ok_0;
    let e = entries[i];
    let c = e.commit.commit_id@;
    assert(!m.owner.contains_key(c)) by {
        if m.owner.contains_key(c) {
            let j = choose|j: int| 0 <= j < i && (#[trigger] entries[j]).commit.commit_id@ == c;
            assert(entries[j].commit.commit_id@ != entries[i].commit.commit_id@);
        }
    }
    assert(next.owner.contains_key(c) <==> r.owner.contains_key(c));
    if next.owner.contains_key(c) {
        assert(member_key(next.owner[c], next.nodes.len()));
        let at = crate::node_store::place(next.owner[c]);
        assert(has_grown(next.nodes[at], r.nodes[at]));
    }
}

/// A child node of a commit is the node that a child has in the end, but for trailers.
proof fn lemma_listed_child(
    prs: Map<u64, &GhPr>,
    tracking: Option<Set<Seq<char>>>,
    entries: Seq<JjLogEntry>,
    i: int,
    a: int,
) -> (j: int)
    requires
        0 <= i < entries.len() < crate::node_store::max_nodes(),
        distinct_commits(entries),
        children_first(entries),
        members_at(prs, tracking, entries, entries.len()) is Ok,
        members_at(prs, tracking, entries, i as nat) is Ok,
        0 <= a < child_list(
            entries,
            members_at(prs, tracking, entries, i as nat)->Ok_0,
            entries[i],
        ).len(),
    ensures
        ({
            let m = members_at(prs, tracking, entries, i as nat)->Ok_0;
            let r = members_at(prs, tracking, entries, entries.len())->Ok_0;
            let child = child_list(entries, m, entries[i])[a];
            &&& is_child(entries, j, i)
            &&& r.owner.contains_key(entries[j].commit.commit_id@)
            &&& r.owner[entries[j].commit.commit_id@] == child.0
            &&& has_grown(child.1, r.nodes[crate::node_store::place(child.0)])
            &&& member_key(child.0, r.nodes.len())
        }),
{
    lemma_later_members(prs, tracking, entries, i as nat, entries.len());
    members_are_ok(prs, tracking, entries, i as nat);
    let m = members_at(prs, tracking, entries, i as nat)->Ok_0;
    let r = members_at(prs, tracking, entries, entries.len())->Ok_0;
    let c = entries[i].commit.commit_id@;
    let keys = child_keys(entries, m.owner, c);
    lemma_known_owners(prs, tracking, entries, i as nat);
    let j = lemma_key_has_child(entries, m.owner, c, a);
    let p = choose|p: int|
        0 <= p < entries[j].commit.parents@.len() && #[trigger] entries[j].commit.parents@[p]@
            == c;
    assert((entries[j].commit.parents@[p])@ == c);
    assert(is_child(entries, j, i));
    assert(member_key(keys[a], m.nodes.len()));
    let at = crate::node_store::place(keys[a]);
    assert(has_grown(m.nodes[at], r.nodes[at]));
    j
}

/// The node that a child of a commit has in the end is among the child nodes.
proof fn lemma_child_is_listed(
    prs: Map<u64, &GhPr>,
    tracking: Option<Set<Seq<char>>>,
    entries: Seq<JjLogEntry>,
    i: int,
    j: int,
) -> (a: int)
    requires
        0 <= i < entries.len() < crate::node_store::max_nodes(),
        distinct_commits(entries),
        children_first(entries),
        members_at(prs, tracking, entries, entries.len()) is Ok,
        is_child(entries, j, i),
        members_at(prs, tracking, entries, entries.len())->Ok_0.owner.contains_key(
            entries[j].commit.commit_id@,
        ),
    ensures
        ({
            let m = members_at(prs, tracking, entries, i as nat)->Ok_0;
            let r = members_at(prs, tracking, entries, entries.len())->Ok_0;
            let list = child_list(entries, m, entries[i]);
            &&& 0 <= a < list.len()
            &&& list[a].0 == r.owner[entries[j].commit.commit_id@]
            &&& has_grown(list[a].1, r.nodes[crate::node_store::place(list[a].0)])
        }),
{
    lemma_later_members(prs, tracking, entries, i as nat, entries.len());
    let m = members_at(prs, tracking, entries, i as nat)->Ok_0;
    let c = entries[i].commit.commit_id@;
    let keys = child_keys(entries, m.owner, c);
    assert(j < i);
    let p = choose|p: int|
        0 <= p < entries[j].commit.parents@.len() && (#[trigger] entries[j].commit.parents@[p])@
            == c;
    assert(entries[j].commit.parents@[p]@ == c);
    assert(is_parent(entries[j], c));
    lemma_child_has_key(entries, m.owner, c, j);
    let a = choose|a: int|
        0 <= a < keys.len() && keys[a] == m.owner[entries[j].commit.commit_id@];
    let o = lemma_listed_child(prs, tracking, entries, i, a);
    a
}

proof fn lemma_key_has_child(
    entries: Seq<JjLogEntry>,
    owner: Map<Seq<char>, NodeKey>,
    commit: Seq<char>,
    a: int,
) -> (j: int)
    requires
        0 <= a < child_keys(entries, owner, commit).len(),
    ensures
        0 <= j < entries.len(),
        is_parent(entries[j], commit),
        owner.contains_key(entries[j].commit.commit_id@),
        owner[entries[j].commit.commit_id@] == child_keys(entries, owner, commit)[a],
    decreases entries.len(),
{
    let before = child_keys(entries.drop_last(), owner, commit);
    if a < before.len() {
        lemma_key_has_child(entries.drop_last(), owner, commit, a)
    } else {
        entries.len() - 1
    }
}

proof fn lemma_child_has_key(
    entries: Seq<JjLogEntry>,
    owner: Map<Seq<char>, NodeKey>,
    commit: Seq<char>,
    j: int,
)
    requires
        0 <= j < entries.len(),
        is_parent(entries[j], commit),
        owner.contains_key(entries[j].commit.commit_id@),
    ensures
        child_keys(entries, owner, commit).contains(owner[entries[j].commit.commit_id@]),
    decreases entries.len(),
{
    let head = entries.drop_last();
    let before = child_keys(head, owner, commit);
    let keys = child_keys(entries, owner, commit);
    let x = owner[entries[j].commit.commit_id@];
    if j < head.len() {
        lemma_child_has_key(head, owner, commit, j);
    }
    if before.contains(x) {
        let b = choose|b: int| 0 <= b < before.len() && before[b] == x;
        assert(keys[b] == x);
    } else {
        assert(keys[keys.len() - 1] == x);
    }
}

proof fn lemma_child_keys_differ(
    entries: Seq<JjLogEntry>,
    owner: Map<Seq<char>, NodeKey>,
    commit: Seq<char>,
)
    ensures
        child_keys(entries, owner, commit).no_duplicates(),
    decreases entries.len(),
{
    if entries.len() > 0 {
        lemma_child_keys_differ(entries.drop_last(), owner, commit);
    }
}

/// Whether the trailer of an entry is none, or is stale: that of a closed PR without a local
/// bookmark.
pub open spec fn no_trailer(
    prs: Map<u64, &GhPr>,
    tracking: Option<Set<Seq<char>>>,
    entries: Seq<JjLogEntry>,
    entry: JjLogEntry,
) -> bool {
    match crate::jj::pr_trailer(entry.commit.description@) {
        None => true,
        Some(n) => prs.contains_key(n) && prs[n].state is Closed && forall|i: int, j: int|
            !#[trigger] crate::claims::claims_at(prs, tracking, entries, i, j, n),
    }
}

/// Whether the commit of the entry `i` is the tip of the PR `n`.
pub open spec fn is_tip_of(
    prs: Map<u64, &GhPr>,
    tracking: Option<Set<Seq<char>>>,
    entries: Seq<JjLogEntry>,
    i: int,
    n: u64,
) -> bool {
    exists|j: int| #[trigger]
        crate::claims::claims_at(prs, tracking, entries, i, j, n) && !crate::claims::is_unresolved(
            prs,
            entries[i].local_bookmarks@[j],
            n,
        )
}

/// Whether the bookmark `j` of the entry `i` makes its commit the tip of the PR `n`, and no other
/// bookmark there makes it a tip.
pub open spec fn is_only_mark(
    prs: Map<u64, &GhPr>,
    tracking: Option<Set<Seq<char>>>,
    entries: Seq<JjLogEntry>,
    i: int,
    j: int,
    n: u64,
) -> bool {
    crate::claims::marks_tip(prs, tracking, entries, i, j, n) && forall|x: int, o: u64| #[trigger]
        crate::claims::marks_tip(prs, tracking, entries, i, x, o) ==> x == j && o == n
}

/// Whether the commit of the entry `i` is the tip of no PR.
pub open spec fn is_no_tip(
    prs: Map<u64, &GhPr>,
    tracking: Option<Set<Seq<char>>>,
    entries: Seq<JjLogEntry>,
    i: int,
) -> bool {
    forall|n: u64| !#[trigger] is_tip_of(prs, tracking, entries, i, n)
}

proof fn lemma_tip_list(
    prs: Map<u64, &GhPr>,
    tracking: Option<Set<Seq<char>>>,
    entries: Seq<JjLogEntry>,
    i: int,
)
    requires
        0 <= i < entries.len(),
        distinct_commits(entries),
    ensures
        ({
            let list = crate::claims::tips(
                crate::claims::claims(prs, tracking, entries),
                entries[i].commit.commit_id@,
            );
            &&& forall|n: u64| #[trigger]
                list.contains(n) <==> is_tip_of(prs, tracking, entries, i, n)
            &&& is_no_tip(prs, tracking, entries, i) ==> list.len() == 0
        }),
{
    let c = entries[i].commit.commit_id@;
    let list = crate::claims::tips(crate::claims::claims(prs, tracking, entries), c);
    assert forall|n: u64| #[trigger]
        list.contains(n) <==> is_tip_of(prs, tracking, entries, i, n) by {
        crate::claims::tips_have_bookmarks(prs, tracking, entries, c, n);
        if list.contains(n) {
            let (a, j) = choose|a: int, j: int| #[trigger]
                crate::claims::claims_at(prs, tracking, entries, a, j, n)
                    && entries[a].commit.commit_id@ == c && !crate::claims::is_unresolved(
                    prs,
                    entries[a].local_bookmarks@[j],
                    n,
                );
            if a < i {
                assert(entries[a].commit.commit_id@ != entries[i].commit.commit_id@);
            } else if i < a {
                assert(entries[i].commit.commit_id@ != entries[a].commit.commit_id@);
            }
            assert(crate::claims::claims_at(prs, tracking, entries, i, j, n));
        }
    }
    if is_no_tip(prs, tracking, entries, i) && list.len() > 0 {
        assert(list.contains(list[0]));
        assert(is_tip_of(prs, tracking, entries, i, list[0]));
    }
}

/// The trunk tip has the node of the trunk. A commit that cannot be changed, other than the
/// trunk tip, has none.
pub proof fn immutable_commits_have_no_node(
    prs: Map<u64, &GhPr>,
    tracking: Option<Set<Seq<char>>>,
    entries: Seq<JjLogEntry>,
    i: int,
)
    requires
        0 <= i < entries.len() < crate::node_store::max_nodes(),
        distinct_commits(entries),
        members_at(prs, tracking, entries, entries.len()) is Ok,
    ensures
        ({
            let m = members_at(prs, tracking, entries, entries.len())->Ok_0;
            let node = node_of(m.nodes, m.owner, entries[i]);
            &&& entries[i].is_trunk_tip ==> node == Some(NodeView::TrunkTip)
            &&& entries[i].immutable && !entries[i].is_trunk_tip ==> node is None
        }),
{
    lemma_settles(prs, tracking, entries, i);
}

/// The tips of PRs: the commit that the bookmarks of one PR alone point to belongs to that PR,
/// unless its trailer names another one; one that bookmarks of several PRs point to is ambiguous
/// between these.
pub proof fn tips_belong_to_their_prs(
    prs: Map<u64, &GhPr>,
    tracking: Option<Set<Seq<char>>>,
    entries: Seq<JjLogEntry>,
    i: int,
    n: u64,
)
    requires
        0 <= i < entries.len() < crate::node_store::max_nodes(),
        distinct_commits(entries),
        members_at(prs, tracking, entries, entries.len()) is Ok,
        is_decided(entries[i]),
        is_tip_of(prs, tracking, entries, i, n),
        no_trailer(prs, tracking, entries, entries[i]) || crate::jj::pr_trailer(
            entries[i].commit.description@,
        ) == Some(n),
    ensures
        ({
            let m = members_at(prs, tracking, entries, entries.len())->Ok_0;
            let node = node_of(m.nodes, m.owner, entries[i]);
            &&& node is Some
            &&& node->0 is Pr ==> node->0 == NodeView::Pr(n)
            &&& (exists|o: u64| o != n && #[trigger] is_tip_of(prs, tracking, entries, i, o))
                ==> node->0 is Ambiguous
            &&& node->0 is Ambiguous ==> forall|o: u64| #[trigger]
                node->0->Ambiguous_branch_prs.contains(o) <==> is_tip_of(
                    prs,
                    tracking,
                    entries,
                    i,
                    o,
                )
            &&& node->0 is Pr || node->0 is Ambiguous
            &&& (exists|j: int| #[trigger] is_only_mark(prs, tracking, entries, i, j, n))
                ==> node->0 == NodeView::Pr(n)
        }),
{
    lemma_settles(prs, tracking, entries, i);
    lemma_tip_list(prs, tracking, entries, i);
    if exists|j: int| #[trigger] is_only_mark(prs, tracking, entries, i, j, n) {
        let j = choose|j: int| #[trigger] is_only_mark(prs, tracking, entries, i, j, n);
        assert forall|a: int, x: int, o: u64| #[trigger]
            crate::claims::marks_tip(prs, tracking, entries, a, x, o)
                && entries[a].commit.commit_id@ == entries[i].commit.commit_id@ implies a == i && x
            == j && o == n by {
            if a < i {
                assert(entries[a].commit.commit_id@ != entries[i].commit.commit_id@);
            } else if i < a {
                assert(entries[i].commit.commit_id@ != entries[a].commit.commit_id@);
            }
        }
        crate::claims::only_bookmark_makes_only_tip(prs, tracking, entries, i, j, n);
    }
    let m = members_at(prs, tracking, entries, i as nat)->Ok_0;
    let e = entries[i];
    let claims = crate::claims::claims(prs, tracking, entries);
    let list = crate::claims::tips(claims, e.commit.commit_id@);
    let d = decision_at(prs, tracking, entries, m, e)->0;
    assert(list.contains(n));
    if crate::jj::pr_trailer(e.commit.description@) is Some {
        let t = crate::jj::pr_trailer(e.commit.description@)->0;
        crate::claims::local_prs_have_bookmarks(prs, tracking, entries, t);
        if t == n {
            let j = choose|j: int| #[trigger]
                crate::claims::claims_at(prs, tracking, entries, i, j, n)
                    && !crate::claims::is_unresolved(prs, entries[i].local_bookmarks@[j], n);
            assert(crate::claims::claims_at(prs, tracking, entries, i, j, t));
        }
    }
    if list.len() == 1 {
        assert(list[0] == n);
        assert forall|o: u64| #[trigger] is_tip_of(prs, tracking, entries, i, o) implies o
            == n by {
            assert(list.contains(o));
        }
    } else {
        assert(d.node->0 is Ambiguous);
        assert(d.node->0->Ambiguous_branch_prs == list.to_set());
        assert forall|o: u64| #[trigger] list.to_set().contains(o) <==> is_tip_of(
            prs,
            tracking,
            entries,
            i,
            o,
        ) by {
            assert(list.contains(o) <==> is_tip_of(prs, tracking, entries, i, o));
        }
    }
}

/// A commit that is no tip, and whose trailer counts for nothing, has a node exactly where one of
/// its children has. So stray commits belong to no PR.
pub proof fn stray_commits_have_no_node(
    prs: Map<u64, &GhPr>,
    tracking: Option<Set<Seq<char>>>,
    entries: Seq<JjLogEntry>,
    i: int,
)
    requires
        0 <= i < entries.len() < crate::node_store::max_nodes(),
        distinct_commits(entries),
        children_first(entries),
        members_at(prs, tracking, entries, entries.len()) is Ok,
        is_decided(entries[i]),
        is_no_tip(prs, tracking, entries, i),
        no_trailer(prs, tracking, entries, entries[i]),
    ensures
        ({
            let m = members_at(prs, tracking, entries, entries.len())->Ok_0;
            node_of(m.nodes, m.owner, entries[i]) is Some <==> exists|j: int| #[trigger]
                is_child(entries, j, i) && node_of(m.nodes, m.owner, entries[j]) is Some
        }),
{
    lemma_settles(prs, tracking, entries, i);
    lemma_tip_list(prs, tracking, entries, i);
    let m = members_at(prs, tracking, entries, i as nat)->Ok_0;
    let r = members_at(prs, tracking, entries, entries.len())->Ok_0;
    let e = entries[i];
    let list = child_list(entries, m, e);
    if crate::jj::pr_trailer(e.commit.description@) is Some {
        let t = crate::jj::pr_trailer(e.commit.description@)->0;
        crate::claims::local_prs_have_bookmarks(prs, tracking, entries, t);
    }
    lemma_combined(list);
    if list.len() > 0 {
        let j = lemma_listed_child(prs, tracking, entries, i, 0);
        assert(is_child(entries, j, i) && node_of(r.nodes, r.owner, entries[j]) is Some);
    }
    if exists|j: int| #[trigger]
        is_child(entries, j, i) && node_of(r.nodes, r.owner, entries[j]) is Some {
        let j = choose|j: int| #[trigger]
            is_child(entries, j, i) && node_of(r.nodes, r.owner, entries[j]) is Some;
        let a = lemma_child_is_listed(prs, tracking, entries, i, j);
        assert(list.len() > 0);
    }
}

/// A commit that is no tip belongs to the PR of its children, where all children that have a
/// node belong to one PR, and its trailer names no other PR.
pub proof fn commits_follow_their_children(
    prs: Map<u64, &GhPr>,
    tracking: Option<Set<Seq<char>>>,
    entries: Seq<JjLogEntry>,
    i: int,
    j: int,
    n: u64,
)
    requires
        0 <= i < entries.len() < crate::node_store::max_nodes(),
        distinct_commits(entries),
        children_first(entries),
        members_at(prs, tracking, entries, entries.len()) is Ok,
        is_decided(entries[i]),
        is_no_tip(prs, tracking, entries, i),
        no_trailer(prs, tracking, entries, entries[i]) || crate::jj::pr_trailer(
            entries[i].commit.description@,
        ) == Some(n),
        is_child(entries, j, i),
        ({
            let m = members_at(prs, tracking, entries, entries.len())->Ok_0;
            &&& node_of(m.nodes, m.owner, entries[j]) == Some(NodeView::Pr(n))
            &&& forall|o: int| #[trigger]
                is_child(entries, o, i) && node_of(m.nodes, m.owner, entries[o]) is Some
                    ==> node_of(m.nodes, m.owner, entries[o]) == Some(NodeView::Pr(n))
        }),
    ensures
        ({
            let m = members_at(prs, tracking, entries, entries.len())->Ok_0;
            node_of(m.nodes, m.owner, entries[i]) == Some(NodeView::Pr(n))
        }),
{
    lemma_settles(prs, tracking, entries, i);
    lemma_tip_list(prs, tracking, entries, i);
    members_are_ok(prs, tracking, entries, entries.len());
    let m = members_at(prs, tracking, entries, i as nat)->Ok_0;
    let r = members_at(prs, tracking, entries, entries.len())->Ok_0;
    let e = entries[i];
    let list = child_list(entries, m, e);
    if crate::jj::pr_trailer(e.commit.description@) is Some {
        let t = crate::jj::pr_trailer(e.commit.description@)->0;
        crate::claims::local_prs_have_bookmarks(prs, tracking, entries, t);
    }
    assert(r.owner.contains_key(entries[j].commit.commit_id@));
    assert forall|a: int| 0 <= a < list.len() implies (#[trigger] list[a]).1 == NodeView::Pr(n)
        && r.nodes[crate::node_store::place(list[a].0)] == NodeView::Pr(n) by {
        let o = lemma_listed_child(prs, tracking, entries, i, a);
        assert(node_of(r.nodes, r.owner, entries[o]) is Some);
        assert(has_grown(list[a].1, r.nodes[crate::node_store::place(list[a].0)]));
    }
    let at = lemma_child_is_listed(prs, tracking, entries, i, j);
    assert(list.len() == 1) by {
        if list.len() > 1 {
            lemma_child_keys_differ(entries, m.owner, e.commit.commit_id@);
            let x = lemma_listed_child(prs, tracking, entries, i, 0);
            let y = lemma_listed_child(prs, tracking, entries, i, 1);
            let a = crate::node_store::place(list[0].0);
            let b = crate::node_store::place(list[1].0);
            assert(list[0].1 == NodeView::Pr(n) && list[1].1 == NodeView::Pr(n));
            assert(r.nodes[a] is Pr && r.nodes[b] is Pr);
            assert(member_key(list[0].0, r.nodes.len()) && member_key(list[1].0, r.nodes.len()));
            assert(a == b);
            assert(list[0].0 == list[1].0);
            let keys = child_keys(entries, m.owner, e.commit.commit_id@);
            assert(keys[0] == keys[1]);
        }
    }
    assert(list[0].1 == NodeView::Pr(n));
}

/// The branch PRs of the child nodes of a commit are those of its children in the end.
proof fn lemma_child_branches(
    prs: Map<u64, &GhPr>,
    tracking: Option<Set<Seq<char>>>,
    entries: Seq<JjLogEntry>,
    i: int,
)
    requires
        0 <= i < entries.len() < crate::node_store::max_nodes(),
        distinct_commits(entries),
        children_first(entries),
        members_at(prs, tracking, entries, entries.len()) is Ok,
    ensures
        ({
            let m = members_at(prs, tracking, entries, i as nat)->Ok_0;
            let r = members_at(prs, tracking, entries, entries.len())->Ok_0;
            forall|n: u64| #[trigger]
                all_branches(child_list(entries, m, entries[i])).contains(n) <==> exists|o: int|
                    #[trigger]
                    is_child(entries, o, i) && may_be_of(
                        node_of(r.nodes, r.owner, entries[o]),
                        n,
                    )
        }),
{
    lemma_later_members(prs, tracking, entries, i as nat, entries.len());
    let m = members_at(prs, tracking, entries, i as nat)->Ok_0;
    let r = members_at(prs, tracking, entries, entries.len())->Ok_0;
    let list = child_list(entries, m, entries[i]);
    assert forall|n: u64| #[trigger]
        all_branches(list).contains(n) <==> exists|o: int| #[trigger]
        is_child(entries, o, i) && may_be_of(node_of(r.nodes, r.owner, entries[o]), n) by {
        if all_branches(list).contains(n) {
            let b = choose|b: int|
                0 <= b < list.len() && branch_set((#[trigger] list[b]).1).contains(n);
            let o = lemma_listed_child(prs, tracking, entries, i, b);
            assert(has_grown(list[b].1, r.nodes[crate::node_store::place(list[b].0)]));
            assert(may_be_of(node_of(r.nodes, r.owner, entries[o]), n));
        }
        if exists|o: int| #[trigger]
            is_child(entries, o, i) && may_be_of(node_of(r.nodes, r.owner, entries[o]), n) {
            let o = choose|o: int| #[trigger]
                is_child(entries, o, i) && may_be_of(node_of(r.nodes, r.owner, entries[o]), n);
            assert(r.owner.contains_key(entries[o].commit.commit_id@));
            let b = lemma_child_is_listed(prs, tracking, entries, i, o);
            assert(has_grown(list[b].1, r.nodes[crate::node_store::place(list[b].0)]));
            assert(branch_set(list[b].1).contains(n));
        }
    }
}

/// A commit that is no tip, and whose trailer counts for nothing, is ambiguous where its children
/// are of several PRs or ambiguous. The PRs that it may belong to are those of its children.
pub proof fn commits_between_prs_are_ambiguous(
    prs: Map<u64, &GhPr>,
    tracking: Option<Set<Seq<char>>>,
    entries: Seq<JjLogEntry>,
    i: int,
    j: int,
)
    requires
        0 <= i < entries.len() < crate::node_store::max_nodes(),
        distinct_commits(entries),
        children_first(entries),
        members_at(prs, tracking, entries, entries.len()) is Ok,
        is_decided(entries[i]),
        is_no_tip(prs, tracking, entries, i),
        no_trailer(prs, tracking, entries, entries[i]),
        is_child(entries, j, i),
        ({
            let m = members_at(prs, tracking, entries, entries.len())->Ok_0;
            let node = node_of(m.nodes, m.owner, entries[j]);
            &&& node is Some
            &&& node->0 is Ambiguous || (exists|o: int| #[trigger]
                is_child(entries, o, i) && node_of(m.nodes, m.owner, entries[o]) is Some
                    && node_of(m.nodes, m.owner, entries[o]) != node)
        }),
    ensures
        ({
            let m = members_at(prs, tracking, entries, entries.len())->Ok_0;
            let node = node_of(m.nodes, m.owner, entries[i]);
            &&& node is Some
            &&& node->0 is Ambiguous
            &&& forall|n: u64| #[trigger]
                node->0->Ambiguous_branch_prs.contains(n) <==> exists|o: int| #[trigger]
                    is_child(entries, o, i) && may_be_of(
                        node_of(m.nodes, m.owner, entries[o]),
                        n,
                    )
        }),
{
    lemma_settles(prs, tracking, entries, i);
    lemma_tip_list(prs, tracking, entries, i);
    let m = members_at(prs, tracking, entries, i as nat)->Ok_0;
    let r = members_at(prs, tracking, entries, entries.len())->Ok_0;
    let e = entries[i];
    let list = child_list(entries, m, e);
    if crate::jj::pr_trailer(e.commit.description@) is Some {
        let t = crate::jj::pr_trailer(e.commit.description@)->0;
        crate::claims::local_prs_have_bookmarks(prs, tracking, entries, t);
    }
    let d = decision_at(prs, tracking, entries, m, e)->0;
    assert(Some(d) == combined(list));
    let node = node_of(r.nodes, r.owner, entries[j]);
    assert(r.owner.contains_key(entries[j].commit.commit_id@));
    let a = lemma_child_is_listed(prs, tracking, entries, i, j);
    assert(has_grown(list[a].1, node->0));
    if !(node->0 is Ambiguous) {
        let o = choose|o: int| #[trigger]
            is_child(entries, o, i) && node_of(r.nodes, r.owner, entries[o]) is Some && node_of(
                r.nodes,
                r.owner,
                entries[o],
            ) != node;
        assert(r.owner.contains_key(entries[o].commit.commit_id@));
        let b = lemma_child_is_listed(prs, tracking, entries, i, o);
        assert(has_grown(list[b].1, node_of(r.nodes, r.owner, entries[o])->0));
        assert(list[a].1 != list[b].1);
        assert(list.len() > 1);
        assert(!all_of_one_pr(list)) by {
            if all_of_one_pr(list) {
                assert(list[a].1 == list[b].1);
            }
        }
    } else {
        assert(list[a].1 is Ambiguous);
        assert(!all_of_one_pr(list)) by {
            if all_of_one_pr(list) {
                assert(list[a].1 is Pr);
            }
        }
    }
    assert(d.node->0 is Ambiguous);
    assert(d.node->0->Ambiguous_branch_prs == all_branches(list)) by {
        if list.len() == 1 {
            combined_branches_are_all(list);
        }
    }
    lemma_child_branches(prs, tracking, entries, i);
}

/// Whether a node is that of the PR `n`, or has a branch of it.
pub open spec fn may_be_of(node: Option<NodeView>, n: u64) -> bool {
    match node {
        Some(NodeView::Pr(p)) => p == n,
        Some(NodeView::Ambiguous { branch_prs, trailer_prs }) => branch_prs.contains(n),
        _ => false,
    }
}

/// A trailer that names a PR which has a local bookmark, or is neither closed nor merged, never
/// goes unnoticed: the commit belongs to that PR, or it is ambiguous and the trailer is kept. The
/// trailer alone does not make it belong to the PR.
pub proof fn trailers_are_noticed(
    prs: Map<u64, &GhPr>,
    tracking: Option<Set<Seq<char>>>,
    entries: Seq<JjLogEntry>,
    i: int,
    n: u64,
)
    requires
        0 <= i < entries.len() < crate::node_store::max_nodes(),
        distinct_commits(entries),
        members_at(prs, tracking, entries, entries.len()) is Ok,
        is_decided(entries[i]),
        crate::jj::pr_trailer(entries[i].commit.description@) == Some(n),
        (exists|a: int, j: int| #[trigger]
            crate::claims::claims_at(prs, tracking, entries, a, j, n)) || !(prs.contains_key(n)
            && (prs[n].state is Closed || prs[n].state is Merged)),
    ensures
        ({
            let m = members_at(prs, tracking, entries, entries.len())->Ok_0;
            let node = node_of(m.nodes, m.owner, entries[i]);
            &&& node is Some
            &&& node->0 == NodeView::Pr(n) || (node->0 is Ambiguous
                && node->0->Ambiguous_trailer_prs.contains(n))
            &&& node->0 is Pr ==> !is_no_tip(prs, tracking, entries, i) || exists|o: int| #[trigger]
                is_child(entries, o, i)
        }),
{
    lemma_settles(prs, tracking, entries, i);
    lemma_tip_list(prs, tracking, entries, i);
    crate::claims::local_prs_have_bookmarks(prs, tracking, entries, n);
    let m = members_at(prs, tracking, entries, i as nat)->Ok_0;
    let list = child_list(entries, m, entries[i]);
    if list.len() > 0 {
        let o = lemma_key_has_child(entries, m.owner, entries[i].commit.commit_id@, 0);
        let p = choose|p: int|
            0 <= p < entries[o].commit.parents@.len() && #[trigger] entries[o].commit.parents@[p]@
                == entries[i].commit.commit_id@;
        assert((entries[o].commit.parents@[p])@ == entries[i].commit.commit_id@);
        assert(is_child(entries, o, i));
    }
}

/// A PR that was found has a commit.
proof fn lemma_found(
    prs: Map<u64, &GhPr>,
    tracking: Option<Set<Seq<char>>>,
    entries: Seq<JjLogEntry>,
    k: nat,
    n: u64,
) -> (j: int)
    requires
        k <= entries.len() < crate::node_store::max_nodes(),
        distinct_commits(entries),
        members_at(prs, tracking, entries, k) is Ok,
        members_at(prs, tracking, entries, k)->Ok_0.found.contains(n),
    ensures
        0 <= j < k,
        ({
            let m = members_at(prs, tracking, entries, k)->Ok_0;
            node_of(m.nodes, m.owner, entries[j]) == Some(NodeView::Pr(n))
        }),
    decreases k,
{
    lemma_step(prs, tracking, entries, k);
    let before = members_at(prs, tracking, entries, (k - 1) as nat)->Ok_0;
    if before.found.contains(n) {
        let j = lemma_found(prs, tracking, entries, (k - 1) as nat, n);
        lemma_later_members(prs, tracking, entries, (k - 1) as nat, k);
        members_are_ok(prs, tracking, entries, (k - 1) as nat);
        let c = entries[j].commit.commit_id@;
        assert(before.owner.contains_key(c));
        let at = crate::node_store::place(before.owner[c]);
        let m = members_at(prs, tracking, entries, k)->Ok_0;
        assert(has_grown(before.nodes[at], m.nodes[at]));
        j
    } else {
        k - 1
    }
}

/// Whether a node has something of the PR `n`.
pub open spec fn has_part_of(node: Option<NodeView>, n: u64) -> bool {
    match node {
        Some(NodeView::Pr(p)) => p == n,
        Some(NodeView::Ambiguous { branch_prs, trailer_prs }) => branch_prs.contains(n)
            || trailer_prs.contains(n),
        _ => false,
    }
}

/// A merged PR whose bookmark is gone is found by the trailers of its commits: the first commit
/// whose trailer names it belongs to it, where no commit before has anything of it.
pub proof fn merged_prs_are_found_by_trailer(
    prs: Map<u64, &GhPr>,
    tracking: Option<Set<Seq<char>>>,
    entries: Seq<JjLogEntry>,
    i: int,
    n: u64,
)
    requires
        0 <= i < entries.len() < crate::node_store::max_nodes(),
        distinct_commits(entries),
        children_first(entries),
        members_at(prs, tracking, entries, entries.len()) is Ok,
        is_decided(entries[i]),
        crate::jj::pr_trailer(entries[i].commit.description@) == Some(n),
        prs.contains_key(n),
        prs[n].state is Merged,
        forall|a: int, j: int|
            !#[trigger] crate::claims::claims_at(prs, tracking, entries, a, j, n),
        forall|j: int|
            0 <= j < i ==> !has_part_of(
                node_of(
                    members_at(prs, tracking, entries, entries.len())->Ok_0.nodes,
                    members_at(prs, tracking, entries, entries.len())->Ok_0.owner,
                    #[trigger] entries[j],
                ),
                n,
            ),
    ensures
        ({
            let m = members_at(prs, tracking, entries, entries.len())->Ok_0;
            node_of(m.nodes, m.owner, entries[i]) == Some(NodeView::Pr(n))
        }),
{
    lemma_settles(prs, tracking, entries, i);
    lemma_tip_list(prs, tracking, entries, i);
    crate::claims::local_prs_have_bookmarks(prs, tracking, entries, n);
    let claims = crate::claims::claims(prs, tracking, entries);
    let m = members_at(prs, tracking, entries, i as nat)->Ok_0;
    let r = members_at(prs, tracking, entries, entries.len())->Ok_0;
    let e = entries[i];
    let list = child_list(entries, m, e);
    let tips = crate::claims::tips(claims, e.commit.commit_id@);
    if m.found.contains(n) {
        let j = lemma_found(prs, tracking, entries, i as nat, n);
        lemma_later_members(prs, tracking, entries, i as nat, entries.len());
        members_are_ok(prs, tracking, entries, i as nat);
        let c = entries[j].commit.commit_id@;
        assert(m.owner.contains_key(c));
        let at = crate::node_store::place(m.owner[c]);
        assert(has_grown(m.nodes[at], r.nodes[at]));
        assert(has_part_of(node_of(r.nodes, r.owner, entries[j]), n));
    }
    assert(!tips.contains(n)) by {
        if tips.contains(n) {
            let j = choose|j: int| #[trigger]
                crate::claims::claims_at(prs, tracking, entries, i, j, n)
                    && !crate::claims::is_unresolved(prs, entries[i].local_bookmarks@[j], n);
            assert(crate::claims::claims_at(prs, tracking, entries, i, j, n));
        }
    }
    assert forall|a: int| 0 <= a < list.len() implies !node_contains((#[trigger] list[a]).1, n) by {
        let j = lemma_listed_child(prs, tracking, entries, i, a);
        assert(j < i);
        assert(!has_part_of(node_of(r.nodes, r.owner, entries[j]), n));
    }
    let base = untrailed(tips, list)->0;
    if base.node is Some && node_contains(base.node->0, n) {
        if tips.len() == 0 {
            if list.len() == 1 {
                assert(!node_contains(list[0].1, n));
            } else if all_of_one_pr(list) {
                assert(!node_contains(list[0].1, n));
            } else if all_branches(list).contains(n) {
                let a = choose|a: int|
                    0 <= a < list.len() && branch_set((#[trigger] list[a]).1).contains(n);
                assert(!node_contains(list[a].1, n));
            } else {
                assert(joint_trailers(list).contains(n));
                let a = choose|a: int|
                    0 <= a < list.len() && stands_for(list, (#[trigger] list[a]).1) && trailer_set(
                        list[a].1,
                    ).contains(n);
                assert(!node_contains(list[a].1, n));
            }
        } else if tips.len() == 1 {
            assert(tips.contains(tips[0]));
        } else {
            assert(tips.to_set().contains(n));
        }
    }
}

// --- Laws of single decisions ---

/// A trailer that is neither stale nor finds a merged PR has to agree with the branches. One that
/// does changes nothing. Of a commit of another PR it makes an ambiguous one, with that branch and
/// this trailer, and so it does of a commit without branches. An ambiguous commit stays in its
/// node, which gains the trailer.
///
/// So it is with the PRs that have a local bookmark or are neither closed nor merged, and with the
/// merged PRs that were met before or that the commit may belong to anyway.
pub proof fn trailers_have_to_agree(
    tips: Seq<u64>,
    children: Seq<(NodeKey, NodeView)>,
    n: u64,
    local: Set<u64>,
    found: Set<u64>,
    prs: Map<u64, &GhPr>,
    p: u64,
)
    requires
        untrailed(tips, children) is Some,
        ({
            let node = untrailed(tips, children)->0.node;
            ||| local.contains(n)
            ||| !prs.contains_key(n)
            ||| prs[n].state is Open
            ||| prs[n].state is Merged && (found.contains(n) || has_part_of(node, n))
        }),
        !(untrailed(tips, children)->0.node is Some && (
        untrailed(tips, children)->0.node->0 is Root
            || untrailed(tips, children)->0.node->0 is TrunkTip)),
    ensures
        ({
            let d = untrailed(tips, children)->0;
            let r = decided(false, tips, children, Some(n), local, found, prs);
            &&& r is Some && r->0.node is Some
            &&& d.node == Some(NodeView::Pr(n)) ==> r->0 == d
            &&& d.node is None ==> r->0.key is None && r->0.node->0 == (NodeView::Ambiguous {
                branch_prs: Set::empty(),
                trailer_prs: set![n],
            })
            &&& d.node == Some(NodeView::Pr(p)) && p != n ==> r->0.key is None && r->0.node->0 == (
            NodeView::Ambiguous { branch_prs: set![p], trailer_prs: set![n] })
            &&& d.node is Some && d.node->0 is Ambiguous ==> {
                &&& r->0.key == d.key
                &&& r->0.node->0 is Ambiguous
                &&& r->0.node->0->Ambiguous_branch_prs == d.node->0->Ambiguous_branch_prs
                &&& r->0.node->0->Ambiguous_trailer_prs.contains(p) <==> p == n
                    || d.node->0->Ambiguous_trailer_prs.contains(p)
            }
        }),
{
}

/// Child nodes of one and the same PR make its node, under the lowest of their keys.
pub proof fn children_of_one_pr_are_joined(children: Seq<(NodeKey, NodeView)>, n: u64, i: int)
    requires
        0 <= i < children.len(),
        forall|j: int| 0 <= j < children.len() ==> (#[trigger] children[j]).1 == NodeView::Pr(n),
    ensures
        combined(children) is Some,
        combined(children)->0.node == Some(NodeView::Pr(n)),
        combined(children)->0.key is Some,
        combined(children)->0.key->0 <= children[i].0,
        exists|j: int|
            0 <= j < children.len() && (#[trigger] children[j]).0 == combined(children)->0.key->0,
{
    assert(children[0].1 == NodeView::Pr(n));
    if children.len() == 1 {
        assert(children[0].0 == combined(children)->0.key->0);
    } else {
        assert(branch_set(children[0].1) =~= all_branches(children)) by {
            assert forall|m: u64| #[trigger]
                all_branches(children).contains(m) <==> set![n].contains(m) by {
                if m == n {
                    assert(branch_set(children[0].1).contains(m));
                }
            }
        }
        assert forall|j: int| 0 <= j < children.len() implies stands_for(
            children,
            (#[trigger] children[j]).1,
        ) by {
            assert(children[j].1 == children[0].1);
        }
        lemma_lowest(children, children.len());
        let k = choose|k: NodeKey| is_joint_key(children, k);
        assert(is_joint_key(children, k));
        assert(stands_for(children, children[i].1));
    }
}

/// Where a child can stand for all, one of them has the lowest key.
proof fn lemma_lowest(children: Seq<(NodeKey, NodeView)>, m: nat)
    requires
        m <= children.len(),
        exists|i: int| 0 <= i < m && stands_for(children, (#[trigger] children[i]).1),
    ensures
        exists|i: int|
            0 <= i < m && stands_for(children, (#[trigger] children[i]).1) && (forall|j: int|
                0 <= j < m && stands_for(children, (#[trigger] children[j]).1) ==> children[i].0
                    <= children[j].0),
        m == children.len() ==> exists|k: NodeKey| is_joint_key(children, k),
    decreases m,
{
    let at = m - 1;
    let i = choose|i: int| 0 <= i < m && stands_for(children, (#[trigger] children[i]).1);
    let low = if exists|i: int|
        0 <= i < at && stands_for(children, (#[trigger] children[i]).1) {
        lemma_lowest(children, at as nat);
        let b = choose|i: int|
            0 <= i < at && stands_for(children, (#[trigger] children[i]).1) && (forall|j: int|
                0 <= j < at && stands_for(children, (#[trigger] children[j]).1) ==> children[i].0
                    <= children[j].0);
        if stands_for(children, children[at].1) && children[at].0 < children[b].0 {
            at
        } else {
            b
        }
    } else {
        at
    };
    assert(stands_for(children, children[low].1));
    assert forall|j: int|
        0 <= j < m && stands_for(children, (#[trigger] children[j]).1) implies children[low].0
        <= children[j].0 by {}
    if m == children.len() {
        assert(is_joint_key(children, children[low].0));
    }
}

/// Whether every ambiguous child has the branches of all the children.
pub open spec fn ambiguous_have_all(children: Seq<(NodeKey, NodeView)>) -> bool {
    forall|i: int, j: int, n: u64|
        0 <= i < children.len() && 0 <= j < children.len() && (#[trigger] children[i]).1 is Ambiguous
            && #[trigger] may_be_of(Some(children[j].1), n)
            ==> children[i].1->Ambiguous_branch_prs.contains(n)
}

/// Several child nodes that are not of one and the same PR make an ambiguous node of the branches
/// of all of them. Where every ambiguous child has all these branches already, it is the one of
/// these with the lowest key, and it has the trailers of all of them; otherwise, and where there
/// is no ambiguous child, it is a new node without trailers.
pub proof fn children_of_several_prs_are_joined(
    children: Seq<(NodeKey, NodeView)>,
    a: int,
    b: int,
    n: u64,
    k: NodeKey,
)
    requires
        0 <= a < b < children.len(),
        children[a].1 is Ambiguous || children[a].1 != children[b].1,
        forall|j: int|
            0 <= j < children.len() ==> (#[trigger] children[j]).1 is Pr
                || children[j].1 is Ambiguous,
    ensures
        combined(children) is Some,
        combined(children)->0.node is Some,
        combined(children)->0.node->0 is Ambiguous,
        combined(children)->0.node->0->Ambiguous_branch_prs.contains(n) <==> exists|j: int|
            0 <= j < children.len() && may_be_of(Some((#[trigger] children[j]).1), n),
        combined(children)->0.node->0->Ambiguous_trailer_prs.contains(n) <==> ambiguous_have_all(
            children,
        ) && exists|j: int|
            0 <= j < children.len() && (#[trigger] children[j]).1 is Ambiguous
                && children[j].1->Ambiguous_trailer_prs.contains(n),
        combined(children)->0.key == Some(k) <==> ambiguous_have_all(children) && (exists|j: int|
            0 <= j < children.len() && (#[trigger] children[j]).1 is Ambiguous && children[j].0
                == k) && (forall|j: int|
            0 <= j < children.len() && (#[trigger] children[j]).1 is Ambiguous ==> k
                <= children[j].0),
{
    assert(!all_of_one_pr(children));
    let all = all_branches(children);
    assert forall|m: u64| #[trigger] all.contains(m) <==> exists|j: int|
        0 <= j < children.len() && may_be_of(Some((#[trigger] children[j]).1), m) by {
        if all.contains(m) {
            let j = choose|j: int|
                0 <= j < children.len() && branch_set((#[trigger] children[j]).1).contains(m);
            assert(may_be_of(Some(children[j].1), m));
        }
        if exists|j: int| 0 <= j < children.len() && may_be_of(Some((#[trigger] children[j]).1), m) {
            let j = choose|j: int|
                0 <= j < children.len() && may_be_of(Some((#[trigger] children[j]).1), m);
            assert(branch_set(children[j].1).contains(m));
        }
    }
    assert(ambiguous_agree(children) == ambiguous_have_all(children)) by {
        if ambiguous_have_all(children) {
            assert forall|i: int|
                0 <= i < children.len() && (#[trigger] children[i]).1 is Ambiguous implies
                branch_set(children[i].1) == all by {
                assert forall|m: u64| #[trigger]
                    branch_set(children[i].1).contains(m) <==> all.contains(m) by {
                    if all.contains(m) {
                        let j = choose|j: int|
                            0 <= j < children.len() && may_be_of(
                                Some((#[trigger] children[j]).1),
                                m,
                            );
                        assert(may_be_of(Some(children[j].1), m));
                    }
                    if branch_set(children[i].1).contains(m) {
                        assert(may_be_of(Some(children[i].1), m));
                    }
                }
                assert(branch_set(children[i].1) =~= all);
            }
        }
        if ambiguous_agree(children) {
            assert forall|i: int, j: int, m: u64|
                0 <= i < children.len() && 0 <= j < children.len() && (
                #[trigger] children[i]).1 is Ambiguous && #[trigger] may_be_of(
                    Some(children[j].1),
                    m,
                ) implies children[i].1->Ambiguous_branch_prs.contains(m) by {
                assert(all.contains(m));
                assert(branch_set(children[i].1) == all);
            }
        }
    }
    assert forall|j: int| 0 <= j < children.len() implies (stands_for(
        children,
        (#[trigger] children[j]).1,
    ) <==> children[j].1 is Ambiguous && ambiguous_agree(children)) by {}
    if exists|x: NodeKey| is_joint_key(children, x) {
        let x = choose|x: NodeKey| is_joint_key(children, x);
        assert(is_joint_key(children, x));
    }
    if ambiguous_have_all(children) && (exists|j: int|
        0 <= j < children.len() && (#[trigger] children[j]).1 is Ambiguous && children[j].0 == k)
        && (forall|j: int|
        0 <= j < children.len() && (#[trigger] children[j]).1 is Ambiguous ==> k
            <= children[j].0) {
        assert(is_joint_key(children, k));
        let x = choose|x: NodeKey| is_joint_key(children, x);
        assert(is_joint_key(children, x));
    }
}

} // verus!
