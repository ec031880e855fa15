//! The graph of pull requests.
use std::collections::{BTreeMap, BTreeSet};
use vstd::prelude::*;

use crate::claims::{find_pr, prs_to_push};
use crate::gh::{GhPr, PrNum, PrState};
use crate::graph_algorithms::topo_sort;
use crate::jj::{parse_pr_trailer, JjLogEntry};
use crate::membership::{assign_nodes, Members};
use crate::node_graph::{
    collect_edges, find_base, find_hidden, find_needs_sync, preds_list, succs_list,
};
use crate::node_store::{has_key_form, EdgeMap, FlagMap, FIRST_KEY, MarkSet, NodeKey, NodeSlots};
use crate::sets::{set_numbers, TextMap, TextSet};
use crate::types::Bookmark;

verus! {

/// Represents a contiguous set of changes/commits within the JJ graph, usually for a PR.
#[derive(Debug)]
pub enum Node {
    /// Represents the root - the synthetic "everything before trunk" boundary.
    Root,
    /// Represents the tip of `trunk()` - what top-level PRs should be rebased upon.
    TrunkTip,
    /// Represents a single PR.
    Pr(PrNum),
    /// Represents one or more ambiguous changes/commits.
    ///
    /// A node may be ambiguous either because its trailer PR num doesn't match the branch PR,
    /// or if there are multiple branch PRs that could own this commit (due to multiple
    /// children).
    Ambiguous {
        /// The numbers of the branch PRs that could include this node.
        branch_prs: BTreeSet<u64>,
        /// The numbers of the trailer PRs in commits in this node.
        trailer_prs: BTreeSet<u64>,
    },
}

/// What a node stands for.
#[verifier::ext_equal]
pub enum NodeView {
    Root,
    TrunkTip,
    Pr(u64),
    Ambiguous { branch_prs: Set<u64>, trailer_prs: Set<u64> },
}

/// Why no repo state could be built. Each is a sign of inconsistent input.
#[derive(Debug)]
pub enum BuildError {
    /// A commit below `trunk()` or the root would have to be shared with a PR.
    Boundary,
    /// A PR would get a second node.
    DuplicatePr(u64),
    /// The graph of nodes has a cycle, through these nodes.
    Cycle(Vec<NodeKey>),
}

impl View for Node {
    type V = NodeView;

    open spec fn view(&self) -> NodeView {
        match self {
            Node::Root => NodeView::Root,
            Node::TrunkTip => NodeView::TrunkTip,
            Node::Pr(n) => NodeView::Pr(n@),
            Node::Ambiguous { branch_prs, trailer_prs } => NodeView::Ambiguous {
                branch_prs: branch_prs@,
                trailer_prs: trailer_prs@,
            },
        }
    }
}

impl Clone for Node {
    fn clone(&self) -> (r: Self)
        ensures
            r@ == self@,
    {
        match self {
            Node::Root => Node::Root,
            Node::TrunkTip => Node::TrunkTip,
            Node::Pr(n) => Node::Pr(*n),
            Node::Ambiguous { branch_prs, trailer_prs } => Node::Ambiguous {
                branch_prs: branch_prs.clone(),
                trailer_prs: trailer_prs.clone(),
            },
        }
    }
}

/// The unified view of the repo state.
pub struct RepoState {
    /// All the nodes in the repo state.
    pub nodes: NodeSlots,
    /// The node key for `root()` (synthetic boundary below trunk).
    pub root_node: NodeKey,
    /// Node -> parent Nodes.
    pub node_preds: EdgeMap,
    /// Node -> child Nodes.
    pub node_succs: EdgeMap,
    /// Topological order of nodes (parents before children).
    pub topo_order: Vec<NodeKey>,
    /// Graph-computed: commit_id -> owning node.
    pub commit_node: TextMap,
    /// PRs whose local bookmark points to a different commit than the remote bookmark.
    pub pr_needs_push: BTreeSet<u64>,
    /// Nodes that have any pending sync action (push, rebase, base update), including
    /// transitive descendants of nodes that need rebase.
    /// Value: `true` = propagates to children (push/rebase), `false` = local only (base mismatch).
    pub node_needs_sync: FlagMap,
    /// Bookmarks with conflicting targets that block sync (user must resolve with `jj bookmark`).
    pub bookmarks_blocking: TextSet,
    /// Nodes containing at least one commit with content conflicts.
    pub node_conflicted: MarkSet,
    /// Closed PR nodes that can be hidden from display (leaf-only: all successors also hidden).
    pub node_hidden: MarkSet,
    /// The node containing the working copy (`@`), if any.
    pub node_current: Option<NodeKey>,
}

/// What a repo state says.
#[verifier::ext_equal]
pub struct RepoView {
    pub nodes: Seq<NodeView>,
    pub root: NodeKey,
    pub preds: Map<NodeKey, Seq<NodeKey>>,
    pub succs: Map<NodeKey, Seq<NodeKey>>,
    pub order: Seq<NodeKey>,
    pub owner: Map<Seq<char>, NodeKey>,
    pub needs_push: Set<u64>,
    pub needs_sync: Map<NodeKey, bool>,
    pub blocking: Set<Seq<char>>,
    pub conflicted: Set<NodeKey>,
    pub hidden: Set<NodeKey>,
    pub current: Option<NodeKey>,
}

impl View for RepoState {
    type V = RepoView;

    open spec fn view(&self) -> RepoView {
        RepoView {
            nodes: crate::membership::node_views(self.nodes@),
            root: self.root_node,
            preds: self.node_preds@,
            succs: self.node_succs@,
            order: self.topo_order@,
            owner: self.commit_node@,
            needs_push: self.pr_needs_push@,
            needs_sync: self.node_needs_sync@,
            blocking: self.bookmarks_blocking@,
            conflicted: self.node_conflicted@,
            hidden: self.node_hidden@,
            current: self.node_current,
        }
    }
}

/// The parents of a node, in a map of parents.
pub open spec fn map_graph(map: Map<NodeKey, Seq<NodeKey>>) -> crate::graph_algorithms::Graph {
    |k: NodeKey|
        if map.contains_key(k) {
            map[k]
        } else {
            Seq::empty()
        }
}

/// What holds of every repo state: all that it says is about its nodes; the first node is the
/// root, and the only one; the order lists each node once, parents before children.
pub open spec fn repo_ok(v: RepoView) -> bool {
    let n = v.nodes.len();
    &&& 1 <= n <= crate::node_store::max_nodes()
    &&& v.root == crate::node_store::key_at(0)
    &&& forall|i: int| 0 <= i < n ==> (#[trigger] v.nodes[i] is Root <==> i == 0)
    &&& forall|k: NodeKey| #[trigger]
        v.preds.contains_key(k) <==> crate::node_store::key_of(k, n)
    &&& forall|k: NodeKey| #[trigger]
        v.succs.contains_key(k) <==> crate::node_store::key_of(k, n)
    &&& forall|k: NodeKey| #[trigger]
        v.preds.contains_key(k) ==> crate::node_graph::all_keys(v.preds[k], n)
    &&& forall|k: NodeKey| #[trigger]
        v.succs.contains_key(k) ==> crate::node_graph::all_keys(v.succs[k], n)
    &&& v.order.no_duplicates()
    &&& forall|k: NodeKey| #[trigger] v.order.contains(k) <==> crate::node_store::key_of(k, n)
    &&& crate::graph_algorithms::topological(map_graph(v.preds), v.order)
    &&& forall|c: Seq<char>| #[trigger]
        v.owner.contains_key(c) ==> crate::membership::member_key(v.owner[c], n)
    &&& forall|k: NodeKey| #[trigger]
        v.needs_sync.contains_key(k) ==> crate::node_store::key_of(k, n)
    &&& forall|k: NodeKey| #[trigger] v.hidden.contains(k) ==> crate::node_store::key_of(k, n)
    &&& forall|k: NodeKey| #[trigger]
        v.conflicted.contains(k) ==> crate::node_store::key_of(k, n)
    &&& v.current is Some ==> crate::node_store::key_of(v.current->0, n)
}

/// What holds of a repo state and the PRs that it was made from: the data of every PR node is
/// known, no two nodes are of one PR, and no merged PR has pending sync actions.
pub open spec fn repo_known(v: RepoView, prs: Map<u64, &GhPr>) -> bool {
    &&& forall|i: int|
        0 <= i < v.nodes.len() && #[trigger] v.nodes[i] is Pr ==> prs.contains_key(
            v.nodes[i]->Pr_0,
        )
    &&& forall|i: int, j: int|
        0 <= i < j < v.nodes.len() && #[trigger] v.nodes[i] is Pr && #[trigger] v.nodes[j] is Pr
            ==> v.nodes[i]->Pr_0 != v.nodes[j]->Pr_0
    &&& forall|k: NodeKey| #[trigger]
        v.needs_sync.contains_key(k) ==> !crate::node_graph::node_in_state(
            v.nodes,
            prs,
            k,
            PrState::Merged,
        )
}

impl RepoState {
    /// The state is in order.
    pub open spec fn wf(&self) -> bool {
        &&& self.commit_node.wf()
        &&& self.bookmarks_blocking.wf()
        &&& repo_ok(self@)
    }
}

/// The commit of the first entry that is the working copy.
pub open spec fn working_copy(entries: Seq<JjLogEntry>) -> Option<Seq<char>>
    decreases entries.len(),
{
    if entries.len() == 0 {
        None
    } else {
        match working_copy(entries.drop_last()) {
            Some(c) => Some(c),
            None => if entries.last().is_working_copy {
                Some(entries.last().commit.commit_id@)
            } else {
                None
            },
        }
    }
}

/// The node of the working copy.
pub open spec fn current_node(
    owner: Map<Seq<char>, NodeKey>,
    entries: Seq<JjLogEntry>,
) -> Option<NodeKey> {
    match working_copy(entries) {
        Some(c) => if owner.contains_key(c) {
            Some(owner[c])
        } else {
            None
        },
        None => None,
    }
}

/// The repo state that a membership and an order of its nodes make.
pub open spec fn built(
    entries: Seq<JjLogEntry>,
    prs: Map<u64, &GhPr>,
    default_branch: Seq<char>,
    tracking: Option<Set<Seq<char>>>,
    push_remote: Seq<char>,
    m: crate::membership::Membership,
    order: Seq<NodeKey>,
) -> RepoView {
    let n = m.nodes.len();
    let edges = crate::node_graph::edges(m.owner, entries);
    let needs_push = Set::new(
        |p: u64| crate::claims::needs_push(prs, tracking, entries, push_remote, p),
    );
    let needs_sync = Map::new(
        |k: NodeKey|
            crate::node_store::key_of(k, n) && crate::node_graph::sync_flag(
                m.nodes,
                prs,
                needs_push,
                edges,
                default_branch,
                k,
            ) is Some,
        |k: NodeKey|
            crate::node_graph::sync_flag(m.nodes, prs, needs_push, edges, default_branch, k)->0,
    );
    RepoView {
        nodes: m.nodes,
        root: crate::node_store::key_at(0),
        preds: Map::new(
            |k: NodeKey| crate::node_store::key_of(k, n),
            |k: NodeKey| crate::node_graph::preds_of(edges, k),
        ),
        succs: Map::new(
            |k: NodeKey| crate::node_store::key_of(k, n),
            |k: NodeKey| crate::node_graph::succs_of(edges, k),
        ),
        order,
        owner: m.owner,
        needs_push,
        needs_sync,
        blocking: crate::claims::blocking_names(crate::claims::claims(prs, tracking, entries)),
        conflicted: m.conflicted,
        hidden: Set::new(
            |k: NodeKey|
                crate::node_store::key_of(k, n) && crate::node_graph::is_hidden(
                    m.nodes,
                    prs,
                    needs_sync,
                    edges,
                    k,
                ),
        ),
        current: current_node(m.owner, entries),
    }
}

/// The nodes in topological order, or a cycle among them.
pub open spec fn node_order(
    entries: Seq<JjLogEntry>,
    m: crate::membership::Membership,
) -> Result<Seq<NodeKey>, Seq<NodeKey>> {
    crate::graph_algorithms::topo_sorted(
        crate::node_graph::pred_graph(crate::node_graph::edges(m.owner, entries)),
        crate::node_store::keys_of(m.nodes.len()),
    )
}

/// The membership that `build` starts from.
pub open spec fn build_members(
    entries: Seq<JjLogEntry>,
    prs: Map<u64, &GhPr>,
    tracking: Option<Set<Seq<char>>>,
) -> Result<crate::membership::Membership, BuildError> {
    crate::membership::members(
        prs,
        crate::claims::claims(prs, tracking, entries),
        entries,
        entries.len(),
    )
}

fn find_current(jj_entries: &Vec<JjLogEntry>, owner: &TextMap) -> (r: Option<NodeKey>)
    requires
        owner.wf(),
    ensures
        r == current_node(owner@, jj_entries@),
{
    let mut i: usize = 0;
    while i < jj_entries.len()
        invariant
            i <= jj_entries.len(),
            owner.wf(),
            working_copy(jj_entries@.take(i as int)) is None,
        decreases jj_entries.len() - i,
    {
        assert(jj_entries@.take(i + 1).drop_last() == jj_entries@.take(i as int));
        if jj_entries[i].is_working_copy {
            proof {
                lemma_working_copy(jj_entries@, i + 1);
            }
            return owner.get(jj_entries[i].commit.commit_id.as_str());
        }
        i = i + 1;
    }
    assert(jj_entries@.take(i as int) == jj_entries@);
    None
}

proof fn lemma_working_copy(entries: Seq<JjLogEntry>, k: int)
    requires
        0 <= k <= entries.len(),
        working_copy(entries.take(k)) is Some,
    ensures
        working_copy(entries) == working_copy(entries.take(k)),
    decreases entries.len() - k,
{
    if k < entries.len() {
        assert(entries.take(k + 1).drop_last() == entries.take(k));
        lemma_working_copy(entries, k + 1);
    } else {
        assert(entries.take(k) == entries);
    }
}

/// The lists of parents and of children of each node.
fn neighbour_maps(keys: &Vec<NodeKey>, edges: &Vec<(NodeKey, NodeKey)>) -> (r: (EdgeMap, EdgeMap))
    requires
        forall|i: int| 0 <= i < keys.len() ==> crate::node_store::is_key(#[trigger] keys@[i]),
    ensures
        r.0@ == Map::new(
            |k: NodeKey| keys@.contains(k),
            |k: NodeKey| crate::node_graph::preds_of(edges@, k),
        ),
        r.1@ == Map::new(
            |k: NodeKey| keys@.contains(k),
            |k: NodeKey| crate::node_graph::succs_of(edges@, k),
        ),
{
    let mut preds = EdgeMap::new();
    let mut succs = EdgeMap::new();
    let mut i: usize = 0;
    while i < keys.len()
        invariant
            i <= keys.len(),
            forall|i: int| 0 <= i < keys.len() ==> crate::node_store::is_key(#[trigger] keys@[i]),
            forall|k: NodeKey| #[trigger]
                preds@.contains_key(k) <==> keys@.take(i as int).contains(k),
            forall|k: NodeKey| #[trigger]
                preds@.contains_key(k) ==> preds@[k] == crate::node_graph::preds_of(edges@, k),
            forall|k: NodeKey| #[trigger]
                succs@.contains_key(k) <==> keys@.take(i as int).contains(k),
            forall|k: NodeKey| #[trigger]
                succs@.contains_key(k) ==> succs@[k] == crate::node_graph::succs_of(edges@, k),
        decreases keys.len() - i,
    {
        let k = keys[i];
        let ghost before = keys@.take(i as int);
        let ghost old_preds = preds@;
        let ghost old_succs = succs@;
        preds.insert(k, preds_list(edges, k));
        succs.insert(k, succs_list(edges, k));
        proof {
            let next = keys@.take(i + 1);
            assert(next == before.push(k));
            crate::sets::lemma_push_to_set(before, k);
            assert forall|x: NodeKey| next.contains(x) <==> before.contains(x) || x == k by {
                assert(next.to_set().contains(x) <==> before.to_set().insert(k).contains(x));
            }
            assert forall|x: NodeKey| #[trigger] preds@.contains_key(x) <==> next.contains(x) by {
                assert(old_preds.contains_key(x) <==> before.contains(x));
            }
            assert forall|x: NodeKey| #[trigger] succs@.contains_key(x) <==> next.contains(x) by {
                assert(old_succs.contains_key(x) <==> before.contains(x));
            }
            assert forall|x: NodeKey| #[trigger] preds@.contains_key(x) implies preds@[x]
                == crate::node_graph::preds_of(edges@, x) by {
                if x != k {
                    assert(old_preds.contains_key(x));
                }
            }
            assert forall|x: NodeKey| #[trigger] succs@.contains_key(x) implies succs@[x]
                == crate::node_graph::succs_of(edges@, x) by {
                if x != k {
                    assert(old_succs.contains_key(x));
                }
            }
        }
        i = i + 1;
    }
    assert(keys@.take(i as int) == keys@);
    proof {
        assert(preds@ =~= Map::new(
            |k: NodeKey| keys@.contains(k),
            |k: NodeKey| crate::node_graph::preds_of(edges@, k),
        ));
        assert(succs@ =~= Map::new(
            |k: NodeKey| keys@.contains(k),
            |k: NodeKey| crate::node_graph::succs_of(edges@, k),
        ));
    }
    (preds, succs)
}

proof fn lemma_keys_of(n: nat)
    requires
        n <= crate::node_store::max_nodes(),
    ensures
        forall|k: NodeKey| #[trigger]
            crate::node_store::keys_of(n).contains(k) <==> crate::node_store::key_of(k, n),
{
    let keys = crate::node_store::keys_of(n);
    assert forall|k: NodeKey| #[trigger] keys.contains(k) <==> crate::node_store::key_of(k, n) by {
        if keys.contains(k) {
            let i = choose|i: int| 0 <= i < keys.len() && keys[i] == k;
            assert(keys[i] == crate::node_store::key_at(i));
        }
        if crate::node_store::key_of(k, n) {
            assert(keys[crate::node_store::place(k)] == k);
        }
    }
}

/// The order of all nodes lists each once, and nothing else.
pub proof fn lemma_node_order(
    prs: Map<u64, &GhPr>,
    entries: Seq<JjLogEntry>,
    m: crate::membership::Membership,
)
    requires
        crate::membership::members_ok(prs, m),
        m.nodes.len() <= crate::node_store::max_nodes(),
        node_order(entries, m) is Ok,
    ensures
        crate::node_graph::sorted_nodes(
            crate::node_graph::edges(m.owner, entries),
            node_order(entries, m)->Ok_0,
            m.nodes.len(),
        ),
{
    let n = m.nodes.len();
    let edges = crate::node_graph::edges(m.owner, entries);
    let g = crate::node_graph::pred_graph(edges);
    let keys = crate::node_store::keys_of(n);
    let order = node_order(entries, m)->Ok_0;
    crate::graph_algorithms::topo_sorted_is_topological(g, keys);
    crate::node_graph::lemma_edges_ok(prs, m, entries);
    lemma_keys_of(n);
    assert forall|k: NodeKey| #[trigger] order.contains(k) <==> crate::node_store::key_of(k, n) by {
        if order.contains(k) {
            let from = choose|x: NodeKey| #[trigger]
                keys.contains(x) && crate::graph_algorithms::reaches(g, x, k);
            assert forall|a: u64, b: u64| #[trigger]
                keys.contains(a) && #[trigger] g(a).contains(b) implies keys.contains(b) by {
                crate::node_graph::lemma_neighbours_ok(edges, n, a);
                assert(crate::node_graph::preds_of(edges, a).contains(b));
            }
            crate::graph_algorithms::lemma_closed_reaches(g, keys, from, k);
        }
        if crate::node_store::key_of(k, n) {
            assert(keys.contains(k));
            crate::graph_algorithms::lemma_reaches_self(g, k);
        }
    }
}

/// Every repo state that is built is in order, and agrees with the PRs that it was built from:
/// it knows the data of each PR node, a PR has one node at most, and merged PRs have no pending
/// sync actions.
pub proof fn built_repo_is_ok(
    entries: Seq<JjLogEntry>,
    prs: Map<u64, &GhPr>,
    default_branch: Seq<char>,
    tracking: Option<Set<Seq<char>>>,
    push_remote: Seq<char>,
)
    requires
        entries.len() < crate::node_store::max_nodes(),
        build_members(entries, prs, tracking) is Ok,
        node_order(entries, build_members(entries, prs, tracking)->Ok_0) is Ok,
    ensures
        ({
            let m = build_members(entries, prs, tracking)->Ok_0;
            let v = built(
                entries,
                prs,
                default_branch,
                tracking,
                push_remote,
                m,
                node_order(entries, m)->Ok_0,
            );
            repo_ok(v) && repo_known(v, prs)
        }),
{
    crate::membership::members_are_ok(prs, tracking, entries, entries.len());
    let m = build_members(entries, prs, tracking)->Ok_0;
    let n = m.nodes.len();
    let order = node_order(entries, m)->Ok_0;
    let edges = crate::node_graph::edges(m.owner, entries);
    lemma_node_order(prs, entries, m);
    crate::node_graph::lemma_edges_ok(prs, m, entries);
    let v = built(entries, prs, default_branch, tracking, push_remote, m, order);
    assert forall|k: NodeKey| #[trigger] v.preds.contains_key(k) implies
        crate::node_graph::all_keys(v.preds[k], n) by {
        crate::node_graph::lemma_neighbours_ok(edges, n, k);
    }
    assert forall|k: NodeKey| #[trigger] v.succs.contains_key(k) implies
        crate::node_graph::all_keys(v.succs[k], n) by {
        crate::node_graph::lemma_neighbours_ok(edges, n, k);
    }
    assert(crate::graph_algorithms::topological(map_graph(v.preds), order)) by {
        let g = crate::node_graph::pred_graph(edges);
        let h = map_graph(v.preds);
        assert forall|i: int, p: u64|
            0 <= i < order.len() && #[trigger] h(order[i]).contains(p) implies #[trigger] order.take(
            i,
        ).contains(p) by {
            assert(order.contains(order[i]));
            assert(g(order[i]).contains(p));
        }
    }
    if v.current is Some {
        let c = working_copy(entries)->0;
        assert(m.owner.contains_key(c));
    }
    assert forall|k: NodeKey| #[trigger] v.conflicted.contains(k) implies
        crate::node_store::key_of(k, n) by {
        assert(m.conflicted.contains(k));
    }
}

/// Build the repo state from raw jj and GitHub data.
///
/// `jj_entries` must be in reverse topological order (children to parents to `trunk()`).
pub fn build(
    jj_entries: &Vec<JjLogEntry>,
    prs: &BTreeMap<u64, &GhPr>,
    default_branch: &Bookmark,
    tracked_bookmarks: Option<&TextSet>,
    push_remote: &str,
) -> (r: Result<RepoState, BuildError>)
    requires
        jj_entries@.len() < crate::node_store::max_nodes(),
        crate::claims::prs_wf(prs@),
        crate::claims::tracked_wf(tracked_bookmarks),
    ensures
        match build_members(
            jj_entries@,
            prs@,
            crate::claims::tracked_names(tracked_bookmarks),
        ) {
            Err(e) => r is Err && r->Err_0 == e,
            Ok(m) => match node_order(jj_entries@, m) {
                Err(c) => r is Err && r->Err_0 is Cycle && r->Err_0->Cycle_0@ == c,
                Ok(order) => {
                    &&& r is Ok
                    &&& r->Ok_0.wf()
                    &&& repo_known(r->Ok_0@, prs@)
                    &&& r->Ok_0@ == built(
                        jj_entries@,
                        prs@,
                        default_branch@,
                        crate::claims::tracked_names(tracked_bookmarks),
                        push_remote@,
                        m,
                        order,
                    )
                },
            },
        },
{
    let ghost names = crate::claims::tracked_names(tracked_bookmarks);
    let pr_needs_push = prs_to_push(jj_entries, prs, tracked_bookmarks, push_remote);
    // First pass: compute membership.
    let (members, bookmarks_blocking) = match assign_nodes(jj_entries, prs, tracked_bookmarks) {
        Ok(pair) => pair,
        Err(e) => {
            return Err(e);
        },
    };
    let Members { nodes, owner, found: _, conflicted } = members;
    let ghost m = build_members(jj_entries@, prs@, names)->Ok_0;
    proof {
        crate::membership::members_are_ok(prs@, names, jj_entries@, jj_entries@.len());
        crate::node_graph::lemma_edges_ok(prs@, m, jj_entries@);
        lemma_keys_of(m.nodes.len());
    }
    // Second pass: compute node DAG.
    let edges = collect_edges(jj_entries, &owner);
    let keys = nodes.keys();
    assert forall|i: int| 0 <= i < keys.len() implies crate::node_store::is_key(
        #[trigger] keys@[i],
    ) by {
        assert(keys@[i] == crate::node_store::key_at(i));
    }
    let (node_preds, node_succs) = neighbour_maps(&keys, &edges);
    // Third pass: topo sort and compute node_needs_sync.
    let ghost g = crate::node_graph::pred_graph(edges@);
    let preds = |nk: u64| -> (list: Vec<u64>)
        ensures
            list@ == crate::node_graph::preds_of(edges@, nk),
        { preds_list(&edges, nk) };
    assert(crate::graph_algorithms::lists(preds, g));
    let topo_order = match topo_sort(&keys, preds) {
        Ok(order) => order,
        Err(cycle) => {
            return Err(BuildError::Cycle(cycle));
        },
    };
    proof {
        lemma_node_order(prs@, jj_entries@, m);
        built_repo_is_ok(jj_entries@, prs@, default_branch@, names, push_remote@);
    }
    let node_needs_sync = find_needs_sync(
        &nodes,
        prs,
        &pr_needs_push,
        &edges,
        &topo_order,
        default_branch,
    );
    let node_current = find_current(jj_entries, &owner);
    let node_hidden = find_hidden(&nodes, prs, &node_needs_sync, &edges, &topo_order);
    let state = RepoState {
        nodes,
        root_node: FIRST_KEY,
        node_preds,
        node_succs,
        topo_order,
        commit_node: owner,
        pr_needs_push,
        node_needs_sync,
        bookmarks_blocking,
        node_conflicted: conflicted,
        node_hidden,
        node_current,
    };
    proof {
        let want = built(
            jj_entries@,
            prs@,
            default_branch@,
            names,
            push_remote@,
            m,
            topo_order@,
        );
        assert(state@.needs_push =~= want.needs_push);
        assert(state@.preds =~= want.preds);
        assert(state@.succs =~= want.succs);
        assert(state@.needs_sync =~= want.needs_sync);
        assert(state@.hidden =~= want.hidden);
        assert(state@ =~= want);
    }
    Ok(state)
}

// --- Sync status helpers ---

/// The base branch that a node of a repo state should have.
pub open spec fn state_base(
    v: RepoView,
    prs: Map<u64, &GhPr>,
    default_branch: Seq<char>,
    k: NodeKey,
) -> Seq<char> {
    if v.preds.contains_key(k) {
        crate::node_graph::base_of(v.nodes, prs, v.preds[k], default_branch)
    } else {
        default_branch
    }
}

/// Whether a node of a repo state has content conflicts or a conflicted bookmark.
pub open spec fn state_conflicted(v: RepoView, prs: Map<u64, &GhPr>, k: NodeKey) -> bool {
    v.conflicted.contains(k) || (crate::node_store::key_of(k, v.nodes.len())
        && crate::node_graph::node_at(v.nodes, k) is Pr && prs.contains_key(
        crate::node_graph::node_at(v.nodes, k)->Pr_0,
    ) && v.blocking.contains(prs[crate::node_graph::node_at(v.nodes, k)->Pr_0].head_ref_name@))
}

impl RepoState {
    /// Returns the expected GitHub base branch name for a node, derived from the DAG.
    /// If the parent is another open PR, returns its head_ref_name.
    /// Otherwise returns the default branch name (trunk).
    pub fn expected_base(
        &self,
        nk: NodeKey,
        prs: &BTreeMap<u64, &GhPr>,
        default_branch: &Bookmark,
    ) -> (r: Bookmark)
        requires
            self.wf(),
        ensures
            r@ == state_base(self@, prs@, default_branch@, nk),
    {
        if !has_key_form(nk) {
            return default_branch.clone();
        }
        match self.node_preds.get(nk) {
            Some(preds) => find_base(&self.nodes, prs, preds, default_branch),
            None => default_branch.clone(),
        }
    }

    /// Whether a node is conflicted (content conflicts or bookmark conflicts).
    pub fn is_node_conflicted(&self, nk: NodeKey, prs: &BTreeMap<u64, &GhPr>) -> (r: bool)
        requires
            self.wf(),
        ensures
            r == state_conflicted(self@, prs@, nk),
    {
        if !has_key_form(nk) {
            return false;
        }
        if self.node_conflicted.contains(nk) {
            return true;
        }
        match self.nodes.get(nk) {
            Some(Node::Pr(pr_id)) => match find_pr(prs, pr_id.get()) {
                Some(pr) => self.bookmarks_blocking.contains(pr.head_ref_name.as_str()),
                None => false,
            },
            _ => false,
        }
    }
}

/// The PRs that the trailers of the entries name.
pub open spec fn trailer_set(entries: Seq<JjLogEntry>) -> Set<u64>
    decreases entries.len(),
{
    if entries.len() == 0 {
        Set::empty()
    } else {
        match crate::jj::pr_trailer(entries.last().commit.description@) {
            Some(n) => trailer_set(entries.drop_last()).insert(n),
            None => trailer_set(entries.drop_last()),
        }
    }
}

/// The PRs that the trailers of the entries name, in ascending order.
pub fn extract_pr_nums(jj_entries: &Vec<JjLogEntry>) -> (r: Vec<PrNum>)
    ensures
        crate::claims::pr_views(r@) == crate::order::num_listing(trailer_set(jj_entries@)),
{
    let mut nums: BTreeSet<u64> = BTreeSet::new();
    let mut i: usize = 0;
    while i < jj_entries.len()
        invariant
            i <= jj_entries.len(),
            nums@ == trailer_set(jj_entries@.take(i as int)),
            !nums@.contains(0),
        decreases jj_entries.len() - i,
    {
        assert(jj_entries@.take(i + 1).drop_last() == jj_entries@.take(i as int));
        if let Some(pr_num) = parse_pr_trailer(jj_entries[i].commit.description.as_str()) {
            nums.insert(pr_num.get());
        }
        i = i + 1;
    }
    assert(jj_entries@.take(i as int) == jj_entries@);
    let list = set_numbers(&nums);
    let mut out: Vec<PrNum> = Vec::new();
    let mut j: usize = 0;
    while j < list.len()
        invariant
            j <= list.len(),
            list@.to_set() == nums@,
            !nums@.contains(0),
            crate::claims::pr_views(out@) == list@.take(j as int),
        decreases list.len() - j,
    {
        assert(list@.to_set().contains(list@[j as int]));
        let ghost before = out@;
        out.push(PrNum::new(list[j]).unwrap());
        assert(crate::claims::pr_views(out@) == crate::claims::pr_views(before).push(
            list@[j as int],
        ));
        assert(list@.take(j + 1) == list@.take(j as int).push(list@[j as int]));
        j = j + 1;
    }
    assert(list@.take(j as int) == list@);
    out
}

// --- Laws of the repo state ---

/// The root has no parents.
pub proof fn root_has_no_parents(
    entries: Seq<JjLogEntry>,
    prs: Map<u64, &GhPr>,
    default_branch: Seq<char>,
    tracking: Option<Set<Seq<char>>>,
    push_remote: Seq<char>,
)
    requires
        entries.len() < crate::node_store::max_nodes(),
        build_members(entries, prs, tracking) is Ok,
    ensures
        ({
            let m = build_members(entries, prs, tracking)->Ok_0;
            forall|order: Seq<NodeKey>|
                (#[trigger] built(
                    entries,
                    prs,
                    default_branch,
                    tracking,
                    push_remote,
                    m,
                    order,
                )).preds[crate::node_store::key_at(0)] == Seq::<NodeKey>::empty()
        }),
{
    crate::membership::members_are_ok(prs, tracking, entries, entries.len());
    let m = build_members(entries, prs, tracking)->Ok_0;
    let root = crate::node_store::key_at(0);
    let edges = crate::node_graph::edges(m.owner, entries);
    crate::node_graph::lemma_no_edge_from_root(prs, m, entries);
    let list = crate::node_graph::preds_of(edges, root);
    assert(list =~= Seq::<NodeKey>::empty()) by {
        if list.len() > 0 {
            assert(list.contains(list[0]));
            crate::node_graph::lemma_preds(edges, root, list[0]);
            let i = choose|i: int| 0 <= i < edges.len() && edges[i] == (root, list[0]);
            assert(edges[i].0 != root);
        }
    }
}

/// Push and rebase concern the descendants: a child of a node with such an action has one as
/// well, unless it is merged.
pub proof fn sync_is_handed_down(
    entries: Seq<JjLogEntry>,
    prs: Map<u64, &GhPr>,
    default_branch: Seq<char>,
    tracking: Option<Set<Seq<char>>>,
    push_remote: Seq<char>,
    m: crate::membership::Membership,
    order: Seq<NodeKey>,
    parent: NodeKey,
    child: NodeKey,
)
    requires
        crate::node_store::key_of(child, m.nodes.len()),
        ({
            let v = built(entries, prs, default_branch, tracking, push_remote, m, order);
            &&& v.needs_sync.contains_key(parent)
            &&& v.needs_sync[parent]
            &&& v.preds[child].contains(parent)
            &&& !crate::node_graph::node_in_state(v.nodes, prs, child, PrState::Merged)
        }),
    ensures
        ({
            let v = built(entries, prs, default_branch, tracking, push_remote, m, order);
            v.needs_sync.contains_key(child) && v.needs_sync[child]
        }),
{
    let v = built(entries, prs, default_branch, tracking, push_remote, m, order);
    let edges = crate::node_graph::edges(m.owner, entries);
    crate::node_graph::lemma_propagates(m.nodes, prs, v.needs_push, edges, child);
    assert(crate::node_graph::preds_of(edges, child).contains(parent));
    assert(crate::node_graph::propagates(m.nodes, prs, v.needs_push, edges, parent));
}

/// A PR that is not merged has pending sync actions where it has to be pushed, where a parent
/// was merged, and where it is open and its base branch is not the expected one.
pub proof fn sync_is_needed(
    entries: Seq<JjLogEntry>,
    prs: Map<u64, &GhPr>,
    default_branch: Seq<char>,
    tracking: Option<Set<Seq<char>>>,
    push_remote: Seq<char>,
    m: crate::membership::Membership,
    order: Seq<NodeKey>,
    k: NodeKey,
)
    requires
        crate::node_store::key_of(k, m.nodes.len()),
        ({
            let v = built(entries, prs, default_branch, tracking, push_remote, m, order);
            let n = crate::node_graph::node_at(v.nodes, k)->Pr_0;
            &&& crate::node_graph::node_at(v.nodes, k) is Pr
            &&& prs.contains_key(n)
            &&& !(prs[n].state is Merged)
            &&& v.needs_push.contains(n) || (exists|p: NodeKey| #[trigger]
                v.preds[k].contains(p) && crate::node_graph::node_in_state(
                    v.nodes,
                    prs,
                    p,
                    PrState::Merged,
                )) || (prs[n].state is Open && prs[n].base_ref_name@ != state_base(
                v,
                prs,
                default_branch,
                k,
            ))
        }),
    ensures
        built(
            entries,
            prs,
            default_branch,
            tracking,
            push_remote,
            m,
            order,
        ).needs_sync.contains_key(k),
{
    let v = built(entries, prs, default_branch, tracking, push_remote, m, order);
    let edges = crate::node_graph::edges(m.owner, entries);
    crate::node_graph::lemma_propagates(m.nodes, prs, v.needs_push, edges, k);
    assert(v.preds[k] == crate::node_graph::preds_of(edges, k));
}

/// A node is hidden exactly where it is a closed PR without pending sync actions and all its
/// children are hidden. So what is shown is never below something that is hidden.
pub proof fn hidden_nodes_are_closed_leaves(
    entries: Seq<JjLogEntry>,
    prs: Map<u64, &GhPr>,
    default_branch: Seq<char>,
    tracking: Option<Set<Seq<char>>>,
    push_remote: Seq<char>,
    k: NodeKey,
)
    requires
        entries.len() < crate::node_store::max_nodes(),
        build_members(entries, prs, tracking) is Ok,
        crate::node_store::key_of(k, build_members(entries, prs, tracking)->Ok_0.nodes.len()),
    ensures
        ({
            let m = build_members(entries, prs, tracking)->Ok_0;
            forall|order: Seq<NodeKey>|
                {
                    let v = #[trigger] built(
                        entries,
                        prs,
                        default_branch,
                        tracking,
                        push_remote,
                        m,
                        order,
                    );
                    v.hidden.contains(k) <==> !v.needs_sync.contains_key(k)
                        && crate::node_graph::node_in_state(v.nodes, prs, k, PrState::Closed)
                        && forall|s: NodeKey| #[trigger]
                        v.succs[k].contains(s) ==> v.hidden.contains(s)
                }
        }),
{
    crate::membership::members_are_ok(prs, tracking, entries, entries.len());
    let m = build_members(entries, prs, tracking)->Ok_0;
    let n = m.nodes.len();
    let edges = crate::node_graph::edges(m.owner, entries);
    crate::node_graph::lemma_edges_ok(prs, m, entries);
    crate::node_graph::lemma_neighbours_ok(edges, n, k);
    assert forall|order: Seq<NodeKey>| ({
        let v = #[trigger] built(
            entries,
            prs,
            default_branch,
            tracking,
            push_remote,
            m,
            order,
        );
        v.hidden.contains(k) <==> !v.needs_sync.contains_key(k)
            && crate::node_graph::node_in_state(v.nodes, prs, k, PrState::Closed)
            && forall|s: NodeKey| #[trigger]
            v.succs[k].contains(s) ==> v.hidden.contains(s)
    }) by {
        let v = built(entries, prs, default_branch, tracking, push_remote, m, order);
        crate::node_graph::lemma_hidden(m.nodes, prs, v.needs_sync, edges, k);
        assert(v.succs[k] == crate::node_graph::succs_of(edges, k));
    }
}

/// One node is listed as a parent of another exactly where the other is listed as its child.
pub proof fn neighbours_agree(
    entries: Seq<JjLogEntry>,
    prs: Map<u64, &GhPr>,
    default_branch: Seq<char>,
    tracking: Option<Set<Seq<char>>>,
    push_remote: Seq<char>,
    m: crate::membership::Membership,
    order: Seq<NodeKey>,
    child: NodeKey,
    parent: NodeKey,
)
    requires
        crate::node_store::key_of(child, m.nodes.len()),
        crate::node_store::key_of(parent, m.nodes.len()),
    ensures
        ({
            let v = built(entries, prs, default_branch, tracking, push_remote, m, order);
            v.preds[child].contains(parent) <==> v.succs[parent].contains(child)
        }),
{
    crate::node_graph::parents_and_children_agree(
        crate::node_graph::edges(m.owner, entries),
        child,
        parent,
    );
}

// --- Laws of what is built ---

/// Whether a repo state is the one that is built from the log and the PRs.
pub open spec fn is_built(
    entries: Seq<JjLogEntry>,
    prs: Map<u64, &GhPr>,
    default_branch: Seq<char>,
    tracking: Option<Set<Seq<char>>>,
    push_remote: Seq<char>,
    v: RepoView,
) -> bool {
    &&& entries.len() < crate::node_store::max_nodes()
    &&& build_members(entries, prs, tracking) is Ok
    &&& exists|order: Seq<NodeKey>| #[trigger]
        built(
            entries,
            prs,
            default_branch,
            tracking,
            push_remote,
            build_members(entries, prs, tracking)->Ok_0,
            order,
        ) == v
}

/// A node of the repo state has content conflicts exactly where some commit that belongs to it
/// has, whichever bookmarks that commit has. Nodes and commits are those that the pass over the
/// log gave.
pub proof fn nodes_have_the_conflicts_of_their_commits(
    entries: Seq<JjLogEntry>,
    prs: Map<u64, &GhPr>,
    default_branch: Seq<char>,
    tracking: Option<Set<Seq<char>>>,
    push_remote: Seq<char>,
    v: RepoView,
    k: NodeKey,
)
    requires
        is_built(entries, prs, default_branch, tracking, push_remote, v),
        crate::membership::distinct_commits(entries),
    ensures
        v.conflicted.contains(k) <==> exists|i: int|
            0 <= i < entries.len() && (#[trigger] entries[i]).conflict && v.owner.contains_key(
                entries[i].commit.commit_id@,
            ) && v.owner[entries[i].commit.commit_id@] == k,
        ({
            let m = crate::membership::members_at(prs, tracking, entries, entries.len())->Ok_0;
            v.nodes == m.nodes && v.owner == m.owner
        }),
{
    crate::membership::conflicted_commits_mark_their_nodes(prs, tracking, entries, k);
}

proof fn lemma_edges(owner: Map<Seq<char>, NodeKey>, entries: Seq<JjLogEntry>, k: NodeKey, p: NodeKey)
    ensures
        crate::node_graph::edges(owner, entries).contains((k, p)) <==> exists|i: int, j: int|
            #[trigger]
            is_link(owner, entries, i, j, k, p),
    decreases entries.len(),
{
    let all = crate::node_graph::edges(owner, entries);
    if entries.len() > 0 {
        let head = entries.drop_last();
        let at = entries.len() - 1;
        let e = entries[at];
        let before = crate::node_graph::edges(owner, head);
        let own = crate::node_graph::entry_edges(owner, e);
        lemma_edges(owner, head, k, p);
        assert(entries.last() == e);
        let list = Seq::new(
            e.commit.parents@.len(),
            |j: int| crate::node_graph::node_or_root(owner, e.commit.parents@[j]@),
        );
        assert(own.contains((k, p)) <==> exists|j: int| #[trigger]
            is_link(owner, entries, at, j, k, p)) by {
            if owner.contains_key(e.commit.commit_id@) {
                let from = owner[e.commit.commit_id@];
                let set = crate::node_graph::parent_nodes(owner, e).remove(from);
                let nexts = crate::order::num_listing(set);
                crate::order::lemma_num_listing(set);
                if own.contains((k, p)) {
                    let y = choose|y: int| 0 <= y < own.len() && own[y] == (k, p);
                    assert(nexts.to_set().contains(nexts[y]));
                    let j = choose|j: int| 0 <= j < list.len() && list[j] == p;
                    assert(is_link(owner, entries, at, j, k, p));
                }
                if exists|j: int| #[trigger] is_link(owner, entries, at, j, k, p) {
                    let j = choose|j: int| #[trigger] is_link(owner, entries, at, j, k, p);
                    assert(list[j] == p);
                    assert(list.to_set().contains(p));
                    assert(nexts.to_set().contains(p));
                    let y = choose|y: int| 0 <= y < nexts.len() && nexts[y] == p;
                    assert(own[y] == (k, p));
                }
            }
        }
        if before.contains((k, p)) {
            let x = choose|x: int| 0 <= x < before.len() && before[x] == (k, p);
            assert(all[x] == (k, p));
            let (i, j) = choose|i: int, j: int| #[trigger] is_link(owner, head, i, j, k, p);
            assert(is_link(owner, entries, i, j, k, p));
        }
        if own.contains((k, p)) {
            let x = choose|x: int| 0 <= x < own.len() && own[x] == (k, p);
            assert(all[before.len() + x] == (k, p));
            let j = choose|j: int| #[trigger] is_link(owner, entries, at, j, k, p);
            assert(is_link(owner, entries, at, j, k, p));
        }
        if all.contains((k, p)) {
            let x = choose|x: int| 0 <= x < all.len() && all[x] == (k, p);
            if x < before.len() {
                assert(before[x] == (k, p));
            } else {
                assert(own[x - before.len()] == (k, p));
            }
        }
        if exists|i: int, j: int| #[trigger] is_link(owner, entries, i, j, k, p) {
            let (i, j) = choose|i: int, j: int| #[trigger]
                is_link(owner, entries, i, j, k, p);
            if i < at {
                assert(is_link(owner, head, i, j, k, p));
            }
        }
    }
}

/// Whether the parent `j` of the entry `i` links the node `k` to another node `p`. A parent that
/// belongs to no node stands for the root.
pub open spec fn is_link(
    owner: Map<Seq<char>, NodeKey>,
    entries: Seq<JjLogEntry>,
    i: int,
    j: int,
    k: NodeKey,
    p: NodeKey,
) -> bool {
    &&& 0 <= i < entries.len()
    &&& owner.contains_key(entries[i].commit.commit_id@)
    &&& owner[entries[i].commit.commit_id@] == k
    &&& 0 <= j < entries[i].commit.parents@.len()
    &&& k != p
    &&& if owner.contains_key(entries[i].commit.parents@[j]@) {
        owner[entries[i].commit.parents@[j]@] == p
    } else {
        p == crate::node_store::key_at(0)
    }
}

/// One node is a parent of another exactly where a commit of the other has a parent commit in it;
/// what belongs to no node counts as the root.
pub proof fn nodes_are_linked_by_their_commits(
    entries: Seq<JjLogEntry>,
    prs: Map<u64, &GhPr>,
    default_branch: Seq<char>,
    tracking: Option<Set<Seq<char>>>,
    push_remote: Seq<char>,
    v: RepoView,
    k: NodeKey,
    p: NodeKey,
)
    requires
        is_built(entries, prs, default_branch, tracking, push_remote, v),
        crate::node_store::key_of(k, v.nodes.len()),
        crate::node_store::key_of(p, v.nodes.len()),
    ensures
        v.preds[k].contains(p) <==> exists|i: int, j: int| #[trigger]
            is_link(v.owner, entries, i, j, k, p),
        v.succs[p].contains(k) <==> exists|i: int, j: int| #[trigger]
            is_link(v.owner, entries, i, j, k, p),
{
    let edges = crate::node_graph::edges(v.owner, entries);
    lemma_edges(v.owner, entries, k, p);
    crate::node_graph::lemma_preds(edges, k, p);
    crate::node_graph::lemma_succs(edges, p, k);
}

/// The PRs to push are those whose bookmarks are tracked and not in step with the remote, and the
/// bookmarks that block are those of PRs that are left for the user to resolve.
pub proof fn bookmarks_are_compared_with_the_remote(
    entries: Seq<JjLogEntry>,
    prs: Map<u64, &GhPr>,
    default_branch: Seq<char>,
    tracking: Option<Set<Seq<char>>>,
    push_remote: Seq<char>,
    v: RepoView,
    n: u64,
    name: Seq<char>,
)
    requires
        is_built(entries, prs, default_branch, tracking, push_remote, v),
    ensures
        v.needs_push.contains(n) <==> prs.contains_key(n) && (tracking is Some
            ==> tracking->0.contains(prs[n].head_ref_name@)) && !crate::claims::is_in_step(
            entries,
            prs[n].head_ref_name@,
            push_remote,
        ),
        v.blocking.contains(name) <==> exists|i: int, j: int, m: u64| #[trigger]
            crate::claims::claims_at(prs, tracking, entries, i, j, m)
                && entries[i].local_bookmarks@[j].name@ == name && crate::claims::is_unresolved(
                prs,
                entries[i].local_bookmarks@[j],
                m,
            ),
{
    crate::claims::prs_out_of_step_are_pushed(prs, tracking, entries, push_remote, n);
    crate::claims::unresolved_bookmarks_block(prs, tracking, entries, name);
}

proof fn lemma_first_working_copy(entries: Seq<JjLogEntry>)
    ensures
        match working_copy(entries) {
            Some(c) => exists|i: int| #[trigger]
                is_first_working_copy(entries, i) && entries[i].commit.commit_id@ == c,
            None => forall|i: int|
                0 <= i < entries.len() ==> !(#[trigger] entries[i]).is_working_copy,
        },
    decreases entries.len(),
{
    if entries.len() > 0 {
        let head = entries.drop_last();
        let at = entries.len() - 1;
        lemma_first_working_copy(head);
        match working_copy(head) {
            Some(c) => {
                let i = choose|i: int| #[trigger]
                    is_first_working_copy(head, i) && head[i].commit.commit_id@ == c;
                assert(entries[i] == head[i]);
                assert forall|j: int| 0 <= j < i implies !(
                #[trigger] entries[j]).is_working_copy by {
                    assert(entries[j] == head[j]);
                }
                assert(is_first_working_copy(entries, i));
            },
            None => {
                assert forall|j: int| 0 <= j < at implies !(
                #[trigger] entries[j]).is_working_copy by {
                    assert(entries[j] == head[j]);
                }
                if entries[at].is_working_copy {
                    assert(is_first_working_copy(entries, at));
                }
            },
        }
    }
}

/// Whether the entry `i` is the first one that is the working copy.
pub open spec fn is_first_working_copy(entries: Seq<JjLogEntry>, i: int) -> bool {
    &&& 0 <= i < entries.len()
    &&& entries[i].is_working_copy
    &&& forall|j: int| 0 <= j < i ==> !(#[trigger] entries[j]).is_working_copy
}

/// The current node is that of the working copy.
pub proof fn current_node_has_the_working_copy(
    entries: Seq<JjLogEntry>,
    prs: Map<u64, &GhPr>,
    default_branch: Seq<char>,
    tracking: Option<Set<Seq<char>>>,
    push_remote: Seq<char>,
    v: RepoView,
    k: NodeKey,
)
    requires
        is_built(entries, prs, default_branch, tracking, push_remote, v),
    ensures
        v.current == Some(k) <==> exists|i: int| #[trigger]
            is_first_working_copy(entries, i) && v.owner.contains_key(
                entries[i].commit.commit_id@,
            ) && v.owner[entries[i].commit.commit_id@] == k,
{
    lemma_first_working_copy(entries);
    if working_copy(entries) is Some {
        let c = working_copy(entries)->0;
        let i = choose|i: int| #[trigger]
            is_first_working_copy(entries, i) && entries[i].commit.commit_id@ == c;
        assert forall|j: int| #[trigger] is_first_working_copy(entries, j) implies j == i by {
            if j < i {
                assert(entries[j].is_working_copy);
            } else if i < j {
                assert(entries[i].is_working_copy);
            }
        }
    } else {
        assert forall|j: int| !#[trigger] is_first_working_copy(entries, j) by {}
    }
}

/// Whether `p` is a parent of the node `k` that is an open PR.
pub open spec fn is_open_parent(
    v: RepoView,
    prs: Map<u64, &GhPr>,
    k: NodeKey,
    p: NodeKey,
    n: u64,
) -> bool {
    &&& v.preds.contains_key(k)
    &&& v.preds[k].contains(p)
    &&& crate::node_graph::node_at(v.nodes, p) == NodeView::Pr(n)
    &&& prs.contains_key(n)
    &&& prs[n].state is Open
}

/// The base that a node should have is the branch of the open PR among its parents, where there is
/// one and no other; otherwise it is the default branch.
pub proof fn base_is_the_open_parent(
    v: RepoView,
    prs: Map<u64, &GhPr>,
    default_branch: Seq<char>,
    k: NodeKey,
    p: NodeKey,
    n: u64,
)
    ensures
        is_open_parent(v, prs, k, p, n) && (forall|q: NodeKey, m: u64| #[trigger]
            is_open_parent(v, prs, k, q, m) ==> q == p) ==> state_base(v, prs, default_branch, k)
            == prs[n].head_ref_name@,
        is_open_parent(v, prs, k, p, n) && (exists|q: NodeKey, m: u64| #[trigger]
            is_open_parent(v, prs, k, q, m) && q != p) ==> state_base(v, prs, default_branch, k)
            == default_branch,
        (forall|q: NodeKey, m: u64| !#[trigger] is_open_parent(v, prs, k, q, m)) ==> state_base(
            v,
            prs,
            default_branch,
            k,
        ) == default_branch,
{
    let preds = v.preds[k];
    assert forall|q: NodeKey| #[trigger]
        preds.contains(q) && crate::node_graph::node_in_state(
            v.nodes,
            prs,
            q,
            PrState::Open,
        ) && v.preds.contains_key(k) implies is_open_parent(
        v,
        prs,
        k,
        q,
        crate::node_graph::node_at(v.nodes, q)->Pr_0,
    ) by {}
    assert forall|q: NodeKey, m: u64| #[trigger] is_open_parent(v, prs, k, q, m) implies
        preds.contains(q) && crate::node_graph::node_in_state(v.nodes, prs, q, PrState::Open) by {}
    if is_open_parent(v, prs, k, p, n) && (forall|q: NodeKey, m: u64| #[trigger]
        is_open_parent(v, prs, k, q, m) ==> q == p) {
        assert(crate::node_graph::only_open_parent(v.nodes, prs, preds, p));
        let x = choose|x: NodeKey| crate::node_graph::only_open_parent(v.nodes, prs, preds, x);
        assert(preds.contains(p));
        assert(x == p);
    }
    if is_open_parent(v, prs, k, p, n) && exists|q: NodeKey, m: u64| #[trigger]
        is_open_parent(v, prs, k, q, m) && q != p {
        let (q, m) = choose|q: NodeKey, m: u64| #[trigger]
            is_open_parent(v, prs, k, q, m) && q != p;
        assert forall|x: NodeKey|
            !crate::node_graph::only_open_parent(v.nodes, prs, preds, x) by {
            assert(preds.contains(p) && preds.contains(q));
        }
    }
}

/// Whether a node is of a PR that is not merged and has to be pushed, or rebased because a parent
/// was merged.
pub open spec fn has_to_move(v: RepoView, prs: Map<u64, &GhPr>, k: NodeKey) -> bool {
    &&& crate::node_store::key_of(k, v.nodes.len())
    &&& crate::node_graph::node_at(v.nodes, k) matches NodeView::Pr(n) && prs.contains_key(n)
        && !(prs[n].state is Merged) && (v.needs_push.contains(n) || exists|p: NodeKey|
        v.preds[k].contains(p) && #[trigger] is_merged_node(v, prs, p))
}

/// Whether a node is of a merged PR.
pub open spec fn is_merged_node(v: RepoView, prs: Map<u64, &GhPr>, k: NodeKey) -> bool {
    crate::node_graph::node_at(v.nodes, k) matches NodeView::Pr(n) && prs.contains_key(n)
        && prs[n].state is Merged
}

/// A node has pending sync actions exactly where it is not of a merged PR, and it or an ancestor
/// has to be pushed or rebased, or it is of an open PR whose base branch is not the one that the
/// graph asks for. The first concerns its descendants as well, the second does not.
pub proof fn pending_actions_have_their_reasons(
    entries: Seq<JjLogEntry>,
    prs: Map<u64, &GhPr>,
    default_branch: Seq<char>,
    tracking: Option<Set<Seq<char>>>,
    push_remote: Seq<char>,
    v: RepoView,
    k: NodeKey,
)
    requires
        is_built(entries, prs, default_branch, tracking, push_remote, v),
        crate::node_store::key_of(k, v.nodes.len()),
    ensures
        ({
            let moved = exists|x: NodeKey| #[trigger]
                crate::graph_algorithms::reaches(map_graph(v.preds), k, x) && has_to_move(
                    v,
                    prs,
                    x,
                );
            let node = crate::node_graph::node_at(v.nodes, k);
            let differs = node matches NodeView::Pr(n) && prs.contains_key(n)
                && prs[n].state is Open && prs[n].base_ref_name@ != state_base(
                v,
                prs,
                default_branch,
                k,
            );
            &&& v.needs_sync.contains_key(k) <==> !is_merged_node(v, prs, k) && (moved || differs)
            &&& v.needs_sync.contains_key(k) ==> v.needs_sync[k] == moved
        }),
{
    crate::membership::members_are_ok(prs, tracking, entries, entries.len());
    let m = build_members(entries, prs, tracking)->Ok_0;
    let edges = crate::node_graph::edges(m.owner, entries);
    let g = crate::node_graph::pred_graph(edges);
    crate::node_graph::lemma_edges_ok(prs, m, entries);
    assert(map_graph(v.preds) =~= g) by {
        assert forall|x: NodeKey| #[trigger] map_graph(v.preds)(x) == g(x) by {
            if !crate::node_store::key_of(x, v.nodes.len()) {
                let list = crate::node_graph::preds_of(edges, x);
                if list.len() > 0 {
                    assert(list.contains(list[0]));
                    crate::node_graph::lemma_preds(edges, x, list[0]);
                    let y = choose|y: int| 0 <= y < edges.len() && edges[y] == (x, list[0]);
                    assert(crate::node_store::key_of(edges[y].0, m.nodes.len()));
                }
                assert(list =~= Seq::<NodeKey>::empty());
            }
        }
    }
    assert forall|x: NodeKey| #[trigger]
        crate::graph_algorithms::reaches(g, k, x) implies crate::node_store::key_of(
        x,
        v.nodes.len(),
    ) by {
        let keys = crate::node_store::keys_of(v.nodes.len());
        lemma_keys_of(v.nodes.len());
        assert forall|a: u64, b: u64| #[trigger]
            keys.contains(a) && #[trigger] g(a).contains(b) implies keys.contains(b) by {
            crate::node_graph::lemma_neighbours_ok(edges, v.nodes.len(), a);
            assert(crate::node_graph::preds_of(edges, a).contains(b));
        }
        assert(keys.contains(k));
        crate::graph_algorithms::lemma_closed_reaches(g, keys, k, x);
        assert(keys.contains(x));
    }
    assert forall|x: NodeKey| crate::node_store::key_of(x, v.nodes.len()) implies (
    #[trigger] has_to_move(v, prs, x) <==> crate::node_graph::moves(
        m.nodes,
        prs,
        v.needs_push,
        crate::node_graph::preds_of(edges, x),
        x,
    )) by {
        let preds = crate::node_graph::preds_of(edges, x);
        assert(v.preds[x] == preds);
        assert forall|p: NodeKey| #[trigger]
            is_merged_node(v, prs, p) <==> crate::node_graph::node_in_state(
            m.nodes,
            prs,
            p,
            PrState::Merged,
        ) by {}
        if exists|p: NodeKey| preds.contains(p) && #[trigger] is_merged_node(v, prs, p) {
            let p = choose|p: NodeKey| preds.contains(p) && #[trigger] is_merged_node(v, prs, p);
            assert(preds.contains(p));
        }
        if exists|p: NodeKey| #[trigger]
            preds.contains(p) && crate::node_graph::node_in_state(
                m.nodes,
                prs,
                p,
                PrState::Merged,
            ) {
            let p = choose|p: NodeKey| #[trigger]
                preds.contains(p) && crate::node_graph::node_in_state(
                    m.nodes,
                    prs,
                    p,
                    PrState::Merged,
                );
            assert(is_merged_node(v, prs, p));
        }
    }
    if crate::node_graph::propagates(m.nodes, prs, v.needs_push, edges, k) {
        let x = choose|x: NodeKey| #[trigger]
            crate::graph_algorithms::reaches(g, k, x) && crate::node_graph::moves(
                m.nodes,
                prs,
                v.needs_push,
                crate::node_graph::preds_of(edges, x),
                x,
            );
        assert(has_to_move(v, prs, x));
    }
    if exists|x: NodeKey| #[trigger]
        crate::graph_algorithms::reaches(map_graph(v.preds), k, x) && has_to_move(v, prs, x) {
        let x = choose|x: NodeKey| #[trigger]
            crate::graph_algorithms::reaches(map_graph(v.preds), k, x) && has_to_move(v, prs, x);
        assert(crate::graph_algorithms::reaches(g, k, x));
        assert(crate::node_graph::propagates(m.nodes, prs, v.needs_push, edges, k));
    }
    assert(v.preds[k] == crate::node_graph::preds_of(edges, k));
}

/// A node is hidden exactly where it is of a closed PR without pending sync actions, and all its
/// children are hidden.
pub proof fn hidden_nodes_have_hidden_children(
    entries: Seq<JjLogEntry>,
    prs: Map<u64, &GhPr>,
    default_branch: Seq<char>,
    tracking: Option<Set<Seq<char>>>,
    push_remote: Seq<char>,
    v: RepoView,
    k: NodeKey,
)
    requires
        is_built(entries, prs, default_branch, tracking, push_remote, v),
        crate::node_store::key_of(k, v.nodes.len()),
    ensures
        v.hidden.contains(k) <==> !v.needs_sync.contains_key(k) && (crate::node_graph::node_at(
            v.nodes,
            k,
        ) matches NodeView::Pr(n) && prs.contains_key(n) && prs[n].state is Closed) && forall|
            s: NodeKey,
        | #[trigger]
            v.succs[k].contains(s) ==> v.hidden.contains(s),
{
    hidden_nodes_are_closed_leaves(entries, prs, default_branch, tracking, push_remote, k);
}

/// The PRs that are looked up by number are those that the trailer of some commit names.
pub proof fn prs_of_trailers_are_looked_up(entries: Seq<JjLogEntry>, n: u64)
    ensures
        trailer_set(entries).contains(n) <==> exists|i: int|
            0 <= i < entries.len() && crate::jj::pr_trailer(
                (#[trigger] entries[i]).commit.description@,
            ) == Some(n),
    decreases entries.len(),
{
    if entries.len() > 0 {
        let head = entries.drop_last();
        let at = entries.len() - 1;
        prs_of_trailers_are_looked_up(head, n);
        assert(entries.last() == entries[at]);
        if trailer_set(head).contains(n) {
            let i = choose|i: int|
                0 <= i < head.len() && crate::jj::pr_trailer(
                    (#[trigger] head[i]).commit.description@,
                ) == Some(n);
            assert(entries[i] == head[i]);
        }
        if exists|i: int|
            0 <= i < entries.len() && crate::jj::pr_trailer(
                (#[trigger] entries[i]).commit.description@,
            ) == Some(n) {
            let i = choose|i: int|
                0 <= i < entries.len() && crate::jj::pr_trailer(
                    (#[trigger] entries[i]).commit.description@,
                ) == Some(n);
            if i < at {
                assert(head[i] == entries[i]);
            }
        }
    }
}

} // verus!
