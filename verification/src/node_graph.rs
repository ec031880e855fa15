//! The edges between nodes, and what is handed on along them.
use std::collections::{BTreeMap, BTreeSet};
use vstd::prelude::*;

use crate::claims::{find_pr, pr_in_state};
use crate::gh::{GhPr, PrState};
use crate::graph_algorithms::Graph;
use crate::jj::JjLogEntry;
use crate::membership::Membership;
use crate::node_store::{FIRST_KEY, FlagMap, MarkSet, NodeKey, NodeSlots};
use crate::pr_dag::{Node, NodeView};
use crate::sets::{set_numbers, TextMap};
use crate::text::same_text;
use crate::types::Bookmark;

verus! {

// --- Edges ---

/// The node of a commit; that of an unknown one is the root.
pub open spec fn node_or_root(owner: Map<Seq<char>, NodeKey>, commit: Seq<char>) -> NodeKey {
    if owner.contains_key(commit) {
        owner[commit]
    } else {
        crate::node_store::key_at(0)
    }
}

/// The nodes of the parents of an entry.
pub open spec fn parent_nodes(owner: Map<Seq<char>, NodeKey>, entry: JjLogEntry) -> Set<NodeKey> {
    Seq::new(
        entry.commit.parents@.len(),
        |j: int| node_or_root(owner, entry.commit.parents@[j]@),
    ).to_set()
}

/// The edges from the node of an entry to the nodes of its parents, but for the node itself, in
/// ascending order.
pub open spec fn entry_edges(owner: Map<Seq<char>, NodeKey>, entry: JjLogEntry) -> Seq<
    (NodeKey, NodeKey),
> {
    let commit = entry.commit.commit_id@;
    if owner.contains_key(commit) {
        let from = owner[commit];
        let nexts = crate::order::num_listing(parent_nodes(owner, entry).remove(from));
        Seq::new(nexts.len(), |j: int| (from, nexts[j]))
    } else {
        Seq::empty()
    }
}

/// The edges of all entries, from child to parent.
pub open spec fn edges(owner: Map<Seq<char>, NodeKey>, entries: Seq<JjLogEntry>) -> Seq<
    (NodeKey, NodeKey),
>
    decreases entries.len(),
{
    if entries.len() == 0 {
        Seq::empty()
    } else {
        edges(owner, entries.drop_last()) + entry_edges(owner, entries.last())
    }
}

/// The parent nodes of the node `k`, once for each edge.
pub open spec fn preds_of(edges: Seq<(NodeKey, NodeKey)>, k: NodeKey) -> Seq<NodeKey>
    decreases edges.len(),
{
    if edges.len() == 0 {
        Seq::empty()
    } else if edges.last().0 == k {
        preds_of(edges.drop_last(), k).push(edges.last().1)
    } else {
        preds_of(edges.drop_last(), k)
    }
}

/// The child nodes of the node `k`, once for each edge.
pub open spec fn succs_of(edges: Seq<(NodeKey, NodeKey)>, k: NodeKey) -> Seq<NodeKey>
    decreases edges.len(),
{
    if edges.len() == 0 {
        Seq::empty()
    } else if edges.last().1 == k {
        succs_of(edges.drop_last(), k).push(edges.last().0)
    } else {
        succs_of(edges.drop_last(), k)
    }
}

/// The graph of parents.
pub open spec fn pred_graph(edges: Seq<(NodeKey, NodeKey)>) -> Graph {
    |k: NodeKey| preds_of(edges, k)
}

/// The graph of children.
pub open spec fn succ_graph(edges: Seq<(NodeKey, NodeKey)>) -> Graph {
    |k: NodeKey| succs_of(edges, k)
}

/// A node is a parent exactly where there is an edge to it.
pub proof fn lemma_preds(edges: Seq<(NodeKey, NodeKey)>, k: NodeKey, p: NodeKey)
    ensures
        preds_of(edges, k).contains(p) <==> edges.contains((k, p)),
    decreases edges.len(),
{
    if edges.len() > 0 {
        let head = edges.drop_last();
        lemma_preds(head, k, p);
        crate::sets::lemma_push_to_set(head, edges.last());
        assert(head.push(edges.last()) == edges);
        assert(edges.to_set().contains((k, p)) <==> head.to_set().insert(edges.last()).contains(
            (k, p),
        ));
        crate::sets::lemma_push_to_set(preds_of(head, k), edges.last().1);
        assert(preds_of(head, k).push(edges.last().1).to_set().contains(p) <==> preds_of(
            head,
            k,
        ).to_set().insert(edges.last().1).contains(p));
    }
}

/// A node is a child exactly where there is an edge from it.
pub proof fn lemma_succs(edges: Seq<(NodeKey, NodeKey)>, k: NodeKey, s: NodeKey)
    ensures
        succs_of(edges, k).contains(s) <==> edges.contains((s, k)),
    decreases edges.len(),
{
    if edges.len() > 0 {
        let head = edges.drop_last();
        lemma_succs(head, k, s);
        crate::sets::lemma_push_to_set(head, edges.last());
        assert(head.push(edges.last()) == edges);
        assert(edges.to_set().contains((s, k)) <==> head.to_set().insert(edges.last()).contains(
            (s, k),
        ));
        crate::sets::lemma_push_to_set(succs_of(head, k), edges.last().0);
        assert(succs_of(head, k).push(edges.last().0).to_set().contains(s) <==> succs_of(
            head,
            k,
        ).to_set().insert(edges.last().0).contains(s));
    }
}

/// One node is a parent of another exactly where the other is a child of it.
pub proof fn parents_and_children_agree(
    edges: Seq<(NodeKey, NodeKey)>,
    child: NodeKey,
    parent: NodeKey,
)
    ensures
        preds_of(edges, child).contains(parent) <==> succs_of(edges, parent).contains(child),
{
    lemma_preds(edges, child, parent);
    lemma_succs(edges, parent, child);
}

/// Whether all edges are between the first `n` nodes.
pub open spec fn edges_ok(edges: Seq<(NodeKey, NodeKey)>, n: nat) -> bool {
    forall|i: int|
        0 <= i < edges.len() ==> crate::node_store::key_of((#[trigger] edges[i]).0, n)
            && crate::node_store::key_of(edges[i].1, n) && edges[i].0 != edges[i].1
}

/// The parents of the node of an entry.
fn nexts_of(entry: &JjLogEntry, owner: &TextMap, from: NodeKey) -> (r: Vec<NodeKey>)
    requires
        owner.wf(),
    ensures
        r@ == crate::order::num_listing(parent_nodes(owner@, *entry).remove(from)),
        r@.to_set() == parent_nodes(owner@, *entry).remove(from),
{
    let mut all: BTreeSet<NodeKey> = BTreeSet::new();
    let ghost list = Seq::new(
        entry.commit.parents@.len(),
        |j: int| node_or_root(owner@, entry.commit.parents@[j]@),
    );
    let mut j: usize = 0;
    assert(list.take(0).to_set().remove(from) == Set::<NodeKey>::empty());
    while j < entry.commit.parents.len()
        invariant
            j <= entry.commit.parents.len(),
            owner.wf(),
            list == Seq::new(
                entry.commit.parents@.len(),
                |j: int| node_or_root(owner@, entry.commit.parents@[j]@),
            ),
            all@ == list.take(j as int).to_set().remove(from),
        decreases entry.commit.parents.len() - j,
    {
        let key = match owner.get(entry.commit.parents[j].as_str()) {
            Some(k) => k,
            None => FIRST_KEY,
        };
        assert(list.take(j + 1) == list.take(j as int).push(key));
        proof {
            crate::sets::lemma_push_to_set(list.take(j as int), key);
        }
        // No self-references.
        if key != from {
            all.insert(key);
        }
        assert(all@ == list.take(j + 1).to_set().remove(from));
        j = j + 1;
    }
    assert(list.take(j as int) == list);
    set_numbers(&all)
}

/// Collects the edges of all entries.
pub fn collect_edges(jj_entries: &Vec<JjLogEntry>, owner: &TextMap) -> (r: Vec<(NodeKey, NodeKey)>)
    requires
        owner.wf(),
    ensures
        r@ == edges(owner@, jj_entries@),
{
    let mut out: Vec<(NodeKey, NodeKey)> = Vec::new();
    let mut i: usize = 0;
    while i < jj_entries.len()
        invariant
            i <= jj_entries.len(),
            owner.wf(),
            out@ == edges(owner@, jj_entries@.take(i as int)),
        decreases jj_entries.len() - i,
    {
        let entry = &jj_entries[i];
        assert(jj_entries@.take(i + 1).drop_last() == jj_entries@.take(i as int));
        let ghost before = out@;
        if let Some(from) = owner.get(entry.commit.commit_id.as_str()) {
            let nexts = nexts_of(entry, owner, from);
            let ghost new = entry_edges(owner@, *entry);
            let mut j: usize = 0;
            assert(before + new.take(0) == before);
            while j < nexts.len()
                invariant
                    j <= nexts.len(),
                    new.len() == nexts.len(),
                    forall|j: int| 0 <= j < nexts.len() ==> #[trigger] new[j] == (from, nexts@[j]),
                    out@ == before + new.take(j as int),
                decreases nexts.len() - j,
            {
                out.push((from, nexts[j]));
                assert(new.take(j + 1) == new.take(j as int).push(new[j as int]));
                assert(before + new.take(j + 1) == (before + new.take(j as int)).push(
                    new[j as int],
                ));
                j = j + 1;
            }
            assert(new.take(j as int) == new);
        } else {
            assert(before + entry_edges(owner@, *entry) == before);
        }
        i = i + 1;
    }
    assert(jj_entries@.take(i as int) == jj_entries@);
    out
}

/// The edges are between nodes.
pub proof fn lemma_edges_ok(
    prs: Map<u64, &GhPr>,
    m: Membership,
    entries: Seq<JjLogEntry>,
)
    requires
        crate::membership::members_ok(prs, m),
    ensures
        edges_ok(edges(m.owner, entries), m.nodes.len()),
    decreases entries.len(),
{
    if entries.len() > 0 {
        let e = entries.last();
        lemma_edges_ok(prs, m, entries.drop_last());
        let head = edges(m.owner, entries.drop_last());
        let tail = entry_edges(m.owner, e);
        let all = edges(m.owner, entries);
        assert forall|i: int| 0 <= i < all.len() implies crate::node_store::key_of(
            (#[trigger] all[i]).0,
            m.nodes.len(),
        ) && crate::node_store::key_of(all[i].1, m.nodes.len()) && all[i].0 != all[i].1 by {
            if i < head.len() {
                assert(all[i] == head[i]);
            } else {
                let j = i - head.len();
                assert(all[i] == tail[j]);
                let commit = e.commit.commit_id@;
                let from = m.owner[commit];
                assert(m.owner.contains_key(commit));
                let list = Seq::new(
                    e.commit.parents@.len(),
                    |j: int| node_or_root(m.owner, e.commit.parents@[j]@),
                );
                let set = parent_nodes(m.owner, e).remove(from);
                let nexts = crate::order::num_listing(set);
                crate::order::lemma_num_listing(set);
                assert(nexts.to_set().contains(nexts[j]));
                let p = choose|p: int| 0 <= p < list.len() && list[p] == nexts[j];
                let parent = e.commit.parents@[p]@;
                if m.owner.contains_key(parent) {
                    assert(crate::membership::member_key(m.owner[parent], m.nodes.len()));
                }
            }
        }
    }
}

/// No edge starts at the root.
pub proof fn lemma_no_edge_from_root(
    prs: Map<u64, &GhPr>,
    m: Membership,
    entries: Seq<JjLogEntry>,
)
    requires
        crate::membership::members_ok(prs, m),
    ensures
        forall|i: int|
            0 <= i < edges(m.owner, entries).len() ==> (#[trigger] edges(m.owner, entries)[i]).0
                != crate::node_store::key_at(0),
    decreases entries.len(),
{
    if entries.len() > 0 {
        lemma_no_edge_from_root(prs, m, entries.drop_last());
        let head = edges(m.owner, entries.drop_last());
        let tail = entry_edges(m.owner, entries.last());
        let all = edges(m.owner, entries);
        assert forall|i: int| 0 <= i < all.len() implies (#[trigger] all[i]).0
            != crate::node_store::key_at(0) by {
            if i < head.len() {
                assert(all[i] == head[i]);
            } else {
                assert(all[i] == tail[i - head.len()]);
                assert(m.owner.contains_key(entries.last().commit.commit_id@));
            }
        }
    }
}

/// The parent nodes of the node `k`.
pub fn preds_list(edges: &Vec<(NodeKey, NodeKey)>, k: NodeKey) -> (r: Vec<NodeKey>)
    ensures
        r@ == preds_of(edges@, k),
{
    let mut out: Vec<NodeKey> = Vec::new();
    let mut i: usize = 0;
    while i < edges.len()
        invariant
            i <= edges.len(),
            out@ == preds_of(edges@.take(i as int), k),
        decreases edges.len() - i,
    {
        assert(edges@.take(i + 1).drop_last() == edges@.take(i as int));
        if edges[i].0 == k {
            out.push(edges[i].1);
        }
        i = i + 1;
    }
    assert(edges@.take(i as int) == edges@);
    out
}

/// The child nodes of the node `k`.
pub fn succs_list(edges: &Vec<(NodeKey, NodeKey)>, k: NodeKey) -> (r: Vec<NodeKey>)
    ensures
        r@ == succs_of(edges@, k),
{
    let mut out: Vec<NodeKey> = Vec::new();
    let mut i: usize = 0;
    while i < edges.len()
        invariant
            i <= edges.len(),
            out@ == succs_of(edges@.take(i as int), k),
        decreases edges.len() - i,
    {
        assert(edges@.take(i + 1).drop_last() == edges@.take(i as int));
        if edges[i].1 == k {
            out.push(edges[i].0);
        }
        i = i + 1;
    }
    assert(edges@.take(i as int) == edges@);
    out
}

/// The nodes that `k` has an edge to, or from, are nodes.
pub proof fn lemma_neighbours_ok(edges: Seq<(NodeKey, NodeKey)>, n: nat, k: NodeKey)
    requires
        edges_ok(edges, n),
    ensures
        forall|p: NodeKey| #[trigger]
            preds_of(edges, k).contains(p) ==> crate::node_store::key_of(p, n),
        forall|s: NodeKey| #[trigger]
            succs_of(edges, k).contains(s) ==> crate::node_store::key_of(s, n),
{
    assert forall|p: NodeKey| #[trigger] preds_of(edges, k).contains(p) implies
        crate::node_store::key_of(p, n) by {
        lemma_preds(edges, k, p);
        let i = choose|i: int| 0 <= i < edges.len() && edges[i] == (k, p);
        assert(crate::node_store::key_of(edges[i].1, n));
    }
    assert forall|s: NodeKey| #[trigger] succs_of(edges, k).contains(s) implies
        crate::node_store::key_of(s, n) by {
        lemma_succs(edges, k, s);
        let i = choose|i: int| 0 <= i < edges.len() && edges[i] == (s, k);
        assert(crate::node_store::key_of(edges[i].0, n));
    }
}

// --- The expected base ---

/// The node with the key `k`.
pub open spec fn node_at(nodes: Seq<NodeView>, k: NodeKey) -> NodeView {
    nodes[crate::node_store::place(k)]
}

/// Whether a node is a PR in the given state.
pub open spec fn node_in_state(
    nodes: Seq<NodeView>,
    prs: Map<u64, &GhPr>,
    k: NodeKey,
    state: PrState,
) -> bool {
    node_at(nodes, k) is Pr && crate::claims::in_state(prs, node_at(nodes, k)->Pr_0, state)
}

/// Whether `k` is an open PR among the parents, and the only one.
pub open spec fn only_open_parent(
    nodes: Seq<NodeView>,
    prs: Map<u64, &GhPr>,
    preds: Seq<NodeKey>,
    k: NodeKey,
) -> bool {
    &&& preds.contains(k)
    &&& node_in_state(nodes, prs, k, PrState::Open)
    &&& forall|j: NodeKey| #[trigger]
        preds.contains(j) && node_in_state(nodes, prs, j, PrState::Open) ==> j == k
}

/// The base branch that the parents of a node ask for: that of the only parent that is an open
/// PR, or the default branch.
pub open spec fn base_of(
    nodes: Seq<NodeView>,
    prs: Map<u64, &GhPr>,
    preds: Seq<NodeKey>,
    default_branch: Seq<char>,
) -> Seq<char> {
    if exists|k: NodeKey| only_open_parent(nodes, prs, preds, k) {
        let k = choose|k: NodeKey| only_open_parent(nodes, prs, preds, k);
        prs[node_at(nodes, k)->Pr_0].head_ref_name@
    } else {
        default_branch
    }
}

/// Whether the keys are keys of nodes.
pub open spec fn all_keys(keys: Seq<NodeKey>, n: nat) -> bool {
    forall|k: NodeKey| #[trigger] keys.contains(k) ==> crate::node_store::key_of(k, n)
}

/// The node with the key `k`.
pub fn node_ref(nodes: &NodeSlots, k: NodeKey) -> (r: &Node)
    requires
        crate::node_store::key_of(k, nodes@.len()),
    ensures
        r@ == node_at(crate::membership::node_views(nodes@), k),
        *r == nodes@[crate::node_store::place(k)],
{
    nodes.get(k).unwrap()
}

/// Whether a node is a PR in the given state.
pub fn is_in_state(
    nodes: &NodeSlots,
    prs: &BTreeMap<u64, &GhPr>,
    k: NodeKey,
    state: PrState,
) -> (r: bool)
    requires
        crate::node_store::key_of(k, nodes@.len()),
    ensures
        r == node_in_state(crate::membership::node_views(nodes@), prs@, k, state),
{
    match node_ref(nodes, k) {
        Node::Pr(n) => pr_in_state(prs, n.get(), state),
        _ => false,
    }
}

/// The base branch that the parents of a node ask for.
pub fn find_base(
    nodes: &NodeSlots,
    prs: &BTreeMap<u64, &GhPr>,
    preds: &Vec<NodeKey>,
    default_branch: &Bookmark,
) -> (r: Bookmark)
    requires
        all_keys(preds@, nodes@.len()),
    ensures
        r@ == base_of(crate::membership::node_views(nodes@), prs@, preds@, default_branch@),
{
    let ghost views = crate::membership::node_views(nodes@);
    let mut found: Option<NodeKey> = None;
    let mut i: usize = 0;
    while i < preds.len()
        invariant
            i <= preds.len(),
            all_keys(preds@, nodes@.len()),
            views == crate::membership::node_views(nodes@),
            found is None ==> forall|j: int|
                0 <= j < i ==> !node_in_state(views, prs@, #[trigger] preds@[j], PrState::Open),
            found is Some ==> preds@.contains(found->0) && node_in_state(
                views,
                prs@,
                found->0,
                PrState::Open,
            ) && forall|j: int|
                0 <= j < i && node_in_state(views, prs@, #[trigger] preds@[j], PrState::Open)
                    ==> preds@[j] == found->0,
        decreases preds.len() - i,
    {
        let k = preds[i];
        assert(preds@.contains(k));
        if is_in_state(nodes, prs, k, PrState::Open) {
            match found {
                Some(other) => {
                    if other != k {
                        assert(!exists|x: NodeKey| only_open_parent(views, prs@, preds@, x)) by {
                            if exists|x: NodeKey| only_open_parent(views, prs@, preds@, x) {
                                let x = choose|x: NodeKey|
                                    only_open_parent(views, prs@, preds@, x);
                                assert(preds@.contains(k) && preds@.contains(other));
                            }
                        }
                        return default_branch.clone();
                    }
                },
                None => {
                    found = Some(k);
                },
            }
        }
        i = i + 1;
    }
    match found {
        Some(k) => {
            assert(only_open_parent(views, prs@, preds@, k)) by {
                assert forall|j: NodeKey| #[trigger] preds@.contains(j) && node_in_state(
                    views,
                    prs@,
                    j,
                    PrState::Open,
                ) implies j == k by {
                    let x = choose|x: int| 0 <= x < preds@.len() && preds@[x] == j;
                    assert(preds@[x] == j);
                }
            }
            assert(preds@.contains(k));
            if let Node::Pr(n) = node_ref(nodes, k) {
                if let Some(pr) = find_pr(prs, n.get()) {
                    return pr.head_ref_name.clone();
                }
            }
            default_branch.clone()
        },
        None => {
            assert(!exists|x: NodeKey| only_open_parent(views, prs@, preds@, x)) by {
                if exists|x: NodeKey| only_open_parent(views, prs@, preds@, x) {
                    let x = choose|x: NodeKey| only_open_parent(views, prs@, preds@, x);
                    let j = choose|j: int| 0 <= j < preds@.len() && preds@[j] == x;
                    assert(preds@[j] == x);
                }
            }
            default_branch.clone()
        },
    }
}

// --- Pending sync actions ---

/// Whether a node is a PR that has to be pushed, or rebased because a parent was merged.
pub open spec fn moves(
    nodes: Seq<NodeView>,
    prs: Map<u64, &GhPr>,
    needs_push: Set<u64>,
    preds: Seq<NodeKey>,
    k: NodeKey,
) -> bool {
    &&& node_at(nodes, k) is Pr
    &&& prs.contains_key(node_at(nodes, k)->Pr_0)
    &&& !(prs[node_at(nodes, k)->Pr_0].state is Merged)
    &&& needs_push.contains(node_at(nodes, k)->Pr_0) || exists|p: NodeKey| #[trigger]
        preds.contains(p) && node_in_state(nodes, prs, p, PrState::Merged)
}

/// Whether a node is an open PR whose base branch on GitHub is not the expected one.
pub open spec fn base_differs(
    nodes: Seq<NodeView>,
    prs: Map<u64, &GhPr>,
    preds: Seq<NodeKey>,
    default_branch: Seq<char>,
    k: NodeKey,
) -> bool {
    node_in_state(nodes, prs, k, PrState::Open) && prs[node_at(nodes, k)->Pr_0].base_ref_name@
        != base_of(nodes, prs, preds, default_branch)
}

/// Whether a node or one of its ancestors has to be pushed or rebased.
pub open spec fn propagates(
    nodes: Seq<NodeView>,
    prs: Map<u64, &GhPr>,
    needs_push: Set<u64>,
    edges: Seq<(NodeKey, NodeKey)>,
    k: NodeKey,
) -> bool {
    exists|x: NodeKey| #[trigger]
        crate::graph_algorithms::reaches(pred_graph(edges), k, x) && moves(
            nodes,
            prs,
            needs_push,
            preds_of(edges, x),
            x,
        )
}

/// Whether a node has pending sync actions: `true` if they concern its descendants as well,
/// `false` if it is its own base alone. A merged PR never has any.
pub open spec fn sync_flag(
    nodes: Seq<NodeView>,
    prs: Map<u64, &GhPr>,
    needs_push: Set<u64>,
    edges: Seq<(NodeKey, NodeKey)>,
    default_branch: Seq<char>,
    k: NodeKey,
) -> Option<bool> {
    if node_in_state(nodes, prs, k, PrState::Merged) {
        None
    } else if propagates(nodes, prs, needs_push, edges, k) {
        Some(true)
    } else if base_differs(nodes, prs, preds_of(edges, k), default_branch, k) {
        Some(false)
    } else {
        None
    }
}

/// A node propagates exactly where it moves itself or a parent propagates.
pub proof fn lemma_propagates(
    nodes: Seq<NodeView>,
    prs: Map<u64, &GhPr>,
    needs_push: Set<u64>,
    edges: Seq<(NodeKey, NodeKey)>,
    k: NodeKey,
)
    ensures
        propagates(nodes, prs, needs_push, edges, k) <==> moves(
            nodes,
            prs,
            needs_push,
            preds_of(edges, k),
            k,
        ) || exists|p: NodeKey| #[trigger]
            preds_of(edges, k).contains(p) && propagates(nodes, prs, needs_push, edges, p),
{
    let g = pred_graph(edges);
    if propagates(nodes, prs, needs_push, edges, k) {
        let x = choose|x: NodeKey| #[trigger]
            crate::graph_algorithms::reaches(g, k, x) && moves(
                nodes,
                prs,
                needs_push,
                preds_of(edges, x),
                x,
            );
        crate::graph_algorithms::lemma_reaches_cases(g, k, x);
        if x != k {
            let p = choose|p: NodeKey| #[trigger]
                g(k).contains(p) && crate::graph_algorithms::reaches(g, p, x);
            assert(preds_of(edges, k).contains(p));
            assert(propagates(nodes, prs, needs_push, edges, p));
        }
    }
    if moves(nodes, prs, needs_push, preds_of(edges, k), k) {
        crate::graph_algorithms::lemma_reaches_self(g, k);
    }
    if exists|p: NodeKey| #[trigger]
        preds_of(edges, k).contains(p) && propagates(nodes, prs, needs_push, edges, p) {
        let p = choose|p: NodeKey| #[trigger]
            preds_of(edges, k).contains(p) && propagates(nodes, prs, needs_push, edges, p);
        let x = choose|x: NodeKey| #[trigger]
            crate::graph_algorithms::reaches(g, p, x) && moves(
                nodes,
                prs,
                needs_push,
                preds_of(edges, x),
                x,
            );
        assert(g(k).contains(p));
        crate::graph_algorithms::lemma_reaches_step(g, k, p, x);
    }
}

/// Whether a node is a PR that has to be pushed or rebased.
fn must_move(
    nodes: &NodeSlots,
    prs: &BTreeMap<u64, &GhPr>,
    needs_push: &BTreeSet<u64>,
    preds: &Vec<NodeKey>,
    k: NodeKey,
) -> (r: bool)
    requires
        crate::node_store::key_of(k, nodes@.len()),
        all_keys(preds@, nodes@.len()),
    ensures
        r == moves(crate::membership::node_views(nodes@), prs@, needs_push@, preds@, k),
{
    broadcast use vstd::std_specs::btree::group_btree_axioms;

    let ghost views = crate::membership::node_views(nodes@);
    let n = match node_ref(nodes, k) {
        Node::Pr(n) => n.get(),
        _ => {
            return false;
        },
    };
    match find_pr(prs, n) {
        Some(pr) => {
            if pr.state == PrState::Merged {
                return false;
            }
        },
        None => {
            return false;
        },
    }
    if needs_push.contains(&n) {
        return true;
    }
    let mut i: usize = 0;
    while i < preds.len()
        invariant
            i <= preds.len(),
            all_keys(preds@, nodes@.len()),
            views == crate::membership::node_views(nodes@),
            node_at(views, k) == NodeView::Pr(n),
            prs@.contains_key(n),
            !(prs@[n].state is Merged),
            forall|j: int|
                0 <= j < i ==> !node_in_state(views, prs@, #[trigger] preds@[j], PrState::Merged),
        decreases preds.len() - i,
    {
        assert(preds@.contains(preds@[i as int]));
        if is_in_state(nodes, prs, preds[i], PrState::Merged) {
            return true;
        }
        i = i + 1;
    }
    assert forall|p: NodeKey| #[trigger] preds@.contains(p) implies !node_in_state(
        views,
        prs@,
        p,
        PrState::Merged,
    ) by {
        let j = choose|j: int| 0 <= j < preds@.len() && preds@[j] == p;
        assert(preds@[j] == p);
    }
    false
}

/// Whether `order` lists the keys of `n` nodes, each once and parents first.
pub open spec fn sorted_nodes(
    edges: Seq<(NodeKey, NodeKey)>,
    order: Seq<NodeKey>,
    n: nat,
) -> bool {
    &&& order.no_duplicates()
    &&& crate::graph_algorithms::topological(pred_graph(edges), order)
    &&& forall|k: NodeKey| #[trigger] order.contains(k) <==> crate::node_store::key_of(k, n)
}

/// Whether one of the keys is in the set.
pub fn any_in(keys: &Vec<NodeKey>, set: &BTreeSet<NodeKey>) -> (r: bool)
    ensures
        r <==> exists|k: NodeKey| #[trigger] keys@.contains(k) && set@.contains(k),
{
    broadcast use vstd::std_specs::btree::group_btree_axioms;

    let mut i: usize = 0;
    while i < keys.len()
        invariant
            i <= keys.len(),
            forall|j: int| 0 <= j < i ==> !set@.contains(#[trigger] keys@[j]),
        decreases keys.len() - i,
    {
        if set.contains(&keys[i]) {
            assert(keys@.contains(keys@[i as int]));
            return true;
        }
        i = i + 1;
    }
    assert forall|k: NodeKey| #[trigger] keys@.contains(k) implies !set@.contains(k) by {
        let j = choose|j: int| 0 <= j < keys@.len() && keys@[j] == k;
        assert(keys@[j] == k);
    }
    false
}

proof fn lemma_take_contains(s: Seq<u64>, i: int, x: u64)
    requires
        0 <= i < s.len(),
    ensures
        s.take(i + 1).contains(x) <==> s.take(i).contains(x) || x == s[i],
{
    assert(s.take(i + 1) == s.take(i).push(s[i]));
    crate::sets::lemma_push_to_set(s.take(i), s[i]);
    assert(s.take(i + 1).to_set().contains(x) <==> s.take(i).to_set().insert(s[i]).contains(x));
}

/// Computes which nodes have pending sync actions, parents before children.
pub fn find_needs_sync(
    nodes: &NodeSlots,
    prs: &BTreeMap<u64, &GhPr>,
    needs_push: &BTreeSet<u64>,
    edges: &Vec<(NodeKey, NodeKey)>,
    order: &Vec<NodeKey>,
    default_branch: &Bookmark,
) -> (r: FlagMap)
    requires
        edges_ok(edges@, nodes@.len()),
        sorted_nodes(edges@, order@, nodes@.len()),
    ensures
        forall|k: NodeKey| #[trigger]
            r@.contains_key(k) <==> crate::node_store::key_of(k, nodes@.len()) && sync_flag(
                crate::membership::node_views(nodes@),
                prs@,
                needs_push@,
                edges@,
                default_branch@,
                k,
            ) is Some,
        forall|k: NodeKey| #[trigger]
            r@.contains_key(k) ==> sync_flag(
                crate::membership::node_views(nodes@),
                prs@,
                needs_push@,
                edges@,
                default_branch@,
                k,
            ) == Some(r@[k]),
{
    let ghost views = crate::membership::node_views(nodes@);
    let ghost push = needs_push@;
    let ghost base = default_branch@;
    let mut flags = FlagMap::new();
    let mut spread: BTreeSet<NodeKey> = BTreeSet::new();
    let mut i: usize = 0;
    while i < order.len()
        invariant
            i <= order.len(),
            edges_ok(edges@, nodes@.len()),
            sorted_nodes(edges@, order@, nodes@.len()),
            views == crate::membership::node_views(nodes@),
            push == needs_push@,
            base == default_branch@,
            forall|k: NodeKey| #[trigger]
                spread@.contains(k) <==> order@.take(i as int).contains(k) && propagates(
                    views,
                    prs@,
                    push,
                    edges@,
                    k,
                ),
            forall|k: NodeKey| #[trigger]
                flags@.contains_key(k) <==> order@.take(i as int).contains(k) && sync_flag(
                    views,
                    prs@,
                    push,
                    edges@,
                    base,
                    k,
                ) is Some,
            forall|k: NodeKey| #[trigger]
                flags@.contains_key(k) ==> sync_flag(views, prs@, push, edges@, base, k) == Some(
                    flags@[k],
                ),
        decreases order.len() - i,
    {
        let ghost old_spread = spread@;
        let ghost old_flags = flags@;
        let nk = order[i];
        assert(order@.contains(nk));
        let preds = preds_list(edges, nk);
        proof {
            lemma_neighbours_ok(edges@, nodes@.len(), nk);
            lemma_propagates(views, prs@, push, edges@, nk);
            assert forall|p: NodeKey| #[trigger] preds@.contains(p) implies order@.take(
                i as int,
            ).contains(p) by {
                let g = pred_graph(edges@);
                assert(g(order@[i as int]).contains(p));
            }
        }
        let moving = must_move(nodes, prs, needs_push, &preds, nk);
        let spreads = moving || any_in(&preds, &spread);
        assert(spreads == propagates(views, prs@, push, edges@, nk));
        let differs = match node_ref(nodes, nk) {
            Node::Pr(n) => match find_pr(prs, n.get()) {
                Some(pr) => pr.state == PrState::Open && {
                    let expected = find_base(nodes, prs, &preds, default_branch);
                    !same_text(pr.base_ref_name.as_str(), expected.as_str())
                },
                None => false,
            },
            _ => false,
        };
        assert(differs == base_differs(views, prs@, preds@, base, nk));
        if spreads {
            spread.insert(nk);
        }
        // Merged PRs trigger sync actions on their descendants but are no targets themselves.
        if (spreads || differs) && !is_in_state(nodes, prs, nk, PrState::Merged) {
            flags.insert(nk, spreads);
        }
        proof {
            let next = order@.take(i + 1);
            assert forall|k: NodeKey| #[trigger] spread@.contains(k) <==> next.contains(k)
                && propagates(views, prs@, push, edges@, k) by {
                lemma_take_contains(order@, i as int, k);
                assert(old_spread.contains(k) <==> order@.take(i as int).contains(k) && propagates(
                    views,
                    prs@,
                    push,
                    edges@,
                    k,
                ));
            }
            assert forall|k: NodeKey| #[trigger] flags@.contains_key(k) <==> next.contains(k)
                && sync_flag(views, prs@, push, edges@, base, k) is Some by {
                lemma_take_contains(order@, i as int, k);
                assert(old_flags.contains_key(k) <==> order@.take(i as int).contains(k)
                    && sync_flag(views, prs@, push, edges@, base, k) is Some);
            }
            assert forall|k: NodeKey| #[trigger] flags@.contains_key(k) implies sync_flag(
                views,
                prs@,
                push,
                edges@,
                base,
                k,
            ) == Some(flags@[k]) by {
                if k != nk {
                    assert(old_flags.contains_key(k));
                }
            }
        }
        i = i + 1;
    }
    assert(order@.take(i as int) == order@);
    flags
}

// --- Hidden nodes ---

/// Whether a node may be hidden if its descendants are: it is a closed PR without pending sync
/// actions.
pub open spec fn hideable(
    nodes: Seq<NodeView>,
    prs: Map<u64, &GhPr>,
    needs_sync: Map<NodeKey, bool>,
    k: NodeKey,
) -> bool {
    !needs_sync.contains_key(k) && node_in_state(nodes, prs, k, PrState::Closed)
}

/// Whether a node is hidden: it and all its descendants may be.
pub open spec fn is_hidden(
    nodes: Seq<NodeView>,
    prs: Map<u64, &GhPr>,
    needs_sync: Map<NodeKey, bool>,
    edges: Seq<(NodeKey, NodeKey)>,
    k: NodeKey,
) -> bool {
    forall|x: NodeKey| #[trigger]
        crate::graph_algorithms::reaches(succ_graph(edges), k, x) ==> hideable(
            nodes,
            prs,
            needs_sync,
            x,
        )
}

/// A node is hidden exactly where it may be and all its children are hidden.
pub proof fn lemma_hidden(
    nodes: Seq<NodeView>,
    prs: Map<u64, &GhPr>,
    needs_sync: Map<NodeKey, bool>,
    edges: Seq<(NodeKey, NodeKey)>,
    k: NodeKey,
)
    ensures
        is_hidden(nodes, prs, needs_sync, edges, k) <==> hideable(nodes, prs, needs_sync, k) && (
        forall|s: NodeKey| #[trigger]
            succs_of(edges, k).contains(s) ==> is_hidden(nodes, prs, needs_sync, edges, s)),
{
    let g = succ_graph(edges);
    if is_hidden(nodes, prs, needs_sync, edges, k) {
        crate::graph_algorithms::lemma_reaches_self(g, k);
        assert forall|s: NodeKey| #[trigger] succs_of(edges, k).contains(s) implies is_hidden(
            nodes,
            prs,
            needs_sync,
            edges,
            s,
        ) by {
            assert(g(k).contains(s));
            assert forall|x: NodeKey| #[trigger]
                crate::graph_algorithms::reaches(g, s, x) implies hideable(
                nodes,
                prs,
                needs_sync,
                x,
            ) by {
                crate::graph_algorithms::lemma_reaches_step(g, k, s, x);
            }
        }
    }
    if hideable(nodes, prs, needs_sync, k) && (forall|s: NodeKey| #[trigger]
        succs_of(edges, k).contains(s) ==> is_hidden(nodes, prs, needs_sync, edges, s)) {
        assert forall|x: NodeKey| #[trigger]
            crate::graph_algorithms::reaches(g, k, x) implies hideable(
            nodes,
            prs,
            needs_sync,
            x,
        ) by {
            crate::graph_algorithms::lemma_reaches_cases(g, k, x);
            if x != k {
                let s = choose|s: NodeKey| #[trigger]
                    g(k).contains(s) && crate::graph_algorithms::reaches(g, s, x);
                assert(succs_of(edges, k).contains(s));
                assert(is_hidden(nodes, prs, needs_sync, edges, s));
            }
        }
    }
}

/// Computes which nodes are hidden, children before parents.
pub fn find_hidden(
    nodes: &NodeSlots,
    prs: &BTreeMap<u64, &GhPr>,
    needs_sync: &FlagMap,
    edges: &Vec<(NodeKey, NodeKey)>,
    order: &Vec<NodeKey>,
) -> (r: MarkSet)
    requires
        edges_ok(edges@, nodes@.len()),
        sorted_nodes(edges@, order@, nodes@.len()),
    ensures
        forall|k: NodeKey| #[trigger]
            r@.contains(k) <==> crate::node_store::key_of(k, nodes@.len()) && is_hidden(
                crate::membership::node_views(nodes@),
                prs@,
                needs_sync@,
                edges@,
                k,
            ),
{
    let ghost views = crate::membership::node_views(nodes@);
    let mut hidden = MarkSet::new();
    let mut i: usize = order.len();
    assert(order@.skip(i as int) == Seq::<NodeKey>::empty());
    while i > 0
        invariant
            i <= order.len(),
            edges_ok(edges@, nodes@.len()),
            sorted_nodes(edges@, order@, nodes@.len()),
            views == crate::membership::node_views(nodes@),
            forall|k: NodeKey| #[trigger]
                hidden@.contains(k) <==> order@.skip(i as int).contains(k) && is_hidden(
                    views,
                    prs@,
                    needs_sync@,
                    edges@,
                    k,
                ),
        decreases i,
    {
        let ghost after = order@.skip(i as int);
        i = i - 1;
        let nk = order[i];
        assert(order@.contains(nk));
        let succs = succs_list(edges, nk);
        proof {
            lemma_hidden(views, prs@, needs_sync@, edges@, nk);
            lemma_neighbours_ok(edges@, nodes@.len(), nk);
            assert forall|s: NodeKey| #[trigger] succs@.contains(s) implies after.contains(s) by {
                lemma_later(edges@, order@, nodes@.len(), i as int, s);
            }
        }
        // Keep visible if there are pending sync actions; only closed PRs are hidden.
        let mut unseen = needs_sync.get(nk).is_none() && is_in_state(
            nodes,
            prs,
            nk,
            PrState::Closed,
        );
        // Keep visible if any child is visible.
        let mut j: usize = 0;
        while j < succs.len()
            invariant
                j <= succs.len(),
                all_keys(succs@, nodes@.len()),
                unseen == (hideable(views, prs@, needs_sync@, nk) && forall|x: int|
                    0 <= x < j ==> hidden@.contains(#[trigger] succs@[x])),
            decreases succs.len() - j,
        {
            assert(succs@.contains(succs@[j as int]));
            if !hidden.contains(succs[j]) {
                unseen = false;
            }
            j = j + 1;
        }
        proof {
            if unseen {
                assert forall|s: NodeKey| #[trigger] succs@.contains(s) implies is_hidden(
                    views,
                    prs@,
                    needs_sync@,
                    edges@,
                    s,
                ) by {
                    let x = choose|x: int| 0 <= x < succs@.len() && succs@[x] == s;
                    assert(hidden@.contains(succs@[x]));
                }
            } else if hideable(views, prs@, needs_sync@, nk) {
                let x = choose|x: int|
                    0 <= x < succs@.len() && !hidden@.contains(#[trigger] succs@[x]);
                assert(succs@.contains(succs@[x]));
                assert(after.contains(succs@[x]));
            }
            assert(unseen == is_hidden(views, prs@, needs_sync@, edges@, nk));
        }
        let ghost old_hidden = hidden@;
        if unseen {
            hidden.insert(nk);
        }
        proof {
            assert forall|k: NodeKey| #[trigger] hidden@.contains(k) <==> order@.skip(
                i as int,
            ).contains(k) && is_hidden(views, prs@, needs_sync@, edges@, k) by {
                lemma_skip_contains(order@, i as int, k);
                assert(old_hidden.contains(k) <==> after.contains(k) && is_hidden(
                    views,
                    prs@,
                    needs_sync@,
                    edges@,
                    k,
                ));
            }
        }
    }
    assert(order@.skip(0) == order@);
    hidden
}

proof fn lemma_skip_contains(s: Seq<u64>, i: int, x: u64)
    requires
        0 <= i < s.len(),
    ensures
        s.skip(i).contains(x) <==> s.skip(i + 1).contains(x) || x == s[i],
{
    let a = s.skip(i);
    let b = s.skip(i + 1);
    if a.contains(x) {
        let j = choose|j: int| 0 <= j < a.len() && a[j] == x;
        if j > 0 {
            assert(b[j - 1] == x);
        }
    }
    if b.contains(x) {
        let j = choose|j: int| 0 <= j < b.len() && b[j] == x;
        assert(a[j + 1] == x);
    }
    assert(a[0] == s[i]);
}

/// The children of a node come after it.
proof fn lemma_later(
    edges: Seq<(NodeKey, NodeKey)>,
    order: Seq<NodeKey>,
    n: nat,
    i: int,
    s: NodeKey,
)
    requires
        edges_ok(edges, n),
        sorted_nodes(edges, order, n),
        0 <= i < order.len(),
        succs_of(edges, order[i]).contains(s),
    ensures
        order.skip(i + 1).contains(s),
{
    let g = pred_graph(edges);
    parents_and_children_agree(edges, s, order[i]);
    lemma_neighbours_ok(edges, n, order[i]);
    assert(order.contains(s));
    let j = choose|j: int| 0 <= j < order.len() && order[j] == s;
    assert(g(order[j]).contains(order[i]));
    assert(order.take(j).contains(order[i]));
    let h = choose|h: int| 0 <= h < order.take(j).len() && order.take(j)[h] == order[i];
    assert(order[h] == order[i]);
    assert(h == i);
    assert(order.skip(i + 1)[j - i - 1] == s);
}

} // verus!
