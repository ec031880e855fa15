//! Planning and carrying out the actions that bring GitHub and the local repo in line.
use std::collections::{BTreeMap, BTreeSet};
use vstd::prelude::*;

use crate::claims::{find_pr, has_local};
use crate::gh::{GhPr, PrNum, PrState};
use crate::jj::{parse_pr_trailer, JjLogEntry};
use crate::node_graph::{any_in, node_ref};
use crate::node_store::NodeKey;
use crate::pr_dag::{Node, NodeView, RepoState, RepoView};
use crate::sets::TextSet;
use crate::text::{char_prefix, copy_names, join, same_text};
use crate::types::{Bookmark, ChangeId};

verus! {

broadcast use crate::text::lemma_views_len;

/// An action that sync takes.
#[derive(Debug)]
pub enum SyncAction {
    /// Stamp a missing `PR: #N` trailer on a commit.
    StampTrailer { change_id: ChangeId, pr: PrNum },
    /// Abandon commits of a merged PR and delete its bookmark if present.
    /// First rebases the merged commits onto trunk so that abandoning them
    /// reparents children to trunk while preserving other parent edges.
    AbandonMerged {
        /// Change IDs of all commits in this PR (stable across rewrites).
        change_ids: Vec<ChangeId>,
        pr: PrNum,
        bookmark: Bookmark,
        bookmark_exists: bool,
    },
    /// Push bookmarks that differ from remote.
    Push { bookmarks: Vec<(PrNum, Bookmark)> },
    /// Update a PR's base branch on GitHub.
    UpdateBase { pr: PrNum, bookmark: Bookmark, new_base: Bookmark },
}

/// What an action says.
#[verifier::ext_equal]
pub enum ActionView {
    StampTrailer { change_id: Seq<char>, pr: u64 },
    AbandonMerged {
        change_ids: Seq<Seq<char>>,
        pr: u64,
        bookmark: Seq<char>,
        bookmark_exists: bool,
    },
    Push { bookmarks: Seq<(u64, Seq<char>)> },
    UpdateBase { pr: u64, bookmark: Seq<char>, new_base: Seq<char> },
}

/// The PRs and bookmarks of a list.
pub open spec fn push_views(list: Seq<(PrNum, Bookmark)>) -> Seq<(u64, Seq<char>)> {
    Seq::new(list.len(), |i: int| (list[i].0@, list[i].1@))
}

impl View for SyncAction {
    type V = ActionView;

    open spec fn view(&self) -> ActionView {
        match self {
            SyncAction::StampTrailer { change_id, pr } => ActionView::StampTrailer {
                change_id: change_id@,
                pr: pr@,
            },
            SyncAction::AbandonMerged { change_ids, pr, bookmark, bookmark_exists } => {
                ActionView::AbandonMerged {
                    change_ids: crate::types::change_views(change_ids@),
                    pr: pr@,
                    bookmark: bookmark@,
                    bookmark_exists: *bookmark_exists,
                }
            },
            SyncAction::Push { bookmarks } => ActionView::Push { bookmarks: push_views(bookmarks@) },
            SyncAction::UpdateBase { pr, bookmark, new_base } => ActionView::UpdateBase {
                pr: pr@,
                bookmark: bookmark@,
                new_base: new_base@,
            },
        }
    }
}

/// What a list of actions says.
pub open spec fn action_views(actions: Seq<SyncAction>) -> Seq<ActionView> {
    Seq::new(actions.len(), |i: int| actions[i]@)
}

/// The result of planning a sync: actions to execute and warnings to display.
#[derive(Debug)]
pub struct SyncPlan {
    pub actions: Vec<SyncAction>,
    pub warnings: Vec<String>,
}

/// Bookmarks in conflict, which the user must resolve before syncing.
#[derive(Debug)]
pub struct SyncBlocked {
    pub names: Vec<String>,
}

// --- The texts ---

/// A PR and its bookmark.
pub open spec fn pr_and_bookmark(pr: u64, bookmark: Seq<char>) -> Seq<char> {
    crate::gh::pr_text(pr) + " ("@ + bookmark + ")"@
}

/// The texts of PRs and bookmarks.
pub open spec fn push_texts(list: Seq<(u64, Seq<char>)>) -> Seq<Seq<char>> {
    Seq::new(list.len(), |i: int| pr_and_bookmark(list[i].0, list[i].1))
}

/// An action as it is displayed.
pub open spec fn action_text(action: ActionView) -> Seq<char> {
    match action {
        ActionView::StampTrailer { change_id, pr } => "stamp "@ + crate::gh::pr_text(pr)
            + " trailer on "@ + crate::text::char_prefix_text(change_id, 12),
        ActionView::AbandonMerged { change_ids, pr, bookmark, bookmark_exists } => {
            if bookmark_exists {
                "abandon merged "@ + crate::gh::pr_text(pr) + " (delete "@ + bookmark + ")"@
            } else {
                "abandon merged "@ + crate::gh::pr_text(pr) + " ("@ + bookmark
                    + " already deleted)"@
            }
        },
        ActionView::Push { bookmarks } => "push: "@ + crate::text::joined(
            push_texts(bookmarks),
            ", "@,
        ),
        ActionView::UpdateBase { pr, bookmark, new_base } => "update "@ + pr_and_bookmark(
            pr,
            bookmark,
        ) + " base -> "@ + new_base,
    }
}

fn display_pr(pr: PrNum, bookmark: &Bookmark) -> (r: String)
    ensures
        r@ == pr_and_bookmark(pr@, bookmark@),
{
    let mut s = pr.display();
    s.append(" (");
    s.append(bookmark.as_str());
    s.append(")");
    s
}

impl SyncAction {
    /// The action as it is displayed.
    pub fn display(&self) -> (r: String)
        ensures
            r@ == action_text(self@),
    {
        match self {
            SyncAction::StampTrailer { change_id, pr } => {
                let mut s = "stamp ".to_owned();
                s.append(pr.display().as_str());
                s.append(" trailer on ");
                s.append(char_prefix(change_id.as_str(), 12).as_str());
                s
            },
            SyncAction::AbandonMerged { change_ids: _, pr, bookmark, bookmark_exists } => {
                let mut s = "abandon merged ".to_owned();
                s.append(pr.display().as_str());
                if *bookmark_exists {
                    s.append(" (delete ");
                    s.append(bookmark.as_str());
                    s.append(")");
                } else {
                    s.append(" (");
                    s.append(bookmark.as_str());
                    s.append(" already deleted)");
                }
                s
            },
            SyncAction::Push { bookmarks } => {
                let mut details: Vec<String> = Vec::new();
                let ghost want = push_texts(push_views(bookmarks@));
                let mut i: usize = 0;
                assert(crate::text::views(details@) == want.take(0));
                while i < bookmarks.len()
                    invariant
                        i <= bookmarks.len(),
                        want == push_texts(push_views(bookmarks@)),
                        crate::text::views(details@) == want.take(i as int),
                    decreases bookmarks.len() - i,
                {
                    let text = display_pr(bookmarks[i].0, &bookmarks[i].1);
                    let ghost view = text@;
                    let ghost before = details@;
                    details.push(text);
                    assert(crate::text::views(details@) == crate::text::views(before).push(view));
                    assert(want.take(i + 1) == want.take(i as int).push(want[i as int]));
                    i = i + 1;
                }
                assert(want.take(i as int) == want);
                let mut s = "push: ".to_owned();
                s.append(join(&details, ", ").as_str());
                s
            },
            SyncAction::UpdateBase { pr, bookmark, new_base } => {
                let mut s = "update ".to_owned();
                s.append(display_pr(*pr, bookmark).as_str());
                s.append(" base -> ");
                s.append(new_base.as_str());
                s
            },
        }
    }
}

impl SyncBlocked {
    /// The error as it is displayed.
    pub fn message(&self) -> (r: String)
        ensures
            r@ == "Conflicted bookmark(s): "@ + crate::text::joined(
                crate::text::views(self.names@),
                ", "@,
            ) + ". Resolve with `jj bookmark` before syncing."@,
    {
        let mut s = "Conflicted bookmark(s): ".to_owned();
        s.append(join(&self.names, ", ").as_str());
        s.append(". Resolve with `jj bookmark` before syncing.");
        s
    }
}

// --- Stamping trailers ---

/// The PR of a commit, where its node is a PR.
pub open spec fn commit_pr(v: RepoView, commit: Seq<char>) -> Option<u64> {
    if v.owner.contains_key(commit) {
        match crate::node_graph::node_at(v.nodes, v.owner[commit]) {
            NodeView::Pr(n) => Some(n),
            _ => None,
        }
    } else {
        None
    }
}

/// The trailers to stamp: on each commit of a PR whose trailer does not name it.
pub open spec fn stamps(v: RepoView, entries: Seq<JjLogEntry>) -> Seq<ActionView>
    decreases entries.len(),
{
    if entries.len() == 0 {
        Seq::empty()
    } else {
        let before = stamps(v, entries.drop_last());
        let e = entries.last();
        match commit_pr(v, e.commit.commit_id@) {
            Some(n) => if crate::jj::pr_trailer(e.commit.description@) == Some(n) {
                before
            } else {
                before.push(
                    ActionView::StampTrailer { change_id: e.commit.change_id@, pr: n },
                )
            },
            None => before,
        }
    }
}

/// The PR of a commit, where its node is a PR.
pub fn pr_of_commit(state: &RepoState, commit: &crate::types::CommitId) -> (r: Option<PrNum>)
    requires
        state.wf(),
    ensures
        crate::jj::opt_pr(r) == commit_pr(state@, commit@),
{
    match state.commit_node.get(commit.as_str()) {
        Some(k) => {
            assert(state@.owner.contains_key(commit@));
            match node_ref(&state.nodes, k) {
                Node::Pr(n) => Some(*n),
                _ => None,
            }
        },
        None => None,
    }
}

proof fn lemma_push_action(actions: Seq<SyncAction>, a: SyncAction)
    ensures
        action_views(actions.push(a)) == action_views(actions).push(a@),
{
    assert(action_views(actions.push(a)) =~= action_views(actions).push(a@));
}

fn add_stamps(state: &RepoState, jj_entries: &Vec<JjLogEntry>, actions: &mut Vec<SyncAction>)
    requires
        state.wf(),
    ensures
        action_views(final(actions)@) == action_views(old(actions)@) + stamps(
            state@,
            jj_entries@,
        ),
{
    let ghost start = action_views(actions@);
    let mut i: usize = 0;
    assert(start + stamps(state@, jj_entries@.take(0)) == start);
    while i < jj_entries.len()
        invariant
            i <= jj_entries.len(),
            state.wf(),
            action_views(actions@) == start + stamps(state@, jj_entries@.take(i as int)),
        decreases jj_entries.len() - i,
    {
        let e = &jj_entries[i];
        assert(jj_entries@.take(i + 1).drop_last() == jj_entries@.take(i as int));
        let ghost done = stamps(state@, jj_entries@.take(i as int));
        if let Some(pr) = pr_of_commit(state, &e.commit.commit_id) {
            let same = match parse_pr_trailer(e.commit.description.as_str()) {
                Some(n) => n.get() == pr.get(),
                None => false,
            };
            if !same {
                let action = SyncAction::StampTrailer {
                    change_id: e.commit.change_id.clone(),
                    pr,
                };
                proof {
                    lemma_push_action(actions@, action);
                    assert((start + done).push(action@) == start + done.push(action@));
                }
                actions.push(action);
            }
        }
        i = i + 1;
    }
    assert(jj_entries@.take(i as int) == jj_entries@);
}

// --- Abandoning merged PRs ---

/// Whether a PR's merge commit is known and not in the local repo.
pub open spec fn is_stale(pr: GhPr, existing: Option<Set<Seq<char>>>) -> bool {
    existing is Some && pr.merge_commit_oid is Some && !existing->0.contains(
        pr.merge_commit_oid->0@,
    )
}

/// The change IDs of the commits of a node, tip first.
pub open spec fn node_changes(
    v: RepoView,
    entries: Seq<JjLogEntry>,
    k: NodeKey,
) -> Seq<Seq<char>>
    decreases entries.len(),
{
    if entries.len() == 0 {
        Seq::empty()
    } else {
        let before = node_changes(v, entries.drop_last(), k);
        let c = entries.last().commit;
        if v.owner.contains_key(c.commit_id@) && v.owner[c.commit_id@] == k {
            before.push(c.change_id@)
        } else {
            before
        }
    }
}

/// Whether an entry has a local bookmark of that name.
pub open spec fn bookmark_exists(entries: Seq<JjLogEntry>, name: Seq<char>) -> bool {
    exists|i: int|
        0 <= i < entries.len() && crate::claims::has_local_bookmark(#[trigger] entries[i], name)
}

/// The merged PRs to abandon, among the given nodes.
pub open spec fn abandons(
    v: RepoView,
    prs: Map<u64, &GhPr>,
    entries: Seq<JjLogEntry>,
    existing: Option<Set<Seq<char>>>,
    keys: Seq<NodeKey>,
) -> Seq<ActionView>
    decreases keys.len(),
{
    if keys.len() == 0 {
        Seq::empty()
    } else {
        let before = abandons(v, prs, entries, existing, keys.drop_last());
        let k = keys.last();
        let n = crate::node_graph::node_at(v.nodes, k)->Pr_0;
        if crate::node_graph::node_in_state(v.nodes, prs, k, PrState::Merged) && !is_stale(
            *prs[n],
            existing,
        ) && node_changes(v, entries, k).len() > 0 {
            before.push(
                ActionView::AbandonMerged {
                    change_ids: node_changes(v, entries, k),
                    pr: n,
                    bookmark: prs[n].head_ref_name@,
                    bookmark_exists: bookmark_exists(entries, prs[n].head_ref_name@),
                },
            )
        } else {
            before
        }
    }
}

/// The warning about a merged PR whose merge commit was not fetched.
pub open spec fn stale_text(n: u64, name: Seq<char>) -> Seq<char> {
    "skip merged "@ + pr_and_bookmark(n, name) + " — trunk stale, run `jj git fetch`"@
}

/// The warnings about merged PRs, among the given nodes, whose merge commits were not fetched.
pub open spec fn stale_warnings(
    v: RepoView,
    prs: Map<u64, &GhPr>,
    existing: Option<Set<Seq<char>>>,
    keys: Seq<NodeKey>,
) -> Seq<Seq<char>>
    decreases keys.len(),
{
    if keys.len() == 0 {
        Seq::empty()
    } else {
        let before = stale_warnings(v, prs, existing, keys.drop_last());
        let k = keys.last();
        let n = crate::node_graph::node_at(v.nodes, k)->Pr_0;
        if crate::node_graph::node_in_state(v.nodes, prs, k, PrState::Merged) && is_stale(
            *prs[n],
            existing,
        ) {
            before.push(stale_text(n, prs[n].head_ref_name@))
        } else {
            before
        }
    }
}

fn changes_of(state: &RepoState, jj_entries: &Vec<JjLogEntry>, k: NodeKey) -> (r: Vec<ChangeId>)
    requires
        state.wf(),
    ensures
        crate::types::change_views(r@) == node_changes(state@, jj_entries@, k),
{
    let mut out: Vec<ChangeId> = Vec::new();
    let mut i: usize = 0;
    assert(crate::types::change_views(out@) == Seq::<Seq<char>>::empty());
    while i < jj_entries.len()
        invariant
            i <= jj_entries.len(),
            state.wf(),
            crate::types::change_views(out@) == node_changes(
                state@,
                jj_entries@.take(i as int),
                k,
            ),
        decreases jj_entries.len() - i,
    {
        assert(jj_entries@.take(i + 1).drop_last() == jj_entries@.take(i as int));
        let c = &jj_entries[i].commit;
        if let Some(key) = state.commit_node.get(c.commit_id.as_str()) {
            if key == k {
                let id = c.change_id.clone();
                let ghost view = id@;
                let ghost before = out@;
                out.push(id);
                assert(crate::types::change_views(out@) == crate::types::change_views(before).push(
                    view,
                ));
            }
        }
        i = i + 1;
    }
    assert(jj_entries@.take(i as int) == jj_entries@);
    out
}

fn exists_locally(jj_entries: &Vec<JjLogEntry>, name: &Bookmark) -> (r: bool)
    ensures
        r == bookmark_exists(jj_entries@, name@),
{
    let mut i: usize = 0;
    while i < jj_entries.len()
        invariant
            i <= jj_entries.len(),
            forall|j: int|
                0 <= j < i ==> !crate::claims::has_local_bookmark(
                    #[trigger] jj_entries@[j],
                    name@,
                ),
        decreases jj_entries.len() - i,
    {
        if has_local(&jj_entries[i], name) {
            assert(crate::claims::has_local_bookmark(jj_entries@[i as int], name@));
            return true;
        }
        i = i + 1;
    }
    false
}

fn stale(pr: &GhPr, existing: Option<&TextSet>) -> (r: bool)
    requires
        crate::claims::tracked_wf(existing),
    ensures
        r == is_stale(*pr, crate::claims::tracked_names(existing)),
{
    match existing {
        Some(set) => match &pr.merge_commit_oid {
            Some(oid) => !set.contains(oid.as_str()),
            None => false,
        },
        None => false,
    }
}

proof fn lemma_push_view(list: Seq<String>, s: String)
    ensures
        crate::text::views(list.push(s)) == crate::text::views(list).push(s@),
{
    assert(crate::text::views(list.push(s)) =~= crate::text::views(list).push(s@));
}

fn add_abandons(
    state: &RepoState,
    prs: &BTreeMap<u64, &GhPr>,
    jj_entries: &Vec<JjLogEntry>,
    existing: Option<&TextSet>,
    actions: &mut Vec<SyncAction>,
    warnings: &mut Vec<String>,
)
    requires
        state.wf(),
        crate::claims::tracked_wf(existing),
    ensures
        action_views(final(actions)@) == action_views(old(actions)@) + abandons(
            state@,
            prs@,
            jj_entries@,
            crate::claims::tracked_names(existing),
            state@.order,
        ),
        crate::text::views(final(warnings)@) == crate::text::views(old(warnings)@)
            + stale_warnings(
            state@,
            prs@,
            crate::claims::tracked_names(existing),
            state@.order,
        ),
{
    let ghost names = crate::claims::tracked_names(existing);
    let ghost start = action_views(actions@);
    let ghost said = crate::text::views(warnings@);
    let ghost order = state@.order;
    let mut i: usize = 0;
    assert(start + abandons(state@, prs@, jj_entries@, names, order.take(0)) == start);
    assert(said + stale_warnings(state@, prs@, names, order.take(0)) == said);
    while i < state.topo_order.len()
        invariant
            i <= state.topo_order.len(),
            state.wf(),
            crate::claims::tracked_wf(existing),
            names == crate::claims::tracked_names(existing),
            order == state@.order,
            order == state.topo_order@,
            action_views(actions@) == start + abandons(
                state@,
                prs@,
                jj_entries@,
                names,
                order.take(i as int),
            ),
            crate::text::views(warnings@) == said + stale_warnings(
                state@,
                prs@,
                names,
                order.take(i as int),
            ),
        decreases state.topo_order.len() - i,
    {
        let k = state.topo_order[i];
        assert(order.contains(k));
        assert(order.take(i + 1).drop_last() == order.take(i as int));
        let ghost done = abandons(state@, prs@, jj_entries@, names, order.take(i as int));
        let ghost warned = stale_warnings(state@, prs@, names, order.take(i as int));
        i = i + 1;
        let n = match node_ref(&state.nodes, k) {
            Node::Pr(n) => *n,
            _ => {
                continue ;
            },
        };
        let pr = match find_pr(prs, n.get()) {
            Some(pr) => pr,
            None => {
                continue ;
            },
        };
        if pr.state != PrState::Merged {
            continue ;
        }
        // Skip if the merge commit isn't in the local repo (trunk is stale, needs fetch).
        if stale(pr, existing) {
            let mut text = "skip merged ".to_owned();
            text.append(display_pr(n, &pr.head_ref_name).as_str());
            text.append(" — trunk stale, run `jj git fetch`");
            proof {
                lemma_push_view(warnings@, text);
                assert((said + warned).push(text@) == said + warned.push(text@));
            }
            warnings.push(text);
            continue ;
        }
        let change_ids = changes_of(state, jj_entries, k);
        assert(crate::types::change_views(change_ids@).len() == change_ids@.len());
        if change_ids.len() == 0 {
            continue ;
        }
        let action = SyncAction::AbandonMerged {
            change_ids,
            pr: n,
            bookmark: pr.head_ref_name.clone(),
            bookmark_exists: exists_locally(jj_entries, &pr.head_ref_name),
        };
        proof {
            lemma_push_action(actions@, action);
            assert((start + done).push(action@) == start + done.push(action@));
        }
        actions.push(action);
    }
    assert(order.take(i as int) == order);
}

// --- Pushing ---

/// Whether a node or one of its ancestors has content conflicts.
pub open spec fn conflict_above(v: RepoView, k: NodeKey) -> bool {
    crate::graph_algorithms::reaches_any(crate::pr_dag::map_graph(v.preds), k, v.conflicted)
}

/// Whether a node is a PR with pending sync actions.
pub open spec fn is_target(v: RepoView, prs: Map<u64, &GhPr>, k: NodeKey) -> bool {
    v.needs_sync.contains_key(k) && crate::node_graph::node_at(v.nodes, k) is Pr
        && prs.contains_key(crate::node_graph::node_at(v.nodes, k)->Pr_0)
}

/// The bookmarks to push, among the given nodes: those of PRs with pending sync actions that
/// have no content conflicts, nor an ancestor with any.
pub open spec fn pushes(
    v: RepoView,
    prs: Map<u64, &GhPr>,
    keys: Seq<NodeKey>,
) -> Seq<(u64, Seq<char>)>
    decreases keys.len(),
{
    if keys.len() == 0 {
        Seq::empty()
    } else {
        let before = pushes(v, prs, keys.drop_last());
        let k = keys.last();
        let n = crate::node_graph::node_at(v.nodes, k)->Pr_0;
        if is_target(v, prs, k) && !conflict_above(v, k) {
            before.push((n, prs[n].head_ref_name@))
        } else {
            before
        }
    }
}

/// The warning about a PR that is not pushed because of content conflicts.
pub open spec fn conflict_text(n: u64, name: Seq<char>, own: bool) -> Seq<char> {
    "skip push "@ + pr_and_bookmark(n, name) + if own {
        " — has content conflicts"@
    } else {
        " — ancestor has content conflicts"@
    }
}

/// The warnings about PRs, among the given nodes, that are not pushed.
pub open spec fn conflict_warnings(
    v: RepoView,
    prs: Map<u64, &GhPr>,
    keys: Seq<NodeKey>,
) -> Seq<Seq<char>>
    decreases keys.len(),
{
    if keys.len() == 0 {
        Seq::empty()
    } else {
        let before = conflict_warnings(v, prs, keys.drop_last());
        let k = keys.last();
        let n = crate::node_graph::node_at(v.nodes, k)->Pr_0;
        if is_target(v, prs, k) && conflict_above(v, k) {
            before.push(conflict_text(n, prs[n].head_ref_name@, v.conflicted.contains(k)))
        } else {
            before
        }
    }
}

/// The push action, if there is anything to push.
pub open spec fn push_action(list: Seq<(u64, Seq<char>)>) -> Seq<ActionView> {
    if list.len() == 0 {
        Seq::empty()
    } else {
        seq![ActionView::Push { bookmarks: list }]
    }
}

fn add_pushes(
    state: &RepoState,
    prs: &BTreeMap<u64, &GhPr>,
    warnings: &mut Vec<String>,
) -> (r: Vec<(PrNum, Bookmark)>)
    requires
        state.wf(),
    ensures
        push_views(r@) == pushes(state@, prs@, state@.order),
        crate::text::views(final(warnings)@) == crate::text::views(old(warnings)@)
            + conflict_warnings(state@, prs@, state@.order),
{
    let ghost said = crate::text::views(warnings@);
    let ghost order = state@.order;
    let ghost g = crate::pr_dag::map_graph(state@.preds);
    let mut out: Vec<(PrNum, Bookmark)> = Vec::new();
    let mut blocked: BTreeSet<NodeKey> = BTreeSet::new();
    let mut i: usize = 0;
    assert(push_views(out@) == Seq::<(u64, Seq<char>)>::empty());
    assert(said + conflict_warnings(state@, prs@, order.take(0)) == said);
    while i < state.topo_order.len()
        invariant
            i <= state.topo_order.len(),
            state.wf(),
            order == state@.order,
            order == state.topo_order@,
            g == crate::pr_dag::map_graph(state@.preds),
            forall|k: NodeKey| #[trigger]
                blocked@.contains(k) <==> order.take(i as int).contains(k) && conflict_above(
                    state@,
                    k,
                ),
            push_views(out@) == pushes(state@, prs@, order.take(i as int)),
            crate::text::views(warnings@) == said + conflict_warnings(
                state@,
                prs@,
                order.take(i as int),
            ),
        decreases state.topo_order.len() - i,
    {
        let k = state.topo_order[i];
        assert(order.contains(k));
        assert(state@.preds.contains_key(k));
        assert(order.take(i + 1).drop_last() == order.take(i as int));
        let ghost done = pushes(state@, prs@, order.take(i as int));
        let ghost warned = conflict_warnings(state@, prs@, order.take(i as int));
        let preds = state.node_preds.get(k).unwrap();
        proof {
            crate::graph_algorithms::lemma_reaches_any(g, k, state@.conflicted);
            assert forall|p: NodeKey| #[trigger] preds@.contains(p) implies order.take(
                i as int,
            ).contains(p) by {
                assert(g(order[i as int]).contains(p));
            }
        }
        let conflicted_self = state.node_conflicted.contains(k);
        let conflicted_pred = any_in(preds, &blocked);
        proof {
            assert(g(k) == preds@);
            if conflict_above(state@, k) && !conflicted_self {
                let p = choose|p: NodeKey| #[trigger]
                    g(k).contains(p) && crate::graph_algorithms::reaches_any(
                        g,
                        p,
                        state@.conflicted,
                    );
                assert(preds@.contains(p));
                assert(blocked@.contains(p));
            }
            if conflicted_pred {
                let p = choose|p: NodeKey| #[trigger] preds@.contains(p) && blocked@.contains(p);
                assert(g(k).contains(p));
                assert(conflict_above(state@, p));
            }
            assert((conflicted_self || conflicted_pred) == conflict_above(state@, k));
        }
        let ghost old_blocked = blocked@;
        // Propagate blocked status from self & predecessors.
        if conflicted_self || conflicted_pred {
            blocked.insert(k);
        }
        proof {
            let next = order.take(i + 1);
            assert(next == order.take(i as int).push(k));
            crate::sets::lemma_push_to_set(order.take(i as int), k);
            assert forall|x: NodeKey| #[trigger] blocked@.contains(x) <==> next.contains(x)
                && conflict_above(state@, x) by {
                assert(next.to_set().contains(x) <==> order.take(i as int).to_set().insert(
                    k,
                ).contains(x));
                assert(old_blocked.contains(x) <==> order.take(i as int).contains(x)
                    && conflict_above(state@, x));
            }
        }
        i = i + 1;
        if state.node_needs_sync.get(k).is_none() {
            continue ;
        }
        let n = match node_ref(&state.nodes, k) {
            Node::Pr(n) => *n,
            _ => {
                continue ;
            },
        };
        let pr = match find_pr(prs, n.get()) {
            Some(pr) => pr,
            None => {
                continue ;
            },
        };
        if conflicted_self || conflicted_pred {
            let mut text = "skip push ".to_owned();
            text.append(display_pr(n, &pr.head_ref_name).as_str());
            if conflicted_self {
                text.append(" — has content conflicts");
            } else {
                text.append(" — ancestor has content conflicts");
            }
            proof {
                lemma_push_view(warnings@, text);
                assert((said + warned).push(text@) == said + warned.push(text@));
            }
            warnings.push(text);
            continue ;
        }
        let item = (n, pr.head_ref_name.clone());
        let ghost before = out@;
        out.push(item);
        assert(push_views(out@) == push_views(before).push((item.0@, item.1@)));
    }
    assert(order.take(i as int) == order);
    out
}

// --- Updating base branches ---

/// The base branches to update, among the given nodes: those of open PRs with pending sync
/// actions whose base on GitHub is not the expected one.
pub open spec fn updates(
    v: RepoView,
    prs: Map<u64, &GhPr>,
    default_branch: Seq<char>,
    keys: Seq<NodeKey>,
) -> Seq<ActionView>
    decreases keys.len(),
{
    if keys.len() == 0 {
        Seq::empty()
    } else {
        let before = updates(v, prs, default_branch, keys.drop_last());
        let k = keys.last();
        let n = crate::node_graph::node_at(v.nodes, k)->Pr_0;
        let base = crate::pr_dag::state_base(v, prs, default_branch, k);
        if is_target(v, prs, k) && prs[n].state is Open && prs[n].base_ref_name@ != base {
            before.push(
                ActionView::UpdateBase {
                    pr: n,
                    bookmark: prs[n].head_ref_name@,
                    new_base: base,
                },
            )
        } else {
            before
        }
    }
}

fn add_updates(
    state: &RepoState,
    prs: &BTreeMap<u64, &GhPr>,
    default_branch: &Bookmark,
    actions: &mut Vec<SyncAction>,
)
    requires
        state.wf(),
    ensures
        action_views(final(actions)@) == action_views(old(actions)@) + updates(
            state@,
            prs@,
            default_branch@,
            state@.order,
        ),
{
    let ghost start = action_views(actions@);
    let ghost order = state@.order;
    let mut i: usize = 0;
    assert(start + updates(state@, prs@, default_branch@, order.take(0)) == start);
    while i < state.topo_order.len()
        invariant
            i <= state.topo_order.len(),
            state.wf(),
            order == state@.order,
            order == state.topo_order@,
            action_views(actions@) == start + updates(
                state@,
                prs@,
                default_branch@,
                order.take(i as int),
            ),
        decreases state.topo_order.len() - i,
    {
        let k = state.topo_order[i];
        assert(order.contains(k));
        assert(order.take(i + 1).drop_last() == order.take(i as int));
        let ghost done = updates(state@, prs@, default_branch@, order.take(i as int));
        i = i + 1;
        if state.node_needs_sync.get(k).is_none() {
            continue ;
        }
        let n = match node_ref(&state.nodes, k) {
            Node::Pr(n) => *n,
            _ => {
                continue ;
            },
        };
        let pr = match find_pr(prs, n.get()) {
            Some(pr) => pr,
            None => {
                continue ;
            },
        };
        if pr.state != PrState::Open {
            continue ;
        }
        let expected = state.expected_base(k, prs, default_branch);
        if same_text(pr.base_ref_name.as_str(), expected.as_str()) {
            continue ;
        }
        let action = SyncAction::UpdateBase {
            pr: n,
            bookmark: pr.head_ref_name.clone(),
            new_base: expected,
        };
        proof {
            lemma_push_action(actions@, action);
            assert((start + done).push(action@) == start + done.push(action@));
        }
        actions.push(action);
    }
    assert(order.take(i as int) == order);
}

// --- The plan ---

/// The actions of a sync, in the order in which they are taken.
pub open spec fn planned_actions(
    v: RepoView,
    prs: Map<u64, &GhPr>,
    entries: Seq<JjLogEntry>,
    default_branch: Seq<char>,
    existing: Option<Set<Seq<char>>>,
) -> Seq<ActionView> {
    stamps(v, entries) + abandons(v, prs, entries, existing, v.order) + push_action(
        pushes(v, prs, v.order),
    ) + updates(v, prs, default_branch, v.order)
}

/// The warnings of a sync.
pub open spec fn planned_warnings(
    v: RepoView,
    prs: Map<u64, &GhPr>,
    existing: Option<Set<Seq<char>>>,
) -> Seq<Seq<char>> {
    stale_warnings(v, prs, existing, v.order) + conflict_warnings(v, prs, v.order)
}

/// Plan sync actions. Returns Err if blocking issues exist.
///
/// `existing_merge_commits` has the merge commit OIDs that exist in the local repo (for stale
/// trunk detection). `None` means that all merge commits are considered present.
pub fn plan_sync(
    state: &RepoState,
    prs: &BTreeMap<u64, &GhPr>,
    jj_entries: &Vec<JjLogEntry>,
    default_branch: &Bookmark,
    existing_merge_commits: Option<&TextSet>,
) -> (r: Result<SyncPlan, SyncBlocked>)
    requires
        state.wf(),
        crate::pr_dag::repo_known(state@, prs@),
        crate::claims::tracked_wf(existing_merge_commits),
    ensures
        r is Err <==> state@.blocking != Set::<Seq<char>>::empty(),
        r is Err ==> crate::text::views(r->Err_0.names@) == crate::order::name_listing(
            state@.blocking,
        ),
        r is Ok ==> action_views(r->Ok_0.actions@) == planned_actions(
            state@,
            prs@,
            jj_entries@,
            default_branch@,
            crate::claims::tracked_names(existing_merge_commits),
        ),
        r is Ok ==> crate::text::views(r->Ok_0.warnings@) == planned_warnings(
            state@,
            prs@,
            crate::claims::tracked_names(existing_merge_commits),
        ),
{
    // Block on unresolvable conflicted bookmarks.
    if !state.bookmarks_blocking.is_empty() {
        let names = copy_names(state.bookmarks_blocking.names());
        return Err(SyncBlocked { names });
    }
    let mut actions: Vec<SyncAction> = Vec::new();
    let mut warnings: Vec<String> = Vec::new();
    proof {
        assert(action_views(actions@) == Seq::<ActionView>::empty());
        assert(crate::text::views(warnings@) == Seq::<Seq<char>>::empty());
    }
    // 1. Stamp missing trailers.
    add_stamps(state, jj_entries, &mut actions);
    assert(action_views(actions@) == stamps(state@, jj_entries@));
    // 2. Abandon merged PRs (rebase onto trunk first to preserve sibling parent edges).
    add_abandons(state, prs, jj_entries, existing_merge_commits, &mut actions, &mut warnings);
    assert(crate::text::views(warnings@) == stale_warnings(
        state@,
        prs@,
        crate::claims::tracked_names(existing_merge_commits),
        state@.order,
    ));
    // 3. Push: collect all PR bookmarks that need pushing, but for nodes that are conflicted or
    // have a conflicted ancestor (can't push children of a conflicted intermediate).
    let bookmarks = add_pushes(state, prs, &mut warnings);
    assert(push_views(bookmarks@).len() == bookmarks@.len());
    let ghost sofar = action_views(actions@);
    if bookmarks.len() > 0 {
        let action = SyncAction::Push { bookmarks };
        proof {
            lemma_push_action(actions@, action);
        }
        actions.push(action);
    }
    assert(action_views(actions@) == sofar + push_action(pushes(state@, prs@, state@.order)));
    // 4. Update GitHub base branches (open PRs only, can't change base of closed PRs).
    add_updates(state, prs, default_branch, &mut actions);
    Ok(SyncPlan { actions, warnings })
}

// --- Carrying the plan out ---

/// A step of an action, for the caller to take.
pub enum SyncStep {
    /// Tell the user.
    Say(String),
    /// Read the description of the revision, set its PR trailer and write it back.
    Stamp { revision: String, pr: PrNum },
    /// Delete a local bookmark.
    DeleteBookmark(Bookmark),
    /// Rebase the revisions of one revset onto another.
    Rebase { sources: String, dest: String },
    /// Abandon the revisions of a revset.
    Abandon(String),
    /// Push bookmarks in a single command.
    Push(Vec<Bookmark>),
    /// Change the base branch of a PR on GitHub.
    EditBase { pr: PrNum, base: Bookmark },
}

/// What a step says.
#[verifier::ext_equal]
pub enum StepView {
    Say(Seq<char>),
    Stamp { revision: Seq<char>, pr: u64 },
    DeleteBookmark(Seq<char>),
    Rebase { sources: Seq<char>, dest: Seq<char> },
    Abandon(Seq<char>),
    Push(Seq<Seq<char>>),
    EditBase { pr: u64, base: Seq<char> },
}

impl View for SyncStep {
    type V = StepView;

    open spec fn view(&self) -> StepView {
        match self {
            SyncStep::Say(s) => StepView::Say(s@),
            SyncStep::Stamp { revision, pr } => StepView::Stamp { revision: revision@, pr: pr@ },
            SyncStep::DeleteBookmark(b) => StepView::DeleteBookmark(b@),
            SyncStep::Rebase { sources, dest } => StepView::Rebase {
                sources: sources@,
                dest: dest@,
            },
            SyncStep::Abandon(s) => StepView::Abandon(s@),
            SyncStep::Push(v) => StepView::Push(crate::types::bookmark_views(v@)),
            SyncStep::EditBase { pr, base } => StepView::EditBase { pr: pr@, base: base@ },
        }
    }
}

/// What a list of steps says.
pub open spec fn step_views(steps: Seq<SyncStep>) -> Seq<StepView> {
    Seq::new(steps.len(), |i: int| steps[i]@)
}

/// The revset of some changes.
pub open spec fn changes_revset(change_ids: Seq<Seq<char>>) -> Seq<char> {
    crate::text::joined(
        Seq::new(change_ids.len(), |i: int| "change_id("@ + change_ids[i] + ")"@),
        " | "@,
    )
}

/// Bookmark names in their style.
pub open spec fn styled_names(list: Seq<(u64, Seq<char>)>, color: bool) -> Seq<Seq<char>> {
    Seq::new(list.len(), |i: int| crate::style::bookmark_text(list[i].1, color))
}

/// The names of PR bookmarks.
pub open spec fn names_of(list: Seq<(u64, Seq<char>)>) -> Seq<Seq<char>> {
    Seq::new(list.len(), |i: int| list[i].1)
}

/// The steps of an action.
pub open spec fn action_steps(action: ActionView, color: bool) -> Seq<StepView> {
    match action {
        ActionView::StampTrailer { change_id, pr } => seq![
            StepView::Say(
                "Stamping "@ + crate::style::pr_num_text(pr, None, color) + " on "@
                    + crate::style::change_id_text(change_id, color),
            ),
            StepView::Stamp { revision: "change_id("@ + change_id + ")"@, pr },
        ],
        ActionView::AbandonMerged { change_ids, pr, bookmark, bookmark_exists } => {
            let label = "Abandoning merged "@ + crate::style::pr_num_text(pr, None, color);
            let name = crate::style::bookmark_text(bookmark, color);
            let revset = changes_revset(change_ids);
            let moved = seq![
                StepView::Rebase { sources: "roots("@ + revset + ")"@, dest: "trunk()"@ },
                StepView::Abandon(revset),
            ];
            if bookmark_exists {
                seq![
                    StepView::Say(label + " (delete "@ + name + ")"@),
                    StepView::DeleteBookmark(bookmark),
                ] + moved
            } else {
                seq![StepView::Say(label + " ("@ + name + " already deleted)"@)] + moved
            }
        },
        ActionView::Push { bookmarks } => seq![
            StepView::Say(
                "Pushing "@ + crate::text::decimal(bookmarks.len()) + " bookmark(s): "@
                    + crate::text::joined(styled_names(bookmarks, color), ", "@),
            ),
            StepView::Push(names_of(bookmarks)),
        ],
        ActionView::UpdateBase { pr, bookmark, new_base } => seq![
            StepView::Say(
                "Updating "@ + crate::style::pr_num_text(pr, None, color) + " ("@
                    + crate::style::bookmark_text(bookmark, color) + ") base -> "@
                    + crate::style::bookmark_text(new_base, color),
            ),
            StepView::EditBase { pr, base: new_base },
        ],
    }
}

proof fn lemma_changes_revset(ids: Seq<ChangeId>)
    ensures
        crate::types::union_text(ids) == changes_revset(crate::types::change_views(ids)),
{
    crate::types::union_of_changes_is_joined(ids);
    let views = crate::types::change_views(ids);
    assert(Seq::new(ids.len(), |i: int| crate::types::AsRevset::revset_text(&ids[i]))
        =~= Seq::new(views.len(), |i: int| "change_id("@ + views[i] + ")"@));
}

fn abandon_steps(
    change_ids: &Vec<ChangeId>,
    pr: PrNum,
    bookmark: &Bookmark,
    bookmark_exists: bool,
    color: bool,
) -> (r: Vec<SyncStep>)
    ensures
        step_views(r@) == action_steps(
            ActionView::AbandonMerged {
                change_ids: crate::types::change_views(change_ids@),
                pr: pr@,
                bookmark: bookmark@,
                bookmark_exists,
            },
            color,
        ),
{
    let mut steps: Vec<SyncStep> = Vec::new();
    let mut text = "Abandoning merged ".to_owned();
    text.append(crate::style::pr_num(pr, None, color).as_str());
    let name = crate::style::bookmark(bookmark, color);
    if bookmark_exists {
        text.append(" (delete ");
        text.append(name.as_str());
        text.append(")");
        steps.push(SyncStep::Say(text));
        steps.push(SyncStep::DeleteBookmark(bookmark.clone()));
    } else {
        text.append(" (");
        text.append(name.as_str());
        text.append(" already deleted)");
        steps.push(SyncStep::Say(text));
    }
    // Rebase merged commits onto trunk first, then abandon.
    //
    // Why not just abandon directly? Because `jj abandon` reparents children to the abandoned
    // commit's *current* parents. If the merged PR's root is based on an older trunk commit,
    // children would be reparented there instead of the current trunk tip.
    //
    // Why not rebase children directly onto trunk? Because that would destroy other parent
    // edges. If a child has two parents (this merged PR + another open PR), rebasing the child
    // onto trunk would lose its relationship with the open PR.
    //
    // By rebasing the merged PR onto trunk and then abandoning, `jj abandon` reparents children
    // to trunk (the new parent of the abandoned commits) while preserving the children's other
    // parent edges intact.
    //
    // We use change_ids for both steps (stable across rewrites). The revset targets only this
    // PR's commits (not ancestors from other PRs that may still be open).
    let revset = crate::types::revset_union(change_ids);
    proof {
        lemma_changes_revset(change_ids@);
    }
    let mut sources = "roots(".to_owned();
    sources.append(revset.as_str());
    sources.append(")");
    steps.push(SyncStep::Rebase { sources, dest: "trunk()".to_owned() });
    steps.push(SyncStep::Abandon(revset.as_str().to_owned()));
    assert(step_views(steps@) =~= action_steps(
        ActionView::AbandonMerged {
            change_ids: crate::types::change_views(change_ids@),
            pr: pr@,
            bookmark: bookmark@,
            bookmark_exists,
        },
        color,
    ));
    steps
}

fn push_steps(bookmarks: &Vec<(PrNum, Bookmark)>, color: bool) -> (r: Vec<SyncStep>)
    ensures
        step_views(r@) == action_steps(
            ActionView::Push { bookmarks: push_views(bookmarks@) },
            color,
        ),
{
    let mut styled: Vec<String> = Vec::new();
    let mut refs: Vec<Bookmark> = Vec::new();
    let ghost list = push_views(bookmarks@);
    let ghost want = styled_names(list, color);
    let ghost names = names_of(list);
    let mut i: usize = 0;
    assert(crate::text::views(styled@) == want.take(0));
    assert(crate::types::bookmark_views(refs@) == names.take(0));
    while i < bookmarks.len()
        invariant
            i <= bookmarks.len(),
            list == push_views(bookmarks@),
            want == styled_names(list, color),
            names == names_of(list),
            crate::text::views(styled@) == want.take(i as int),
            crate::types::bookmark_views(refs@) == names.take(i as int),
        decreases bookmarks.len() - i,
    {
        let text = crate::style::bookmark(&bookmarks[i].1, color);
        let name = bookmarks[i].1.clone();
        let ghost view = name@;
        let ghost before = refs@;
        proof {
            lemma_push_view(styled@, text);
            assert(want.take(i + 1) == want.take(i as int).push(want[i as int]));
            assert(names.take(i + 1) == names.take(i as int).push(names[i as int]));
        }
        styled.push(text);
        refs.push(name);
        assert(crate::types::bookmark_views(refs@) == crate::types::bookmark_views(before).push(
            view,
        ));
        i = i + 1;
    }
    assert(want.take(i as int) == want && names.take(i as int) == names);
    let mut text = "Pushing ".to_owned();
    text.append(crate::text::u64_to_string(bookmarks.len() as u64).as_str());
    text.append(" bookmark(s): ");
    text.append(join(&styled, ", ").as_str());
    let mut steps: Vec<SyncStep> = Vec::new();
    steps.push(SyncStep::Say(text));
    steps.push(SyncStep::Push(refs));
    assert(step_views(steps@) =~= action_steps(ActionView::Push { bookmarks: list }, color));
    steps
}

/// The steps of an action.
pub fn sync_steps(action: &SyncAction, color: bool) -> (r: Vec<SyncStep>)
    ensures
        step_views(r@) == action_steps(action@, color),
{
    match action {
        SyncAction::StampTrailer { change_id, pr } => {
            let mut text = "Stamping ".to_owned();
            text.append(crate::style::pr_num(*pr, None, color).as_str());
            text.append(" on ");
            text.append(crate::style::change_id(change_id, color).as_str());
            let mut steps: Vec<SyncStep> = Vec::new();
            steps.push(SyncStep::Say(text));
            steps.push(
                SyncStep::Stamp {
                    revision: crate::types::AsRevset::as_revset(change_id).as_str().to_owned(),
                    pr: *pr,
                },
            );
            assert(step_views(steps@) =~= action_steps(action@, color));
            steps
        },
        SyncAction::AbandonMerged { change_ids, pr, bookmark, bookmark_exists } => abandon_steps(
            change_ids,
            *pr,
            bookmark,
            *bookmark_exists,
            color,
        ),
        SyncAction::Push { bookmarks } => push_steps(bookmarks, color),
        SyncAction::UpdateBase { pr, bookmark, new_base } => {
            let mut text = "Updating ".to_owned();
            text.append(crate::style::pr_num(*pr, None, color).as_str());
            text.append(" (");
            text.append(crate::style::bookmark(bookmark, color).as_str());
            text.append(") base -> ");
            text.append(crate::style::bookmark(new_base, color).as_str());
            let mut steps: Vec<SyncStep> = Vec::new();
            steps.push(SyncStep::Say(text));
            steps.push(SyncStep::EditBase { pr: *pr, base: new_base.clone() });
            assert(step_views(steps@) =~= action_steps(action@, color));
            steps
        },
    }
}

// --- Laws of the plan ---

/// Where every commit of a PR has its trailer, nothing has to be synced and no PR was merged,
/// the plan is empty.
pub proof fn nothing_to_sync_is_planned(
    v: RepoView,
    prs: Map<u64, &GhPr>,
    entries: Seq<JjLogEntry>,
    default_branch: Seq<char>,
    existing: Option<Set<Seq<char>>>,
)
    requires
        forall|i: int|
            0 <= i < entries.len() && commit_pr(
                v,
                (#[trigger] entries[i]).commit.commit_id@,
            ) is Some ==> crate::jj::pr_trailer(entries[i].commit.description@) == commit_pr(
                v,
                entries[i].commit.commit_id@,
            ),
        forall|k: NodeKey| !#[trigger] v.needs_sync.contains_key(k),
        forall|i: int|
            0 <= i < v.order.len() ==> !crate::node_graph::node_in_state(
                v.nodes,
                prs,
                #[trigger] v.order[i],
                PrState::Merged,
            ),
    ensures
        planned_actions(v, prs, entries, default_branch, existing) == Seq::<ActionView>::empty(),
        planned_warnings(v, prs, existing) == Seq::<Seq<char>>::empty(),
{
    lemma_no_stamps(v, entries);
    lemma_no_node_actions(v, prs, entries, default_branch, existing, v.order);
}

proof fn lemma_no_stamps(v: RepoView, entries: Seq<JjLogEntry>)
    requires
        forall|i: int|
            0 <= i < entries.len() && commit_pr(
                v,
                (#[trigger] entries[i]).commit.commit_id@,
            ) is Some ==> crate::jj::pr_trailer(entries[i].commit.description@) == commit_pr(
                v,
                entries[i].commit.commit_id@,
            ),
    ensures
        stamps(v, entries) == Seq::<ActionView>::empty(),
    decreases entries.len(),
{
    if entries.len() > 0 {
        assert forall|i: int|
            0 <= i < entries.drop_last().len() && commit_pr(
                v,
                (#[trigger] entries.drop_last()[i]).commit.commit_id@,
            ) is Some implies crate::jj::pr_trailer(
            entries.drop_last()[i].commit.description@,
        ) == commit_pr(v, entries.drop_last()[i].commit.commit_id@) by {
            assert(entries.drop_last()[i] == entries[i]);
        }
        lemma_no_stamps(v, entries.drop_last());
        assert(entries.last() == entries[entries.len() - 1]);
    }
}

proof fn lemma_no_node_actions(
    v: RepoView,
    prs: Map<u64, &GhPr>,
    entries: Seq<JjLogEntry>,
    default_branch: Seq<char>,
    existing: Option<Set<Seq<char>>>,
    keys: Seq<NodeKey>,
)
    requires
        forall|k: NodeKey| !#[trigger] v.needs_sync.contains_key(k),
        forall|i: int|
            0 <= i < keys.len() ==> !crate::node_graph::node_in_state(
                v.nodes,
                prs,
                #[trigger] keys[i],
                PrState::Merged,
            ),
    ensures
        abandons(v, prs, entries, existing, keys) == Seq::<ActionView>::empty(),
        stale_warnings(v, prs, existing, keys) == Seq::<Seq<char>>::empty(),
        pushes(v, prs, keys) == Seq::<(u64, Seq<char>)>::empty(),
        conflict_warnings(v, prs, keys) == Seq::<Seq<char>>::empty(),
        updates(v, prs, default_branch, keys) == Seq::<ActionView>::empty(),
    decreases keys.len(),
{
    if keys.len() > 0 {
        assert forall|i: int|
            0 <= i < keys.drop_last().len() implies !crate::node_graph::node_in_state(
            v.nodes,
            prs,
            #[trigger] keys.drop_last()[i],
            PrState::Merged,
        ) by {
            assert(keys.drop_last()[i] == keys[i]);
        }
        lemma_no_node_actions(v, prs, entries, default_branch, existing, keys.drop_last());
        assert(keys.last() == keys[keys.len() - 1]);
    }
}

/// Every bookmark that is pushed is that of a PR with pending sync actions that was not merged
/// and has no content conflicts, nor an ancestor with any.
pub proof fn pushed_prs_are_pushable(v: RepoView, prs: Map<u64, &GhPr>, keys: Seq<NodeKey>, i: int)
    requires
        crate::pr_dag::repo_known(v, prs),
        0 <= i < pushes(v, prs, keys).len(),
    ensures
        ({
            let (n, name) = pushes(v, prs, keys)[i];
            &&& prs.contains_key(n)
            &&& !(prs[n].state is Merged)
            &&& prs[n].head_ref_name@ == name
            &&& exists|k: NodeKey|
                keys.contains(k) && #[trigger] v.needs_sync.contains_key(k)
                    && crate::node_graph::node_at(v.nodes, k) == NodeView::Pr(n)
                    && !conflict_above(v, k)
        }),
    decreases keys.len(),
{
    let head = keys.drop_last();
    if i < pushes(v, prs, head).len() {
        pushed_prs_are_pushable(v, prs, head, i);
        let n = pushes(v, prs, head)[i].0;
        let k = choose|k: NodeKey|
            head.contains(k) && #[trigger] v.needs_sync.contains_key(k)
                && crate::node_graph::node_at(v.nodes, k) == NodeView::Pr(n) && !conflict_above(
                v,
                k,
            );
        let j = choose|j: int| 0 <= j < head.len() && head[j] == k;
        assert(keys[j] == k);
    } else {
        assert(keys[keys.len() - 1] == keys.last());
        assert(v.needs_sync.contains_key(keys.last()));
    }
}

/// Only the base branches of open PRs are updated, and only where they change.
pub proof fn updated_prs_are_open(
    v: RepoView,
    prs: Map<u64, &GhPr>,
    default_branch: Seq<char>,
    keys: Seq<NodeKey>,
    i: int,
)
    requires
        0 <= i < updates(v, prs, default_branch, keys).len(),
    ensures
        updates(v, prs, default_branch, keys)[i] matches ActionView::UpdateBase {
            pr,
            bookmark,
            new_base,
        } && prs.contains_key(pr) && prs[pr].state is Open && prs[pr].head_ref_name@ == bookmark
            && prs[pr].base_ref_name@ != new_base,
    decreases keys.len(),
{
    if i < updates(v, prs, default_branch, keys.drop_last()).len() {
        updated_prs_are_open(v, prs, default_branch, keys.drop_last(), i);
    }
}

/// Only merged PRs are abandoned: those with commits whose merge commit is in the local repo,
/// as far as that is known.
pub proof fn abandoned_prs_are_merged(
    v: RepoView,
    prs: Map<u64, &GhPr>,
    entries: Seq<JjLogEntry>,
    existing: Option<Set<Seq<char>>>,
    keys: Seq<NodeKey>,
    i: int,
)
    requires
        0 <= i < abandons(v, prs, entries, existing, keys).len(),
    ensures
        abandons(v, prs, entries, existing, keys)[i] matches ActionView::AbandonMerged {
            change_ids,
            pr,
            bookmark,
            bookmark_exists,
        } && prs.contains_key(pr) && prs[pr].state is Merged && !is_stale(*prs[pr], existing)
            && prs[pr].head_ref_name@ == bookmark && change_ids.len() > 0,
    decreases keys.len(),
{
    if i < abandons(v, prs, entries, existing, keys.drop_last()).len() {
        abandoned_prs_are_merged(v, prs, entries, existing, keys.drop_last(), i);
    }
}

/// Once the commits of PRs are stamped there is nothing left to stamp.
pub proof fn stamping_settles(
    v: RepoView,
    entries: Seq<JjLogEntry>,
    stamped: Seq<JjLogEntry>,
)
    requires
        stamped.len() == entries.len(),
        forall|c: Seq<char>| #[trigger] commit_pr(v, c) is Some ==> commit_pr(v, c)->0 != 0,
        forall|i: int|
            0 <= i < entries.len() ==> {
                let e = #[trigger] entries[i];
                let s = stamped[i];
                &&& s.commit.commit_id@ == e.commit.commit_id@
                &&& match commit_pr(v, e.commit.commit_id@) {
                    Some(n) => s.commit.description@ == crate::jj::with_pr_trailer(
                        e.commit.description@,
                        n,
                    ),
                    None => true,
                }
            },
    ensures
        stamps(v, stamped) == Seq::<ActionView>::empty(),
{
    assert forall|i: int|
        0 <= i < stamped.len() && commit_pr(
            v,
            (#[trigger] stamped[i]).commit.commit_id@,
        ) is Some implies crate::jj::pr_trailer(stamped[i].commit.description@) == commit_pr(
        v,
        stamped[i].commit.commit_id@,
    ) by {
        let e = entries[i];
        let n = commit_pr(v, e.commit.commit_id@)->0;
        crate::jj::set_trailer_is_read_back(e.commit.description@, n);
    }
    lemma_no_stamps(v, stamped);
}

/// Whether two sets of PRs are the same but for base branches and what is displayed.
pub open spec fn same_heads(a: Map<u64, &GhPr>, b: Map<u64, &GhPr>) -> bool {
    forall|n: u64| #[trigger]
        a.contains_key(n) == #[trigger] b.contains_key(n) && (a.contains_key(n) ==> a[n].state
            == b[n].state && a[n].head_ref_name@ == b[n].head_ref_name@)
}

proof fn lemma_same_base(
    v: RepoView,
    a: Map<u64, &GhPr>,
    b: Map<u64, &GhPr>,
    default_branch: Seq<char>,
    k: NodeKey,
)
    requires
        same_heads(a, b),
    ensures
        crate::pr_dag::state_base(v, a, default_branch, k) == crate::pr_dag::state_base(
            v,
            b,
            default_branch,
            k,
        ),
{
    let preds = v.preds[k];
    assert forall|p: NodeKey|
        crate::node_graph::node_in_state(v.nodes, a, p, PrState::Open)
            == #[trigger] crate::node_graph::node_in_state(v.nodes, b, p, PrState::Open) by {
        let n = crate::node_graph::node_at(v.nodes, p)->Pr_0;
        assert(a.contains_key(n) == b.contains_key(n));
    }
    assert forall|p: NodeKey|
        crate::node_graph::only_open_parent(v.nodes, a, preds, p)
            == #[trigger] crate::node_graph::only_open_parent(v.nodes, b, preds, p) by {
        assert(crate::node_graph::node_in_state(v.nodes, a, p, PrState::Open)
            == crate::node_graph::node_in_state(v.nodes, b, p, PrState::Open));
        assert forall|j: NodeKey| #[trigger] preds.contains(j) implies
            crate::node_graph::node_in_state(v.nodes, a, j, PrState::Open)
            == crate::node_graph::node_in_state(v.nodes, b, j, PrState::Open) by {}
    }
    if exists|p: NodeKey| crate::node_graph::only_open_parent(v.nodes, a, preds, p) {
        let p = choose|p: NodeKey| crate::node_graph::only_open_parent(v.nodes, a, preds, p);
        assert(crate::node_graph::only_open_parent(v.nodes, b, preds, p));
        let q = choose|q: NodeKey| crate::node_graph::only_open_parent(v.nodes, b, preds, q);
        assert(q == p);
        let n = crate::node_graph::node_at(v.nodes, p)->Pr_0;
        assert(a.contains_key(n) == b.contains_key(n));
    }
}

/// Once the base branches are updated there is nothing left to update.
pub proof fn updating_settles(
    v: RepoView,
    prs: Map<u64, &GhPr>,
    after: Map<u64, &GhPr>,
    default_branch: Seq<char>,
    keys: Seq<NodeKey>,
)
    requires
        same_heads(prs, after),
        forall|k: NodeKey| #[trigger]
            is_target(v, prs, k) && prs[crate::node_graph::node_at(v.nodes, k)->Pr_0].state is Open
                ==> after[crate::node_graph::node_at(v.nodes, k)->Pr_0].base_ref_name@
                == crate::pr_dag::state_base(v, prs, default_branch, k),
    ensures
        updates(v, after, default_branch, keys) == Seq::<ActionView>::empty(),
    decreases keys.len(),
{
    if keys.len() > 0 {
        updating_settles(v, prs, after, default_branch, keys.drop_last());
        let k = keys.last();
        let n = crate::node_graph::node_at(v.nodes, k)->Pr_0;
        lemma_same_base(v, prs, after, default_branch, k);
        assert(prs.contains_key(n) == after.contains_key(n));
        assert(is_target(v, prs, k) == is_target(v, after, k));
    }
}

// --- Laws of what is planned ---

/// Whether the commit of an entry is part of the node of the PR `n`.
pub open spec fn belongs(v: RepoView, entry: JjLogEntry, n: u64) -> bool {
    v.owner.contains_key(entry.commit.commit_id@) && crate::node_graph::node_at(
        v.nodes,
        v.owner[entry.commit.commit_id@],
    ) == NodeView::Pr(n)
}

/// The entries of a PR, in their order.
pub open spec fn entries_of(v: RepoView, entries: Seq<JjLogEntry>, n: u64) -> Seq<JjLogEntry> {
    entries.filter(|e: JjLogEntry| belongs(v, e, n))
}

/// Whether `k` is the key of the node of the PR `n`, whose data is known.
pub open spec fn is_pr_node(v: RepoView, prs: Map<u64, &GhPr>, k: NodeKey, n: u64) -> bool {
    &&& crate::node_store::key_of(k, v.nodes.len())
    &&& crate::node_graph::node_at(v.nodes, k) == NodeView::Pr(n)
    &&& prs.contains_key(n)
}

/// Whether neither a node nor an ancestor of it has content conflicts.
pub open spec fn free_of_conflicts(v: RepoView, k: NodeKey) -> bool {
    forall|x: NodeKey|
        crate::graph_algorithms::reaches(crate::pr_dag::map_graph(v.preds), k, x)
            ==> !#[trigger] v.conflicted.contains(x)
}

/// Which of the four parts of a sync an action is of.
pub open spec fn part_of(action: ActionView) -> int {
    match action {
        ActionView::StampTrailer { .. } => 0,
        ActionView::AbandonMerged { .. } => 1,
        ActionView::Push { .. } => 2,
        ActionView::UpdateBase { .. } => 3,
    }
}

proof fn lemma_in_sum<A>(a: Seq<A>, b: Seq<A>, x: A)
    ensures
        (a + b).contains(x) <==> a.contains(x) || b.contains(x),
{
    if a.contains(x) {
        let i = choose|i: int| 0 <= i < a.len() && a[i] == x;
        assert((a + b)[i] == x);
    }
    if b.contains(x) {
        let i = choose|i: int| 0 <= i < b.len() && b[i] == x;
        assert((a + b)[a.len() + i] == x);
    }
    if (a + b).contains(x) {
        let i = choose|i: int| 0 <= i < (a + b).len() && (a + b)[i] == x;
        if i < a.len() {
            assert(a[i] == x);
        } else {
            assert(b[i - a.len()] == x);
        }
    }
}

proof fn lemma_in_pushed<A>(s: Seq<A>, y: A, x: A)
    ensures
        s.push(y).contains(x) <==> s.contains(x) || x == y,
{
    assert(s.push(y) =~= s + seq![y]);
    lemma_in_sum(s, seq![y], x);
    assert(seq![y].contains(x) <==> x == y) by {
        if x == y {
            assert(seq![y][0] == x);
        }
    }
}

proof fn lemma_in_last<A>(s: Seq<A>, x: A)
    requires
        s.len() > 0,
    ensures
        s.contains(x) <==> s.drop_last().contains(x) || x == s.last(),
{
    assert(s =~= s.drop_last().push(s.last()));
    lemma_in_pushed(s.drop_last(), s.last(), x);
}

proof fn lemma_last_key(keys: Seq<NodeKey>)
    requires
        keys.len() > 0,
    ensures
        forall|j: NodeKey| #[trigger]
            keys.contains(j) <==> keys.drop_last().contains(j) || j == keys.last(),
        forall|j: NodeKey| #[trigger] keys.drop_last().contains(j) ==> keys.contains(j),
{
    assert forall|j: NodeKey| #[trigger] keys.contains(j) <==> keys.drop_last().contains(j) || j
        == keys.last() by {
        lemma_in_last(keys, j);
    }
}

proof fn lemma_parts_of_stamps(v: RepoView, entries: Seq<JjLogEntry>)
    ensures
        forall|i: int|
            0 <= i < stamps(v, entries).len() ==> part_of(#[trigger] stamps(v, entries)[i]) == 0,
    decreases entries.len(),
{
    if entries.len() > 0 {
        lemma_parts_of_stamps(v, entries.drop_last());
        let before = stamps(v, entries.drop_last());
        let all = stamps(v, entries);
        assert forall|i: int| 0 <= i < all.len() implies part_of(#[trigger] all[i]) == 0 by {
            if i < before.len() {
                assert(all[i] == before[i]);
            }
        }
    }
}

proof fn lemma_parts_of_node_actions(
    v: RepoView,
    prs: Map<u64, &GhPr>,
    entries: Seq<JjLogEntry>,
    default_branch: Seq<char>,
    existing: Option<Set<Seq<char>>>,
    keys: Seq<NodeKey>,
)
    ensures
        forall|i: int|
            0 <= i < abandons(v, prs, entries, existing, keys).len() ==> part_of(
                #[trigger] abandons(v, prs, entries, existing, keys)[i],
            ) == 1,
        forall|i: int|
            0 <= i < updates(v, prs, default_branch, keys).len() ==> part_of(
                #[trigger] updates(v, prs, default_branch, keys)[i],
            ) == 3,
    decreases keys.len(),
{
    if keys.len() > 0 {
        let head = keys.drop_last();
        lemma_parts_of_node_actions(v, prs, entries, default_branch, existing, head);
        let a = abandons(v, prs, entries, existing, head);
        let all_a = abandons(v, prs, entries, existing, keys);
        assert forall|i: int| 0 <= i < all_a.len() implies part_of(#[trigger] all_a[i]) == 1 by {
            if i < a.len() {
                assert(all_a[i] == a[i]);
            }
        }
        let u = updates(v, prs, default_branch, head);
        let all_u = updates(v, prs, default_branch, keys);
        assert forall|i: int| 0 <= i < all_u.len() implies part_of(#[trigger] all_u[i]) == 3 by {
            if i < u.len() {
                assert(all_u[i] == u[i]);
            }
        }
    }
}

/// Stamping comes first, then merged PRs are abandoned, then bookmarks are pushed, in one action
/// at most, and base branches are updated last.
pub proof fn parts_are_planned_in_order(
    v: RepoView,
    prs: Map<u64, &GhPr>,
    entries: Seq<JjLogEntry>,
    default_branch: Seq<char>,
    existing: Option<Set<Seq<char>>>,
    i: int,
    j: int,
)
    requires
        0 <= i < j < planned_actions(v, prs, entries, default_branch, existing).len(),
    ensures
        ({
            let all = planned_actions(v, prs, entries, default_branch, existing);
            part_of(all[i]) <= part_of(all[j]) && !(all[i] is Push && all[j] is Push)
        }),
{
    let a = stamps(v, entries);
    let b = abandons(v, prs, entries, existing, v.order);
    let c = push_action(pushes(v, prs, v.order));
    let d = updates(v, prs, default_branch, v.order);
    let all = planned_actions(v, prs, entries, default_branch, existing);
    lemma_parts_of_stamps(v, entries);
    lemma_parts_of_node_actions(v, prs, entries, default_branch, existing, v.order);
    assert forall|x: int| 0 <= x < all.len() implies ({
        let p = part_of(#[trigger] all[x]);
        &&& p == 0 <==> x < a.len()
        &&& p <= 1 <==> x < a.len() + b.len()
        &&& p <= 2 <==> x < a.len() + b.len() + c.len()
        &&& 0 <= p <= 3
    }) by {
        if x < a.len() {
            assert(all[x] == a[x]);
        } else if x < a.len() + b.len() {
            assert(all[x] == b[x - a.len()]);
        } else if x < a.len() + b.len() + c.len() {
            assert(all[x] == c[x - a.len() - b.len()]);
        } else {
            assert(all[x] == d[x - a.len() - b.len() - c.len()]);
        }
    }
    assert(c.len() <= 1);
}

/// An action is planned exactly where it is in the list of its part.
proof fn lemma_planned(
    v: RepoView,
    prs: Map<u64, &GhPr>,
    entries: Seq<JjLogEntry>,
    default_branch: Seq<char>,
    existing: Option<Set<Seq<char>>>,
    x: ActionView,
)
    ensures
        planned_actions(v, prs, entries, default_branch, existing).contains(x) <==> match x {
            ActionView::StampTrailer { .. } => stamps(v, entries).contains(x),
            ActionView::AbandonMerged { .. } => abandons(
                v,
                prs,
                entries,
                existing,
                v.order,
            ).contains(x),
            ActionView::Push { bookmarks } => bookmarks == pushes(v, prs, v.order)
                && bookmarks.len() > 0,
            ActionView::UpdateBase { .. } => updates(v, prs, default_branch, v.order).contains(x),
        },
{
    let a = stamps(v, entries);
    let b = abandons(v, prs, entries, existing, v.order);
    let c = push_action(pushes(v, prs, v.order));
    let d = updates(v, prs, default_branch, v.order);
    lemma_in_sum(a + b + c, d, x);
    lemma_in_sum(a + b, c, x);
    lemma_in_sum(a, b, x);
    lemma_parts_of_stamps(v, entries);
    lemma_parts_of_node_actions(v, prs, entries, default_branch, existing, v.order);
    if a.contains(x) {
        let i = choose|i: int| 0 <= i < a.len() && a[i] == x;
        assert(part_of(a[i]) == 0);
    }
    if b.contains(x) {
        let i = choose|i: int| 0 <= i < b.len() && b[i] == x;
        assert(part_of(b[i]) == 1);
    }
    if d.contains(x) {
        let i = choose|i: int| 0 <= i < d.len() && d[i] == x;
        assert(part_of(d[i]) == 3);
    }
    let push = ActionView::Push { bookmarks: pushes(v, prs, v.order) };
    assert(c.contains(x) <==> x == push && pushes(v, prs, v.order).len() > 0) by {
        if x == push && c.len() > 0 {
            assert(c[0] == x);
        }
    }
}

proof fn lemma_stamps(v: RepoView, entries: Seq<JjLogEntry>, id: Seq<char>, n: u64)
    ensures
        stamps(v, entries).contains(ActionView::StampTrailer { change_id: id, pr: n }) <==> exists|
            i: int,
        |
            0 <= i < entries.len() && belongs(v, #[trigger] entries[i], n)
                && crate::jj::pr_trailer(entries[i].commit.description@) != Some(n)
                && entries[i].commit.change_id@ == id,
    decreases entries.len(),
{
    let x = ActionView::StampTrailer { change_id: id, pr: n };
    if entries.len() > 0 {
        let head = entries.drop_last();
        let e = entries.last();
        let at = entries.len() - 1;
        lemma_stamps(v, head, id, n);
        let m = commit_pr(v, e.commit.commit_id@);
        if m is Some {
            lemma_in_pushed(
                stamps(v, head),
                ActionView::StampTrailer { change_id: e.commit.change_id@, pr: m->0 },
                x,
            );
        }
        assert(belongs(v, e, n) <==> m == Some(n));
        if stamps(v, head).contains(x) {
            let i = choose|i: int|
                0 <= i < head.len() && belongs(v, #[trigger] head[i], n) && crate::jj::pr_trailer(
                    head[i].commit.description@,
                ) != Some(n) && head[i].commit.change_id@ == id;
            assert(entries[i] == head[i]);
        }
        if stamps(v, entries).contains(x) && !stamps(v, head).contains(x) {
            assert(entries[at] == e);
        }
        if exists|i: int|
            0 <= i < entries.len() && belongs(v, #[trigger] entries[i], n)
                && crate::jj::pr_trailer(entries[i].commit.description@) != Some(n)
                && entries[i].commit.change_id@ == id {
            let i = choose|i: int|
                0 <= i < entries.len() && belongs(v, #[trigger] entries[i], n)
                    && crate::jj::pr_trailer(entries[i].commit.description@) != Some(n)
                    && entries[i].commit.change_id@ == id;
            if i < head.len() {
                assert(head[i] == entries[i]);
            } else {
                assert(e == entries[i]);
            }
        }
    }
}

/// A trailer is stamped on exactly the changes whose commits belong to a PR that their own
/// trailers do not name.
pub proof fn commits_without_their_trailer_are_stamped(
    v: RepoView,
    prs: Map<u64, &GhPr>,
    entries: Seq<JjLogEntry>,
    default_branch: Seq<char>,
    existing: Option<Set<Seq<char>>>,
    id: Seq<char>,
    n: u64,
)
    ensures
        planned_actions(v, prs, entries, default_branch, existing).contains(
            ActionView::StampTrailer { change_id: id, pr: n },
        ) <==> exists|i: int|
            0 <= i < entries.len() && belongs(v, #[trigger] entries[i], n)
                && crate::jj::pr_trailer(entries[i].commit.description@) != Some(n)
                && entries[i].commit.change_id@ == id,
{
    lemma_planned(
        v,
        prs,
        entries,
        default_branch,
        existing,
        ActionView::StampTrailer { change_id: id, pr: n },
    );
    lemma_stamps(v, entries, id, n);
}

/// In a repo state in order, a commit belongs to a PR exactly where its node is the PR's.
proof fn lemma_belongs(v: RepoView, prs: Map<u64, &GhPr>, entry: JjLogEntry, k: NodeKey, n: u64)
    requires
        crate::pr_dag::repo_ok(v),
        crate::pr_dag::repo_known(v, prs),
        is_pr_node(v, prs, k, n),
    ensures
        belongs(v, entry, n) <==> v.owner.contains_key(entry.commit.commit_id@)
            && v.owner[entry.commit.commit_id@] == k,
{
    let c = entry.commit.commit_id@;
    if belongs(v, entry, n) {
        let o = v.owner[c];
        assert(crate::membership::member_key(o, v.nodes.len()));
        let a = crate::node_store::place(o);
        let b = crate::node_store::place(k);
        assert(v.nodes[a] is Pr && v.nodes[b] is Pr);
        assert(a == b);
        assert(o == crate::node_store::key_at(a) && k == crate::node_store::key_at(b));
    }
}

proof fn lemma_node_changes(
    v: RepoView,
    prs: Map<u64, &GhPr>,
    entries: Seq<JjLogEntry>,
    k: NodeKey,
    n: u64,
)
    requires
        crate::pr_dag::repo_ok(v),
        crate::pr_dag::repo_known(v, prs),
        is_pr_node(v, prs, k, n),
    ensures
        node_changes(v, entries, k) == entries_of(v, entries, n).map_values(
            |e: JjLogEntry| e.commit.change_id@,
        ),
    decreases entries.len(),
{
    reveal(Seq::filter);
    let id = |e: JjLogEntry| e.commit.change_id@;
    if entries.len() > 0 {
        let head = entries.drop_last();
        let e = entries.last();
        lemma_node_changes(v, prs, head, k, n);
        lemma_belongs(v, prs, e, k, n);
        if belongs(v, e, n) {
            assert(entries_of(v, entries, n) == entries_of(v, head, n).push(e));
            assert(entries_of(v, head, n).push(e).map_values(id) =~= entries_of(
                v,
                head,
                n,
            ).map_values(id).push(e.commit.change_id@));
        } else {
            assert(entries_of(v, entries, n) == entries_of(v, head, n));
        }
    } else {
        assert(entries_of(v, entries, n).map_values(id) =~= Seq::<Seq<char>>::empty());
    }
}

/// The entries of a PR are those that belong to it.
proof fn lemma_entries_of(v: RepoView, entries: Seq<JjLogEntry>, n: u64)
    ensures
        forall|e: JjLogEntry| #[trigger]
            entries_of(v, entries, n).contains(e) <==> entries.contains(e) && belongs(v, e, n),
    decreases entries.len(),
{
    reveal(Seq::filter);
    if entries.len() > 0 {
        let head = entries.drop_last();
        lemma_entries_of(v, head, n);
        assert forall|e: JjLogEntry| #[trigger]
            entries_of(v, entries, n).contains(e) <==> entries.contains(e) && belongs(
            v,
            e,
            n,
        ) by {
            assert(entries_of(v, head, n).contains(e) <==> head.contains(e) && belongs(v, e, n));
            lemma_in_last(entries, e);
            lemma_in_pushed(entries_of(v, head, n), entries.last(), e);
        }
    }
}

/// What is abandoned among the given nodes: of each merged PR with commits, whose merge commit
/// is not missing, the changes of all its commits.
proof fn lemma_abandons(
    v: RepoView,
    prs: Map<u64, &GhPr>,
    entries: Seq<JjLogEntry>,
    existing: Option<Set<Seq<char>>>,
    keys: Seq<NodeKey>,
    x: ActionView,
)
    requires
        crate::pr_dag::repo_ok(v),
        crate::pr_dag::repo_known(v, prs),
        forall|k: NodeKey| #[trigger]
            keys.contains(k) ==> crate::node_store::key_of(k, v.nodes.len()),
    ensures
        abandons(v, prs, entries, existing, keys).contains(x) <==> exists|k: NodeKey| #[trigger]
            keys.contains(k) && is_abandon(v, prs, entries, existing, k, x),
    decreases keys.len(),
{
    if keys.len() > 0 {
        let head = keys.drop_last();
        let k = keys.last();
        lemma_last_key(keys);
        lemma_abandons(v, prs, entries, existing, head, x);
        assert(keys.contains(k));
        let n = crate::node_graph::node_at(v.nodes, k)->Pr_0;
        let own = ActionView::AbandonMerged {
            change_ids: node_changes(v, entries, k),
            pr: n,
            bookmark: prs[n].head_ref_name@,
            bookmark_exists: bookmark_exists(entries, prs[n].head_ref_name@),
        };
        lemma_in_pushed(abandons(v, prs, entries, existing, head), own, x);
        if crate::node_graph::node_at(v.nodes, k) is Pr && prs.contains_key(n) {
            lemma_node_changes(v, prs, entries, k, n);
            lemma_entries_of(v, entries, n);
            let list = entries_of(v, entries, n);
            assert((exists|i: int| 0 <= i < entries.len() && belongs(v, #[trigger] entries[i], n))
                <==> list.len() > 0) by {
                if list.len() > 0 {
                    assert(list.contains(list[0]));
                    let i = choose|i: int| 0 <= i < entries.len() && entries[i] == list[0];
                    assert(belongs(v, entries[i], n));
                }
                if exists|i: int| 0 <= i < entries.len() && belongs(v, #[trigger] entries[i], n) {
                    let i = choose|i: int|
                        0 <= i < entries.len() && belongs(v, #[trigger] entries[i], n);
                    assert(entries.contains(entries[i]));
                    assert(list.contains(entries[i]));
                }
            }
        }
        assert(is_abandon(v, prs, entries, existing, k, x) <==> (
        crate::node_graph::node_in_state(v.nodes, prs, k, PrState::Merged) && !is_stale(
            *prs[n],
            existing,
        ) && node_changes(v, entries, k).len() > 0 && x == own));
    }
}

/// Whether `x` abandons the PR of the node `k`, and has to be planned: the PR is merged, its merge
/// commit is not missing from the local repo, and it has commits, which are all abandoned.
pub open spec fn is_abandon(
    v: RepoView,
    prs: Map<u64, &GhPr>,
    entries: Seq<JjLogEntry>,
    existing: Option<Set<Seq<char>>>,
    k: NodeKey,
    x: ActionView,
) -> bool {
    x matches ActionView::AbandonMerged { change_ids, pr, bookmark, bookmark_exists }
        && is_pr_node(v, prs, k, pr) && prs[pr].state is Merged && (existing is Some
        && prs[pr].merge_commit_oid is Some ==> existing->0.contains(
        prs[pr].merge_commit_oid->0@,
    )) && (exists|i: int| 0 <= i < entries.len() && belongs(v, #[trigger] entries[i], pr))
        && change_ids == entries_of(v, entries, pr).map_values(
        |e: JjLogEntry| e.commit.change_id@,
    ) && bookmark == prs[pr].head_ref_name@ && (bookmark_exists <==> exists|i: int, j: int|
        0 <= i < entries.len() && 0 <= j < entries[i].local_bookmarks@.len()
            && #[trigger] entries[i].local_bookmarks@[j].name@ == bookmark)
}

/// A merged PR is abandoned exactly where it has commits and its merge commit is not missing from
/// the local repo. All its commits are abandoned then, and no other commit is.
pub proof fn merged_prs_are_abandoned_whole(
    v: RepoView,
    prs: Map<u64, &GhPr>,
    entries: Seq<JjLogEntry>,
    default_branch: Seq<char>,
    existing: Option<Set<Seq<char>>>,
    x: ActionView,
)
    requires
        crate::pr_dag::repo_ok(v),
        crate::pr_dag::repo_known(v, prs),
        x is AbandonMerged,
    ensures
        planned_actions(v, prs, entries, default_branch, existing).contains(x) <==> exists|
            k: NodeKey,
        | #[trigger]
            v.order.contains(k) && is_abandon(v, prs, entries, existing, k, x),
        planned_actions(v, prs, entries, default_branch, existing).contains(x) ==> {
            let ids = x->AbandonMerged_change_ids;
            let n = x->AbandonMerged_pr;
            &&& ids.len() == entries_of(v, entries, n).len()
            &&& forall|i: int|
                0 <= i < entries.len() && belongs(v, #[trigger] entries[i], n) ==> ids.contains(
                    entries[i].commit.change_id@,
                )
            &&& forall|id: Seq<char>| #[trigger]
                ids.contains(id) ==> exists|i: int|
                    0 <= i < entries.len() && belongs(v, #[trigger] entries[i], n)
                        && entries[i].commit.change_id@ == id
        },
{
    lemma_planned(v, prs, entries, default_branch, existing, x);
    lemma_abandons(v, prs, entries, existing, v.order, x);
    if planned_actions(v, prs, entries, default_branch, existing).contains(x) {
        let ids = x->AbandonMerged_change_ids;
        let n = x->AbandonMerged_pr;
        let list = entries_of(v, entries, n);
        lemma_entries_of(v, entries, n);
        assert forall|i: int|
            0 <= i < entries.len() && belongs(v, #[trigger] entries[i], n) implies ids.contains(
            entries[i].commit.change_id@,
        ) by {
            assert(entries.contains(entries[i]));
            assert(list.contains(entries[i]));
            let j = choose|j: int| 0 <= j < list.len() && list[j] == entries[i];
            assert(ids[j] == entries[i].commit.change_id@);
        }
        assert forall|id: Seq<char>| #[trigger] ids.contains(id) implies exists|i: int|
            0 <= i < entries.len() && belongs(v, #[trigger] entries[i], n)
                && entries[i].commit.change_id@ == id by {
            let j = choose|j: int| 0 <= j < ids.len() && ids[j] == id;
            assert(list.contains(list[j]));
            let i = choose|i: int| 0 <= i < entries.len() && entries[i] == list[j];
            assert(belongs(v, entries[i], n));
        }
    }
}

proof fn lemma_targets(v: RepoView, prs: Map<u64, &GhPr>, k: NodeKey)
    requires
        crate::node_store::key_of(k, v.nodes.len()),
    ensures
        is_target(v, prs, k) <==> v.needs_sync.contains_key(k) && exists|n: u64|
            is_pr_node(v, prs, k, n),
        conflict_above(v, k) <==> !free_of_conflicts(v, k),
{
    if is_target(v, prs, k) {
        assert(is_pr_node(v, prs, k, crate::node_graph::node_at(v.nodes, k)->Pr_0));
    }
    let g = crate::pr_dag::map_graph(v.preds);
    if conflict_above(v, k) {
        let x = choose|x: NodeKey| #[trigger]
            crate::graph_algorithms::reaches(g, k, x) && v.conflicted.contains(x);
        assert(v.conflicted.contains(x));
    }
}

proof fn lemma_pushes(v: RepoView, prs: Map<u64, &GhPr>, keys: Seq<NodeKey>, n: u64, name: Seq<char>)
    requires
        forall|k: NodeKey| #[trigger]
            keys.contains(k) ==> crate::node_store::key_of(k, v.nodes.len()),
    ensures
        pushes(v, prs, keys).contains((n, name)) <==> exists|k: NodeKey| #[trigger]
            keys.contains(k) && is_pr_node(v, prs, k, n) && prs[n].head_ref_name@ == name
                && v.needs_sync.contains_key(k) && free_of_conflicts(v, k),
    decreases keys.len(),
{
    if keys.len() > 0 {
        let head = keys.drop_last();
        let k = keys.last();
        lemma_last_key(keys);
        lemma_pushes(v, prs, head, n, name);
        assert(keys.contains(k));
        lemma_targets(v, prs, k);
        let m = crate::node_graph::node_at(v.nodes, k)->Pr_0;
        lemma_in_pushed(pushes(v, prs, head), (m, prs[m].head_ref_name@), (n, name));
    }
}

/// A bookmark is pushed exactly where it is that of a PR with pending sync actions which has no
/// content conflicts, nor an ancestor with any.
pub proof fn prs_without_conflicts_are_pushed(
    v: RepoView,
    prs: Map<u64, &GhPr>,
    entries: Seq<JjLogEntry>,
    default_branch: Seq<char>,
    existing: Option<Set<Seq<char>>>,
    n: u64,
    name: Seq<char>,
)
    requires
        crate::pr_dag::repo_ok(v),
    ensures
        (exists|x: ActionView| #[trigger]
            planned_actions(v, prs, entries, default_branch, existing).contains(x) && x is Push
                && x->Push_bookmarks.contains((n, name))) <==> exists|k: NodeKey|
            is_pr_node(v, prs, k, n) && prs[n].head_ref_name@ == name
                && #[trigger] v.needs_sync.contains_key(k) && free_of_conflicts(v, k),
{
    let list = pushes(v, prs, v.order);
    let push = ActionView::Push { bookmarks: list };
    let all = planned_actions(v, prs, entries, default_branch, existing);
    lemma_pushes(v, prs, v.order, n, name);
    if exists|x: ActionView| #[trigger]
        all.contains(x) && x is Push && x->Push_bookmarks.contains((n, name)) {
        let x = choose|x: ActionView| #[trigger]
            all.contains(x) && x is Push && x->Push_bookmarks.contains((n, name));
        lemma_planned(v, prs, entries, default_branch, existing, x);
        let k = choose|k: NodeKey| #[trigger]
            v.order.contains(k) && is_pr_node(v, prs, k, n) && prs[n].head_ref_name@ == name
                && v.needs_sync.contains_key(k) && free_of_conflicts(v, k);
        assert(v.needs_sync.contains_key(k));
    }
    if exists|k: NodeKey|
        is_pr_node(v, prs, k, n) && prs[n].head_ref_name@ == name
            && #[trigger] v.needs_sync.contains_key(k) && free_of_conflicts(v, k) {
        let k = choose|k: NodeKey|
            is_pr_node(v, prs, k, n) && prs[n].head_ref_name@ == name
                && #[trigger] v.needs_sync.contains_key(k) && free_of_conflicts(v, k);
        assert(v.order.contains(k));
        assert(list.contains((n, name)));
        lemma_planned(v, prs, entries, default_branch, existing, push);
        assert(all.contains(push));
    }
}

proof fn lemma_updates(
    v: RepoView,
    prs: Map<u64, &GhPr>,
    default_branch: Seq<char>,
    keys: Seq<NodeKey>,
    n: u64,
    name: Seq<char>,
    base: Seq<char>,
)
    requires
        forall|k: NodeKey| #[trigger]
            keys.contains(k) ==> crate::node_store::key_of(k, v.nodes.len()),
    ensures
        updates(v, prs, default_branch, keys).contains(
            ActionView::UpdateBase { pr: n, bookmark: name, new_base: base },
        ) <==> exists|k: NodeKey| #[trigger]
            keys.contains(k) && is_pr_node(v, prs, k, n) && prs[n].head_ref_name@ == name
                && v.needs_sync.contains_key(k) && prs[n].state is Open
                && crate::pr_dag::state_base(v, prs, default_branch, k) == base
                && prs[n].base_ref_name@ != base,
    decreases keys.len(),
{
    if keys.len() > 0 {
        let head = keys.drop_last();
        let k = keys.last();
        lemma_last_key(keys);
        lemma_updates(v, prs, default_branch, head, n, name, base);
        assert(keys.contains(k));
        lemma_targets(v, prs, k);
        let m = crate::node_graph::node_at(v.nodes, k)->Pr_0;
        lemma_in_pushed(
            updates(v, prs, default_branch, head),
            ActionView::UpdateBase {
                pr: m,
                bookmark: prs[m].head_ref_name@,
                new_base: crate::pr_dag::state_base(v, prs, default_branch, k),
            },
            ActionView::UpdateBase { pr: n, bookmark: name, new_base: base },
        );
    }
}

/// A base branch is updated exactly where it is that of an open PR with pending sync actions
/// whose base on GitHub is another one than the graph asks for, and to that.
pub proof fn wrong_bases_are_updated(
    v: RepoView,
    prs: Map<u64, &GhPr>,
    entries: Seq<JjLogEntry>,
    default_branch: Seq<char>,
    existing: Option<Set<Seq<char>>>,
    n: u64,
    name: Seq<char>,
    base: Seq<char>,
)
    requires
        crate::pr_dag::repo_ok(v),
    ensures
        planned_actions(v, prs, entries, default_branch, existing).contains(
            ActionView::UpdateBase { pr: n, bookmark: name, new_base: base },
        ) <==> exists|k: NodeKey|
            is_pr_node(v, prs, k, n) && prs[n].head_ref_name@ == name
                && #[trigger] v.needs_sync.contains_key(k) && prs[n].state is Open
                && crate::pr_dag::state_base(v, prs, default_branch, k) == base
                && prs[n].base_ref_name@ != base,
{
    lemma_planned(
        v,
        prs,
        entries,
        default_branch,
        existing,
        ActionView::UpdateBase { pr: n, bookmark: name, new_base: base },
    );
    lemma_updates(v, prs, default_branch, v.order, n, name, base);
    assert forall|k: NodeKey|
        is_pr_node(v, prs, k, n) && prs[n].head_ref_name@ == name
            && #[trigger] v.needs_sync.contains_key(k) && prs[n].state is Open
            && crate::pr_dag::state_base(v, prs, default_branch, k) == base
            && prs[n].base_ref_name@ != base implies v.order.contains(k) by {}
    if exists|k: NodeKey| #[trigger]
        v.order.contains(k) && is_pr_node(v, prs, k, n) && prs[n].head_ref_name@ == name
            && v.needs_sync.contains_key(k) && prs[n].state is Open && crate::pr_dag::state_base(
            v,
            prs,
            default_branch,
            k,
        ) == base && prs[n].base_ref_name@ != base {
        let k = choose|k: NodeKey| #[trigger]
            v.order.contains(k) && is_pr_node(v, prs, k, n) && prs[n].head_ref_name@ == name
                && v.needs_sync.contains_key(k) && prs[n].state is Open
                && crate::pr_dag::state_base(v, prs, default_branch, k) == base
                && prs[n].base_ref_name@ != base;
        assert(v.needs_sync.contains_key(k));
    }
}

proof fn lemma_warnings(
    v: RepoView,
    prs: Map<u64, &GhPr>,
    existing: Option<Set<Seq<char>>>,
    keys: Seq<NodeKey>,
    text: Seq<char>,
)
    requires
        forall|k: NodeKey| #[trigger]
            keys.contains(k) ==> crate::node_store::key_of(k, v.nodes.len()),
    ensures
        stale_warnings(v, prs, existing, keys).contains(text) <==> exists|k: NodeKey, n: u64|
            #![trigger is_pr_node(v, prs, k, n)]
            keys.contains(k) && is_pr_node(v, prs, k, n) && is_stale_warning(
                prs,
                existing,
                n,
                text,
            ),
        conflict_warnings(v, prs, keys).contains(text) <==> exists|k: NodeKey, n: u64|
            #![trigger is_pr_node(v, prs, k, n)]
            keys.contains(k) && is_pr_node(v, prs, k, n) && is_conflict_warning(
                v,
                prs,
                k,
                n,
                text,
            ),
    decreases keys.len(),
{
    if keys.len() > 0 {
        let head = keys.drop_last();
        let k = keys.last();
        lemma_last_key(keys);
        lemma_warnings(v, prs, existing, head, text);
        assert(keys.contains(k));
        lemma_targets(v, prs, k);
        let m = crate::node_graph::node_at(v.nodes, k)->Pr_0;
        let name = prs[m].head_ref_name@;
        lemma_in_pushed(
            stale_warnings(v, prs, existing, head),
            stale_text(m, name),
            text,
        );
        lemma_in_pushed(
            conflict_warnings(v, prs, head),
            conflict_text(m, name, v.conflicted.contains(k)),
            text,
        );
        if crate::node_graph::node_at(v.nodes, k) is Pr && prs.contains_key(m) {
            assert(is_pr_node(v, prs, k, m));
        }
    }
}

/// Whether `text` says that a merged PR is skipped because its merge commit is missing.
pub open spec fn is_stale_warning(
    prs: Map<u64, &GhPr>,
    existing: Option<Set<Seq<char>>>,
    n: u64,
    text: Seq<char>,
) -> bool {
    &&& prs[n].state is Merged
    &&& existing is Some && prs[n].merge_commit_oid is Some
    &&& !existing->0.contains(prs[n].merge_commit_oid->0@)
    &&& text == "skip merged "@ + (crate::gh::pr_text(n) + " ("@ + prs[n].head_ref_name@ + ")"@)
        + " — trunk stale, run `jj git fetch`"@
}

/// Whether `text` says that a PR with pending sync actions is not pushed because of content
/// conflicts, its own or those of an ancestor.
pub open spec fn is_conflict_warning(
    v: RepoView,
    prs: Map<u64, &GhPr>,
    k: NodeKey,
    n: u64,
    text: Seq<char>,
) -> bool {
    let start = "skip push "@ + (crate::gh::pr_text(n) + " ("@ + prs[n].head_ref_name@ + ")"@);
    &&& v.needs_sync.contains_key(k)
    &&& !free_of_conflicts(v, k)
    &&& v.conflicted.contains(k) ==> text == start + " — has content conflicts"@
    &&& !v.conflicted.contains(k) ==> text == start + " — ancestor has content conflicts"@
}

/// What is left out of a sync is warned of, and nothing else: merged PRs whose merge commits are
/// missing, and PRs that are not pushed because of content conflicts.
pub proof fn what_is_skipped_is_warned_of(
    v: RepoView,
    prs: Map<u64, &GhPr>,
    existing: Option<Set<Seq<char>>>,
    text: Seq<char>,
)
    requires
        crate::pr_dag::repo_ok(v),
    ensures
        planned_warnings(v, prs, existing).contains(text) <==> exists|k: NodeKey, n: u64| #[trigger]
            is_pr_node(v, prs, k, n) && (is_stale_warning(prs, existing, n, text)
                || is_conflict_warning(v, prs, k, n, text)),
{
    let a = stale_warnings(v, prs, existing, v.order);
    let b = conflict_warnings(v, prs, v.order);
    lemma_in_sum(a, b, text);
    lemma_warnings(v, prs, existing, v.order, text);
    assert forall|k: NodeKey, n: u64| #[trigger] is_pr_node(v, prs, k, n) implies v.order.contains(
        k,
    ) by {}
}

// --- Laws of the steps and the texts ---

proof fn lemma_part_within(parts: Seq<Seq<char>>, sep: Seq<char>, i: int)
    requires
        0 <= i < parts.len(),
    ensures
        crate::gh::is_within(crate::text::joined(parts, sep), parts[i]),
{
    let at = crate::render::lemma_joined_part(parts, sep, i);
    assert(crate::style::stands_at(crate::text::joined(parts, sep), at, parts[i]));
}

/// A commit is stamped by its change ID with the PR of the action, and a base is changed for the
/// PR of the action to its new base; the user is told first, and nothing else is done.
pub proof fn stamps_and_updates_are_carried_out(action: ActionView, color: bool)
    ensures
        ({
            let steps = action_steps(action, color);
            &&& steps.len() > 0 && steps[0] is Say
            &&& action matches ActionView::StampTrailer { change_id, pr } ==> steps.len() == 2
                && steps[1] == (StepView::Stamp { revision: "change_id("@ + change_id + ")"@, pr })
            &&& action matches ActionView::UpdateBase { pr, bookmark, new_base } ==> steps.len()
                == 2 && steps[1] == (StepView::EditBase { pr, base: new_base })
        }),
{
}

/// All bookmarks of a push are pushed in one step, in order, and no others.
pub proof fn pushes_are_carried_out(list: Seq<(u64, Seq<char>)>, color: bool, i: int)
    ensures
        ({
            let steps = action_steps(ActionView::Push { bookmarks: list }, color);
            &&& steps.len() == 2
            &&& steps[1] is Push
            &&& steps[1]->Push_0.len() == list.len()
            &&& 0 <= i < list.len() ==> steps[1]->Push_0[i] == list[i].1
        }),
{
}

/// A merged PR is abandoned in this order: its bookmark is deleted, exactly where it exists; the
/// roots of its changes are rebased onto the trunk; then its changes are abandoned. All of them
/// are, for each is in the revset.
pub proof fn merged_changes_are_rebased_and_abandoned(
    change_ids: Seq<Seq<char>>,
    pr: u64,
    bookmark: Seq<char>,
    exists_here: bool,
    color: bool,
    i: int,
)
    ensures
        ({
            let steps = action_steps(
                ActionView::AbandonMerged {
                    change_ids,
                    pr,
                    bookmark,
                    bookmark_exists: exists_here,
                },
                color,
            );
            let n = steps.len();
            &&& exists_here ==> n == 4 && steps[1] == StepView::DeleteBookmark(bookmark)
            &&& !exists_here ==> n == 3
            &&& steps[n - 1] is Abandon
            &&& steps[n - 2] == (StepView::Rebase {
                sources: "roots("@ + steps[n - 1]->Abandon_0 + ")"@,
                dest: "trunk()"@,
            })
            &&& 0 <= i < change_ids.len() ==> crate::gh::is_within(
                steps[n - 1]->Abandon_0,
                "change_id("@ + change_ids[i] + ")"@,
            )
        }),
{
    if 0 <= i < change_ids.len() {
        let parts = Seq::new(change_ids.len(), |j: int| "change_id("@ + change_ids[j] + ")"@);
        lemma_part_within(parts, " | "@, i);
    }
}

/// A revset of changes holds the expressions of the changes and ` | ` between neighbours, and
/// nothing else.
pub proof fn revset_holds_changes_alone(a: Seq<Seq<char>>, id: Seq<char>)
    ensures
        changes_revset(Seq::empty()).len() == 0,
        a.len() == 0 ==> changes_revset(a.push(id)) == "change_id("@ + id + ")"@,
        a.len() > 0 ==> changes_revset(a.push(id)) == changes_revset(a) + " | "@ + ("change_id("@
            + id + ")"@),
{
    let all = a.push(id);
    let f = |s: Seq<Seq<char>>| Seq::new(s.len(), |i: int| "change_id("@ + s[i] + ")"@);
    assert(f(all).drop_last() =~= f(a));
    assert(f(all).last() == "change_id("@ + id + ")"@);
}

/// An action as it is displayed names its PR, its bookmark and its new base; a push names them of
/// all its PRs. It says that a bookmark is deleted exactly where there is one to delete.
pub proof fn actions_are_displayed(action: ActionView, i: int)
    ensures
        ({
            let s = action_text(action);
            &&& action matches ActionView::StampTrailer { change_id, pr }
                ==> crate::style::stands_at(s, 6, "#"@ + crate::text::decimal(pr as nat))
            &&& action matches ActionView::AbandonMerged {
                change_ids,
                pr,
                bookmark,
                bookmark_exists,
            } ==> {
                let n = "#"@ + crate::text::decimal(pr as nat);
                &&& crate::style::stands_at(s, 15, n)
                &&& bookmark_exists ==> crate::style::stands_at(
                    s,
                    (15 + n.len()) as int,
                    " (delete "@ + bookmark + ")"@,
                )
                &&& !bookmark_exists ==> crate::style::stands_at(
                    s,
                    (15 + n.len()) as int,
                    " ("@ + bookmark + " already deleted)"@,
                )
            }
            &&& action matches ActionView::Push { bookmarks } ==> 0 <= i < bookmarks.len()
                ==> crate::gh::is_within(
                s,
                "#"@ + crate::text::decimal(bookmarks[i].0 as nat) + " ("@ + bookmarks[i].1
                    + ")"@,
            )
            &&& action matches ActionView::UpdateBase { pr, bookmark, new_base } ==> {
                let n = "#"@ + crate::text::decimal(pr as nat);
                &&& crate::style::stands_at(s, 7, n + " ("@ + bookmark + ")"@)
                &&& crate::style::stands_at(s, s.len() - new_base.len(), new_base)
            }
        }),
{
    reveal_strlit("stamp ");
    reveal_strlit("abandon merged ");
    reveal_strlit("update ");
    let s = action_text(action);
    let none = Seq::<char>::empty();
    match action {
        ActionView::StampTrailer { change_id, pr } => {
            let n = crate::gh::pr_text(pr);
            let rest = " trailer on "@ + crate::text::char_prefix_text(change_id, 12);
            assert(s =~= "stamp "@ + n + rest);
            crate::style::lemma_stands("stamp "@, n, rest);
        },
        ActionView::AbandonMerged { change_ids, pr, bookmark, bookmark_exists } => {
            let n = crate::gh::pr_text(pr);
            let w = if bookmark_exists {
                " (delete "@ + bookmark + ")"@
            } else {
                " ("@ + bookmark + " already deleted)"@
            };
            assert(s =~= "abandon merged "@ + n + w);
            crate::style::lemma_stands("abandon merged "@, n, w);
            assert(s =~= ("abandon merged "@ + n) + w + none);
            crate::style::lemma_stands("abandon merged "@ + n, w, none);
        },
        ActionView::Push { bookmarks } => {
            if 0 <= i < bookmarks.len() {
                let parts = push_texts(bookmarks);
                let all = crate::text::joined(parts, ", "@);
                lemma_part_within(parts, ", "@, i);
                crate::gh::lemma_within_sum("push: "@, all, none, parts[i]);
                assert(s =~= "push: "@ + all + none);
            }
        },
        ActionView::UpdateBase { pr, bookmark, new_base } => {
            let p = crate::gh::pr_text(pr) + " ("@ + bookmark + ")"@;
            let rest = " base -> "@ + new_base;
            assert(s =~= "update "@ + p + rest);
            crate::style::lemma_stands("update "@, p, rest);
            assert(s =~= ("update "@ + p + " base -> "@) + new_base + none);
            crate::style::lemma_stands("update "@ + p + " base -> "@, new_base, none);
        },
    }
}

} // verus!
