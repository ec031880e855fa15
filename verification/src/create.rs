//! Planning and carrying out the creation of a pull request.
use std::collections::BTreeMap;
use vstd::prelude::*;

use crate::claims::{find_pr, has_local};
use crate::gh::{GhPr, PrNum, PrState};
use crate::jj::{parse_pr_trailer, JjBookmark, JjLogEntry};
use crate::node_graph::node_ref;
use crate::node_store::NodeKey;
use crate::pr_dag::{Node, NodeView, RepoState, RepoView};
use crate::sets::{map_numbers, TextSet};
use crate::sync::pr_of_commit;
use crate::text::{join, lines, same_text, trim, u64_to_string};
use crate::types::{Bookmark, ChangeId, CommitId};

verus! {

broadcast use crate::text::lemma_views_len;

// --- Looking commits up ---

/// The index of the last entry with that commit.
pub open spec fn entry_of(entries: Seq<JjLogEntry>, commit: Seq<char>) -> Option<int>
    decreases entries.len(),
{
    if entries.len() == 0 {
        None
    } else if entries.last().commit.commit_id@ == commit {
        Some(entries.len() - 1)
    } else {
        entry_of(entries.drop_last(), commit)
    }
}

/// The index of the first entry with a local bookmark of that name.
pub open spec fn bookmark_entry(entries: Seq<JjLogEntry>, name: Seq<char>) -> Option<int>
    decreases entries.len(),
{
    if entries.len() == 0 {
        None
    } else {
        match bookmark_entry(entries.drop_last(), name) {
            Some(i) => Some(i),
            None => if crate::claims::has_local_bookmark(entries.last(), name) {
                Some(entries.len() - 1)
            } else {
                None
            },
        }
    }
}

/// The commits of the entries.
pub open spec fn commits_of(entries: Seq<JjLogEntry>) -> Set<Seq<char>> {
    Seq::new(entries.len(), |i: int| entries[i].commit.commit_id@).to_set()
}

proof fn lemma_entry_of(entries: Seq<JjLogEntry>, commit: Seq<char>)
    ensures
        entry_of(entries, commit) is Some ==> 0 <= entry_of(entries, commit)->0 < entries.len()
            && entries[entry_of(entries, commit)->0].commit.commit_id@ == commit,
        entry_of(entries, commit) is Some <==> commits_of(entries).contains(commit),
    decreases entries.len(),
{
    let all = Seq::new(entries.len(), |i: int| entries[i].commit.commit_id@);
    if entries.len() > 0 {
        let head = entries.drop_last();
        lemma_entry_of(head, commit);
        let some = Seq::new(head.len(), |i: int| head[i].commit.commit_id@);
        assert(all == some.push(entries.last().commit.commit_id@));
        crate::sets::lemma_push_to_set(some, entries.last().commit.commit_id@);
    } else {
        assert(all.to_set() =~= Set::<Seq<char>>::empty());
    }
}

proof fn lemma_bookmark_entry(entries: Seq<JjLogEntry>, name: Seq<char>, k: int)
    requires
        0 <= k <= entries.len(),
        bookmark_entry(entries.take(k), name) is Some,
    ensures
        bookmark_entry(entries, name) == bookmark_entry(entries.take(k), name),
    decreases entries.len() - k,
{
    if k < entries.len() {
        assert(entries.take(k + 1).drop_last() == entries.take(k));
        lemma_bookmark_entry(entries, name, k + 1);
    } else {
        assert(entries.take(k) == entries);
    }
}

fn find_entry(jj_entries: &Vec<JjLogEntry>, commit: &CommitId) -> (r: Option<usize>)
    ensures
        match entry_of(jj_entries@, commit@) {
            Some(i) => r is Some && r->0 == i && r->0 < jj_entries.len(),
            None => r is None,
        },
{
    let mut k: usize = jj_entries.len();
    assert(jj_entries@.take(k as int) == jj_entries@);
    while k > 0
        invariant
            k <= jj_entries.len(),
            entry_of(jj_entries@.take(k as int), commit@) == entry_of(jj_entries@, commit@),
        decreases k,
    {
        assert(jj_entries@.take(k as int).drop_last() == jj_entries@.take(k - 1));
        k = k - 1;
        if same_text(jj_entries[k].commit.commit_id.as_str(), commit.as_str()) {
            return Some(k);
        }
    }
    None
}

fn find_bookmark_entry(jj_entries: &Vec<JjLogEntry>, name: &Bookmark) -> (r: Option<usize>)
    ensures
        match bookmark_entry(jj_entries@, name@) {
            Some(i) => r is Some && r->0 == i && r->0 < jj_entries.len()
                && crate::claims::has_local_bookmark(jj_entries@[i], name@),
            None => r is None,
        },
{
    let mut k: usize = 0;
    while k < jj_entries.len()
        invariant
            k <= jj_entries.len(),
            bookmark_entry(jj_entries@.take(k as int), name@) is None,
        decreases jj_entries.len() - k,
    {
        assert(jj_entries@.take(k + 1).drop_last() == jj_entries@.take(k as int));
        if has_local(&jj_entries[k], name) {
            proof {
                lemma_bookmark_entry(jj_entries@, name@, k + 1);
            }
            return Some(k);
        }
        k = k + 1;
    }
    assert(jj_entries@.take(k as int) == jj_entries@);
    None
}

// --- The base branch ---

/// The node of a commit, if it has one.
pub open spec fn commit_node(v: RepoView, commit: Seq<char>) -> Option<NodeKey> {
    if v.owner.contains_key(commit) {
        Some(v.owner[commit])
    } else {
        None
    }
}

/// Whether a PR is known and not merged.
pub open spec fn is_unmerged(prs: Map<u64, &GhPr>, n: u64) -> bool {
    prs.contains_key(n) && !(prs[n].state is Merged)
}

/// The PR of a commit, if the commit is not of the node `tip`, which is the new PR's own.
pub open spec fn other_pr(v: RepoView, tip: Option<NodeKey>, commit: Seq<char>) -> Option<u64> {
    if commit_node(v, commit) is Some && commit_node(v, commit) != tip {
        match crate::node_graph::node_at(v.nodes, v.owner[commit]) {
            NodeView::Pr(n) => Some(n),
            _ => None,
        }
    } else {
        None
    }
}

/// The branch to base on above a PR: its own, or the default branch if it is merged or not known.
pub open spec fn branch_on(prs: Map<u64, &GhPr>, n: u64, default_branch: Seq<char>) -> Seq<char> {
    if is_unmerged(prs, n) {
        prs[n].head_ref_name@
    } else {
        default_branch
    }
}

/// The parents of a commit. There are none of a commit without entry.
pub open spec fn parents_of(entries: Seq<JjLogEntry>, commit: Seq<char>) -> Seq<Seq<char>> {
    match entry_of(entries, commit) {
        Some(i) => crate::types::commit_views(entries[i].commit.parents@),
        None => Seq::empty(),
    }
}

/// Searches the ancestors for another PR, breadth first. `queue` has the commits to look at
/// next, `seen` those that were looked at.
pub open spec fn base_search(
    v: RepoView,
    entries: Seq<JjLogEntry>,
    tip: Option<NodeKey>,
    queue: Seq<Seq<char>>,
    seen: Set<Seq<char>>,
) -> Option<u64>
    decreases commits_of(entries).difference(seen).len(), queue.len(),
    via base_search_decreases
{
    if queue.len() == 0 {
        None
    } else {
        let c = queue[0];
        let rest = queue.drop_first();
        if seen.contains(c) {
            base_search(v, entries, tip, rest, seen)
        } else if other_pr(v, tip, c) is Some {
            other_pr(v, tip, c)
        } else if entry_of(entries, c) is Some {
            base_search(v, entries, tip, rest + parents_of(entries, c), seen.insert(c))
        } else {
            base_search(v, entries, tip, rest, seen.insert(c))
        }
    }
}

#[via_fn]
proof fn base_search_decreases(
    v: RepoView,
    entries: Seq<JjLogEntry>,
    tip: Option<NodeKey>,
    queue: Seq<Seq<char>>,
    seen: Set<Seq<char>>,
) {
    if queue.len() > 0 {
        lemma_seen(entries, seen, queue[0]);
    }
}

/// Looking at a commit leaves fewer to look at, if it has an entry, and never more.
proof fn lemma_seen(entries: Seq<JjLogEntry>, seen: Set<Seq<char>>, c: Seq<char>)
    ensures
        !seen.contains(c) && entry_of(entries, c) is Some ==> commits_of(entries).difference(
            seen.insert(c),
        ).len() < commits_of(entries).difference(seen).len(),
        entry_of(entries, c) is None ==> commits_of(entries).difference(seen.insert(c)).len()
            == commits_of(entries).difference(seen).len(),
{
    broadcast use vstd::seq_lib::seq_to_set_is_finite;

    lemma_entry_of(entries, c);
    let left = commits_of(entries).difference(seen);
    assert(left.finite());
    assert(commits_of(entries).difference(seen.insert(c)) =~= left.remove(c));
    if entry_of(entries, c) is None {
        assert(left.remove(c) =~= left);
    }
}

/// The base branch for a bookmark: the branch of the nearest ancestor PR, or the default branch
/// if that PR is merged or not known or there is none.
pub open spec fn base_branch(
    v: RepoView,
    prs: Map<u64, &GhPr>,
    entries: Seq<JjLogEntry>,
    name: Seq<char>,
    default_branch: Seq<char>,
) -> Seq<char> {
    match bookmark_entry(entries, name) {
        None => default_branch,
        Some(i) => {
            let tip = entries[i].commit.commit_id@;
            match base_search(
                v,
                entries,
                commit_node(v, tip),
                parents_of(entries, tip),
                Set::empty(),
            ) {
                Some(n) => branch_on(prs, n, default_branch),
                None => default_branch,
            }
        },
    }
}

fn find_other_pr(state: &RepoState, tip_node: Option<NodeKey>, commit: &CommitId) -> (r: Option<
    u64,
>)
    requires
        state.wf(),
    ensures
        r == other_pr(state@, tip_node, commit@),
{
    let k = match state.commit_node.get(commit.as_str()) {
        Some(k) => k,
        None => {
            return None;
        },
    };
    assert(state@.owner.contains_key(commit@));
    // Skip if same node as the tip (same PR).
    let same = match tip_node {
        Some(t) => t == k,
        None => false,
    };
    if same {
        return None;
    }
    if let Node::Pr(n) = node_ref(&state.nodes, k) {
        return Some(n.get());
    }
    None
}

/// The commits that references stand for.
pub open spec fn ref_views(v: Seq<&CommitId>) -> Seq<Seq<char>> {
    Seq::new(v.len(), |i: int| v[i]@)
}

fn add_parents<'a>(queue: &mut Vec<&'a CommitId>, entry: &'a JjLogEntry)
    ensures
        ref_views(final(queue)@) == ref_views(old(queue)@) + crate::types::commit_views(
            entry.commit.parents@,
        ),
{
    let ghost start = ref_views(queue@);
    let ghost more = crate::types::commit_views(entry.commit.parents@);
    let mut j: usize = 0;
    assert(start + more.take(0) == start);
    while j < entry.commit.parents.len()
        invariant
            j <= entry.commit.parents.len(),
            more == crate::types::commit_views(entry.commit.parents@),
            ref_views(queue@) == start + more.take(j as int),
        decreases entry.commit.parents.len() - j,
    {
        let ghost before = queue@;
        queue.push(&entry.commit.parents[j]);
        proof {
            assert(ref_views(queue@) == ref_views(before).push(more[j as int]));
            assert(start + more.take(j + 1) == (start + more.take(j as int)).push(
                more[j as int],
            ));
        }
        j = j + 1;
    }
    assert(more.take(j as int) == more);
}

/// Find the base branch for a bookmark by walking the parent graph.
/// Returns the head_ref_name of the nearest ancestor PR, or `default_branch` if that is merged or
/// there is none.
pub fn find_base_branch(
    state: &RepoState,
    prs: &BTreeMap<u64, &GhPr>,
    jj_entries: &Vec<JjLogEntry>,
    bookmark: &Bookmark,
    default_branch: &Bookmark,
) -> (r: Bookmark)
    requires
        state.wf(),
    ensures
        r@ == base_branch(state@, prs@, jj_entries@, bookmark@, default_branch@),
{
    // Find the tip commit for this bookmark.
    let tip = match find_bookmark_entry(jj_entries, bookmark) {
        Some(i) => &jj_entries[i].commit.commit_id,
        None => {
            return default_branch.clone();
        },
    };
    let tip_node = state.commit_node.get(tip.as_str());
    let ghost start = parents_of(jj_entries@, tip@);
    let ghost found = base_search(
        state@,
        jj_entries@,
        tip_node,
        start,
        Set::<Seq<char>>::empty(),
    );
    let ghost known = commits_of(jj_entries@);
    // BFS up through parents looking for a commit owned by a different PR node. Trunk and
    // ambiguous commits are passed over.
    let mut queue: Vec<&CommitId> = Vec::new();
    let mut visited = TextSet::new();
    assert(ref_views(queue@) == Seq::<Seq<char>>::empty());
    if let Some(i) = find_entry(jj_entries, tip) {
        add_parents(&mut queue, &jj_entries[i]);
    }
    let mut head: usize = 0;
    proof {
        assert(ref_views(queue@) == start);
        assert(ref_views(queue@).skip(0) == ref_views(queue@));
    }
    while head < queue.len()
        invariant
            head <= queue.len(),
            state.wf(),
            visited.wf(),
            known == commits_of(jj_entries@),
            base_branch(state@, prs@, jj_entries@, bookmark@, default_branch@) == match found {
                Some(n) => branch_on(prs@, n, default_branch@),
                None => default_branch@,
            },
            found == base_search(
                state@,
                jj_entries@,
                tip_node,
                ref_views(queue@).skip(head as int),
                visited@,
            ),
        decreases known.difference(visited@).len(), queue.len() - head,
    {
        let cid = queue[head];
        let ghost q = ref_views(queue@).skip(head as int);
        assert(q[0] == cid@);
        assert(q.drop_first() == ref_views(queue@).skip(head + 1));
        proof {
            lemma_seen(jj_entries@, visited@, cid@);
        }
        head = head + 1;
        if visited.contains(cid.as_str()) {
            continue ;
        }
        if let Some(n) = find_other_pr(state, tip_node, cid) {
            // A merged PR has no branch to base on.
            if let Some(pr) = find_pr(prs, n) {
                if pr.state != PrState::Merged {
                    return pr.head_ref_name.clone();
                }
            }
            return default_branch.clone();
        }
        visited.insert(cid.as_str());
        if let Some(i) = find_entry(jj_entries, cid) {
            let ghost before = ref_views(queue@);
            add_parents(&mut queue, &jj_entries[i]);
            assert(ref_views(queue@).skip(head as int) == before.skip(head as int) + parents_of(
                jj_entries@,
                cid@,
            ));
        }
    }
    assert(ref_views(queue@).skip(head as int).len() == 0);
    default_branch.clone()
}

// --- Laws of the base ---

/// Whether `commit` is an ancestor at a distance: the commits of `start` are at distance zero,
/// and a parent is one further off than its child.
pub open spec fn at_distance(
    entries: Seq<JjLogEntry>,
    start: Seq<Seq<char>>,
    commit: Seq<char>,
    d: nat,
) -> bool
    decreases d,
{
    if d == 0 {
        start.contains(commit)
    } else {
        exists|child: Seq<char>|
            at_distance(entries, start, child, (d - 1) as nat) && #[trigger] parents_of(
                entries,
                child,
            ).contains(commit)
    }
}

proof fn lemma_farther(
    entries: Seq<JjLogEntry>,
    start: Seq<Seq<char>>,
    child: Seq<char>,
    commit: Seq<char>,
    d: nat,
)
    requires
        at_distance(entries, start, child, d),
        parents_of(entries, child).contains(commit),
    ensures
        at_distance(entries, start, commit, d + 1),
{
    assert((d + 1 - 1) as nat == d);
}

proof fn lemma_nearer(
    entries: Seq<JjLogEntry>,
    start: Seq<Seq<char>>,
    commit: Seq<char>,
    d: nat,
) -> (child: Seq<char>)
    requires
        at_distance(entries, start, commit, d + 1),
    ensures
        at_distance(entries, start, child, d),
        parents_of(entries, child).contains(commit),
{
    assert((d + 1 - 1) as nat == d);
    choose|child: Seq<char>|
        at_distance(entries, start, child, d) && #[trigger] parents_of(entries, child).contains(
            commit,
        )
}

/// Whether `commit` is of another PR, and no ancestor nearer by is.
pub open spec fn is_nearest(
    v: RepoView,
    entries: Seq<JjLogEntry>,
    tip: Option<NodeKey>,
    start: Seq<Seq<char>>,
    commit: Seq<char>,
    d: nat,
) -> bool {
    &&& at_distance(entries, start, commit, d)
    &&& other_pr(v, tip, commit) is Some
    &&& forall|c: Seq<char>, e: nat| #[trigger]
        at_distance(entries, start, c, e) && e < d ==> other_pr(v, tip, c) is None
}

/// What holds during the search: the first `k` commits of the queue are at the distance `d` and
/// the others are one further off; all that are nearer were seen, and those at the distance `d`
/// were seen or are among the first `k`; what was seen is of no other PR, and its parents
/// were seen or are in the queue.
spec fn searching(
    v: RepoView,
    entries: Seq<JjLogEntry>,
    tip: Option<NodeKey>,
    start: Seq<Seq<char>>,
    queue: Seq<Seq<char>>,
    seen: Set<Seq<char>>,
    d: nat,
    k: int,
) -> bool {
    &&& 0 <= k <= queue.len()
    &&& forall|j: int| 0 <= j < k ==> at_distance(entries, start, #[trigger] queue[j], d)
    &&& forall|j: int|
        k <= j < queue.len() ==> at_distance(entries, start, #[trigger] queue[j], d + 1)
    &&& forall|c: Seq<char>, e: nat| #[trigger]
        at_distance(entries, start, c, e) && e < d ==> seen.contains(c)
    &&& forall|c: Seq<char>| #[trigger]
        at_distance(entries, start, c, d) ==> seen.contains(c) || queue.take(k).contains(c)
    &&& forall|c: Seq<char>| #[trigger] seen.contains(c) ==> other_pr(v, tip, c) is None
    &&& forall|c: Seq<char>, p: Seq<char>| #[trigger]
        seen.contains(c) && #[trigger] parents_of(entries, c).contains(p) ==> seen.contains(p)
            || queue.contains(p)
}

/// Where the commits at the distance `d` were all seen, the search is at the next distance.
proof fn lemma_next_distance(
    v: RepoView,
    entries: Seq<JjLogEntry>,
    tip: Option<NodeKey>,
    start: Seq<Seq<char>>,
    queue: Seq<Seq<char>>,
    seen: Set<Seq<char>>,
    d: nat,
)
    requires
        searching(v, entries, tip, start, queue, seen, d, 0),
    ensures
        searching(v, entries, tip, start, queue, seen, d + 1, queue.len() as int),
{
    assert(queue.take(queue.len() as int) == queue);
    assert forall|c: Seq<char>, e: nat| #[trigger]
        at_distance(entries, start, c, e) && e < d + 1 implies seen.contains(c) by {
        if e == d {
            assert(!queue.take(0).contains(c));
        }
    }
    assert forall|c: Seq<char>| #[trigger]
        at_distance(entries, start, c, d + 1) implies seen.contains(c) || queue.contains(c) by {
        let child = lemma_nearer(entries, start, c, d);
        assert(!queue.take(0).contains(child));
        assert(seen.contains(child));
    }
}

proof fn lemma_search_is_nearest(
    v: RepoView,
    entries: Seq<JjLogEntry>,
    tip: Option<NodeKey>,
    start: Seq<Seq<char>>,
    queue: Seq<Seq<char>>,
    seen: Set<Seq<char>>,
    d: nat,
    k: int,
)
    requires
        searching(v, entries, tip, start, queue, seen, d, k),
    ensures
        match base_search(v, entries, tip, queue, seen) {
            Some(n) => exists|c: Seq<char>, e: nat|
                is_nearest(v, entries, tip, start, c, e) && other_pr(v, tip, c) == Some(n),
            None => forall|c: Seq<char>, e: nat| #[trigger]
                at_distance(entries, start, c, e) ==> other_pr(v, tip, c) is None,
        },
    decreases commits_of(entries).difference(seen).len(), queue.len(), 1 - (if k > 0 {
        1int
    } else {
        0int
    }),
{
    if queue.len() == 0 {
        lemma_next_distance(v, entries, tip, start, queue, seen, d);
        assert forall|c: Seq<char>, e: nat| #[trigger]
            at_distance(entries, start, c, e) implies other_pr(v, tip, c) is None by {
            lemma_all_seen(v, entries, tip, start, seen, d, c, e);
        }
    } else if k == 0 {
        lemma_next_distance(v, entries, tip, start, queue, seen, d);
        lemma_search_is_nearest(
            v,
            entries,
            tip,
            start,
            queue,
            seen,
            d + 1,
            queue.len() as int,
        );
    } else {
        let c = queue[0];
        let rest = queue.drop_first();
        lemma_seen(entries, seen, c);
        assert forall|x: Seq<char>| queue.contains(x) implies x == c || rest.contains(x) by {
            let j = choose|j: int| 0 <= j < queue.len() && queue[j] == x;
            if j > 0 {
                assert(rest[j - 1] == x);
            }
        }
        assert forall|x: Seq<char>| queue.take(k).contains(x) implies x == c || rest.take(
            k - 1,
        ).contains(x) by {
            let j = choose|j: int| 0 <= j < k && queue.take(k)[j] == x;
            if j > 0 {
                assert(rest.take(k - 1)[j - 1] == x);
            }
        }
        if seen.contains(c) {
            assert(searching(v, entries, tip, start, rest, seen, d, k - 1));
            lemma_search_is_nearest(v, entries, tip, start, rest, seen, d, k - 1);
        } else if other_pr(v, tip, c) is Some {
            assert(at_distance(entries, start, queue[0], d));
            assert(is_nearest(v, entries, tip, start, c, d));
        } else {
            let more = parents_of(entries, c);
            let next = rest + more;
            let now = seen.insert(c);
            assert(at_distance(entries, start, queue[0], d));
            assert forall|j: int| k - 1 <= j < next.len() implies at_distance(
                entries,
                start,
                #[trigger] next[j],
                d + 1,
            ) by {
                if j < rest.len() {
                    assert(next[j] == queue[j + 1]);
                } else {
                    assert(next[j] == more[j - rest.len()]);
                    lemma_farther(entries, start, c, next[j], d);
                }
            }
            assert forall|j: int| 0 <= j < k - 1 implies at_distance(
                entries,
                start,
                #[trigger] next[j],
                d,
            ) by {
                assert(next[j] == queue[j + 1]);
            }
            assert(next.take(k - 1) == rest.take(k - 1));
            assert forall|x: Seq<char>, p: Seq<char>| #[trigger]
                now.contains(x) && #[trigger] parents_of(entries, x).contains(
                    p,
                ) implies now.contains(p) || next.contains(p) by {
                if x == c {
                    let j = choose|j: int| 0 <= j < more.len() && more[j] == p;
                    assert(next[rest.len() + j] == p);
                } else if !seen.contains(p) && p != c {
                    assert(queue.contains(p));
                    let j = choose|j: int| 0 <= j < rest.len() && rest[j] == p;
                    assert(next[j] == p);
                }
            }
            assert(searching(v, entries, tip, start, next, now, d, k - 1));
            if entry_of(entries, c) is None {
                assert(next == rest);
            }
            lemma_search_is_nearest(v, entries, tip, start, next, now, d, k - 1);
        }
    }
}

/// At the end of the search all ancestors were seen.
proof fn lemma_all_seen(
    v: RepoView,
    entries: Seq<JjLogEntry>,
    tip: Option<NodeKey>,
    start: Seq<Seq<char>>,
    seen: Set<Seq<char>>,
    d: nat,
    c: Seq<char>,
    e: nat,
)
    requires
        searching(v, entries, tip, start, Seq::empty(), seen, d, 0),
        at_distance(entries, start, c, e),
    ensures
        seen.contains(c),
    decreases e,
{
    let none = Seq::<Seq<char>>::empty();
    if e < d {
    } else if e == d {
        assert(!none.take(0).contains(c));
    } else {
        let child = lemma_nearer(entries, start, c, (e - 1) as nat);
        lemma_all_seen(v, entries, tip, start, seen, d, child, (e - 1) as nat);
        assert(!none.contains(c));
    }
}

/// The base of a new PR is the branch of the nearest ancestor PR; it is the default branch where
/// that PR is merged or not known, and where no ancestor is of another PR.
pub proof fn base_is_the_nearest_ancestor_pr(
    v: RepoView,
    prs: Map<u64, &GhPr>,
    entries: Seq<JjLogEntry>,
    name: Seq<char>,
    default_branch: Seq<char>,
)
    requires
        bookmark_entry(entries, name) is Some,
    ensures
        ({
            let commit = entries[bookmark_entry(entries, name)->0].commit.commit_id@;
            let tip = commit_node(v, commit);
            let start = parents_of(entries, commit);
            let base = base_branch(v, prs, entries, name, default_branch);
            if exists|c: Seq<char>, d: nat| #[trigger]
                at_distance(entries, start, c, d) && other_pr(v, tip, c) is Some {
                exists|c: Seq<char>, d: nat|
                    #![trigger is_nearest(v, entries, tip, start, c, d)]
                    is_nearest(v, entries, tip, start, c, d) && base == branch_on(
                        prs,
                        other_pr(v, tip, c)->0,
                        default_branch,
                    )
            } else {
                base == default_branch
            }
        }),
{
    let commit = entries[bookmark_entry(entries, name)->0].commit.commit_id@;
    let tip = commit_node(v, commit);
    let start = parents_of(entries, commit);
    let none = Set::<Seq<char>>::empty();
    assert(start.take(start.len() as int) == start);
    assert(searching(v, entries, tip, start, start, none, 0, start.len() as int));
    lemma_search_is_nearest(v, entries, tip, start, start, none, 0, start.len() as int);
    match base_search(v, entries, tip, start, none) {
        Some(n) => {
            let (c, d) = choose|c: Seq<char>, e: nat|
                is_nearest(v, entries, tip, start, c, e) && other_pr(v, tip, c) == Some(n);
            assert(at_distance(entries, start, c, d) && other_pr(v, tip, c) is Some);
        },
        None => {},
    }
}

/// Whether a branch is the default one or that of a PR that is not merged.
pub open spec fn is_possible_base(
    prs: Map<u64, &GhPr>,
    default_branch: Seq<char>,
    base: Seq<char>,
) -> bool {
    base == default_branch || exists|n: u64| #[trigger]
        is_unmerged(prs, n) && prs[n].head_ref_name@ == base
}

/// The base of a new PR is the default branch or the branch of a PR that is not merged.
pub proof fn base_is_default_or_unmerged(
    v: RepoView,
    prs: Map<u64, &GhPr>,
    entries: Seq<JjLogEntry>,
    name: Seq<char>,
    default_branch: Seq<char>,
)
    ensures
        is_possible_base(
            prs,
            default_branch,
            base_branch(v, prs, entries, name, default_branch),
        ),
{
    if let Some(i) = bookmark_entry(entries, name) {
        let commit = entries[i].commit.commit_id@;
        let tip = commit_node(v, commit);
        let start = parents_of(entries, commit);
        base_is_the_nearest_ancestor_pr(v, prs, entries, name, default_branch);
        if exists|c: Seq<char>, d: nat| #[trigger]
            at_distance(entries, start, c, d) && other_pr(v, tip, c) is Some {
            let (c, d) = choose|c: Seq<char>, d: nat|
                #![trigger is_nearest(v, entries, tip, start, c, d)]
                is_nearest(v, entries, tip, start, c, d) && base_branch(
                    v,
                    prs,
                    entries,
                    name,
                    default_branch,
                ) == branch_on(prs, other_pr(v, tip, c)->0, default_branch);
            if is_unmerged(prs, other_pr(v, tip, c)->0) {
                assert(is_possible_base(
                    prs,
                    default_branch,
                    prs[other_pr(v, tip, c)->0].head_ref_name@,
                ));
            }
        }
    }
}

// --- The commits to stamp ---

/// Whether a node is of another PR than the given one, or is the trunk or the root.
pub open spec fn is_foreign(node: NodeView, claim: Option<u64>) -> bool {
    match node {
        NodeView::Pr(n) => claim != Some(n),
        NodeView::Root => true,
        NodeView::TrunkTip => true,
        NodeView::Ambiguous { branch_prs, trailer_prs } => false,
    }
}

/// Whether an entry may belong to a new PR: it is mutable, neither its node nor its trailer is
/// of another PR than the one that commits are claimed from.
pub open spec fn is_stampable(v: RepoView, entry: JjLogEntry, claim: Option<u64>) -> bool {
    &&& !entry.immutable
    &&& v.owner.contains_key(entry.commit.commit_id@) ==> !is_foreign(
        crate::node_graph::node_at(v.nodes, v.owner[entry.commit.commit_id@]),
        claim,
    )
    &&& crate::jj::pr_trailer(entry.commit.description@) is Some ==> crate::jj::pr_trailer(
        entry.commit.description@,
    ) == claim
}

/// Searches the ancestors for the commits of a new PR, breadth first, and gives their change
/// IDs. The search does not go past a commit that is not stampable.
pub open spec fn stamp_search(
    v: RepoView,
    entries: Seq<JjLogEntry>,
    claim: Option<u64>,
    queue: Seq<Seq<char>>,
    seen: Set<Seq<char>>,
) -> Seq<Seq<char>>
    decreases commits_of(entries).difference(seen).len(), queue.len(),
    via stamp_search_decreases
{
    if queue.len() == 0 {
        Seq::empty()
    } else {
        let c = queue[0];
        let rest = queue.drop_first();
        if seen.contains(c) {
            stamp_search(v, entries, claim, rest, seen)
        } else {
            match entry_of(entries, c) {
                Some(i) => if is_stampable(v, entries[i], claim) {
                    seq![entries[i].commit.change_id@] + stamp_search(
                        v,
                        entries,
                        claim,
                        rest + crate::types::commit_views(entries[i].commit.parents@),
                        seen.insert(c),
                    )
                } else {
                    stamp_search(v, entries, claim, rest, seen.insert(c))
                },
                None => stamp_search(v, entries, claim, rest, seen.insert(c)),
            }
        }
    }
}

#[via_fn]
proof fn stamp_search_decreases(
    v: RepoView,
    entries: Seq<JjLogEntry>,
    claim: Option<u64>,
    queue: Seq<Seq<char>>,
    seen: Set<Seq<char>>,
) {
    if queue.len() > 0 {
        lemma_seen(entries, seen, queue[0]);
    }
}

fn stampable(state: &RepoState, entry: &JjLogEntry, claim: Option<PrNum>) -> (r: bool)
    requires
        state.wf(),
    ensures
        r == is_stampable(state@, *entry, crate::jj::opt_pr(claim)),
{
    if entry.immutable {
        return false;
    }
    // Check if state already assigns this commit to another PR or trunk/root.
    if let Some(k) = state.commit_node.get(entry.commit.commit_id.as_str()) {
        assert(state@.owner.contains_key(entry.commit.commit_id@));
        let foreign = match node_ref(&state.nodes, k) {
            Node::Pr(n) => match claim {
                Some(c) => n.get() != c.get(),
                None => true,
            },
            Node::Root => true,
            Node::TrunkTip => true,
            Node::Ambiguous { .. } => false,
        };
        if foreign {
            return false;
        }
    }
    // A trailer for a different PR is not overwritten.
    match parse_pr_trailer(entry.commit.description.as_str()) {
        Some(n) => match claim {
            Some(c) => n.get() == c.get(),
            None => false,
        },
        None => true,
    }
}

/// The change IDs of the commits to stamp, from the tip commit down.
///
/// The node of each commit cannot tell alone: the state was built before the new PR existed.
/// But it is authoritative for existing PRs and the trunk, whose commits are left alone.
///
/// If the tip commit belongs to an existing PR, commits are claimed from that PR for the new
/// one: `claim` names it, and its commits are stamped anew.
fn find_stamps(
    state: &RepoState,
    jj_entries: &Vec<JjLogEntry>,
    claim: Option<PrNum>,
    tip: &CommitId,
) -> (r: Vec<ChangeId>)
    requires
        state.wf(),
    ensures
        crate::types::change_views(r@) == stamp_search(
            state@,
            jj_entries@,
            crate::jj::opt_pr(claim),
            seq![tip@],
            Set::empty(),
        ),
{
    let ghost c = crate::jj::opt_pr(claim);
    let ghost want = stamp_search(state@, jj_entries@, c, seq![tip@], Set::empty());
    let ghost known = commits_of(jj_entries@);
    let mut out: Vec<ChangeId> = Vec::new();
    let mut queue: Vec<&CommitId> = Vec::new();
    let mut visited = TextSet::new();
    queue.push(tip);
    let mut head: usize = 0;
    proof {
        assert(ref_views(queue@).skip(0) == seq![tip@]);
        assert(crate::types::change_views(out@) == Seq::<Seq<char>>::empty());
        assert(crate::types::change_views(out@) + want == want);
    }
    while head < queue.len()
        invariant
            head <= queue.len(),
            state.wf(),
            visited.wf(),
            known == commits_of(jj_entries@),
            c == crate::jj::opt_pr(claim),
            want == stamp_search(state@, jj_entries@, c, seq![tip@], Set::empty()),
            want == crate::types::change_views(out@) + stamp_search(
                state@,
                jj_entries@,
                c,
                ref_views(queue@).skip(head as int),
                visited@,
            ),
        decreases known.difference(visited@).len(), queue.len() - head,
    {
        let cid = queue[head];
        let ghost q = ref_views(queue@).skip(head as int);
        assert(q[0] == cid@);
        assert(q.drop_first() == ref_views(queue@).skip(head + 1));
        proof {
            lemma_seen(jj_entries@, visited@, cid@);
        }
        head = head + 1;
        if visited.contains(cid.as_str()) {
            continue ;
        }
        visited.insert(cid.as_str());
        if let Some(i) = find_entry(jj_entries, cid) {
            let entry = &jj_entries[i];
            if stampable(state, entry, claim) {
                let id = entry.commit.change_id.clone();
                let ghost view = id@;
                let ghost sofar = out@;
                let ghost before = ref_views(queue@);
                out.push(id);
                add_parents(&mut queue, entry);
                proof {
                    let more = crate::types::commit_views(entry.commit.parents@);
                    let rest = ref_views(queue@).skip(head as int);
                    assert(rest == before.skip(head as int) + more);
                    let tail = stamp_search(state@, jj_entries@, c, rest, visited@);
                    assert(crate::types::change_views(out@) == crate::types::change_views(
                        sofar,
                    ).push(view));
                    assert(crate::types::change_views(sofar) + (seq![view] + tail)
                        == crate::types::change_views(out@) + tail);
                }
            }
        }
    }
    proof {
        assert(ref_views(queue@).skip(head as int).len() == 0);
        assert(want == crate::types::change_views(out@) + Seq::<Seq<char>>::empty());
        assert(crate::types::change_views(out@) + Seq::<Seq<char>>::empty()
            == crate::types::change_views(out@));
    }
    out
}

// --- The plan ---

/// The planned actions for creating a new PR.
#[derive(Debug)]
pub struct CreatePlan {
    pub bookmark: Bookmark,
    pub base: Bookmark,
    pub title: String,
    pub body: String,
    /// Change IDs of commits that will be stamped with the PR trailer.
    pub stamp_change_ids: Vec<ChangeId>,
}

/// Why a PR cannot be created.
#[derive(Debug)]
pub enum CreateError {
    /// There is no such bookmark.
    NotFound(String),
    /// The bookmark is conflicted.
    Conflicted(String),
    /// The bookmark already has a PR.
    Exists(String, PrNum),
}

/// The first local bookmark of that name in an entry.
pub open spec fn named_bookmark(entry: JjLogEntry, name: Seq<char>, k: nat) -> Option<int>
    decreases k,
{
    if k == 0 {
        None
    } else {
        match named_bookmark(entry, name, (k - 1) as nat) {
            Some(i) => Some(i),
            None => if entry.local_bookmarks@[k - 1].name@ == name {
                Some(k - 1)
            } else {
                None
            },
        }
    }
}

/// How many sides the bookmark has at an entry.
pub open spec fn target_count(entry: JjLogEntry, name: Seq<char>) -> nat {
    entry.local_bookmarks@[named_bookmark(
        entry,
        name,
        entry.local_bookmarks@.len(),
    )->0].target@.len()
}

/// Whether `n` is the PR with the lowest number for the branch `name`.
pub open spec fn is_first_pr(prs: Map<u64, &GhPr>, name: Seq<char>, n: u64) -> bool {
    &&& crate::claims::has_head(prs, name, n)
    &&& forall|m: u64| #[trigger] crate::claims::has_head(prs, name, m) ==> n <= m
}

/// The title of a PR by default: the first line of the description.
pub open spec fn default_title(description: Seq<char>) -> Seq<char> {
    if crate::text::line_seq(description).len() == 0 {
        "untitled"@
    } else {
        crate::text::line_seq(description)[0]
    }
}

/// The body of a PR by default: the other lines of the description, trimmed.
pub open spec fn default_body(description: Seq<char>) -> Seq<char> {
    let all = crate::text::line_seq(description);
    if all.len() == 0 {
        Seq::empty()
    } else {
        crate::text::trimmed(crate::text::joined(all.drop_first(), "\n"@))
    }
}

fn title_of(description: &str) -> (r: String)
    ensures
        r@ == default_title(description@),
{
    let all = lines(description);
    if all.len() == 0 {
        "untitled".to_owned()
    } else {
        all[0].clone()
    }
}

fn body_of(description: &str) -> (r: String)
    ensures
        r@ == default_body(description@),
{
    let mut all = lines(description);
    let ghost texts = crate::text::views(all@);
    if all.len() > 0 {
        all.remove(0);
        assert(crate::text::views(all@) == texts.drop_first());
    }
    trim(join(&all, "\n").as_str())
}

fn find_named<'a>(entry: &'a JjLogEntry, name: &Bookmark) -> (r: &'a JjBookmark)
    requires
        crate::claims::has_local_bookmark(*entry, name@),
    ensures
        named_bookmark(*entry, name@, entry.local_bookmarks@.len()) is Some,
        *r == entry.local_bookmarks@[named_bookmark(
            *entry,
            name@,
            entry.local_bookmarks@.len(),
        )->0],
{
    let ghost at = choose|j: int|
        0 <= j < entry.local_bookmarks@.len() && #[trigger] entry.local_bookmarks@[j].name@
            == name@;
    let mut k: usize = 0;
    while k < entry.local_bookmarks.len() && !same_text(
        entry.local_bookmarks[k].name.as_str(),
        name.as_str(),
    )
        invariant
            k <= entry.local_bookmarks.len(),
            0 <= at < entry.local_bookmarks@.len(),
            entry.local_bookmarks@[at].name@ == name@,
            k <= at,
            named_bookmark(*entry, name@, k as nat) is None,
        decreases entry.local_bookmarks.len() - k,
    {
        k = k + 1;
    }
    proof {
        lemma_named_bookmark(*entry, name@, (k + 1) as nat);
    }
    &entry.local_bookmarks[k]
}

proof fn lemma_named_bookmark(entry: JjLogEntry, name: Seq<char>, k: nat)
    requires
        k <= entry.local_bookmarks@.len(),
        named_bookmark(entry, name, k) is Some,
    ensures
        named_bookmark(entry, name, entry.local_bookmarks@.len()) == named_bookmark(
            entry,
            name,
            k,
        ),
    decreases entry.local_bookmarks@.len() - k,
{
    if k < entry.local_bookmarks@.len() {
        lemma_named_bookmark(entry, name, k + 1);
    }
}

fn find_first_pr<'a>(prs: &BTreeMap<u64, &'a GhPr>, name: &Bookmark) -> (r: Option<&'a GhPr>)
    requires
        crate::claims::prs_wf(prs@),
    ensures
        r is None ==> forall|n: u64| !#[trigger] crate::claims::has_head(prs@, name@, n),
        r is Some ==> is_first_pr(prs@, name@, r->0.number@),
{
    let numbers = map_numbers(prs);
    let mut k: usize = 0;
    while k < numbers.len()
        invariant
            k <= numbers.len(),
            crate::claims::prs_wf(prs@),
            crate::order::ascending(crate::order::num_less(), numbers@),
            numbers@.to_set() == prs@.dom(),
            forall|i: int|
                0 <= i < k ==> !crate::claims::has_head(prs@, name@, #[trigger] numbers@[i]),
        decreases numbers.len() - k,
    {
        assert(numbers@.to_set().contains(numbers@[k as int]));
        if let Some(pr) = find_pr(prs, numbers[k]) {
            if same_text(pr.head_ref_name.as_str(), name.as_str()) {
                proof {
                    let n = numbers@[k as int];
                    assert forall|m: u64| #[trigger]
                        crate::claims::has_head(prs@, name@, m) implies n <= m by {
                        assert(numbers@.to_set().contains(m));
                        let i = choose|i: int| 0 <= i < numbers.len() && numbers@[i] == m;
                        assert(numbers@[i] == m);
                        if i > k {
                            let less = crate::order::num_less();
                            assert(less(numbers@[k as int], numbers@[i]));
                        }
                    }
                }
                return Some(pr);
            }
        }
        k = k + 1;
    }
    proof {
        assert forall|n: u64| !#[trigger] crate::claims::has_head(prs@, name@, n) by {
            if crate::claims::has_head(prs@, name@, n) {
                assert(numbers@.to_set().contains(n));
                let i = choose|i: int| 0 <= i < numbers.len() && numbers@[i] == n;
                assert(!crate::claims::has_head(prs@, name@, numbers@[i]));
            }
        }
    }
    None
}

/// What a plan for a new PR says, when there is no reason against it.
pub open spec fn is_plan(
    plan: CreatePlan,
    v: RepoView,
    prs: Map<u64, &GhPr>,
    entries: Seq<JjLogEntry>,
    default_branch: Seq<char>,
    name: Seq<char>,
    title: Option<Seq<char>>,
    body: Option<Seq<char>>,
) -> bool {
    let tip = entries[bookmark_entry(entries, name)->0].commit;
    &&& plan.bookmark@ == name
    &&& plan.base@ == base_branch(v, prs, entries, name, default_branch)
    &&& plan.title@ == match title {
        Some(t) => t,
        None => default_title(tip.description@),
    }
    &&& plan.body@ == match body {
        Some(b) => b,
        None => default_body(tip.description@),
    }
    &&& crate::types::change_views(plan.stamp_change_ids@) == stamp_search(
        v,
        entries,
        crate::sync::commit_pr(v, tip.commit_id@),
        seq![tip.commit_id@],
        Set::empty(),
    )
}

/// Why no PR can be created for a bookmark.
pub enum Refusal {
    /// No commit has the bookmark.
    NotFound,
    /// The bookmark is conflicted.
    Conflicted,
    /// There is a PR for the bookmark.
    Exists,
}

/// Why no PR can be created for a bookmark, if there is a reason. The first one counts.
pub open spec fn refusal(
    prs: Map<u64, &GhPr>,
    entries: Seq<JjLogEntry>,
    name: Seq<char>,
) -> Option<Refusal> {
    match bookmark_entry(entries, name) {
        None => Some(Refusal::NotFound),
        Some(i) => if target_count(entries[i], name) != 1 {
            Some(Refusal::Conflicted)
        } else if exists|n: u64| crate::claims::has_head(prs, name, n) {
            Some(Refusal::Exists)
        } else {
            None
        },
    }
}

/// Plan the creation of a new PR for an existing bookmark. Pure: no side effects.
pub fn plan_create(
    state: &RepoState,
    prs: &BTreeMap<u64, &GhPr>,
    jj_entries: &Vec<JjLogEntry>,
    default_branch: &Bookmark,
    bookmark: &str,
    title: Option<&str>,
    body: Option<&str>,
) -> (r: Result<CreatePlan, CreateError>)
    requires
        state.wf(),
        crate::claims::prs_wf(prs@),
    ensures
        match refusal(prs@, jj_entries@, bookmark@) {
            Some(Refusal::NotFound) => r is Err && r->Err_0 is NotFound,
            Some(Refusal::Conflicted) => r is Err && r->Err_0 is Conflicted,
            Some(Refusal::Exists) => r is Err && r->Err_0 is Exists,
            None => r is Ok,
        },
        match bookmark_entry(jj_entries@, bookmark@) {
            None => r is Err && r->Err_0 is NotFound && r->Err_0->NotFound_0@ == bookmark@,
            Some(i) => if target_count(jj_entries@[i], bookmark@) != 1 {
                r is Err && r->Err_0 is Conflicted && r->Err_0->Conflicted_0@ == bookmark@
            } else if exists|n: u64| crate::claims::has_head(prs@, bookmark@, n) {
                r is Err && r->Err_0 is Exists && r->Err_0->Exists_0@ == bookmark@
                    && is_first_pr(prs@, bookmark@, r->Err_0->Exists_1@)
            } else {
                r is Ok && is_plan(
                    r->Ok_0,
                    state@,
                    prs@,
                    jj_entries@,
                    default_branch@,
                    bookmark@,
                    crate::style::opt_text(title),
                    crate::style::opt_text(body),
                )
            },
        },
{
    let name = Bookmark(bookmark.to_owned());
    // Verify bookmark exists.
    let at = match find_bookmark_entry(jj_entries, &name) {
        Some(i) => i,
        None => {
            return Err(CreateError::NotFound(bookmark.to_owned()));
        },
    };
    let tip = &jj_entries[at];
    // Reject conflicted bookmarks.
    if find_named(tip, &name).target.len() != 1 {
        return Err(CreateError::Conflicted(bookmark.to_owned()));
    }
    // Verify no PR already exists for this bookmark.

    if let Some(existing) = find_first_pr(prs, &name) {
        assert(crate::claims::has_head(prs@, bookmark@, existing.number@));
        return Err(CreateError::Exists(bookmark.to_owned(), existing.number));
    }
    let base = find_base_branch(state, prs, jj_entries, &name, default_branch);
    let title = match title {
        Some(t) => t.to_owned(),
        None => title_of(tip.commit.description.as_str()),
    };
    let body = match body {
        Some(b) => b.to_owned(),
        None => body_of(tip.commit.description.as_str()),
    };
    let claim_from_pr = pr_of_commit(state, &tip.commit.commit_id);
    let stamp_change_ids = find_stamps(state, jj_entries, claim_from_pr, &tip.commit.commit_id);
    Ok(CreatePlan { bookmark: name, base, title, body, stamp_change_ids })
}

// --- The texts ---

impl CreateError {
    /// The error as it is displayed.
    pub fn message(&self) -> (r: String)
        ensures
            r@ == match self {
                CreateError::NotFound(name) => "bookmark '"@ + name@
                    + "' not found — create it with `jj bookmark create "@ + name@ + "`"@,
                CreateError::Conflicted(name) => "bookmark '"@ + name@
                    + "' is conflicted — resolve with `jj bookmark set "@ + name@
                    + "` before creating a PR"@,
                CreateError::Exists(name, pr) => "bookmark '"@ + name@ + "' already has "@
                    + crate::gh::pr_text(pr@) + " — use `jj-pr sync` to update it"@,
            },
    {
        let mut s = "bookmark '".to_owned();
        match self {
            CreateError::NotFound(name) => {
                s.append(name.as_str());
                s.append("' not found — create it with `jj bookmark create ");
                s.append(name.as_str());
                s.append("`");
            },
            CreateError::Conflicted(name) => {
                s.append(name.as_str());
                s.append("' is conflicted — resolve with `jj bookmark set ");
                s.append(name.as_str());
                s.append("` before creating a PR");
            },
            CreateError::Exists(name, pr) => {
                s.append(name.as_str());
                s.append("' already has ");
                s.append(pr.display().as_str());
                s.append(" — use `jj-pr sync` to update it");
            },
        }
        s
    }
}

/// A plan as it is displayed.
pub open spec fn plan_text(
    bookmark: Seq<char>,
    base: Seq<char>,
    title: Seq<char>,
    stamped: nat,
) -> Seq<char> {
    let head = "push "@ + bookmark + "\n"@ + "create PR: \""@ + title + "\" ("@ + bookmark + " → "@
        + base + ") [draft]\n"@;
    if stamped == 0 {
        head
    } else {
        head + "stamp trailer on "@ + crate::text::decimal(stamped) + " commit(s)\n"@
    }
}

impl CreatePlan {
    /// The plan as it is displayed.
    pub fn display(&self) -> (r: String)
        ensures
            r@ == plan_text(
                self.bookmark@,
                self.base@,
                self.title@,
                self.stamp_change_ids@.len(),
            ),
    {
        let mut s = "push ".to_owned();
        s.append(self.bookmark.as_str());
        s.append("\n");
        s.append("create PR: \"");
        s.append(self.title.as_str());
        s.append("\" (");
        s.append(self.bookmark.as_str());
        s.append(" → ");
        s.append(self.base.as_str());
        s.append(") [draft]\n");
        if self.stamp_change_ids.len() > 0 {
            s.append("stamp trailer on ");
            s.append(u64_to_string(self.stamp_change_ids.len() as u64).as_str());
            s.append(" commit(s)\n");
        }
        s
    }
}

// --- Carrying the plan out ---

/// A step of the creation of a PR, for the caller to take.
pub enum CreateStep {
    /// Tell the user.
    Say(String),
    /// Track the bookmark on the remote; that this fails is no error, for the remote bookmark
    /// may not exist yet.
    Track { bookmark: Bookmark, remote: String },
    /// Push the bookmark.
    Push(Bookmark),
    /// Create the PR on GitHub.
    Create { head: Bookmark, base: Bookmark, title: String, body: String, draft: bool },
    /// Read the description of the revision, set its PR trailer and write it back.
    Stamp { revision: String, pr: PrNum },
}

/// What a step says.
#[verifier::ext_equal]
pub enum CreateStepView {
    Say(Seq<char>),
    Track { bookmark: Seq<char>, remote: Seq<char> },
    Push(Seq<char>),
    Create { head: Seq<char>, base: Seq<char>, title: Seq<char>, body: Seq<char>, draft: bool },
    Stamp { revision: Seq<char>, pr: u64 },
}

impl View for CreateStep {
    type V = CreateStepView;

    open spec fn view(&self) -> CreateStepView {
        match self {
            CreateStep::Say(s) => CreateStepView::Say(s@),
            CreateStep::Track { bookmark, remote } => CreateStepView::Track {
                bookmark: bookmark@,
                remote: remote@,
            },
            CreateStep::Push(b) => CreateStepView::Push(b@),
            CreateStep::Create { head, base, title, body, draft } => CreateStepView::Create {
                head: head@,
                base: base@,
                title: title@,
                body: body@,
                draft: *draft,
            },
            CreateStep::Stamp { revision, pr } => CreateStepView::Stamp {
                revision: revision@,
                pr: pr@,
            },
        }
    }
}

/// What a list of steps says.
pub open spec fn create_step_views(steps: Seq<CreateStep>) -> Seq<CreateStepView> {
    Seq::new(steps.len(), |i: int| steps[i]@)
}

/// The steps up to the creation of the PR.
pub open spec fn steps_before(
    bookmark: Seq<char>,
    base: Seq<char>,
    title: Seq<char>,
    body: Seq<char>,
    remote: Seq<char>,
    color: bool,
) -> Seq<CreateStepView> {
    let name = crate::style::bookmark_text(bookmark, color);
    seq![
        CreateStepView::Track { bookmark, remote },
        CreateStepView::Say("Pushing "@ + name),
        CreateStepView::Push(bookmark),
        CreateStepView::Say(
            "Creating PR: "@ + title + " ("@ + name + " → "@ + crate::style::bookmark_text(
                base,
                color,
            ) + ") [draft]"@,
        ),
        CreateStepView::Create { head: bookmark, base, title, body, draft: true },
    ]
}

/// The steps up to the creation of the PR.
pub fn create_steps(plan: &CreatePlan, push_remote: &str, color: bool) -> (r: Vec<CreateStep>)
    ensures
        create_step_views(r@) == steps_before(
            plan.bookmark@,
            plan.base@,
            plan.title@,
            plan.body@,
            push_remote@,
            color,
        ),
        create_step_views(r@) == seq![
            CreateStepView::Track { bookmark: plan.bookmark@, remote: push_remote@ },
            CreateStepView::Say(
                "Pushing "@ + crate::style::bookmark_text(plan.bookmark@, color),
            ),
            CreateStepView::Push(plan.bookmark@),
            CreateStepView::Say(
                "Creating PR: "@ + plan.title@ + " ("@ + crate::style::bookmark_text(
                    plan.bookmark@,
                    color,
                ) + " → "@ + crate::style::bookmark_text(plan.base@, color) + ") [draft]"@,
            ),
            CreateStepView::Create {
                head: plan.bookmark@,
                base: plan.base@,
                title: plan.title@,
                body: plan.body@,
                draft: true,
            },
        ],
{
    let mut steps: Vec<CreateStep> = Vec::new();
    steps.push(
        CreateStep::Track { bookmark: plan.bookmark.clone(), remote: push_remote.to_owned() },
    );
    let mut pushing = "Pushing ".to_owned();
    pushing.append(crate::style::bookmark(&plan.bookmark, color).as_str());
    steps.push(CreateStep::Say(pushing));
    steps.push(CreateStep::Push(plan.bookmark.clone()));
    let mut creating = "Creating PR: ".to_owned();
    creating.append(plan.title.as_str());
    creating.append(" (");
    creating.append(crate::style::bookmark(&plan.bookmark, color).as_str());
    creating.append(" → ");
    creating.append(crate::style::bookmark(&plan.base, color).as_str());
    creating.append(") [draft]");
    steps.push(CreateStep::Say(creating));
    steps.push(
        CreateStep::Create {
            head: plan.bookmark.clone(),
            base: plan.base.clone(),
            title: plan.title.clone(),
            body: plan.body.clone(),
            draft: true,
        },
    );
    steps
}

/// The stamping of the changes.
pub open spec fn stamp_steps(ids: Seq<Seq<char>>, pr: u64) -> Seq<CreateStepView> {
    Seq::new(
        ids.len(),
        |i: int| CreateStepView::Stamp { revision: "change_id("@ + ids[i] + ")"@, pr },
    )
}

/// The steps after the creation of the PR.
pub open spec fn steps_after(
    ids: Seq<Seq<char>>,
    pr: u64,
    url: Seq<char>,
    color: bool,
) -> Seq<CreateStepView> {
    let created = seq![
        CreateStepView::Say("Created "@ + crate::style::pr_num_text(pr, Some(url), color)),
    ];
    if ids.len() == 0 {
        created
    } else {
        created + stamp_steps(ids, pr) + seq![
            CreateStepView::Say(
                "Stamped "@ + crate::style::pr_num_text(pr, None, color) + " on "@
                    + crate::text::decimal(ids.len()) + " commit(s)"@,
            ),
        ]
    }
}

/// The steps after the creation of the PR, which has got a number and a URL.
pub fn created_steps(plan: &CreatePlan, pr: PrNum, url: &str, color: bool) -> (r: Vec<CreateStep>)
    ensures
        create_step_views(r@) == steps_after(
            crate::types::change_views(plan.stamp_change_ids@),
            pr@,
            url@,
            color,
        ),
{
    let ghost ids = crate::types::change_views(plan.stamp_change_ids@);
    let mut steps: Vec<CreateStep> = Vec::new();
    let mut created = "Created ".to_owned();
    created.append(crate::style::pr_num(pr, Some(url), color).as_str());
    steps.push(CreateStep::Say(created));
    let ghost head = create_step_views(steps@);
    let ghost stamps = stamp_steps(ids, pr@);
    let n = plan.stamp_change_ids.len();
    let mut i: usize = 0;
    assert(head + stamps.take(0) == head);
    while i < n
        invariant
            i <= n == plan.stamp_change_ids.len(),
            ids == crate::types::change_views(plan.stamp_change_ids@),
            stamps == stamp_steps(ids, pr@),
            create_step_views(steps@) == head + stamps.take(i as int),
        decreases n - i,
    {
        let id = &plan.stamp_change_ids[i];
        let step = CreateStep::Stamp {
            revision: crate::types::AsRevset::as_revset(id).as_str().to_owned(),
            pr,
        };
        let ghost view = step@;
        let ghost before = steps@;
        steps.push(step);
        proof {
            assert(create_step_views(steps@) == create_step_views(before).push(view));
            assert(stamps[i as int] == view);
            assert(head + stamps.take(i + 1) == (head + stamps.take(i as int)).push(view));
        }
        i = i + 1;
    }
    assert(stamps.take(i as int) == stamps);
    if n > 0 {
        let mut stamped = "Stamped ".to_owned();
        stamped.append(crate::style::pr_num(pr, None, color).as_str());
        stamped.append(" on ");
        stamped.append(u64_to_string(n as u64).as_str());
        stamped.append(" commit(s)");
        let ghost text = stamped@;
        let ghost before = steps@;
        steps.push(CreateStep::Say(stamped));
        assert(create_step_views(steps@) == create_step_views(before).push(
            CreateStepView::Say(text),
        ));
    }
    assert(create_step_views(steps@) =~= steps_after(ids, pr@, url@, color));
    steps
}

// --- What is stamped ---

/// Whether `id` is the change of an entry that may belong to a new PR.
pub open spec fn is_stampable_change(
    v: RepoView,
    entries: Seq<JjLogEntry>,
    claim: Option<u64>,
    id: Seq<char>,
) -> bool {
    exists|i: int|
        0 <= i < entries.len() && is_stampable(v, #[trigger] entries[i], claim)
            && entries[i].commit.change_id@ == id
}

proof fn lemma_stamp_search(
    v: RepoView,
    entries: Seq<JjLogEntry>,
    claim: Option<u64>,
    queue: Seq<Seq<char>>,
    seen: Set<Seq<char>>,
)
    ensures
        forall|j: int|
            0 <= j < stamp_search(v, entries, claim, queue, seen).len() ==> is_stampable_change(
                v,
                entries,
                claim,
                #[trigger] stamp_search(v, entries, claim, queue, seen)[j],
            ),
    decreases commits_of(entries).difference(seen).len(), queue.len(),
{
    if queue.len() > 0 {
        let c = queue[0];
        let rest = queue.drop_first();
        lemma_seen(entries, seen, c);
        lemma_entry_of(entries, c);
        if seen.contains(c) {
            lemma_stamp_search(v, entries, claim, rest, seen);
            assert(stamp_search(v, entries, claim, queue, seen) == stamp_search(
                v,
                entries,
                claim,
                rest,
                seen,
            ));
        } else if entry_of(entries, c) is Some && is_stampable(
            v,
            entries[entry_of(entries, c)->0],
            claim,
        ) {
            let i = entry_of(entries, c)->0;
            let next = rest + crate::types::commit_views(entries[i].commit.parents@);
            lemma_stamp_search(v, entries, claim, next, seen.insert(c));
            let all = stamp_search(v, entries, claim, queue, seen);
            let tail = stamp_search(v, entries, claim, next, seen.insert(c));
            assert forall|j: int| 0 <= j < all.len() implies is_stampable_change(
                v,
                entries,
                claim,
                #[trigger] all[j],
            ) by {
                if j > 0 {
                    assert(all[j] == tail[j - 1]);
                } else {
                    assert(is_stampable(v, entries[i], claim));
                }
            }
        } else {
            lemma_stamp_search(v, entries, claim, rest, seen.insert(c));
            assert(stamp_search(v, entries, claim, queue, seen) == stamp_search(
                v,
                entries,
                claim,
                rest,
                seen.insert(c),
            ));
        }
    } else {
        assert(stamp_search(v, entries, claim, queue, seen).len() == 0);
    }
}

/// A new PR stamps mutable commits alone, and none that belongs to another PR, to the trunk or
/// to the root, nor one whose trailer names another PR. The only PR whose commits it takes is
/// that of its own tip.
pub proof fn only_stampable_changes_are_stamped(
    plan: CreatePlan,
    v: RepoView,
    prs: Map<u64, &GhPr>,
    entries: Seq<JjLogEntry>,
    default_branch: Seq<char>,
    name: Seq<char>,
    title: Option<Seq<char>>,
    body: Option<Seq<char>>,
)
    requires
        is_plan(plan, v, prs, entries, default_branch, name, title, body),
    ensures
        forall|j: int|
            0 <= j < plan.stamp_change_ids@.len() ==> is_stampable_change(
                v,
                entries,
                crate::sync::commit_pr(
                    v,
                    entries[bookmark_entry(entries, name)->0].commit.commit_id@,
                ),
                #[trigger] plan.stamp_change_ids@[j]@,
            ),
{
    let tip = entries[bookmark_entry(entries, name)->0].commit.commit_id@;
    let claim = crate::sync::commit_pr(v, tip);
    lemma_stamp_search(v, entries, claim, seq![tip], Set::empty());
    let ids = crate::types::change_views(plan.stamp_change_ids@);
    assert forall|j: int| 0 <= j < plan.stamp_change_ids@.len() implies is_stampable_change(
        v,
        entries,
        claim,
        #[trigger] plan.stamp_change_ids@[j]@,
    ) by {
        assert(ids[j] == plan.stamp_change_ids@[j]@);
        assert(is_stampable_change(
            v,
            entries,
            claim,
            stamp_search(v, entries, claim, seq![tip], Set::empty())[j],
        ));
    }
}

// --- Laws of the plan ---

/// Whether the entry `i` is the last one of that commit.
pub open spec fn is_entry(entries: Seq<JjLogEntry>, commit: Seq<char>, i: int) -> bool {
    &&& 0 <= i < entries.len()
    &&& entries[i].commit.commit_id@ == commit
    &&& forall|j: int|
        i < j < entries.len() ==> (#[trigger] entries[j]).commit.commit_id@ != commit
}

/// Whether a commit is a parent of another one.
pub open spec fn has_parent(entries: Seq<JjLogEntry>, child: Seq<char>, commit: Seq<char>) -> bool {
    exists|i: int, p: int|
        #![trigger entries[i].commit.parents@[p]]
        is_entry(entries, child, i) && 0 <= p < entries[i].commit.parents@.len()
            && entries[i].commit.parents@[p]@ == commit
}

/// The PR whose node a commit is part of.
pub open spec fn own_pr(v: RepoView, commit: Seq<char>) -> Option<u64> {
    if v.owner.contains_key(commit) && crate::node_graph::node_at(
        v.nodes,
        v.owner[commit],
    ) is Pr {
        Some(crate::node_graph::node_at(v.nodes, v.owner[commit])->Pr_0)
    } else {
        None
    }
}

/// Whether a new PR whose tip is of the PR `own`, if of any, takes a commit: the commit can be
/// changed, it is of no node, ambiguous or of the tip's own PR, and it has no trailer but that of
/// the tip's own PR.
pub open spec fn is_taken(
    v: RepoView,
    entries: Seq<JjLogEntry>,
    own: Option<u64>,
    commit: Seq<char>,
) -> bool {
    exists|i: int| #[trigger]
        is_entry(entries, commit, i) && !entries[i].immutable && (v.owner.contains_key(commit) ==> {
            let node = crate::node_graph::node_at(v.nodes, v.owner[commit]);
            node is Ambiguous || (node is Pr && own == Some(node->Pr_0))
        }) && (match crate::jj::pr_trailer(entries[i].commit.description@) {
            None => true,
            Some(n) => own == Some(n),
        })
}

/// Whether a commit is taken, and is reached from the tip through commits that are taken, by that
/// many steps.
pub open spec fn is_taken_at(
    v: RepoView,
    entries: Seq<JjLogEntry>,
    tip: Seq<char>,
    commit: Seq<char>,
    d: nat,
) -> bool
    decreases d,
{
    &&& is_taken(v, entries, own_pr(v, tip), commit)
    &&& if d == 0 {
        commit == tip
    } else {
        exists|child: Seq<char>| #[trigger]
            has_parent(entries, child, commit) && is_taken_at(
                v,
                entries,
                tip,
                child,
                (d - 1) as nat,
            )
    }
}

proof fn lemma_is_entry(entries: Seq<JjLogEntry>, commit: Seq<char>, i: int)
    ensures
        is_entry(entries, commit, i) <==> entry_of(entries, commit) == Some(i),
    decreases entries.len(),
{
    if entries.len() > 0 {
        let head = entries.drop_last();
        let at = entries.len() - 1;
        lemma_entry_of(entries, commit);
        if entries[at].commit.commit_id@ == commit {
            if is_entry(entries, commit, i) && i < at {
                assert(entries[at].commit.commit_id@ != commit);
            }
        } else {
            lemma_is_entry(head, commit, i);
            if is_entry(entries, commit, i) {
                assert(i < at);
                assert(head[i] == entries[i]);
                assert forall|j: int| i < j < head.len() implies (
                #[trigger] head[j]).commit.commit_id@ != commit by {
                    assert(head[j] == entries[j]);
                }
            }
            if is_entry(head, commit, i) {
                assert(entries[i] == head[i]);
                assert forall|j: int| i < j < entries.len() implies (
                #[trigger] entries[j]).commit.commit_id@ != commit by {
                    if j < at {
                        assert(head[j] == entries[j]);
                    }
                }
            }
        }
    }
}

proof fn lemma_has_parent(entries: Seq<JjLogEntry>, child: Seq<char>, commit: Seq<char>)
    ensures
        has_parent(entries, child, commit) <==> parents_of(entries, child).contains(commit),
{
    let list = parents_of(entries, child);
    if has_parent(entries, child, commit) {
        let (i, p) = choose|i: int, p: int|
            #![trigger entries[i].commit.parents@[p]]
            is_entry(entries, child, i) && 0 <= p < entries[i].commit.parents@.len()
                && entries[i].commit.parents@[p]@ == commit;
        lemma_is_entry(entries, child, i);
        assert(list[p] == commit);
    }
    if list.contains(commit) {
        let p = choose|p: int| 0 <= p < list.len() && list[p] == commit;
        let i = entry_of(entries, child)->0;
        lemma_is_entry(entries, child, i);
        lemma_entry_of(entries, child);
        assert(entries[i].commit.parents@[p]@ == commit);
    }
}

proof fn lemma_is_taken(
    v: RepoView,
    entries: Seq<JjLogEntry>,
    own: Option<u64>,
    commit: Seq<char>,
)
    ensures
        is_taken(v, entries, own, commit) <==> entry_of(entries, commit) is Some && is_stampable(
            v,
            entries[entry_of(entries, commit)->0],
            own,
        ),
{
    lemma_entry_of(entries, commit);
    if entry_of(entries, commit) is Some {
        let i = entry_of(entries, commit)->0;
        lemma_is_entry(entries, commit, i);
        assert forall|j: int| #[trigger] is_entry(entries, commit, j) implies j == i by {
            lemma_is_entry(entries, commit, j);
        }
    } else {
        assert forall|j: int| !#[trigger] is_entry(entries, commit, j) by {
            lemma_is_entry(entries, commit, j);
        }
    }
}

/// The commits that the search for commits to stamp finds.
spec fn stamped_commits(
    v: RepoView,
    entries: Seq<JjLogEntry>,
    claim: Option<u64>,
    queue: Seq<Seq<char>>,
    seen: Set<Seq<char>>,
) -> Seq<Seq<char>>
    decreases commits_of(entries).difference(seen).len(), queue.len(),
    via stamped_commits_decreases
{
    if queue.len() == 0 {
        Seq::empty()
    } else {
        let c = queue[0];
        let rest = queue.drop_first();
        if seen.contains(c) {
            stamped_commits(v, entries, claim, rest, seen)
        } else if entry_of(entries, c) is Some && is_taken(v, entries, claim, c) {
            seq![c] + stamped_commits(
                v,
                entries,
                claim,
                rest + parents_of(entries, c),
                seen.insert(c),
            )
        } else {
            stamped_commits(v, entries, claim, rest, seen.insert(c))
        }
    }
}

#[via_fn]
proof fn stamped_commits_decreases(
    v: RepoView,
    entries: Seq<JjLogEntry>,
    claim: Option<u64>,
    queue: Seq<Seq<char>>,
    seen: Set<Seq<char>>,
) {
    if queue.len() > 0 {
        lemma_seen(entries, seen, queue[0]);
    }
}

/// The changes that are found are those of the commits that are found.
proof fn lemma_stamped_changes(
    v: RepoView,
    entries: Seq<JjLogEntry>,
    claim: Option<u64>,
    queue: Seq<Seq<char>>,
    seen: Set<Seq<char>>,
)
    ensures
        ({
            let ids = stamp_search(v, entries, claim, queue, seen);
            let list = stamped_commits(v, entries, claim, queue, seen);
            &&& ids.len() == list.len()
            &&& forall|j: int|
                0 <= j < list.len() ==> entry_of(entries, #[trigger] list[j]) is Some && ids[j]
                    == entries[entry_of(entries, list[j])->0].commit.change_id@ && !seen.contains(
                    list[j],
                ) && is_taken(v, entries, claim, list[j])
            &&& list.no_duplicates()
        }),
    decreases commits_of(entries).difference(seen).len(), queue.len(),
{
    if queue.len() > 0 {
        let c = queue[0];
        let rest = queue.drop_first();
        lemma_seen(entries, seen, c);
        lemma_is_taken(v, entries, claim, c);
        let ids = stamp_search(v, entries, claim, queue, seen);
        let list = stamped_commits(v, entries, claim, queue, seen);
        if seen.contains(c) {
            lemma_stamped_changes(v, entries, claim, rest, seen);
        } else if entry_of(entries, c) is Some && is_taken(v, entries, claim, c) {
            let next = rest + parents_of(entries, c);
            lemma_stamped_changes(v, entries, claim, next, seen.insert(c));
            let more = stamp_search(v, entries, claim, next, seen.insert(c));
            let tail = stamped_commits(v, entries, claim, next, seen.insert(c));
            let i = entry_of(entries, c)->0;
            assert(ids == seq![entries[i].commit.change_id@] + more);
            assert(list == seq![c] + tail);
            assert forall|j: int| 0 <= j < list.len() implies entry_of(
                entries,
                #[trigger] list[j],
            ) is Some && ids[j] == entries[entry_of(entries, list[j])->0].commit.change_id@
                && !seen.contains(list[j]) && is_taken(v, entries, claim, list[j]) by {
                if j > 0 {
                    assert(list[j] == tail[j - 1]);
                    assert(ids[j] == more[j - 1]);
                }
            }
            assert forall|a: int, b: int| 0 <= a < b < list.len() implies list[a] != list[b] by {
                assert(list[b] == tail[b - 1]);
                if a > 0 {
                    assert(list[a] == tail[a - 1]);
                }
            }
        } else {
            lemma_stamped_changes(v, entries, claim, rest, seen.insert(c));
            assert(ids == stamp_search(v, entries, claim, rest, seen.insert(c)));
            assert(list == stamped_commits(v, entries, claim, rest, seen.insert(c)));
        }
    } else {
        assert(stamp_search(v, entries, claim, queue, seen).len() == 0);
        assert(stamped_commits(v, entries, claim, queue, seen).len() == 0);
    }
}

/// What is taken of the queue is found, and so are the parents of what is found.
proof fn lemma_stamped_closed(
    v: RepoView,
    entries: Seq<JjLogEntry>,
    claim: Option<u64>,
    queue: Seq<Seq<char>>,
    seen: Set<Seq<char>>,
)
    ensures
        ({
            let list = stamped_commits(v, entries, claim, queue, seen);
            &&& forall|c: Seq<char>| #[trigger]
                queue.contains(c) && is_taken(v, entries, claim, c) && !seen.contains(c)
                    ==> list.contains(c)
            &&& forall|c: Seq<char>, p: Seq<char>|
                list.contains(c) && #[trigger] parents_of(entries, c).contains(p) && is_taken(
                    v,
                    entries,
                    claim,
                    p,
                ) ==> list.contains(p) || seen.contains(p)
        }),
    decreases commits_of(entries).difference(seen).len(), queue.len(),
{
    let list = stamped_commits(v, entries, claim, queue, seen);
    if queue.len() > 0 {
        let c0 = queue[0];
        let rest = queue.drop_first();
        lemma_seen(entries, seen, c0);
        lemma_is_taken(v, entries, claim, c0);
        assert forall|c: Seq<char>| #[trigger] queue.contains(c) implies c == c0 || rest.contains(
            c,
        ) by {
            let j = choose|j: int| 0 <= j < queue.len() && queue[j] == c;
            if j > 0 {
                assert(rest[j - 1] == c);
            }
        }
        if seen.contains(c0) {
            lemma_stamped_closed(v, entries, claim, rest, seen);
            assert(list == stamped_commits(v, entries, claim, rest, seen));
        } else if entry_of(entries, c0) is Some && is_taken(v, entries, claim, c0) {
            let more = parents_of(entries, c0);
            let next = rest + more;
            let now = seen.insert(c0);
            lemma_stamped_closed(v, entries, claim, next, now);
            let tail = stamped_commits(v, entries, claim, next, now);
            assert(list == seq![c0] + tail);
            assert(list[0] == c0);
            assert forall|x: Seq<char>| #[trigger] tail.contains(x) implies list.contains(x) by {
                let j = choose|j: int| 0 <= j < tail.len() && tail[j] == x;
                assert(list[j + 1] == x);
            }
            assert forall|x: Seq<char>| #[trigger] list.contains(x) implies x == c0
                || tail.contains(x) by {
                let j = choose|j: int| 0 <= j < list.len() && list[j] == x;
                if j > 0 {
                    assert(tail[j - 1] == x);
                }
            }
            assert forall|x: Seq<char>| rest.contains(x) implies #[trigger] next.contains(x) by {
                let j = choose|j: int| 0 <= j < rest.len() && rest[j] == x;
                assert(next[j] == x);
            }
            assert forall|x: Seq<char>| more.contains(x) implies #[trigger] next.contains(x) by {
                let j = choose|j: int| 0 <= j < more.len() && more[j] == x;
                assert(next[rest.len() + j] == x);
            }
            assert forall|c: Seq<char>| #[trigger]
                queue.contains(c) && is_taken(v, entries, claim, c) && !seen.contains(
                    c,
                ) implies list.contains(c) by {
                if c != c0 {
                    assert(next.contains(c));
                }
            }
            assert forall|c: Seq<char>, p: Seq<char>|
                list.contains(c) && #[trigger] parents_of(entries, c).contains(p) && is_taken(
                    v,
                    entries,
                    claim,
                    p,
                ) implies list.contains(p) || seen.contains(p) by {
                if p != c0 {
                    if c == c0 {
                        assert(next.contains(p));
                    } else {
                        assert(tail.contains(c));
                        assert(tail.contains(p) || now.contains(p));
                    }
                }
            }
        } else {
            let now = seen.insert(c0);
            lemma_stamped_closed(v, entries, claim, rest, now);
            assert(list == stamped_commits(v, entries, claim, rest, now));
            assert(!is_taken(v, entries, claim, c0));
        }
    }
}

/// What is found is reached from the tip.
proof fn lemma_stamped_reached(
    v: RepoView,
    entries: Seq<JjLogEntry>,
    tip: Seq<char>,
    queue: Seq<Seq<char>>,
    seen: Set<Seq<char>>,
)
    requires
        forall|c: Seq<char>| #[trigger]
            queue.contains(c) && is_taken(v, entries, own_pr(v, tip), c) ==> exists|d: nat|
                is_taken_at(v, entries, tip, c, d),
    ensures
        forall|c: Seq<char>| #[trigger]
            stamped_commits(v, entries, own_pr(v, tip), queue, seen).contains(c) ==> exists|d: nat|
                is_taken_at(v, entries, tip, c, d),
    decreases commits_of(entries).difference(seen).len(), queue.len(),
{
    let claim = own_pr(v, tip);
    let list = stamped_commits(v, entries, claim, queue, seen);
    if queue.len() > 0 {
        let c0 = queue[0];
        let rest = queue.drop_first();
        lemma_seen(entries, seen, c0);
        assert(queue.contains(c0));
        assert forall|c: Seq<char>| #[trigger] rest.contains(c) implies queue.contains(c) by {
            let j = choose|j: int| 0 <= j < rest.len() && rest[j] == c;
            assert(queue[j + 1] == c);
        }
        if seen.contains(c0) {
            lemma_stamped_reached(v, entries, tip, rest, seen);
            assert(list == stamped_commits(v, entries, claim, rest, seen));
        } else if entry_of(entries, c0) is Some && is_taken(v, entries, claim, c0) {
            let more = parents_of(entries, c0);
            let next = rest + more;
            let d0 = choose|d: nat| is_taken_at(v, entries, tip, c0, d);
            assert forall|c: Seq<char>| #[trigger]
                next.contains(c) && is_taken(v, entries, claim, c) implies exists|d: nat|
                is_taken_at(v, entries, tip, c, d) by {
                let j = choose|j: int| 0 <= j < next.len() && next[j] == c;
                if j < rest.len() {
                    assert(rest[j] == c);
                    assert(rest.contains(c));
                    assert(queue.contains(c));
                } else {
                    assert(more[j - rest.len()] == c);
                    assert(more.contains(c));
                    lemma_has_parent(entries, c0, c);
                    assert((d0 + 1 - 1) as nat == d0);
                    assert(is_taken_at(v, entries, tip, c, d0 + 1));
                }
            }
            lemma_stamped_reached(v, entries, tip, next, seen.insert(c0));
            let tail = stamped_commits(v, entries, claim, next, seen.insert(c0));
            assert(list == seq![c0] + tail);
            assert forall|c: Seq<char>| #[trigger] list.contains(c) implies exists|d: nat|
                is_taken_at(v, entries, tip, c, d) by {
                let j = choose|j: int| 0 <= j < list.len() && list[j] == c;
                if j > 0 {
                    assert(tail[j - 1] == c);
                    assert(tail.contains(c));
                }
            }
        } else {
            lemma_stamped_reached(v, entries, tip, rest, seen.insert(c0));
            assert(list == stamped_commits(v, entries, claim, rest, seen.insert(c0)));
        }
    }
}

proof fn lemma_reached_is_stamped(
    v: RepoView,
    entries: Seq<JjLogEntry>,
    tip: Seq<char>,
    c: Seq<char>,
    d: nat,
)
    requires
        is_taken_at(v, entries, tip, c, d),
    ensures
        stamped_commits(v, entries, own_pr(v, tip), seq![tip], Set::empty()).contains(c),
    decreases d,
{
    let claim = own_pr(v, tip);
    let none = Set::<Seq<char>>::empty();
    lemma_stamped_closed(v, entries, claim, seq![tip], none);
    if d == 0 {
        assert(seq![tip][0] == c);
        assert(seq![tip].contains(c));
    } else {
        let child = choose|child: Seq<char>| #[trigger]
            has_parent(entries, child, c) && is_taken_at(v, entries, tip, child, (d - 1) as nat);
        lemma_reached_is_stamped(v, entries, tip, child, (d - 1) as nat);
        lemma_has_parent(entries, child, c);
        assert(parents_of(entries, child).contains(c));
    }
}

/// Whether the entry `t` is the first one with a local bookmark of that name.
pub open spec fn is_tip_entry(entries: Seq<JjLogEntry>, name: Seq<char>, t: int) -> bool {
    &&& 0 <= t < entries.len()
    &&& crate::claims::has_bookmark(entries[t], name)
    &&& forall|i: int|
        0 <= i < t ==> !crate::claims::has_bookmark(#[trigger] entries[i], name)
}

/// A bookmark is found at the first entry that has it, and exactly where an entry has it.
pub proof fn bookmark_is_found_at_its_tip(entries: Seq<JjLogEntry>, name: Seq<char>, t: int)
    ensures
        bookmark_entry(entries, name) == Some(t) <==> is_tip_entry(entries, name, t),
        bookmark_entry(entries, name) is None <==> forall|i: int|
            0 <= i < entries.len() ==> !crate::claims::has_bookmark(#[trigger] entries[i], name),
    decreases entries.len(),
{
    if entries.len() > 0 {
        let head = entries.drop_last();
        let at = entries.len() - 1;
        bookmark_is_found_at_its_tip(head, name, t);
        assert(crate::claims::has_bookmark(entries[at], name)
            <==> crate::claims::has_local_bookmark(entries[at], name)) by {
            if crate::claims::has_bookmark(entries[at], name) {
                let j = choose|j: int|
                    0 <= j < entries[at].local_bookmarks@.len() && (
                    #[trigger] entries[at].local_bookmarks@[j]).name@ == name;
                assert(entries[at].local_bookmarks@[j].name@ == name);
            }
        }
        assert forall|i: int| 0 <= i < at implies #[trigger] entries[i] == head[i] by {}
        if bookmark_entry(head, name) is Some {
            let x = bookmark_entry(head, name)->0;
            bookmark_is_found_at_its_tip(head, name, x);
            assert(crate::claims::has_bookmark(head[x], name));
            assert(entries[x] == head[x]);
            if is_tip_entry(entries, name, t) && t != x {
                if x < t {
                    assert(crate::claims::has_bookmark(entries[x], name));
                } else {
                    assert(head[t] == entries[t]);
                    assert(crate::claims::has_bookmark(head[t], name));
                }
            }
            if t == x {
                assert forall|i: int| 0 <= i < t implies !crate::claims::has_bookmark(
                    #[trigger] entries[i],
                    name,
                ) by {
                    assert(head[i] == entries[i]);
                }
            }
        } else {
            assert forall|i: int| 0 <= i < at implies !crate::claims::has_bookmark(
                #[trigger] entries[i],
                name,
            ) by {
                assert(head[i] == entries[i]);
            }
        }
    }
}

/// A bookmark has as many sides as the first bookmark of that name at its entry. One side alone
/// makes it free of conflicts.
pub proof fn sides_are_those_of_the_bookmark(entry: JjLogEntry, name: Seq<char>, j: int)
    requires
        0 <= j < entry.local_bookmarks@.len(),
        entry.local_bookmarks@[j].name@ == name,
        forall|i: int|
            0 <= i < j ==> (#[trigger] entry.local_bookmarks@[i]).name@ != name,
    ensures
        target_count(entry, name) == entry.local_bookmarks@[j].target@.len(),
{
    lemma_no_named_bookmark(entry, name, j as nat);
    lemma_named_bookmark(entry, name, (j + 1) as nat);
}

proof fn lemma_no_named_bookmark(entry: JjLogEntry, name: Seq<char>, k: nat)
    requires
        k <= entry.local_bookmarks@.len(),
        forall|i: int|
            0 <= i < k ==> (#[trigger] entry.local_bookmarks@[i]).name@ != name,
    ensures
        named_bookmark(entry, name, k) is None,
    decreases k,
{
    if k > 0 {
        lemma_no_named_bookmark(entry, name, (k - 1) as nat);
        assert(entry.local_bookmarks@[k - 1].name@ != name);
    }
}

/// Whether `commits` lists, each once, the commits that a new PR takes: those that are taken and
/// are reached from the tip through such commits.
pub open spec fn lists_taken(
    v: RepoView,
    entries: Seq<JjLogEntry>,
    tip: Seq<char>,
    commits: Seq<Seq<char>>,
) -> bool {
    &&& commits.no_duplicates()
    &&& forall|c: Seq<char>| #[trigger]
        commits.contains(c) <==> exists|d: nat| is_taken_at(v, entries, tip, c, d)
}

/// A new PR stamps exactly the commits that are reached from its tip, the tip included, through
/// commits that it takes: mutable ones of no node, ambiguous or of the tip's own PR, without a
/// trailer but that of the tip's own PR. Each is stamped once.
pub proof fn all_commits_of_a_new_pr_are_stamped(
    plan: CreatePlan,
    v: RepoView,
    prs: Map<u64, &GhPr>,
    entries: Seq<JjLogEntry>,
    default_branch: Seq<char>,
    name: Seq<char>,
    title: Option<Seq<char>>,
    body: Option<Seq<char>>,
    t: int,
)
    requires
        is_plan(plan, v, prs, entries, default_branch, name, title, body),
        is_tip_entry(entries, name, t),
    ensures
        ({
            let tip = entries[t].commit.commit_id@;
            exists|commits: Seq<Seq<char>>| #[trigger]
                lists_taken(v, entries, tip, commits) && commits.len()
                    == plan.stamp_change_ids@.len() && (forall|j: int, i: int|
                    0 <= j < commits.len() && #[trigger] is_entry(entries, commits[j], i)
                        ==> plan.stamp_change_ids@[j]@ == entries[i].commit.change_id@)
        }),
        ({
            let tip = entries[t].commit.commit_id@;
            is_taken(v, entries, own_pr(v, tip), tip) && is_entry(entries, tip, t)
                ==> plan.stamp_change_ids@.len() > 0 && plan.stamp_change_ids@[0]@
                == entries[t].commit.change_id@
        }),
        ({
            let tip = entries[t].commit.commit_id@;
            !is_taken(v, entries, own_pr(v, tip), tip) ==> plan.stamp_change_ids@.len() == 0
        }),
{
    bookmark_is_found_at_its_tip(entries, name, t);
    let tip = entries[t].commit.commit_id@;
    let own = own_pr(v, tip);
    assert(own == crate::sync::commit_pr(v, tip));
    let queue = seq![tip];
    let none = Set::<Seq<char>>::empty();
    let ids = stamp_search(v, entries, own, queue, none);
    let list = stamped_commits(v, entries, own, queue, none);
    lemma_stamped_changes(v, entries, own, queue, none);
    assert(queue[0] == tip);
    assert forall|c: Seq<char>| #[trigger] queue.contains(c) && is_taken(
        v,
        entries,
        own,
        c,
    ) implies exists|d: nat| is_taken_at(v, entries, tip, c, d) by {
        assert(is_taken_at(v, entries, tip, c, 0));
    }
    lemma_stamped_reached(v, entries, tip, queue, none);
    assert forall|c: Seq<char>| #[trigger] list.contains(c) <==> exists|d: nat|
        is_taken_at(v, entries, tip, c, d) by {
        if exists|d: nat| is_taken_at(v, entries, tip, c, d) {
            let d = choose|d: nat| is_taken_at(v, entries, tip, c, d);
            lemma_reached_is_stamped(v, entries, tip, c, d);
        }
    }
    assert(lists_taken(v, entries, tip, list));
    assert(crate::types::change_views(plan.stamp_change_ids@) == ids);
    assert forall|j: int, i: int|
        0 <= j < list.len() && #[trigger] is_entry(
            entries,
            list[j],
            i,
        ) implies plan.stamp_change_ids@[j]@ == entries[i].commit.change_id@ by {
        lemma_is_entry(entries, list[j], i);
        assert(ids[j] == plan.stamp_change_ids@[j]@);
    }
    lemma_is_taken(v, entries, own, tip);
    if is_taken(v, entries, own, tip) {
        if is_entry(entries, tip, t) {
            lemma_is_entry(entries, tip, t);
            assert(list[0] == tip);
            assert(ids[0] == plan.stamp_change_ids@[0]@);
        }
    } else {
        if list.len() > 0 {
            assert(list.contains(list[0]));
            let d = choose|d: nat| is_taken_at(v, entries, tip, list[0], d);
            lemma_only_from_tip(v, entries, tip, list[0], d);
        }
    }
}

/// Nothing is reached from a tip that is not taken.
proof fn lemma_only_from_tip(
    v: RepoView,
    entries: Seq<JjLogEntry>,
    tip: Seq<char>,
    c: Seq<char>,
    d: nat,
)
    requires
        is_taken_at(v, entries, tip, c, d),
    ensures
        is_taken(v, entries, own_pr(v, tip), tip),
    decreases d,
{
    if d > 0 {
        let child = choose|child: Seq<char>| #[trigger]
            has_parent(entries, child, c) && is_taken_at(v, entries, tip, child, (d - 1) as nat);
        lemma_only_from_tip(v, entries, tip, child, (d - 1) as nat);
    }
}

/// Whether a commit is an ancestor of the tip: its parents are at distance zero, and the parents
/// of a commit are one further off.
pub open spec fn is_ancestor(
    entries: Seq<JjLogEntry>,
    tip: Seq<char>,
    commit: Seq<char>,
    d: nat,
) -> bool
    decreases d,
{
    if d == 0 {
        has_parent(entries, tip, commit)
    } else {
        exists|child: Seq<char>| #[trigger]
            has_parent(entries, child, commit) && is_ancestor(entries, tip, child, (d - 1) as nat)
    }
}

/// Whether a commit is of the PR `n`, and not of the node that the tip is of.
pub open spec fn is_of_other_pr(v: RepoView, tip: Seq<char>, commit: Seq<char>, n: u64) -> bool {
    &&& v.owner.contains_key(commit)
    &&& crate::node_graph::node_at(v.nodes, v.owner[commit]) == NodeView::Pr(n)
    &&& v.owner.contains_key(tip) ==> v.owner[tip] != v.owner[commit]
}

proof fn lemma_is_ancestor(entries: Seq<JjLogEntry>, tip: Seq<char>, commit: Seq<char>, d: nat)
    ensures
        is_ancestor(entries, tip, commit, d) <==> at_distance(
            entries,
            parents_of(entries, tip),
            commit,
            d,
        ),
    decreases d,
{
    let start = parents_of(entries, tip);
    if d == 0 {
        lemma_has_parent(entries, tip, commit);
    } else {
        let e = (d - 1) as nat;
        assert forall|child: Seq<char>| #[trigger]
            has_parent(entries, child, commit) && is_ancestor(entries, tip, child, e) <==> (
            at_distance(entries, start, child, e) && parents_of(entries, child).contains(
                commit,
            )) by {
            lemma_has_parent(entries, child, commit);
            lemma_is_ancestor(entries, tip, child, e);
        }
        if is_ancestor(entries, tip, commit, d) {
            let child = choose|child: Seq<char>| #[trigger]
                has_parent(entries, child, commit) && is_ancestor(entries, tip, child, e);
            lemma_has_parent(entries, child, commit);
            assert(at_distance(entries, start, child, e) && parents_of(entries, child).contains(
                commit,
            ));
            lemma_farther(entries, start, child, commit, e);
        }
        if at_distance(entries, start, commit, d) {
            let child = lemma_nearer(entries, start, commit, e);
            lemma_has_parent(entries, child, commit);
            assert(has_parent(entries, child, commit) && is_ancestor(entries, tip, child, e));
        }
    }
}

/// Whether `commit` is of another PR `n` and is an ancestor of the tip, and no nearer ancestor is
/// of another PR.
pub open spec fn is_nearest_pr(
    v: RepoView,
    entries: Seq<JjLogEntry>,
    tip: Seq<char>,
    commit: Seq<char>,
    d: nat,
    n: u64,
) -> bool {
    &&& is_ancestor(entries, tip, commit, d)
    &&& is_of_other_pr(v, tip, commit, n)
    &&& forall|c: Seq<char>, e: nat, m: u64|
        #![trigger is_ancestor(entries, tip, c, e), is_of_other_pr(v, tip, c, m)]
        is_ancestor(entries, tip, c, e) && e < d ==> !is_of_other_pr(v, tip, c, m)
}

/// The base of a new PR is the branch of a nearest ancestor that is of another PR, where that PR
/// is known and not merged; it is the default branch otherwise, and where no ancestor is of
/// another PR.
pub proof fn new_pr_is_based_on_the_nearest_pr(
    plan: CreatePlan,
    v: RepoView,
    prs: Map<u64, &GhPr>,
    entries: Seq<JjLogEntry>,
    default_branch: Seq<char>,
    name: Seq<char>,
    title: Option<Seq<char>>,
    body: Option<Seq<char>>,
    t: int,
)
    requires
        is_plan(plan, v, prs, entries, default_branch, name, title, body),
        is_tip_entry(entries, name, t),
    ensures
        plan.bookmark@ == name,
        ({
            let tip = entries[t].commit.commit_id@;
            if exists|c: Seq<char>, d: nat, n: u64|
                is_ancestor(entries, tip, c, d) && is_of_other_pr(v, tip, c, n) {
                exists|c: Seq<char>, d: nat, n: u64| #[trigger]
                    is_nearest_pr(v, entries, tip, c, d, n) && plan.base@ == if prs.contains_key(n)
                        && !(prs[n].state is Merged) {
                        prs[n].head_ref_name@
                    } else {
                        default_branch
                    }
            } else {
                plan.base@ == default_branch
            }
        }),
{
    bookmark_is_found_at_its_tip(entries, name, t);
    let tip = entries[t].commit.commit_id@;
    let node = commit_node(v, tip);
    let start = parents_of(entries, tip);
    base_is_the_nearest_ancestor_pr(v, prs, entries, name, default_branch);
    assert forall|c: Seq<char>, n: u64| #[trigger]
        is_of_other_pr(v, tip, c, n) <==> other_pr(v, node, c) == Some(n) by {}
    assert forall|c: Seq<char>, d: nat| #[trigger]
        is_ancestor(entries, tip, c, d) <==> at_distance(entries, start, c, d) by {
        lemma_is_ancestor(entries, tip, c, d);
    }
    assert forall|c: Seq<char>, d: nat| #[trigger] at_distance(entries, start, c, d) implies
        is_ancestor(entries, tip, c, d) by {
        lemma_is_ancestor(entries, tip, c, d);
    }
    if exists|c: Seq<char>, d: nat, n: u64|
        is_ancestor(entries, tip, c, d) && is_of_other_pr(v, tip, c, n) {
        let (c, d, n) = choose|c: Seq<char>, d: nat, n: u64|
            is_ancestor(entries, tip, c, d) && is_of_other_pr(v, tip, c, n);
        assert(at_distance(entries, start, c, d) && other_pr(v, node, c) is Some);
        let (x, e) = choose|x: Seq<char>, e: nat|
            #![trigger is_nearest(v, entries, node, start, x, e)]
            is_nearest(v, entries, node, start, x, e) && plan.base@ == branch_on(
                prs,
                other_pr(v, node, x)->0,
                default_branch,
            );
        let m = other_pr(v, node, x)->0;
        assert(is_of_other_pr(v, tip, x, m));
        assert forall|c: Seq<char>, f: nat, o: u64|
            #![trigger is_ancestor(entries, tip, c, f), is_of_other_pr(v, tip, c, o)]
            is_ancestor(entries, tip, c, f) && f < e implies !is_of_other_pr(v, tip, c, o) by {
            assert(at_distance(entries, start, c, f));
        }
        assert(is_nearest_pr(v, entries, tip, x, e, m));
    } else {
        assert forall|c: Seq<char>, d: nat| #[trigger]
            at_distance(entries, start, c, d) implies other_pr(v, node, c) is None by {
            if other_pr(v, node, c) is Some {
                assert(is_ancestor(entries, tip, c, d));
                assert(is_of_other_pr(v, tip, c, other_pr(v, node, c)->0));
            }
        }
    }
}

/// Title and body of a new PR are the given ones. Where none is given, the title is the first
/// line of the description of the tip, and the body is what follows it, line by line and without
/// white space around it.
pub proof fn title_and_body_are_those_of_the_tip(
    plan: CreatePlan,
    v: RepoView,
    prs: Map<u64, &GhPr>,
    entries: Seq<JjLogEntry>,
    default_branch: Seq<char>,
    name: Seq<char>,
    title: Option<Seq<char>>,
    body: Option<Seq<char>>,
    t: int,
    first: Seq<char>,
    rest: Seq<char>,
)
    requires
        is_plan(plan, v, prs, entries, default_branch, name, title, body),
        is_tip_entry(entries, name, t),
    ensures
        title is Some ==> plan.title@ == title->0,
        body is Some ==> plan.body@ == body->0,
        title is None && entries[t].commit.description@.len() == 0 ==> plan.title@ == "untitled"@,
        entries[t].commit.description@ == first + seq!['\n'] + rest && !first.contains('\n') ==> {
            &&& title is None ==> plan.title@ == crate::text::without_cr(first)
            &&& body is None ==> plan.body@ == crate::text::trimmed(
                crate::text::joined(crate::text::line_seq(rest), "\n"@),
            )
        },
        entries[t].commit.description@ == first && first.len() > 0 && !first.contains('\n') ==> {
            &&& title is None ==> plan.title@ == first
            &&& body is None ==> plan.body@.len() == 0
        },
{
    bookmark_is_found_at_its_tip(entries, name, t);
    let d = entries[t].commit.description@;
    if d == first + seq!['\n'] + rest && !first.contains('\n') {
        assert(d == first.push('\n') + rest);
        crate::text::lemma_first_line(first, rest);
        let all = crate::text::line_seq(d);
        assert(all[0] == crate::text::without_cr(first));
        assert(all.drop_first() == crate::text::line_seq(rest));
    }
    if d == first && first.len() > 0 && !first.contains('\n') {
        crate::text::lemma_index_of_char(first, '\n');
        let all = crate::text::line_seq(d);
        assert(all == seq![first]) by {
            let k = crate::text::index_of_char(first, '\n');
            if k < first.len() {
                assert(first[k] == '\n');
                assert(first.contains('\n'));
            }
        }
        assert(all.drop_first().len() == 0);
        assert(crate::text::joined(all.drop_first(), "\n"@).len() == 0);
    }
}

// --- Laws of the steps ---

/// Before a PR is created its bookmark is pushed, and before that the bookmark is tracked on the
/// remote; last of all the PR is created, as a draft, from the bookmark to the base.
pub proof fn bookmark_is_pushed_before_its_pr_is_created(
    bookmark: Seq<char>,
    base: Seq<char>,
    title: Seq<char>,
    body: Seq<char>,
    remote: Seq<char>,
    color: bool,
    i: int,
    j: int,
    k: int,
)
    ensures
        ({
            let steps = steps_before(bookmark, base, title, body, remote, color);
            let last = CreateStepView::Create { head: bookmark, base, title, body, draft: true };
            &&& steps.contains(CreateStepView::Track { bookmark, remote })
            &&& steps.contains(CreateStepView::Push(bookmark))
            &&& steps.last() == last
            &&& 0 <= i < steps.len() && steps[i] is Track ==> steps[i] == (
            CreateStepView::Track { bookmark, remote })
            &&& 0 <= j < steps.len() && steps[j] is Push ==> steps[j] == CreateStepView::Push(
                bookmark,
            )
            &&& 0 <= k < steps.len() && steps[k] is Create ==> k == steps.len() - 1
            &&& 0 <= i < steps.len() && 0 <= j < steps.len() && steps[i] is Track && steps[j] is Push
                ==> i < j
            &&& 0 <= i < steps.len() ==> steps[i] !is Stamp
        }),
{
    let steps = steps_before(bookmark, base, title, body, remote, color);
    assert(steps[0] == CreateStepView::Track { bookmark, remote });
    assert(steps[2] == CreateStepView::Push(bookmark));
}

/// Once the PR is created, each change of the plan is stamped with it once, in order, and nothing
/// else is done; the user is told of the PR first, and of the stamping last if there was any.
pub proof fn all_changes_of_the_plan_are_stamped(
    ids: Seq<Seq<char>>,
    pr: u64,
    url: Seq<char>,
    color: bool,
    i: int,
)
    ensures
        ({
            let steps = steps_after(ids, pr, url, color);
            &&& ids.len() == 0 ==> steps.len() == 1
            &&& ids.len() > 0 ==> steps.len() == ids.len() + 2 && steps.last() is Say
            &&& steps[0] == CreateStepView::Say(
                "Created "@ + crate::style::pr_num_text(pr, Some(url), color),
            )
            &&& 0 <= i < ids.len() ==> steps[i + 1] == (CreateStepView::Stamp {
                revision: "change_id("@ + ids[i] + ")"@,
                pr,
            })
        }),
{
}

/// A plan as it is displayed names the bookmark that is pushed, and the title, the bookmark and
/// the base of the new PR; it speaks of stamping exactly where there is something to stamp.
pub proof fn plans_are_displayed(
    bookmark: Seq<char>,
    base: Seq<char>,
    title: Seq<char>,
    stamped: nat,
)
    ensures
        ({
            let s = plan_text(bookmark, base, title, stamped);
            let at = 5int + bookmark.len();
            let to = at + 13 + title.len() + 3 + bookmark.len() + 3;
            let end = to + base.len() + 10;
            &&& crate::style::stands_at(s, 5, bookmark)
            &&& crate::style::stands_at(s, at + 13, title)
            &&& crate::style::stands_at(s, at + 13 + title.len() + 3, bookmark)
            &&& crate::style::stands_at(s, to, base)
            &&& crate::style::stands_at(s, to + base.len(), ") [draft]\n"@)
            &&& stamped == 0 ==> s.len() == end
            &&& stamped > 0 ==> s.len() > end && crate::style::stands_at(
                s,
                end + 17,
                crate::text::decimal(stamped),
            )
        }),
{
    reveal_strlit("push ");
    reveal_strlit("\n");
    reveal_strlit("create PR: \"");
    reveal_strlit("\" (");
    reveal_strlit(" → ");
    reveal_strlit(") [draft]\n");
    reveal_strlit("stamp trailer on ");
    reveal_strlit(" commit(s)\n");
    let s = plan_text(bookmark, base, title, stamped);
    let head = "push "@ + bookmark + "\n"@ + "create PR: \""@ + title + "\" ("@ + bookmark
        + " → "@ + base + ") [draft]\n"@;
    let at = 5int + bookmark.len();
    let to = at + 13 + title.len() + 3 + bookmark.len() + 3;
    let end = to + base.len() + 10;
    assert(head.len() == end);
    assert(s.subrange(5, at) =~= bookmark);
    assert(s.subrange(at + 13, at + 13 + title.len()) =~= title);
    assert(s.subrange(at + 13 + title.len() + 3, to - 3) =~= bookmark);
    assert(s.subrange(to, to + base.len()) =~= base);
    assert(s.subrange(to + base.len(), end) =~= ") [draft]\n"@);
    if stamped > 0 {
        let d = crate::text::decimal(stamped);
        assert(s.subrange(end + 17, end + 17 + d.len()) =~= d);
    }
}

/// Of several PRs for one branch the one with the lowest number is reported as the existing one.
pub proof fn reported_pr_is_the_lowest(prs: Map<u64, &GhPr>, name: Seq<char>, n: u64, m: u64)
    requires
        is_first_pr(prs, name, n),
    ensures
        prs.contains_key(n) && prs[n].head_ref_name@ == name,
        prs.contains_key(m) && prs[m].head_ref_name@ == name ==> n <= m,
        is_first_pr(prs, name, m) <==> n == m,
{
    assert(crate::claims::has_head(prs, name, m) == (prs.contains_key(m)
        && prs[m].head_ref_name@ == name));
}

/// No PR is created exactly where no commit has the bookmark, where the bookmark has more sides
/// than one or none at its tip, or where there is a PR for it, of whatever state; the first of
/// these reasons is given. `t` is the tip of the bookmark and `j` its place there.
pub proof fn prs_are_refused_for_a_reason(
    prs: Map<u64, &GhPr>,
    entries: Seq<JjLogEntry>,
    name: Seq<char>,
    t: int,
    j: int,
)
    ensures
        refusal(prs, entries, name) == Some(Refusal::NotFound) <==> forall|i: int|
            0 <= i < entries.len() ==> !crate::claims::has_bookmark(#[trigger] entries[i], name),
        is_tip_entry(entries, name, t) && 0 <= j < entries[t].local_bookmarks@.len()
            && entries[t].local_bookmarks@[j].name@ == name && (forall|i: int|
            0 <= i < j ==> (#[trigger] entries[t].local_bookmarks@[i]).name@ != name) ==> {
            let one = entries[t].local_bookmarks@[j].target@.len() == 1;
            let known = exists|n: u64| #[trigger]
                prs.contains_key(n) && prs[n].head_ref_name@ == name;
            &&& refusal(prs, entries, name) == Some(Refusal::Conflicted) <==> !one
            &&& refusal(prs, entries, name) == Some(Refusal::Exists) <==> one && known
            &&& refusal(prs, entries, name) is None <==> one && !known
        },
{
    bookmark_is_found_at_its_tip(entries, name, t);
    if is_tip_entry(entries, name, t) && 0 <= j < entries[t].local_bookmarks@.len()
        && entries[t].local_bookmarks@[j].name@ == name && (forall|i: int|
        0 <= i < j ==> (#[trigger] entries[t].local_bookmarks@[i]).name@ != name) {
        sides_are_those_of_the_bookmark(entries[t], name, j);
        if exists|n: u64| crate::claims::has_head(prs, name, n) {
            let n = choose|n: u64| crate::claims::has_head(prs, name, n);
            assert(prs.contains_key(n) && prs[n].head_ref_name@ == name);
        }
        if exists|n: u64| #[trigger] prs.contains_key(n) && prs[n].head_ref_name@ == name {
            let n = choose|n: u64| #[trigger]
                prs.contains_key(n) && prs[n].head_ref_name@ == name;
            assert(crate::claims::has_head(prs, name, n));
        }
    }
}

} // verus!
