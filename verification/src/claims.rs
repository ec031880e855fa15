//! Which pull requests the local bookmarks claim, and which of them have to be pushed.
use std::collections::{BTreeMap, BTreeSet};
use vstd::prelude::*;

use crate::gh::{GhPr, PrNum, PrState};
use crate::jj::{JjBookmark, JjLogEntry, JjRemoteBookmark};
use crate::sets::{map_numbers, TextSet};
use crate::text::same_text;
use crate::types::{Bookmark, CommitId};

verus! {

/// Whether each PR stands under its number.
pub open spec fn prs_wf(prs: Map<u64, &GhPr>) -> bool {
    forall|n: u64| #[trigger] prs.contains_key(n) ==> prs[n].number@ == n
}

/// Whether there is data of the PR `n`, in the state `state`.
pub open spec fn in_state(prs: Map<u64, &GhPr>, n: u64, state: PrState) -> bool {
    prs.contains_key(n) && prs[n].state == state
}

/// The PR with the number `n`.
pub fn find_pr<'a>(prs: &BTreeMap<u64, &'a GhPr>, n: u64) -> (r: Option<&'a GhPr>)
    ensures
        r is Some <==> prs@.contains_key(n),
        r is Some ==> r->0 == prs@[n],
{
    broadcast use vstd::std_specs::btree::group_btree_axioms;

    match prs.get(&n) {
        Some(pr) => Some(*pr),
        None => None,
    }
}

/// Whether the PR `n` is known and in the given state.
pub fn pr_in_state(prs: &BTreeMap<u64, &GhPr>, n: u64, state: PrState) -> (r: bool)
    ensures
        r == in_state(prs@, n, state),
{
    match find_pr(prs, n) {
        Some(pr) => pr.state == state,
        None => false,
    }
}

/// Whether `n` is a PR for the branch `name`.
pub open spec fn has_head(prs: Map<u64, &GhPr>, name: Seq<char>, n: u64) -> bool {
    prs.contains_key(n) && prs[n].head_ref_name@ == name
}

/// Whether `n` is the PR with the highest number for the branch `name`.
pub open spec fn is_head_pr(prs: Map<u64, &GhPr>, name: Seq<char>, n: u64) -> bool {
    &&& has_head(prs, name, n)
    &&& forall|m: u64| #[trigger] has_head(prs, name, m) ==> m <= n
}

/// The PR for the branch `name`. Where several PRs share the branch, it is the one with the
/// highest number.
pub open spec fn head_pr(prs: Map<u64, &GhPr>, name: Seq<char>) -> Option<u64> {
    if exists|n: u64| is_head_pr(prs, name, n) {
        Some(choose|n: u64| is_head_pr(prs, name, n))
    } else {
        None
    }
}

/// Finds the PR for the branch `name`.
pub fn find_head_pr<'a>(prs: &BTreeMap<u64, &'a GhPr>, name: &Bookmark) -> (r: Option<&'a GhPr>)
    requires
        prs_wf(prs@),
    ensures
        r is Some <==> head_pr(prs@, name@) is Some,
        r is Some ==> head_pr(prs@, name@) == Some(r->0.number@) && prs@.contains_key(
            r->0.number@,
        ) && prs@[r->0.number@] == r->0,
{
    let numbers = map_numbers(prs);
    let mut k: usize = numbers.len();
    while k > 0
        invariant
            k <= numbers.len(),
            prs_wf(prs@),
            crate::order::ascending(crate::order::num_less(), numbers@),
            numbers@.to_set() == prs@.dom(),
            forall|i: int|
                k <= i < numbers.len() ==> !has_head(prs@, name@, #[trigger] numbers@[i]),
        decreases k,
    {
        k = k - 1;
        assert(numbers@.to_set().contains(numbers@[k as int]));
        if let Some(pr) = find_pr(prs, numbers[k]) {
            if same_text(pr.head_ref_name.as_str(), name.as_str()) {
                proof {
                    let n = numbers@[k as int];
                    assert forall|m: u64| #[trigger] has_head(prs@, name@, m) implies m <= n by {
                        assert(numbers@.to_set().contains(m));
                        let i = choose|i: int| 0 <= i < numbers.len() && numbers@[i] == m;
                        if i < k {
                            let less = crate::order::num_less();
                            assert(less(numbers@[i], numbers@[k as int]));
                        }
                    }
                    assert(is_head_pr(prs@, name@, n));
                    let other = choose|m: u64| is_head_pr(prs@, name@, m);
                    assert(has_head(prs@, name@, other));
                    assert(other == n);
                }
                return Some(pr);
            }
        }
    }
    proof {
        if exists|n: u64| is_head_pr(prs@, name@, n) {
            let n = choose|n: u64| is_head_pr(prs@, name@, n);
            assert(numbers@.to_set().contains(n));
            let i = choose|i: int| 0 <= i < numbers.len() && numbers@[i] == n;
            assert(!has_head(prs@, name@, numbers@[i]));
        }
    }
    None
}

/// A branch has a PR exactly where some PR has it as its head.
pub proof fn head_pr_exists(prs: Map<u64, &GhPr>, name: Seq<char>)
    ensures
        head_pr(prs, name) is Some <==> exists|n: u64| has_head(prs, name, n),
        head_pr(prs, name) is Some ==> is_head_pr(prs, name, head_pr(prs, name)->0),
{
    if exists|n: u64| has_head(prs, name, n) {
        let n = choose|n: u64| has_head(prs, name, n);
        lemma_highest(prs, name, n);
    }
}

proof fn lemma_highest(prs: Map<u64, &GhPr>, name: Seq<char>, n: u64)
    requires
        has_head(prs, name, n),
    ensures
        exists|m: u64| is_head_pr(prs, name, m),
    decreases u64::MAX - n,
{
    if exists|m: u64| has_head(prs, name, m) && m > n {
        let m = choose|m: u64| has_head(prs, name, m) && m > n;
        lemma_highest(prs, name, m);
    } else {
        assert(is_head_pr(prs, name, n));
    }
}

// --- Tracked bookmarks ---

/// The names of a set that may be left out.
pub open spec fn tracked_names(tracking: Option<&TextSet>) -> Option<Set<Seq<char>>> {
    match tracking {
        Some(names) => Some(names@),
        None => None,
    }
}

/// Whether a bookmark is tracked on the push remote. Without a set all are.
pub open spec fn is_tracked(tracking: Option<Set<Seq<char>>>, name: Seq<char>) -> bool {
    tracking is None || tracking->0.contains(name)
}

/// Whether the set, where there is one, is well formed.
pub open spec fn tracked_wf(tracking: Option<&TextSet>) -> bool {
    tracking is Some ==> tracking->0.wf()
}

/// Whether the bookmark `name` is tracked.
pub fn tracks(tracking: Option<&TextSet>, name: &Bookmark) -> (r: bool)
    requires
        tracked_wf(tracking),
    ensures
        r == is_tracked(tracked_names(tracking), name@),
{
    match tracking {
        Some(names) => names.contains(name.as_str()),
        None => true,
    }
}

// --- Claims ---

/// A tracked local bookmark of a PR, at the commit that its local side points to.
pub struct Claim {
    pub commit: Seq<char>,
    pub name: Seq<char>,
    pub pr: u64,
    /// Whether the bookmark is conflicted and the user must resolve it.
    pub blocked: bool,
}

/// A tracked local bookmark of a PR, at the commit that its local side points to.
pub struct PrClaim<'a> {
    pub commit: &'a CommitId,
    pub name: &'a Bookmark,
    pub pr: PrNum,
    pub blocked: bool,
}

impl<'a> View for PrClaim<'a> {
    type V = Claim;

    open spec fn view(&self) -> Claim {
        Claim { commit: self.commit@, name: self.name@, pr: self.pr@, blocked: self.blocked }
    }
}

/// What a list of claims says.
pub open spec fn claim_views(v: Seq<PrClaim>) -> Seq<Claim> {
    Seq::new(v.len(), |i: int| v[i]@)
}

/// Whether the local side of a target, its first add, is the commit `commit`.
pub open spec fn at_local_side(target: Seq<Option<CommitId>>, commit: Seq<char>) -> bool {
    target.len() > 0 && target[0] is Some && target[0]->0@ == commit
}

/// Whether an add slot but the local one is empty: the other side deleted the branch.
pub open spec fn has_null_add(target: Seq<Option<CommitId>>) -> bool {
    exists|i: int| 1 <= i && 2 * i < target.len() && #[trigger] target[2 * i] is None
}

/// The claim that a bookmark makes at an entry.
///
/// A conflicted bookmark is blocked, unless its PR is merged and its branch was deleted on the
/// other side: then it is the tip of a merged PR.
pub open spec fn claim_of(
    prs: Map<u64, &GhPr>,
    tracking: Option<Set<Seq<char>>>,
    entry: JjLogEntry,
    bm: JjBookmark,
) -> Option<Claim> {
    match head_pr(prs, bm.name@) {
        None => None,
        Some(n) => if is_tracked(tracking, bm.name@) && at_local_side(
            bm.target@,
            entry.commit.commit_id@,
        ) {
            Some(
                Claim {
                    commit: entry.commit.commit_id@,
                    name: bm.name@,
                    pr: n,
                    blocked: bm.target.len() > 1 && !(has_null_add(bm.target@)
                        && prs[n].state is Merged),
                },
            )
        } else {
            None
        },
    }
}

/// The claims of the first `k` local bookmarks of an entry.
pub open spec fn entry_claims(
    prs: Map<u64, &GhPr>,
    tracking: Option<Set<Seq<char>>>,
    entry: JjLogEntry,
    k: nat,
) -> Seq<Claim>
    decreases k,
{
    if k == 0 {
        Seq::empty()
    } else {
        let before = entry_claims(prs, tracking, entry, (k - 1) as nat);
        match claim_of(prs, tracking, entry, entry.local_bookmarks[k - 1]) {
            Some(c) => before.push(c),
            None => before,
        }
    }
}

/// The claims of all entries.
pub open spec fn claims(
    prs: Map<u64, &GhPr>,
    tracking: Option<Set<Seq<char>>>,
    entries: Seq<JjLogEntry>,
) -> Seq<Claim>
    decreases entries.len(),
{
    if entries.len() == 0 {
        Seq::empty()
    } else {
        claims(prs, tracking, entries.drop_last()) + entry_claims(
            prs,
            tracking,
            entries.last(),
            entries.last().local_bookmarks@.len(),
        )
    }
}

/// The PRs whose tip is the commit `commit`.
pub open spec fn tips(claims: Seq<Claim>, commit: Seq<char>) -> Seq<u64>
    decreases claims.len(),
{
    if claims.len() == 0 {
        Seq::empty()
    } else {
        let before = tips(claims.drop_last(), commit);
        let c = claims.last();
        if c.commit == commit && !c.blocked {
            before.push(c.pr)
        } else {
            before
        }
    }
}

/// The PRs that have a local bookmark.
pub open spec fn local_prs(claims: Seq<Claim>) -> Set<u64>
    decreases claims.len(),
{
    if claims.len() == 0 {
        Set::empty()
    } else {
        local_prs(claims.drop_last()).insert(claims.last().pr)
    }
}

/// The names of the bookmarks that block sync.
pub open spec fn blocking_names(claims: Seq<Claim>) -> Set<Seq<char>>
    decreases claims.len(),
{
    if claims.len() == 0 {
        Set::empty()
    } else if claims.last().blocked {
        blocking_names(claims.drop_last()).insert(claims.last().name)
    } else {
        blocking_names(claims.drop_last())
    }
}

fn null_add(target: &Vec<Option<CommitId>>) -> (r: bool)
    ensures
        r == has_null_add(target@),
{
    if target.len() < 3 {
        return false;
    }
    let mut i: usize = 2;
    let ghost mut half: int = 1;
    while i < target.len()
        invariant
            1 <= half && i == 2 * half,
            i <= target.len() + 1,
            forall|j: int|
                1 <= j < half && 2 * j < target.len() ==> !(#[trigger] target@[2 * j] is None),
        decreases target.len() + 2 - i,
    {
        if target[i].is_none() {
            assert(target@[2 * half] is None);
            return true;
        }
        if target.len() - i <= 2 {
            assert forall|j: int| 1 <= j && 2 * j < target.len() implies !(
            #[trigger] target@[2 * j] is None) by {
                if j >= half {
                    assert(j == half);
                }
            }
            return false;
        }
        i = i + 2;
        proof {
            half = half + 1;
        }
    }
    false
}

fn claim_at<'a>(
    entry: &'a JjLogEntry,
    bm: &'a JjBookmark,
    prs: &BTreeMap<u64, &GhPr>,
    tracking: Option<&TextSet>,
) -> (r: Option<PrClaim<'a>>)
    requires
        prs_wf(prs@),
        tracked_wf(tracking),
    ensures
        r is Some <==> claim_of(prs@, tracked_names(tracking), *entry, *bm) is Some,
        r is Some ==> claim_of(prs@, tracked_names(tracking), *entry, *bm) == Some(r->0@),
{
    let pr = match find_head_pr(prs, &bm.name) {
        Some(pr) => pr,
        None => {
            return None;
        },
    };
    if !tracks(tracking, &bm.name) || bm.target.len() == 0 {
        return None;
    }
    let local_side = match &bm.target[0] {
        Some(id) => same_text(id.as_str(), entry.commit.commit_id.as_str()),
        None => false,
    };
    if !local_side {
        return None;
    }
    let blocked = bm.target.len() > 1 && !(null_add(&bm.target) && pr.state == PrState::Merged);
    Some(PrClaim { commit: &entry.commit.commit_id, name: &bm.name, pr: pr.number, blocked })
}

/// Collects the claims of all entries.
pub fn collect_claims<'a>(
    jj_entries: &'a Vec<JjLogEntry>,
    prs: &BTreeMap<u64, &GhPr>,
    tracking: Option<&TextSet>,
) -> (r: Vec<PrClaim<'a>>)
    requires
        prs_wf(prs@),
        tracked_wf(tracking),
    ensures
        claim_views(r@) == claims(prs@, tracked_names(tracking), jj_entries@),
{
    let mut out: Vec<PrClaim<'a>> = Vec::new();
    let ghost names = tracked_names(tracking);
    let mut i: usize = 0;
    while i < jj_entries.len()
        invariant
            i <= jj_entries.len(),
            prs_wf(prs@),
            tracked_wf(tracking),
            names == tracked_names(tracking),
            claim_views(out@) == claims(prs@, names, jj_entries@.take(i as int)),
        decreases jj_entries.len() - i,
    {
        let entry = &jj_entries[i];
        let ghost before = claim_views(out@);
        let mut k: usize = 0;
        assert(before + entry_claims(prs@, names, *entry, 0) == before);
        while k < entry.local_bookmarks.len()
            invariant
                k <= entry.local_bookmarks.len(),
                prs_wf(prs@),
                tracked_wf(tracking),
                names == tracked_names(tracking),
                claim_views(out@) == before + entry_claims(prs@, names, *entry, k as nat),
            decreases entry.local_bookmarks.len() - k,
        {
            let ghost sofar = out@;
            let claim = claim_at(entry, &entry.local_bookmarks[k], prs, tracking);
            if let Some(claim) = claim {
                let ghost seen = claim@;
                out.push(claim);
                assert(claim_views(out@) == claim_views(sofar).push(seen));
                assert(before + entry_claims(prs@, names, *entry, k as nat).push(seen) == (before
                    + entry_claims(prs@, names, *entry, k as nat)).push(seen));
            }
            k = k + 1;
        }
        assert(jj_entries@.take(i + 1).drop_last() == jj_entries@.take(i as int));
        i = i + 1;
    }
    assert(jj_entries@.take(i as int) == jj_entries@);
    out
}

/// The PRs whose tip is the commit `commit`.
pub fn tip_prs(all: &Vec<PrClaim>, commit: &CommitId) -> (r: Vec<PrNum>)
    ensures
        pr_views(r@) == tips(claim_views(all@), commit@),
{
    let mut out: Vec<PrNum> = Vec::new();
    let ghost views = claim_views(all@);
    let mut i: usize = 0;
    assert(pr_views(out@) == Seq::<u64>::empty());
    while i < all.len()
        invariant
            i <= all.len(),
            views == claim_views(all@),
            pr_views(out@) == tips(views.take(i as int), commit@),
        decreases all.len() - i,
    {
        assert(views.take(i + 1).drop_last() == views.take(i as int));
        let c = &all[i];
        if same_text(c.commit.as_str(), commit.as_str()) && !c.blocked {
            let ghost sofar = out@;
            out.push(c.pr);
            assert(pr_views(out@) == pr_views(sofar).push(c.pr@));
        }
        i = i + 1;
    }
    assert(views.take(i as int) == views);
    out
}

/// The numbers of a list of PRs.
pub open spec fn pr_views(v: Seq<PrNum>) -> Seq<u64> {
    Seq::new(v.len(), |i: int| v[i]@)
}

/// The PRs that have a local bookmark, and the names of the bookmarks that block sync.
pub fn claimed(all: &Vec<PrClaim>) -> (r: (BTreeSet<u64>, TextSet))
    ensures
        r.0@ == local_prs(claim_views(all@)),
        r.1.wf(),
        r.1@ == blocking_names(claim_views(all@)),
{
    let mut local: BTreeSet<u64> = BTreeSet::new();
    let mut blocking = TextSet::new();
    let ghost views = claim_views(all@);
    let mut i: usize = 0;
    while i < all.len()
        invariant
            i <= all.len(),
            views == claim_views(all@),
            blocking.wf(),
            local@ == local_prs(views.take(i as int)),
            blocking@ == blocking_names(views.take(i as int)),
        decreases all.len() - i,
    {
        assert(views.take(i + 1).drop_last() == views.take(i as int));
        let c = &all[i];
        local.insert(c.pr.get());
        if c.blocked {
            blocking.insert(c.name.as_str());
        }
        i = i + 1;
    }
    assert(views.take(i as int) == views);
    (local, blocking)
}

// --- Pushing ---

/// Whether an entry has a local bookmark of that name.
pub open spec fn has_local_bookmark(entry: JjLogEntry, name: Seq<char>) -> bool {
    exists|j: int|
        0 <= j < entry.local_bookmarks@.len() && #[trigger] entry.local_bookmarks@[j].name@ == name
}

/// Whether an entry has a bookmark of that name on a remote.
pub open spec fn has_remote_bookmark(
    entry: JjLogEntry,
    name: Seq<char>,
    remote: Seq<char>,
) -> bool {
    exists|j: int|
        0 <= j < entry.remote_bookmarks@.len() && is_on_remote(
            #[trigger] entry.remote_bookmarks@[j],
            name,
            remote,
        )
}

/// Whether a remote bookmark has that name and that remote.
pub open spec fn is_on_remote(
    bm: JjRemoteBookmark,
    name: Seq<char>,
    remote: Seq<char>,
) -> bool {
    bm.name@ == name && bm.remote is Some && bm.remote->0@ == remote
}

/// The commit of the last entry that has the local bookmark `name`.
pub open spec fn local_target(entries: Seq<JjLogEntry>, name: Seq<char>) -> Option<Seq<char>>
    decreases entries.len(),
{
    if entries.len() == 0 {
        None
    } else if has_local_bookmark(entries.last(), name) {
        Some(entries.last().commit.commit_id@)
    } else {
        local_target(entries.drop_last(), name)
    }
}

/// The commit of the first entry that has the bookmark `name` on `remote`.
pub open spec fn remote_target(
    entries: Seq<JjLogEntry>,
    name: Seq<char>,
    remote: Seq<char>,
) -> Option<Seq<char>>
    decreases entries.len(),
{
    if entries.len() == 0 {
        None
    } else {
        match remote_target(entries.drop_last(), name, remote) {
            Some(commit) => Some(commit),
            None => if has_remote_bookmark(entries.last(), name, remote) {
                Some(entries.last().commit.commit_id@)
            } else {
                None
            },
        }
    }
}

/// Whether the local bookmark of a PR points to another commit than the remote one does, and
/// is tracked.
pub open spec fn needs_push(
    prs: Map<u64, &GhPr>,
    tracking: Option<Set<Seq<char>>>,
    entries: Seq<JjLogEntry>,
    remote: Seq<char>,
    n: u64,
) -> bool {
    &&& prs.contains_key(n)
    &&& is_tracked(tracking, prs[n].head_ref_name@)
    &&& local_target(entries, prs[n].head_ref_name@) != remote_target(
        entries,
        prs[n].head_ref_name@,
        remote,
    )
}

/// Whether an entry has a local bookmark of that name.
pub fn has_local(entry: &JjLogEntry, name: &Bookmark) -> (r: bool)
    ensures
        r == has_local_bookmark(*entry, name@),
{
    let mut j: usize = 0;
    while j < entry.local_bookmarks.len()
        invariant
            j <= entry.local_bookmarks.len(),
            forall|i: int| 0 <= i < j ==> #[trigger] entry.local_bookmarks@[i].name@ != name@,
        decreases entry.local_bookmarks.len() - j,
    {
        if same_text(entry.local_bookmarks[j].name.as_str(), name.as_str()) {
            assert(entry.local_bookmarks@[j as int].name@ == name@);
            return true;
        }
        j = j + 1;
    }
    false
}

fn has_remote(entry: &JjLogEntry, name: &Bookmark, remote: &str) -> (r: bool)
    ensures
        r == has_remote_bookmark(*entry, name@, remote@),
{
    let mut j: usize = 0;
    while j < entry.remote_bookmarks.len()
        invariant
            j <= entry.remote_bookmarks.len(),
            forall|i: int|
                0 <= i < j ==> !is_on_remote(
                    #[trigger] entry.remote_bookmarks@[i],
                    name@,
                    remote@,
                ),
        decreases entry.remote_bookmarks.len() - j,
    {
        let bm = &entry.remote_bookmarks[j];
        if let Some(other) = &bm.remote {
            if same_text(bm.name.as_str(), name.as_str()) && same_text(other.as_str(), remote) {
                assert(is_on_remote(entry.remote_bookmarks@[j as int], name@, remote@));
                return true;
            }
        }
        j = j + 1;
    }
    false
}

/// What an optional commit ID says.
pub open spec fn opt_commit(id: Option<&CommitId>) -> Option<Seq<char>> {
    match id {
        Some(c) => Some(c@),
        None => None,
    }
}

fn find_local<'a>(jj_entries: &'a Vec<JjLogEntry>, name: &Bookmark) -> (r: Option<&'a CommitId>)
    ensures
        opt_commit(r) == local_target(jj_entries@, name@),
{
    let mut k: usize = jj_entries.len();
    assert(jj_entries@.take(k as int) == jj_entries@);
    while k > 0
        invariant
            k <= jj_entries.len(),
            local_target(jj_entries@.take(k as int), name@) == local_target(jj_entries@, name@),
        decreases k,
    {
        assert(jj_entries@.take(k as int).drop_last() == jj_entries@.take(k - 1));
        k = k - 1;
        if has_local(&jj_entries[k], name) {
            return Some(&jj_entries[k].commit.commit_id);
        }
    }
    None
}

fn find_remote<'a>(
    jj_entries: &'a Vec<JjLogEntry>,
    name: &Bookmark,
    remote: &str,
) -> (r: Option<&'a CommitId>)
    ensures
        opt_commit(r) == remote_target(jj_entries@, name@, remote@),
{
    let mut k: usize = 0;
    while k < jj_entries.len()
        invariant
            k <= jj_entries.len(),
            remote_target(jj_entries@.take(k as int), name@, remote@) is None,
        decreases jj_entries.len() - k,
    {
        assert(jj_entries@.take(k + 1).drop_last() == jj_entries@.take(k as int));
        if has_remote(&jj_entries[k], name, remote) {
            proof {
                lemma_remote_target(jj_entries@, name@, remote@, k + 1);
            }
            return Some(&jj_entries[k].commit.commit_id);
        }
        k = k + 1;
    }
    assert(jj_entries@.take(k as int) == jj_entries@);
    None
}

proof fn lemma_remote_target(
    entries: Seq<JjLogEntry>,
    name: Seq<char>,
    remote: Seq<char>,
    k: int,
)
    requires
        0 <= k <= entries.len(),
        remote_target(entries.take(k), name, remote) is Some,
    ensures
        remote_target(entries, name, remote) == remote_target(entries.take(k), name, remote),
    decreases entries.len() - k,
{
    if k < entries.len() {
        assert(entries.take(k + 1).drop_last() == entries.take(k));
        lemma_remote_target(entries, name, remote, k + 1);
    } else {
        assert(entries.take(k) == entries);
    }
}

/// The PRs whose local bookmark points to a different commit than the remote bookmark.
pub fn prs_to_push(
    jj_entries: &Vec<JjLogEntry>,
    prs: &BTreeMap<u64, &GhPr>,
    tracking: Option<&TextSet>,
    push_remote: &str,
) -> (r: BTreeSet<u64>)
    requires
        prs_wf(prs@),
        tracked_wf(tracking),
    ensures
        forall|n: u64| #[trigger]
            r@.contains(n) <==> needs_push(
                prs@,
                tracked_names(tracking),
                jj_entries@,
                push_remote@,
                n,
            ),
{
    let numbers = map_numbers(prs);
    let ghost names = tracked_names(tracking);
    let mut out: BTreeSet<u64> = BTreeSet::new();
    let mut k: usize = 0;
    while k < numbers.len()
        invariant
            k <= numbers.len(),
            prs_wf(prs@),
            tracked_wf(tracking),
            names == tracked_names(tracking),
            numbers@.to_set() == prs@.dom(),
            forall|n: u64| #[trigger]
                out@.contains(n) <==> numbers@.take(k as int).contains(n) && needs_push(
                    prs@,
                    names,
                    jj_entries@,
                    push_remote@,
                    n,
                ),
        decreases numbers.len() - k,
    {
        let ghost before = out@;
        let n = numbers[k];
        assert(numbers@.to_set().contains(n));
        if let Some(pr) = find_pr(prs, n) {
            if tracks(tracking, &pr.head_ref_name) {
                let local = find_local(jj_entries, &pr.head_ref_name);
                let remote = find_remote(jj_entries, &pr.head_ref_name, push_remote);
                let same = match (local, remote) {
                    (Some(l), Some(r)) => same_text(l.as_str(), r.as_str()),
                    (None, None) => true,
                    _ => false,
                };
                if !same {
                    out.insert(n);
                }
            }
        }
        proof {
            let ghost next = numbers@.take(k + 1);
            assert(next == numbers@.take(k as int).push(n));
            crate::sets::lemma_push_to_set(numbers@.take(k as int), n);
            assert forall|m: u64| #[trigger] out@.contains(m) <==> next.contains(m) && needs_push(
                prs@,
                names,
                jj_entries@,
                push_remote@,
                m,
            ) by {
                assert(next.to_set().contains(m) <==> numbers@.take(k as int).to_set().insert(
                    n,
                ).contains(m));
            }
        }
        k = k + 1;
    }
    proof {
        assert(numbers@.take(k as int) == numbers@);
        assert forall|n: u64| prs@.contains_key(n) implies numbers@.contains(n) by {
            assert(numbers@.to_set().contains(n));
        }
    }
    out
}

// --- Laws of the claims ---

/// Whether a local bookmark at an entry is that of the PR `n`: it is tracked, its local side is
/// the commit of the entry, and `n` is the highest of the PRs for the branch of that name.
pub open spec fn is_pr_bookmark(
    prs: Map<u64, &GhPr>,
    tracking: Option<Set<Seq<char>>>,
    entry: JjLogEntry,
    bm: JjBookmark,
    n: u64,
) -> bool {
    &&& tracking is Some ==> tracking->0.contains(bm.name@)
    &&& prs.contains_key(n)
    &&& prs[n].head_ref_name@ == bm.name@
    &&& forall|m: u64| #[trigger]
        prs.contains_key(m) && prs[m].head_ref_name@ == bm.name@ ==> m <= n
    &&& bm.target@.len() > 0
    &&& bm.target@[0] is Some
    &&& bm.target@[0]->0@ == entry.commit.commit_id@
}

/// Whether a bookmark of the PR `n` is left for the user to resolve: it has several sides, and
/// not just because the branch of a merged PR was deleted on another side.
pub open spec fn is_unresolved(prs: Map<u64, &GhPr>, bm: JjBookmark, n: u64) -> bool {
    bm.target@.len() > 1 && !(prs[n].state is Merged && exists|i: int|
        2 <= i < bm.target@.len() && i % 2 == 0 && #[trigger] bm.target@[i] is None)
}

/// Whether the local bookmark `j` of the entry `i` is that of the PR `n`.
pub open spec fn claims_at(
    prs: Map<u64, &GhPr>,
    tracking: Option<Set<Seq<char>>>,
    entries: Seq<JjLogEntry>,
    i: int,
    j: int,
    n: u64,
) -> bool {
    0 <= i < entries.len() && 0 <= j < entries[i].local_bookmarks@.len() && is_pr_bookmark(
        prs,
        tracking,
        entries[i],
        entries[i].local_bookmarks@[j],
        n,
    )
}

proof fn lemma_claim_of(
    prs: Map<u64, &GhPr>,
    tracking: Option<Set<Seq<char>>>,
    entry: JjLogEntry,
    bm: JjBookmark,
    c: Claim,
)
    ensures
        claim_of(prs, tracking, entry, bm) == Some(c) <==> is_pr_bookmark(
            prs,
            tracking,
            entry,
            bm,
            c.pr,
        ) && c.commit == entry.commit.commit_id@ && c.name == bm.name@ && (c.blocked
            <==> is_unresolved(prs, bm, c.pr)),
{
    let name = bm.name@;
    head_pr_exists(prs, name);
    if is_pr_bookmark(prs, tracking, entry, bm, c.pr) {
        assert(has_head(prs, name, c.pr));
        let n = head_pr(prs, name)->0;
        assert(has_head(prs, name, n));
        assert(prs.contains_key(n));
        assert(n == c.pr);
    }
    if claim_of(prs, tracking, entry, bm) == Some(c) {
        assert forall|m: u64| #[trigger]
            prs.contains_key(m) && prs[m].head_ref_name@ == name implies m <= c.pr by {
            assert(has_head(prs, name, m));
        }
    }
    assert(has_null_add(bm.target@) <==> exists|i: int|
        2 <= i < bm.target@.len() && i % 2 == 0 && #[trigger] bm.target@[i] is None) by {
        if has_null_add(bm.target@) {
            let i = choose|i: int|
                1 <= i && 2 * i < bm.target@.len() && #[trigger] bm.target@[2 * i] is None;
            assert(bm.target@[2 * i] is None);
        }
        if exists|i: int|
            2 <= i < bm.target@.len() && i % 2 == 0 && #[trigger] bm.target@[i] is None {
            let i = choose|i: int|
                2 <= i < bm.target@.len() && i % 2 == 0 && #[trigger] bm.target@[i] is None;
            let h = i / 2;
            assert(i == 2 * h);
            assert(bm.target@[2 * h] is None);
        }
    }
}

proof fn lemma_in_list<A>(s: Seq<A>, t: Seq<A>, x: A)
    ensures
        (s + t).contains(x) <==> s.contains(x) || t.contains(x),
{
    if s.contains(x) {
        let i = choose|i: int| 0 <= i < s.len() && s[i] == x;
        assert((s + t)[i] == x);
    }
    if t.contains(x) {
        let i = choose|i: int| 0 <= i < t.len() && t[i] == x;
        assert((s + t)[s.len() + i] == x);
    }
    if (s + t).contains(x) {
        let i = choose|i: int| 0 <= i < (s + t).len() && (s + t)[i] == x;
        if i < s.len() {
            assert(s[i] == x);
        } else {
            assert(t[i - s.len()] == x);
        }
    }
}

/// Whether a claim is that of the bookmark `j` of the entry `i`.
spec fn is_claim(
    prs: Map<u64, &GhPr>,
    tracking: Option<Set<Seq<char>>>,
    entries: Seq<JjLogEntry>,
    i: int,
    j: int,
    c: Claim,
) -> bool {
    &&& claims_at(prs, tracking, entries, i, j, c.pr)
    &&& c.commit == entries[i].commit.commit_id@
    &&& c.name == entries[i].local_bookmarks@[j].name@
    &&& c.blocked <==> is_unresolved(prs, entries[i].local_bookmarks@[j], c.pr)
}

proof fn lemma_entry_claims(
    prs: Map<u64, &GhPr>,
    tracking: Option<Set<Seq<char>>>,
    entries: Seq<JjLogEntry>,
    i: int,
    k: nat,
    c: Claim,
)
    requires
        0 <= i < entries.len(),
        k <= entries[i].local_bookmarks@.len(),
    ensures
        entry_claims(prs, tracking, entries[i], k).contains(c) <==> exists|j: int|
            0 <= j < k && #[trigger] is_claim(prs, tracking, entries, i, j, c),
    decreases k,
{
    if k > 0 {
        let e = entries[i];
        let before = entry_claims(prs, tracking, e, (k - 1) as nat);
        lemma_entry_claims(prs, tracking, entries, i, (k - 1) as nat, c);
        let bm = e.local_bookmarks@[k - 1];
        lemma_claim_of(prs, tracking, e, bm, c);
        assert(claim_of(prs, tracking, e, bm) == Some(c) <==> is_claim(
            prs,
            tracking,
            entries,
            i,
            k - 1,
            c,
        ));
        if claim_of(prs, tracking, e, bm) is Some {
            let own = claim_of(prs, tracking, e, bm)->0;
            assert(before.push(own) =~= before + seq![own]);
            lemma_in_list(before, seq![own], c);
            assert(seq![own].contains(c) <==> own == c) by {
                if own == c {
                    assert(seq![own][0] == c);
                }
            }
        }
    }
}

proof fn lemma_claims(
    prs: Map<u64, &GhPr>,
    tracking: Option<Set<Seq<char>>>,
    entries: Seq<JjLogEntry>,
    c: Claim,
)
    ensures
        claims(prs, tracking, entries).contains(c) <==> exists|i: int, j: int| #[trigger]
            is_claim(prs, tracking, entries, i, j, c),
    decreases entries.len(),
{
    if entries.len() > 0 {
        let head = entries.drop_last();
        let at = entries.len() - 1;
        lemma_claims(prs, tracking, head, c);
        let own = entry_claims(prs, tracking, entries[at], entries[at].local_bookmarks@.len());
        lemma_entry_claims(prs, tracking, entries, at, entries[at].local_bookmarks@.len(), c);
        lemma_in_list(claims(prs, tracking, head), own, c);
        assert(entries.last() == entries[at]);
        if claims(prs, tracking, head).contains(c) {
            let (i, j) = choose|i: int, j: int| #[trigger]
                is_claim(prs, tracking, head, i, j, c);
            assert(is_claim(prs, tracking, entries, i, j, c));
        }
        if own.contains(c) {
            let j = choose|j: int|
                0 <= j < entries[at].local_bookmarks@.len() && #[trigger] is_claim(
                    prs,
                    tracking,
                    entries,
                    at,
                    j,
                    c,
                );
            assert(is_claim(prs, tracking, entries, at, j, c));
        }
        if exists|i: int, j: int| #[trigger] is_claim(prs, tracking, entries, i, j, c) {
            let (i, j) = choose|i: int, j: int| #[trigger]
                is_claim(prs, tracking, entries, i, j, c);
            if i < at {
                assert(is_claim(prs, tracking, head, i, j, c));
            }
        }
    } else {
        assert(!claims(prs, tracking, entries).contains(c));
    }
}

proof fn lemma_claim_sets(list: Seq<Claim>)
    ensures
        forall|n: u64| #[trigger]
            local_prs(list).contains(n) <==> exists|i: int|
                0 <= i < list.len() && (#[trigger] list[i]).pr == n,
        forall|name: Seq<char>| #[trigger]
            blocking_names(list).contains(name) <==> exists|i: int|
                0 <= i < list.len() && (#[trigger] list[i]).blocked && list[i].name == name,
    decreases list.len(),
{
    if list.len() > 0 {
        let head = list.drop_last();
        let at = list.len() - 1;
        lemma_claim_sets(head);
        assert forall|n: u64| #[trigger] local_prs(list).contains(n) <==> exists|i: int|
            0 <= i < list.len() && (#[trigger] list[i]).pr == n by {
            if local_prs(head).contains(n) {
                let i = choose|i: int| 0 <= i < head.len() && (#[trigger] head[i]).pr == n;
                assert(list[i] == head[i]);
            } else if local_prs(list).contains(n) {
                assert(list[at].pr == n);
            }
            if exists|i: int| 0 <= i < list.len() && (#[trigger] list[i]).pr == n {
                let i = choose|i: int| 0 <= i < list.len() && (#[trigger] list[i]).pr == n;
                if i < at {
                    assert(head[i] == list[i]);
                }
            }
        }
        assert forall|name: Seq<char>| #[trigger]
            blocking_names(list).contains(name) <==> exists|i: int|
            0 <= i < list.len() && (#[trigger] list[i]).blocked && list[i].name == name by {
            if blocking_names(head).contains(name) {
                let i = choose|i: int|
                    0 <= i < head.len() && (#[trigger] head[i]).blocked && head[i].name == name;
                assert(list[i] == head[i]);
            } else if blocking_names(list).contains(name) {
                assert(list[at].blocked && list[at].name == name);
            }
            if exists|i: int|
                0 <= i < list.len() && (#[trigger] list[i]).blocked && list[i].name == name {
                let i = choose|i: int|
                    0 <= i < list.len() && (#[trigger] list[i]).blocked && list[i].name == name;
                if i < at {
                    assert(head[i] == list[i]);
                }
            }
        }
    }
}

/// A PR has a local bookmark exactly where a tracked bookmark of its branch has its local side at
/// one of the commits.
pub proof fn local_prs_have_bookmarks(
    prs: Map<u64, &GhPr>,
    tracking: Option<Set<Seq<char>>>,
    entries: Seq<JjLogEntry>,
    n: u64,
)
    ensures
        local_prs(claims(prs, tracking, entries)).contains(n) <==> exists|i: int, j: int| #[trigger]
            claims_at(prs, tracking, entries, i, j, n),
{
    let list = claims(prs, tracking, entries);
    lemma_claim_sets(list);
    if local_prs(list).contains(n) {
        let x = choose|x: int| 0 <= x < list.len() && (#[trigger] list[x]).pr == n;
        lemma_claims(prs, tracking, entries, list[x]);
        assert(list.contains(list[x]));
        let (i, j) = choose|i: int, j: int| #[trigger]
            is_claim(prs, tracking, entries, i, j, list[x]);
        assert(claims_at(prs, tracking, entries, i, j, n));
    }
    if exists|i: int, j: int| #[trigger] claims_at(prs, tracking, entries, i, j, n) {
        let (i, j) = choose|i: int, j: int| #[trigger]
            claims_at(prs, tracking, entries, i, j, n);
        let bm = entries[i].local_bookmarks@[j];
        let c = Claim {
            commit: entries[i].commit.commit_id@,
            name: bm.name@,
            pr: n,
            blocked: is_unresolved(prs, bm, n),
        };
        assert(is_claim(prs, tracking, entries, i, j, c));
        lemma_claims(prs, tracking, entries, c);
        let x = choose|x: int| 0 <= x < list.len() && list[x] == c;
        assert(list[x].pr == n);
    }
}

/// A bookmark blocks the sync exactly where it is the bookmark of a PR and is left for the user
/// to resolve.
pub proof fn unresolved_bookmarks_block(
    prs: Map<u64, &GhPr>,
    tracking: Option<Set<Seq<char>>>,
    entries: Seq<JjLogEntry>,
    name: Seq<char>,
)
    ensures
        blocking_names(claims(prs, tracking, entries)).contains(name) <==> exists|
            i: int,
            j: int,
            n: u64,
        | #[trigger]
            claims_at(prs, tracking, entries, i, j, n) && entries[i].local_bookmarks@[j].name@
                == name && is_unresolved(prs, entries[i].local_bookmarks@[j], n),
{
    let list = claims(prs, tracking, entries);
    lemma_claim_sets(list);
    if blocking_names(list).contains(name) {
        let x = choose|x: int|
            0 <= x < list.len() && (#[trigger] list[x]).blocked && list[x].name == name;
        lemma_claims(prs, tracking, entries, list[x]);
        assert(list.contains(list[x]));
        let (i, j) = choose|i: int, j: int| #[trigger]
            is_claim(prs, tracking, entries, i, j, list[x]);
        assert(claims_at(prs, tracking, entries, i, j, list[x].pr));
    }
    if exists|i: int, j: int, n: u64| #[trigger]
        claims_at(prs, tracking, entries, i, j, n) && entries[i].local_bookmarks@[j].name@ == name
            && is_unresolved(prs, entries[i].local_bookmarks@[j], n) {
        let (i, j, n) = choose|i: int, j: int, n: u64| #[trigger]
            claims_at(prs, tracking, entries, i, j, n) && entries[i].local_bookmarks@[j].name@
                == name && is_unresolved(prs, entries[i].local_bookmarks@[j], n);
        let c = Claim { commit: entries[i].commit.commit_id@, name, pr: n, blocked: true };
        assert(is_claim(prs, tracking, entries, i, j, c));
        lemma_claims(prs, tracking, entries, c);
        let x = choose|x: int| 0 <= x < list.len() && list[x] == c;
        assert(list[x].blocked && list[x].name == name);
    }
}

proof fn lemma_tips(list: Seq<Claim>, commit: Seq<char>, n: u64)
    ensures
        tips(list, commit).contains(n) <==> exists|i: int|
            0 <= i < list.len() && (#[trigger] list[i]).commit == commit && !list[i].blocked
                && list[i].pr == n,
    decreases list.len(),
{
    if list.len() > 0 {
        let head = list.drop_last();
        let at = list.len() - 1;
        lemma_tips(head, commit, n);
        let before = tips(head, commit);
        let own = list.last();
        assert(before.push(own.pr) =~= before + seq![own.pr]);
        lemma_in_list(before, seq![own.pr], n);
        assert(seq![own.pr].contains(n) <==> own.pr == n) by {
            if own.pr == n {
                assert(seq![own.pr][0] == n);
            }
        }
        if before.contains(n) {
            let i = choose|i: int|
                0 <= i < head.len() && (#[trigger] head[i]).commit == commit && !head[i].blocked
                    && head[i].pr == n;
            assert(list[i] == head[i]);
        }
        if own.commit == commit && !own.blocked && own.pr == n {
            assert(list[at] == own);
        }
        if exists|i: int|
            0 <= i < list.len() && (#[trigger] list[i]).commit == commit && !list[i].blocked
                && list[i].pr == n {
            let i = choose|i: int|
                0 <= i < list.len() && (#[trigger] list[i]).commit == commit && !list[i].blocked
                    && list[i].pr == n;
            if i < at {
                assert(head[i] == list[i]);
            }
        }
    }
}

/// A commit is the tip of exactly the PRs whose bookmarks have their local side there and are not
/// left for the user to resolve.
pub proof fn tips_have_bookmarks(
    prs: Map<u64, &GhPr>,
    tracking: Option<Set<Seq<char>>>,
    entries: Seq<JjLogEntry>,
    commit: Seq<char>,
    n: u64,
)
    ensures
        tips(claims(prs, tracking, entries), commit).contains(n) <==> exists|i: int, j: int|
            #[trigger]
            claims_at(prs, tracking, entries, i, j, n) && entries[i].commit.commit_id@ == commit
                && !is_unresolved(prs, entries[i].local_bookmarks@[j], n),
{
    let list = claims(prs, tracking, entries);
    lemma_tips(list, commit, n);
    if tips(list, commit).contains(n) {
        let x = choose|x: int|
            0 <= x < list.len() && (#[trigger] list[x]).commit == commit && !list[x].blocked
                && list[x].pr == n;
        lemma_claims(prs, tracking, entries, list[x]);
        assert(list.contains(list[x]));
        let (i, j) = choose|i: int, j: int| #[trigger]
            is_claim(prs, tracking, entries, i, j, list[x]);
        assert(claims_at(prs, tracking, entries, i, j, n));
    }
    if exists|i: int, j: int| #[trigger]
        claims_at(prs, tracking, entries, i, j, n) && entries[i].commit.commit_id@ == commit
            && !is_unresolved(prs, entries[i].local_bookmarks@[j], n) {
        let (i, j) = choose|i: int, j: int| #[trigger]
            claims_at(prs, tracking, entries, i, j, n) && entries[i].commit.commit_id@ == commit
                && !is_unresolved(prs, entries[i].local_bookmarks@[j], n);
        let c = Claim {
            commit,
            name: entries[i].local_bookmarks@[j].name@,
            pr: n,
            blocked: false,
        };
        assert(is_claim(prs, tracking, entries, i, j, c));
        lemma_claims(prs, tracking, entries, c);
        let x = choose|x: int| 0 <= x < list.len() && list[x] == c;
        assert(list[x].commit == commit && !list[x].blocked && list[x].pr == n);
    }
}

/// Whether the entry `i` is the last one with a local bookmark of that name.
pub open spec fn is_last_local(entries: Seq<JjLogEntry>, name: Seq<char>, i: int) -> bool {
    &&& 0 <= i < entries.len()
    &&& has_bookmark(entries[i], name)
    &&& forall|x: int| i < x < entries.len() ==> !has_bookmark(#[trigger] entries[x], name)
}

/// Whether an entry has a local bookmark of that name.
pub open spec fn has_bookmark(entry: JjLogEntry, name: Seq<char>) -> bool {
    exists|j: int|
        0 <= j < entry.local_bookmarks@.len() && (#[trigger] entry.local_bookmarks@[j]).name@
            == name
}

/// Whether an entry has a bookmark of that name on the remote.
pub open spec fn has_bookmark_on(entry: JjLogEntry, name: Seq<char>, remote: Seq<char>) -> bool {
    exists|j: int|
        0 <= j < entry.remote_bookmarks@.len() && (#[trigger] entry.remote_bookmarks@[j]).name@
            == name && entry.remote_bookmarks@[j].remote is Some
            && entry.remote_bookmarks@[j].remote->0@ == remote
}

/// Whether the entry `i` is the first one with a bookmark of that name on the remote.
pub open spec fn is_first_remote(
    entries: Seq<JjLogEntry>,
    name: Seq<char>,
    remote: Seq<char>,
    i: int,
) -> bool {
    &&& 0 <= i < entries.len()
    &&& has_bookmark_on(entries[i], name, remote)
    &&& forall|x: int|
        0 <= x < i ==> !has_bookmark_on(#[trigger] entries[x], name, remote)
}

proof fn lemma_bookmark_forms(entry: JjLogEntry, name: Seq<char>, remote: Seq<char>)
    ensures
        has_bookmark(entry, name) <==> has_local_bookmark(entry, name),
        has_bookmark_on(entry, name, remote) <==> has_remote_bookmark(entry, name, remote),
{
    if has_bookmark(entry, name) {
        let j = choose|j: int|
            0 <= j < entry.local_bookmarks@.len() && (#[trigger] entry.local_bookmarks@[j]).name@
                == name;
        assert(entry.local_bookmarks@[j].name@ == name);
    }
    if has_bookmark_on(entry, name, remote) {
        let j = choose|j: int|
            0 <= j < entry.remote_bookmarks@.len() && (#[trigger] entry.remote_bookmarks@[j]).name@
                == name && entry.remote_bookmarks@[j].remote is Some
                && entry.remote_bookmarks@[j].remote->0@ == remote;
        assert(is_on_remote(entry.remote_bookmarks@[j], name, remote));
    }
    if has_remote_bookmark(entry, name, remote) {
        let j = choose|j: int|
            0 <= j < entry.remote_bookmarks@.len() && is_on_remote(
                #[trigger] entry.remote_bookmarks@[j],
                name,
                remote,
            );
        assert(entry.remote_bookmarks@[j].name@ == name);
    }
}

proof fn lemma_targets(entries: Seq<JjLogEntry>, name: Seq<char>, remote: Seq<char>)
    ensures
        local_target(entries, name) is Some ==> exists|i: int| #[trigger]
            is_last_local(entries, name, i) && local_target(entries, name)
                == Some(entries[i].commit.commit_id@),
        local_target(entries, name) is None ==> forall|i: int|
            0 <= i < entries.len() ==> !has_bookmark(#[trigger] entries[i], name),
        remote_target(entries, name, remote) is Some ==> exists|i: int| #[trigger]
            is_first_remote(entries, name, remote, i) && remote_target(entries, name, remote)
                == Some(entries[i].commit.commit_id@),
        remote_target(entries, name, remote) is None ==> forall|i: int|
            0 <= i < entries.len() ==> !has_bookmark_on(#[trigger] entries[i], name, remote),
    decreases entries.len(),
{
    if entries.len() > 0 {
        let head = entries.drop_last();
        let at = entries.len() - 1;
        lemma_targets(head, name, remote);
        lemma_bookmark_forms(entries[at], name, remote);
        assert forall|i: int| 0 <= i < at implies entries[i] == #[trigger] head[i] by {}
        if has_bookmark(entries[at], name) {
            assert(is_last_local(entries, name, at));
        } else if local_target(head, name) is Some {
            let i = choose|i: int| #[trigger]
                is_last_local(head, name, i) && local_target(head, name) == Some(
                    head[i].commit.commit_id@,
                );
            assert(entries[i] == head[i]);
            assert forall|x: int| i < x < entries.len() implies !has_bookmark(
                #[trigger] entries[x],
                name,
            ) by {
                if x < at {
                    assert(head[x] == entries[x]);
                }
            }
            assert(is_last_local(entries, name, i));
        } else {
            assert forall|i: int| 0 <= i < entries.len() implies !has_bookmark(
                #[trigger] entries[i],
                name,
            ) by {
                if i < at {
                    assert(head[i] == entries[i]);
                }
            }
        }
        if remote_target(head, name, remote) is Some {
            let i = choose|i: int| #[trigger]
                is_first_remote(head, name, remote, i) && remote_target(head, name, remote)
                    == Some(head[i].commit.commit_id@);
            assert(entries[i] == head[i]);
            assert forall|x: int| 0 <= x < i implies !has_bookmark_on(
                #[trigger] entries[x],
                name,
                remote,
            ) by {
                assert(head[x] == entries[x]);
            }
            assert(is_first_remote(entries, name, remote, i));
        } else {
            assert forall|i: int| 0 <= i < at implies !has_bookmark_on(
                #[trigger] entries[i],
                name,
                remote,
            ) by {
                assert(head[i] == entries[i]);
            }
            if has_bookmark_on(entries[at], name, remote) {
                assert(is_first_remote(entries, name, remote, at));
            }
        }
    }
}

/// Of two targets of a bookmark, whether they are the same: both are missing, or both are at
/// entries of one commit.
pub open spec fn is_in_step(
    entries: Seq<JjLogEntry>,
    name: Seq<char>,
    remote: Seq<char>,
) -> bool {
    ||| forall|i: int|
        0 <= i < entries.len() ==> !has_bookmark(#[trigger] entries[i], name) && !has_bookmark_on(
            entries[i],
            name,
            remote,
        )
    ||| exists|i: int, j: int| #[trigger]
        is_last_local(entries, name, i) && #[trigger] is_first_remote(entries, name, remote, j)
            && entries[i].commit.commit_id@ == entries[j].commit.commit_id@
}

/// A PR has to be pushed exactly where its bookmark is tracked and not in step with the remote:
/// one of both is missing, or they are at different commits.
pub proof fn prs_out_of_step_are_pushed(
    prs: Map<u64, &GhPr>,
    tracking: Option<Set<Seq<char>>>,
    entries: Seq<JjLogEntry>,
    remote: Seq<char>,
    n: u64,
)
    ensures
        needs_push(prs, tracking, entries, remote, n) <==> prs.contains_key(n) && (tracking is Some
            ==> tracking->0.contains(prs[n].head_ref_name@)) && !is_in_step(
            entries,
            prs[n].head_ref_name@,
            remote,
        ),
{
    let name = prs[n].head_ref_name@;
    let a = local_target(entries, name);
    let b = remote_target(entries, name, remote);
    lemma_targets(entries, name, remote);
    if a is Some {
        let i = choose|i: int| #[trigger]
            is_last_local(entries, name, i) && a == Some(entries[i].commit.commit_id@);
        assert(has_bookmark(entries[i], name));
        assert forall|x: int| #[trigger] is_last_local(entries, name, x) implies x == i by {
            if x < i {
                assert(has_bookmark(entries[i], name));
            } else if i < x {
                assert(has_bookmark(entries[x], name));
            }
        }
    }
    if b is Some {
        let j = choose|j: int| #[trigger]
            is_first_remote(entries, name, remote, j) && b == Some(entries[j].commit.commit_id@);
        assert(has_bookmark_on(entries[j], name, remote));
        assert forall|x: int| #[trigger] is_first_remote(entries, name, remote, x) implies x
            == j by {
            if x < j {
                assert(has_bookmark_on(entries[x], name, remote));
            } else if j < x {
                assert(has_bookmark_on(entries[j], name, remote));
            }
        }
    }
    if a == b && a is Some {
        let i = choose|i: int| #[trigger]
            is_last_local(entries, name, i) && a == Some(entries[i].commit.commit_id@);
        let j = choose|j: int| #[trigger]
            is_first_remote(entries, name, remote, j) && b == Some(entries[j].commit.commit_id@);
        assert(is_last_local(entries, name, i) && is_first_remote(entries, name, remote, j));
    }
    if a is None && b is None {
        assert forall|i: int| 0 <= i < entries.len() implies !has_bookmark(
            #[trigger] entries[i],
            name,
        ) && !has_bookmark_on(entries[i], name, remote) by {}
    }
}

proof fn lemma_tips_sum(a: Seq<Claim>, b: Seq<Claim>, commit: Seq<char>)
    ensures
        tips(a + b, commit) == tips(a, commit) + tips(b, commit),
    decreases b.len(),
{
    if b.len() > 0 {
        lemma_tips_sum(a, b.drop_last(), commit);
        assert((a + b).drop_last() == a + b.drop_last());
        assert((a + b).last() == b.last());
        assert(tips(a, commit) + tips(b.drop_last(), commit).push(b.last().pr) == (tips(a, commit)
            + tips(b.drop_last(), commit)).push(b.last().pr));
    } else {
        assert(a + b == a);
        assert(tips(a, commit) + Seq::<u64>::empty() == tips(a, commit));
    }
}

/// Whether the bookmark `j` of the entry `i` makes the commit a tip of the PR `n`.
pub open spec fn marks_tip(
    prs: Map<u64, &GhPr>,
    tracking: Option<Set<Seq<char>>>,
    entries: Seq<JjLogEntry>,
    i: int,
    j: int,
    n: u64,
) -> bool {
    claims_at(prs, tracking, entries, i, j, n) && !is_unresolved(
        prs,
        entries[i].local_bookmarks@[j],
        n,
    )
}

proof fn lemma_entry_tips(
    prs: Map<u64, &GhPr>,
    tracking: Option<Set<Seq<char>>>,
    entries: Seq<JjLogEntry>,
    i: int,
    k: nat,
    j: int,
    n: u64,
)
    requires
        marks_tip(prs, tracking, entries, i, j, n),
        k <= entries[i].local_bookmarks@.len(),
        forall|x: int, m: u64| #[trigger]
            marks_tip(prs, tracking, entries, i, x, m) ==> x == j && m == n,
    ensures
        tips(
            entry_claims(prs, tracking, entries[i], k),
            entries[i].commit.commit_id@,
        ) == if j < k {
            seq![n]
        } else {
            Seq::empty()
        },
    decreases k,
{
    if k > 0 {
        let e = entries[i];
        let c = e.commit.commit_id@;
        let before = entry_claims(prs, tracking, e, (k - 1) as nat);
        lemma_entry_tips(prs, tracking, entries, i, (k - 1) as nat, j, n);
        let bm = e.local_bookmarks@[k - 1];
        let own = claim_of(prs, tracking, e, bm);
        if own is Some {
            lemma_claim_of(prs, tracking, e, bm, own->0);
            assert(before.push(own->0).drop_last() == before);
            if !own->0.blocked {
                assert(marks_tip(prs, tracking, entries, i, k - 1, own->0.pr));
            }
        }
        if j == k - 1 {
            let want = Claim { commit: c, name: bm.name@, pr: n, blocked: false };
            lemma_claim_of(prs, tracking, e, bm, want);
            assert(own == Some(want));
            assert(tips(before, c).push(n) == seq![n]);
        }
    }
}

/// The bookmark of a PR that is the only one to make a commit a tip makes it the tip of that PR
/// alone.
pub proof fn only_bookmark_makes_only_tip(
    prs: Map<u64, &GhPr>,
    tracking: Option<Set<Seq<char>>>,
    entries: Seq<JjLogEntry>,
    i: int,
    j: int,
    n: u64,
)
    requires
        marks_tip(prs, tracking, entries, i, j, n),
        forall|a: int, x: int, m: u64| #[trigger]
            marks_tip(prs, tracking, entries, a, x, m) && entries[a].commit.commit_id@
                == entries[i].commit.commit_id@ ==> a == i && x == j && m == n,
    ensures
        tips(claims(prs, tracking, entries), entries[i].commit.commit_id@) == seq![n],
    decreases entries.len(),
{
    let head = entries.drop_last();
    let at = entries.len() - 1;
    let c = entries[i].commit.commit_id@;
    let last = entries[at];
    let own = entry_claims(prs, tracking, last, last.local_bookmarks@.len());
    lemma_tips_sum(claims(prs, tracking, head), own, c);
    assert forall|a: int, x: int, m: u64| #[trigger]
        marks_tip(prs, tracking, head, a, x, m) implies marks_tip(
        prs,
        tracking,
        entries,
        a,
        x,
        m,
    ) && entries[a] == head[a] by {}
    if i < at {
        assert(head[i] == entries[i]);
        assert(marks_tip(prs, tracking, head, i, j, n));
        only_bookmark_makes_only_tip(prs, tracking, head, i, j, n);
        assert(tips(own, c).len() == 0) by {
            if tips(own, c).len() > 0 {
                let m = tips(own, c)[0];
                lemma_tips(own, c, m);
                assert(tips(own, c).contains(m));
                let y = choose|y: int|
                    0 <= y < own.len() && (#[trigger] own[y]).commit == c && !own[y].blocked
                        && own[y].pr == m;
                assert(own.contains(own[y]));
                lemma_entry_claims(
                    prs,
                    tracking,
                    entries,
                    at,
                    last.local_bookmarks@.len(),
                    own[y],
                );
                let x = choose|x: int|
                    0 <= x < last.local_bookmarks@.len() && #[trigger] is_claim(
                        prs,
                        tracking,
                        entries,
                        at,
                        x,
                        own[y],
                    );
                assert(marks_tip(prs, tracking, entries, at, x, m));
            }
        }
        assert(seq![n] + tips(own, c) == seq![n]);
    } else {
        lemma_entry_tips(prs, tracking, entries, i, last.local_bookmarks@.len(), j, n);
        let before = tips(claims(prs, tracking, head), c);
        assert(before.len() == 0) by {
            if before.len() > 0 {
                let m = before[0];
                assert(before.contains(m));
                tips_have_bookmarks(prs, tracking, head, c, m);
                let (a, x) = choose|a: int, x: int| #[trigger]
                    claims_at(prs, tracking, head, a, x, m) && head[a].commit.commit_id@ == c
                        && !is_unresolved(prs, head[a].local_bookmarks@[x], m);
                assert(marks_tip(prs, tracking, head, a, x, m));
            }
        }
        assert(before + seq![n] == seq![n]);
    }
}

} // verus!
