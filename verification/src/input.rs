//! The raw data that everything is derived from.
use std::collections::BTreeMap;
use vstd::prelude::*;

use crate::gh::{GhPr, PrState};
use crate::jj::JjLogEntry;
use crate::sets::TextSet;
use crate::types::{Bookmark, CommitId};

verus! {

/// Raw input data loaded from jj and gh, before any derived state is computed.
pub struct InputData {
    pub jj_entries: Vec<JjLogEntry>,
    pub prs: Vec<GhPr>,
    pub default_branch: Bookmark,
    /// Names of the bookmarks that are tracked on the push remote.
    /// `None` means all bookmarks are considered tracked.
    pub tracked_bookmarks: Option<TextSet>,
    /// Merge commit OIDs that exist in the local repo (for stale trunk detection).
    /// `None` means all merge commits are considered present.
    pub existing_merge_commits: Option<TextSet>,
}

/// The PRs by number. Of several with one number, the last one counts.
pub open spec fn prs_by_number<'a>(prs: Seq<GhPr>) -> Map<u64, &'a GhPr>
    decreases prs.len(),
{
    if prs.len() == 0 {
        Map::empty()
    } else {
        prs_by_number(prs.drop_last()).insert(prs.last().number@, &prs.last())
    }
}

/// Each PR stands under its number.
pub proof fn lemma_prs_by_number(prs: Seq<GhPr>)
    ensures
        crate::claims::prs_wf(prs_by_number(prs)),
    decreases prs.len(),
{
    if prs.len() > 0 {
        lemma_prs_by_number(prs.drop_last());
    }
}

impl InputData {
    /// The PRs by number.
    pub fn prs_map(&self) -> (r: BTreeMap<u64, &GhPr>)
        ensures
            r@ == prs_by_number(self.prs@),
            crate::claims::prs_wf(r@),
    {
        let mut map: BTreeMap<u64, &GhPr> = BTreeMap::new();
        let mut i: usize = 0;
        while i < self.prs.len()
            invariant
                i <= self.prs.len(),
                map@ == prs_by_number(self.prs@.take(i as int)),
            decreases self.prs.len() - i,
        {
            assert(self.prs@.take(i + 1).drop_last() == self.prs@.take(i as int));
            let pr = &self.prs[i];
            map.insert(pr.number.get(), pr);
            i = i + 1;
        }
        assert(self.prs@.take(i as int) == self.prs@);
        proof {
            lemma_prs_by_number(self.prs@);
        }
        map
    }
}

/// The names of the first `k` local bookmarks of an entry.
pub open spec fn entry_names(entry: JjLogEntry, k: nat) -> Set<Seq<char>>
    decreases k,
{
    if k == 0 {
        Set::empty()
    } else {
        entry_names(entry, (k - 1) as nat).insert(entry.local_bookmarks@[k - 1].name@)
    }
}

/// The names of the local bookmarks.
pub open spec fn local_names(entries: Seq<JjLogEntry>) -> Set<Seq<char>>
    decreases entries.len(),
{
    if entries.len() == 0 {
        Set::empty()
    } else {
        local_names(entries.drop_last()).union(
            entry_names(entries.last(), entries.last().local_bookmarks@.len()),
        )
    }
}

/// The names of the local bookmarks. PRs are looked up by them as well as by trailers, because
/// both may reference different PRs (e.g. stale trailers from a closed PR, bookmark pointing to
/// a new PR).
pub fn local_bookmark_names(jj_entries: &Vec<JjLogEntry>) -> (r: TextSet)
    ensures
        r.wf(),
        r@ == local_names(jj_entries@),
{
    let mut names = TextSet::new();
    let mut i: usize = 0;
    while i < jj_entries.len()
        invariant
            i <= jj_entries.len(),
            names.wf(),
            names@ == local_names(jj_entries@.take(i as int)),
        decreases jj_entries.len() - i,
    {
        let entry = &jj_entries[i];
        assert(jj_entries@.take(i + 1).drop_last() == jj_entries@.take(i as int));
        let ghost before = names@;
        let mut k: usize = 0;
        assert(before.union(entry_names(*entry, 0)) == before);
        while k < entry.local_bookmarks.len()
            invariant
                k <= entry.local_bookmarks.len(),
                names.wf(),
                names@ == before.union(entry_names(*entry, k as nat)),
            decreases entry.local_bookmarks.len() - k,
        {
            names.insert(entry.local_bookmarks[k].name.as_str());
            assert(names@ == before.union(entry_names(*entry, (k + 1) as nat)));
            k = k + 1;
        }
        i = i + 1;
    }
    assert(jj_entries@.take(i as int) == jj_entries@);
    names
}

/// The merge commits of the merged PRs.
pub open spec fn merge_commits(prs: Seq<GhPr>) -> Seq<Seq<char>>
    decreases prs.len(),
{
    if prs.len() == 0 {
        Seq::empty()
    } else {
        let before = merge_commits(prs.drop_last());
        let pr = prs.last();
        if pr.state is Merged && pr.merge_commit_oid is Some {
            before.push(pr.merge_commit_oid->0@)
        } else {
            before
        }
    }
}

/// The merge commits of the merged PRs.
pub fn merge_oids(prs: &Vec<GhPr>) -> (r: Vec<CommitId>)
    ensures
        crate::types::commit_views(r@) == merge_commits(prs@),
{
    let mut out: Vec<CommitId> = Vec::new();
    let mut i: usize = 0;
    assert(crate::types::commit_views(out@) == Seq::<Seq<char>>::empty());
    while i < prs.len()
        invariant
            i <= prs.len(),
            crate::types::commit_views(out@) == merge_commits(prs@.take(i as int)),
        decreases prs.len() - i,
    {
        assert(prs@.take(i + 1).drop_last() == prs@.take(i as int));
        if prs[i].state == PrState::Merged {
            if let Some(oid) = &prs[i].merge_commit_oid {
                let ghost before = out@;
                let ghost text = oid@;
                out.push(oid.clone());
                assert(crate::types::commit_views(out@) == crate::types::commit_views(before).push(
                    text,
                ));
            }
        }
        i = i + 1;
    }
    assert(prs@.take(i as int) == prs@);
    out
}

/// A PR is known by its number exactly where it is in the list; of several with one number the
/// last one counts.
pub proof fn last_pr_of_a_number_counts(prs: Seq<GhPr>, n: u64, i: int)
    ensures
        prs_by_number(prs).contains_key(n) <==> exists|j: int|
            0 <= j < prs.len() && (#[trigger] prs[j]).number@ == n,
        0 <= i < prs.len() && prs[i].number@ == n && (forall|j: int|
            i < j < prs.len() ==> (#[trigger] prs[j]).number@ != n) ==> *prs_by_number(prs)[n]
            == prs[i],
    decreases prs.len(),
{
    if prs.len() > 0 {
        let head = prs.drop_last();
        let at = prs.len() - 1;
        last_pr_of_a_number_counts(head, n, i);
        if prs_by_number(head).contains_key(n) {
            let j = choose|j: int| 0 <= j < head.len() && (#[trigger] head[j]).number@ == n;
            assert(prs[j] == head[j]);
        }
        if prs[at].number@ == n {
            assert(prs[at] == prs.last());
        }
        if exists|j: int| 0 <= j < prs.len() && (#[trigger] prs[j]).number@ == n {
            let j = choose|j: int| 0 <= j < prs.len() && (#[trigger] prs[j]).number@ == n;
            if j < at {
                assert(head[j] == prs[j]);
            }
        }
        if 0 <= i < at && prs[i].number@ == n && (forall|j: int|
            i < j < prs.len() ==> (#[trigger] prs[j]).number@ != n) {
            assert(prs[at].number@ != n);
            assert(head[i] == prs[i]);
            assert forall|j: int| i < j < head.len() implies (#[trigger] head[j]).number@ != n by {
                assert(head[j] == prs[j]);
            }
        }
    }
}

/// PRs are looked up by exactly the names of the local bookmarks.
pub proof fn local_bookmarks_are_looked_up(entries: Seq<JjLogEntry>, name: Seq<char>)
    ensures
        local_names(entries).contains(name) <==> exists|i: int|
            0 <= i < entries.len() && crate::claims::has_bookmark(#[trigger] entries[i], name),
    decreases entries.len(),
{
    if entries.len() > 0 {
        let head = entries.drop_last();
        let at = entries.len() - 1;
        local_bookmarks_are_looked_up(head, name);
        lemma_entry_names(entries[at], entries[at].local_bookmarks@.len(), name);
        assert(entries.last() == entries[at]);
        assert(crate::claims::has_bookmark(entries[at], name) <==> entry_names(
            entries[at],
            entries[at].local_bookmarks@.len(),
        ).contains(name)) by {
            if crate::claims::has_bookmark(entries[at], name) {
                let j = choose|j: int|
                    0 <= j < entries[at].local_bookmarks@.len() && (
                    #[trigger] entries[at].local_bookmarks@[j]).name@ == name;
                assert(entries[at].local_bookmarks@[j].name@ == name);
            }
        }
        if local_names(head).contains(name) {
            let i = choose|i: int|
                0 <= i < head.len() && crate::claims::has_bookmark(#[trigger] head[i], name);
            assert(entries[i] == head[i]);
        }
        if exists|i: int|
            0 <= i < entries.len() && crate::claims::has_bookmark(#[trigger] entries[i], name) {
            let i = choose|i: int|
                0 <= i < entries.len() && crate::claims::has_bookmark(#[trigger] entries[i], name);
            if i < at {
                assert(head[i] == entries[i]);
            }
        }
    }
}

proof fn lemma_entry_names(entry: JjLogEntry, k: nat, name: Seq<char>)
    requires
        k <= entry.local_bookmarks@.len(),
    ensures
        entry_names(entry, k).contains(name) <==> exists|j: int|
            0 <= j < k && (#[trigger] entry.local_bookmarks@[j]).name@ == name,
    decreases k,
{
    if k > 0 {
        lemma_entry_names(entry, (k - 1) as nat, name);
        if entry.local_bookmarks@[k - 1].name@ == name {
            assert((entry.local_bookmarks@[k - 1]).name@ == name);
        }
    }
}

/// The merge commits that are looked for are those of the merged PRs, as far as they are known.
pub proof fn merge_commits_are_those_of_merged_prs(prs: Seq<GhPr>, oid: Seq<char>)
    ensures
        merge_commits(prs).contains(oid) <==> exists|i: int|
            0 <= i < prs.len() && (#[trigger] prs[i]).state is Merged
                && prs[i].merge_commit_oid is Some && prs[i].merge_commit_oid->0@ == oid,
    decreases prs.len(),
{
    if prs.len() > 0 {
        let head = prs.drop_last();
        let at = prs.len() - 1;
        let before = merge_commits(head);
        let all = merge_commits(prs);
        merge_commits_are_those_of_merged_prs(head, oid);
        assert(prs[at] == prs.last());
        if before.contains(oid) {
            let j = choose|j: int| 0 <= j < before.len() && before[j] == oid;
            assert(all[j] == oid);
            let i = choose|i: int|
                0 <= i < head.len() && (#[trigger] head[i]).state is Merged
                    && head[i].merge_commit_oid is Some && head[i].merge_commit_oid->0@ == oid;
            assert(prs[i] == head[i]);
        }
        if all.contains(oid) && !before.contains(oid) {
            let j = choose|j: int| 0 <= j < all.len() && all[j] == oid;
            if j < before.len() {
                assert(before[j] == oid);
            }
            assert(prs[at].state is Merged && prs[at].merge_commit_oid is Some
                && prs[at].merge_commit_oid->0@ == oid);
        }
        if exists|i: int|
            0 <= i < prs.len() && (#[trigger] prs[i]).state is Merged
                && prs[i].merge_commit_oid is Some && prs[i].merge_commit_oid->0@ == oid {
            let i = choose|i: int|
                0 <= i < prs.len() && (#[trigger] prs[i]).state is Merged
                    && prs[i].merge_commit_oid is Some && prs[i].merge_commit_oid->0@ == oid;
            if i < at {
                assert(head[i] == prs[i]);
            } else {
                assert(all[all.len() - 1] == oid);
            }
        }
    }
}

} // verus!
