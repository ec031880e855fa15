//! GitHub pull requests: their data, the queries for them and the `gh` command lines.
use std::collections::BTreeMap;
use vstd::prelude::*;

use crate::command::CommandLine;
use crate::types::{Bookmark, CommitId};

verus! {

/// Newtype for GitHub PR numbers, which are never zero.
#[derive(Debug, Clone, Copy, PartialEq, Eq, PartialOrd, Ord, Hash, Structural)]
pub struct PrNum {
    n: u64,
}

impl View for PrNum {
    type V = u64;

    closed spec fn view(&self) -> u64 {
        self.n
    }
}

impl PrNum {
    #[verifier::type_invariant]
    spec fn not_zero(self) -> bool {
        self.n != 0
    }

    /// The PR number `n`, unless it is zero.
    pub fn new(n: u64) -> (r: Option<Self>)
        ensures
            r is Some <==> n != 0,
            r is Some ==> r->0@ == n,
    {
        if n == 0 {
            None
        } else {
            Some(PrNum { n })
        }
    }

    /// The number.
    pub fn get(self) -> (r: u64)
        ensures
            r == self@,
            r != 0,
    {
        proof {
            use_type_invariant(self);
        }
        self.n
    }

    /// The number as it is displayed: `#42`.
    pub fn display(self) -> (r: String)
        ensures
            r@ == pr_text(self@),
    {
        let mut s = "#".to_owned();
        s.append(crate::text::u64_to_string(self.n).as_str());
        s
    }
}

/// A PR number as it is displayed: `#` and the decimal digits.
pub open spec fn pr_text(n: u64) -> Seq<char> {
    "#"@ + crate::text::decimal(n as nat)
}

#[derive(Debug, Clone, Copy, PartialEq, Eq, Structural)]
pub enum PrState {
    Closed,
    Open,
    Merged,
}

#[derive(Debug, Clone, Copy, PartialEq, Eq, Structural)]
pub enum ReviewDecision {
    Approved,
    ChangesRequested,
    ReviewRequired,
}

#[derive(Debug, Clone, Copy, PartialEq, Eq, Structural)]
pub enum CheckStatus {
    Pass,
    Fail,
    Pending,
}

/// What GitHub knows of a pull request.
#[derive(Debug)]
pub struct GhPr {
    pub number: PrNum,
    pub head_ref_name: Bookmark,
    pub base_ref_name: Bookmark,
    pub state: PrState,
    pub is_draft: bool,
    pub url: String,
    pub title: String,
    /// The commit SHA of the merge/squash commit on the base branch (only for merged PRs).
    pub merge_commit_oid: Option<CommitId>,
    /// The owner (user/org) of the head repository (fork). None if same repo.
    pub head_repo_owner: Option<String>,
}

/// The review and CI status of a pull request.
#[derive(Debug, Clone, Copy)]
pub struct PrStatus {
    pub review_decision: Option<ReviewDecision>,
    pub checks_status: Option<CheckStatus>,
}

impl Default for PrStatus {
    /// No decision and no checks.
    fn default() -> (r: Self)
        ensures
            r.review_decision is None,
            r.checks_status is None,
    {
        PrStatus { review_decision: None, checks_status: None }
    }
}

impl Clone for GhPr {
    fn clone(&self) -> (r: Self)
        ensures
            same_pr(r, *self),
    {
        GhPr {
            number: self.number,
            head_ref_name: self.head_ref_name.clone(),
            base_ref_name: self.base_ref_name.clone(),
            state: self.state,
            is_draft: self.is_draft,
            url: self.url.clone(),
            title: self.title.clone(),
            merge_commit_oid: match &self.merge_commit_oid {
                Some(oid) => Some(oid.clone()),
                None => None,
            },
            head_repo_owner: match &self.head_repo_owner {
                Some(owner) => Some(owner.clone()),
                None => None,
            },
        }
    }
}

/// The text of an optional string.
pub open spec fn opt_string(s: Option<String>) -> Option<Seq<char>> {
    match s {
        Some(t) => Some(t@),
        None => None,
    }
}

/// The text of an optional commit ID.
pub open spec fn opt_oid(s: Option<CommitId>) -> Option<Seq<char>> {
    match s {
        Some(t) => Some(t@),
        None => None,
    }
}

/// Whether two PRs have the same data.
pub open spec fn same_pr(a: GhPr, b: GhPr) -> bool {
    &&& a.number == b.number
    &&& a.head_ref_name@ == b.head_ref_name@
    &&& a.base_ref_name@ == b.base_ref_name@
    &&& a.state == b.state
    &&& a.is_draft == b.is_draft
    &&& a.url@ == b.url@
    &&& a.title@ == b.title@
    &&& opt_oid(a.merge_commit_oid) == opt_oid(b.merge_commit_oid)
    &&& opt_string(a.head_repo_owner) == opt_string(b.head_repo_owner)
}

// --- The query ---

/// GraphQL fields for a PR node, used in query construction.
pub const PR_NODE_FIELDS: &'static str = "number headRefName baseRefName state isDraft url title reviewDecision latestReviews(first:10) { nodes { state } } headRepositoryOwner { login } mergeCommit { oid } commits(last:1) { nodes { commit { statusCheckRollup { state } } } }";

/// The fields of the query that ask for PRs by number.
pub open spec fn number_fields(nums: Seq<u64>) -> Seq<char>
    decreases nums.len(),
{
    if nums.len() == 0 {
        Seq::empty()
    } else {
        let n = crate::text::decimal(nums.last() as nat);
        number_fields(nums.drop_last()) + " pr"@ + n + ": pullRequest(number: "@ + n + ") { "@
            + PR_NODE_FIELDS@ + " }"@
    }
}

/// The fields of the query that ask for PRs by branch.
pub open spec fn branch_fields(names: Seq<Seq<char>>) -> Seq<char>
    decreases names.len(),
{
    if names.len() == 0 {
        Seq::empty()
    } else {
        branch_fields(names.drop_last()) + " br"@ + crate::text::decimal(
            (names.len() - 1) as nat,
        ) + ": pullRequests(first:1, headRefName:\""@ + crate::text::escaped(names.last())
            + "\") { nodes { "@ + PR_NODE_FIELDS@ + " } }"@
    }
}

/// The query for PRs, by number and by branch, and for the default branch.
pub open spec fn query_text(nums: Seq<u64>, names: Seq<Seq<char>>) -> Seq<char> {
    "query($owner: String!, $repo: String!) { repository(owner: $owner, name: $repo) { defaultBranchRef { name }"@
        + number_fields(nums) + branch_fields(names) + " } }"@
}

/// The query for PRs, both by number (from trailers) and by branch name (from local bookmarks),
/// and for the default branch.
pub fn graphql_query(pr_nums: &Vec<PrNum>, bookmarks: &Vec<String>) -> (r: String)
    ensures
        r@ == query_text(
            crate::claims::pr_views(pr_nums@),
            crate::text::views(bookmarks@),
        ),
{
    let mut query =
        "query($owner: String!, $repo: String!) { repository(owner: $owner, name: $repo) { defaultBranchRef { name }".to_owned();
    let ghost head = query@;
    let ghost nums = crate::claims::pr_views(pr_nums@);
    let ghost names = crate::text::views(bookmarks@);
    let mut i: usize = 0;
    assert(head + number_fields(nums.take(0)) == head);
    while i < pr_nums.len()
        invariant
            i <= pr_nums.len(),
            nums == crate::claims::pr_views(pr_nums@),
            query@ == head + number_fields(nums.take(i as int)),
        decreases pr_nums.len() - i,
    {
        let n = crate::text::u64_to_string(pr_nums[i].get());
        let ghost before = query@;
        query.append(" pr");
        query.append(n.as_str());
        query.append(": pullRequest(number: ");
        query.append(n.as_str());
        query.append(") { ");
        query.append(PR_NODE_FIELDS);
        query.append(" }");
        proof {
            let next = nums.take(i + 1);
            let done = number_fields(nums.take(i as int));
            assert(next.drop_last() == nums.take(i as int));
            assert(next.last() == nums[i as int]);
            assert(before + " pr"@ + n@ + ": pullRequest(number: "@ + n@ + ") { "@
                + PR_NODE_FIELDS@ + " }"@ == head + (done + " pr"@ + n@
                + ": pullRequest(number: "@ + n@ + ") { "@ + PR_NODE_FIELDS@ + " }"@));
        }
        i = i + 1;
    }
    assert(nums.take(i as int) == nums);
    let ghost head = query@;
    let mut j: usize = 0;
    assert(head + branch_fields(names.take(0)) == head);
    while j < bookmarks.len()
        invariant
            j <= bookmarks.len(),
            names == crate::text::views(bookmarks@),
            query@ == head + branch_fields(names.take(j as int)),
        decreases bookmarks.len() - j,
    {
        let n = crate::text::u64_to_string(j as u64);
        // Escape the bookmark name for safe embedding in a GraphQL string literal.
        let escaped = crate::text::escape(bookmarks[j].as_str());
        let ghost before = query@;
        query.append(" br");
        query.append(n.as_str());
        query.append(": pullRequests(first:1, headRefName:\"");
        query.append(escaped.as_str());
        query.append("\") { nodes { ");
        query.append(PR_NODE_FIELDS);
        query.append(" } }");
        proof {
            let next = names.take(j + 1);
            let done = branch_fields(names.take(j as int));
            assert(next.drop_last() == names.take(j as int));
            assert(next.last() == names[j as int]);
            assert(before + " br"@ + n@ + ": pullRequests(first:1, headRefName:\""@ + escaped@
                + "\") { nodes { "@ + PR_NODE_FIELDS@ + " } }"@ == head + (done + " br"@ + n@
                + ": pullRequests(first:1, headRefName:\""@ + escaped@ + "\") { nodes { "@
                + PR_NODE_FIELDS@ + " } }"@));
        }
        j = j + 1;
    }
    assert(names.take(j as int) == names);
    query.append(" } }");
    query
}

/// Fetch PR data + statuses + default branch in a single GraphQL call.
/// Discovers PRs both by number (from trailers) and by branch name (from local bookmarks).
pub fn load_prs_and_default_branch(pr_nums: &Vec<PrNum>, bookmarks: &Vec<String>) -> (r:
    CommandLine)
    ensures
        r@ == crate::command::gh_view(
            seq![
                "api"@,
                "graphql"@,
                "-f"@,
                "query="@ + query_text(
                    crate::claims::pr_views(pr_nums@),
                    crate::text::views(bookmarks@),
                ),
                "-F"@,
                "owner={owner}"@,
                "-F"@,
                "repo={repo}"@,
            ],
            "Failed to run `gh api graphql`"@,
            "gh api graphql failed"@,
        ),
{
    let query = graphql_query(pr_nums, bookmarks);
    let mut field = "query=".to_owned();
    field.append(query.as_str());
    let parts: Vec<&str> = vec![
        "api",
        "graphql",
        "-f",
        field.as_str(),
        "-F",
        "owner={owner}",
        "-F",
        "repo={repo}",
    ];
    let r = CommandLine::gh(&parts, "Failed to run `gh api graphql`", "gh api graphql failed");
    assert(r@.args == seq![
        "api"@,
        "graphql"@,
        "-f"@,
        "query="@ + query@,
        "-F"@,
        "owner={owner}"@,
        "-F"@,
        "repo={repo}"@,
    ]);
    r
}

// --- The reply ---

/// The state of a review.
#[derive(Debug, Clone, Copy, PartialEq, Eq, Structural)]
pub enum ReviewState {
    Approved,
    ChangesRequested,
    Commented,
    Dismissed,
    Pending,
}

/// The state of the checks of a commit.
#[derive(Debug, Clone, Copy, PartialEq, Eq, Structural)]
pub enum CheckState {
    Success,
    Failure,
    Error,
    Pending,
    Expected,
}

impl From<CheckState> for CheckStatus {
    fn from(s: CheckState) -> (r: Self) {
        match s {
            CheckState::Success => CheckStatus::Pass,
            CheckState::Failure => CheckStatus::Fail,
            CheckState::Error => CheckStatus::Fail,
            CheckState::Pending => CheckStatus::Pending,
            CheckState::Expected => CheckStatus::Pending,
        }
    }
}

impl vstd::std_specs::convert::FromSpecImpl<CheckState> for CheckStatus {
    open spec fn obeys_from_spec() -> bool {
        true
    }

    open spec fn from_spec(s: CheckState) -> Self {
        match s {
            CheckState::Success => CheckStatus::Pass,
            CheckState::Failure => CheckStatus::Fail,
            CheckState::Error => CheckStatus::Fail,
            CheckState::Pending => CheckStatus::Pending,
            CheckState::Expected => CheckStatus::Pending,
        }
    }
}

/// What an alias of the reply holds.
#[derive(Debug, Clone, Copy, PartialEq, Eq, Structural)]
pub enum AliasKind {
    /// A PR that was asked for by number.
    Number,
    /// The PRs of a branch.
    Branch,
    /// Something else.
    Other,
}

/// What an alias of the reply holds, by its name.
pub open spec fn kind_of_alias(key: Seq<char>) -> AliasKind {
    if crate::text::has_prefix(key, "pr"@) {
        AliasKind::Number
    } else if crate::text::has_prefix(key, "br"@) {
        AliasKind::Branch
    } else {
        AliasKind::Other
    }
}

/// What an alias of the reply holds, by its name.
pub fn alias_kind(key: &str) -> (r: AliasKind)
    ensures
        r == kind_of_alias(key@),
{
    if crate::text::starts_with(key, "pr") {
        AliasKind::Number
    } else if crate::text::starts_with(key, "br") {
        AliasKind::Branch
    } else {
        AliasKind::Other
    }
}

/// A PR of the reply.
#[derive(Debug)]
pub struct PrNode {
    pub number: PrNum,
    pub head_ref_name: Bookmark,
    pub base_ref_name: Bookmark,
    pub state: PrState,
    pub is_draft: bool,
    pub url: String,
    pub title: String,
    pub review_decision: Option<ReviewDecision>,
    /// The states of the latest reviews.
    pub latest_reviews: Option<Vec<ReviewState>>,
    pub merge_commit: Option<CommitId>,
    pub head_repository_owner: Option<String>,
    /// The states of the checks of the latest commits.
    pub commits: Vec<Option<CheckState>>,
}

/// The repository of the reply.
#[derive(Debug)]
pub struct RepositoryData {
    pub default_branch: Bookmark,
    pub pr_nodes: Vec<PrNode>,
}

/// The reply to the query: `data` has the repository, if it was found.
#[derive(Debug)]
pub struct GraphQlResponse {
    pub data: Option<Option<RepositoryData>>,
    pub errors: Option<Vec<String>>,
}

/// Why a reply cannot be used.
#[derive(Debug)]
pub enum ReplyError {
    /// The server reported errors.
    Errors(Vec<String>),
    /// There is no data.
    NoData,
    /// There is no repository.
    NoRepository,
}

impl ReplyError {
    /// The error as it is displayed.
    pub fn message(&self) -> (r: String)
        ensures
            r@ == match self {
                ReplyError::Errors(list) => "GraphQL errors: "@ + crate::text::joined(
                    crate::text::views(list@),
                    "; "@,
                ),
                ReplyError::NoData => "GraphQL response missing `data`"@,
                ReplyError::NoRepository => "GraphQL response missing `repository` (not found or insufficient permissions)"@,
            },
    {
        match self {
            ReplyError::Errors(list) => {
                let mut s = "GraphQL errors: ".to_owned();
                s.append(crate::text::join(list, "; ").as_str());
                s
            },
            ReplyError::NoData => "GraphQL response missing `data`".to_owned(),
            ReplyError::NoRepository => "GraphQL response missing `repository` (not found or insufficient permissions)".to_owned(),
        }
    }
}

/// The decision that reviews amount to: one that requests changes outweighs approvals.
pub open spec fn derived_decision(reviews: Seq<ReviewState>) -> Option<ReviewDecision> {
    if reviews.contains(ReviewState::ChangesRequested) {
        Some(ReviewDecision::ChangesRequested)
    } else if reviews.contains(ReviewState::Approved) {
        Some(ReviewDecision::Approved)
    } else {
        None
    }
}

/// The review decision of a PR: the one that GitHub gives, or what the latest reviews amount to.
pub open spec fn node_decision(node: PrNode) -> Option<ReviewDecision> {
    match node.review_decision {
        Some(d) => Some(d),
        None => match node.latest_reviews {
            Some(reviews) => derived_decision(reviews@),
            None => None,
        },
    }
}

/// The check status of a PR: that of the first commit listed, if it has any checks.
pub open spec fn node_checks(node: PrNode) -> Option<CheckStatus> {
    if node.commits@.len() == 0 {
        None
    } else {
        match node.commits@[0] {
            Some(s) => Some(
                <CheckStatus as vstd::std_specs::convert::FromSpec<CheckState>>::from_spec(s),
            ),
            None => None,
        }
    }
}

/// The status of a PR.
pub open spec fn node_status(node: PrNode) -> PrStatus {
    PrStatus { review_decision: node_decision(node), checks_status: node_checks(node) }
}

/// Whether `pr` has the data of `node`.
pub open spec fn is_pr_of(pr: GhPr, node: PrNode) -> bool {
    &&& pr.number == node.number
    &&& pr.head_ref_name@ == node.head_ref_name@
    &&& pr.base_ref_name@ == node.base_ref_name@
    &&& pr.state == node.state
    &&& pr.is_draft == node.is_draft
    &&& pr.url@ == node.url@
    &&& pr.title@ == node.title@
    &&& opt_oid(pr.merge_commit_oid) == opt_oid(node.merge_commit)
    &&& opt_string(pr.head_repo_owner) == opt_string(node.head_repository_owner)
}

/// The index of the first node with the number `n`.
pub open spec fn first_node(nodes: Seq<PrNode>, n: u64) -> Option<int>
    decreases nodes.len(),
{
    if nodes.len() == 0 {
        None
    } else {
        match first_node(nodes.drop_last(), n) {
            Some(i) => Some(i),
            None => if nodes.last().number@ == n {
                Some(nodes.len() - 1)
            } else {
                None
            },
        }
    }
}

/// The numbers of the nodes.
pub open spec fn node_numbers(nodes: Seq<PrNode>) -> Set<u64> {
    Seq::new(nodes.len(), |i: int| nodes[i].number@).to_set()
}

fn derive_decision(reviews: &Vec<ReviewState>) -> (r: Option<ReviewDecision>)
    ensures
        r == derived_decision(reviews@),
{
    let mut has_approved: bool = false;
    let mut i: usize = 0;
    while i < reviews.len()
        invariant
            i <= reviews.len(),
            forall|j: int| 0 <= j < i ==> reviews@[j] != ReviewState::ChangesRequested,
            has_approved <==> exists|j: int| 0 <= j < i && reviews@[j] == ReviewState::Approved,
        decreases reviews.len() - i,
    {
        match reviews[i] {
            ReviewState::ChangesRequested => {
                assert(reviews@.contains(reviews@[i as int]));
                return Some(ReviewDecision::ChangesRequested);
            },
            ReviewState::Approved => {
                has_approved = true;
                assert(reviews@[i as int] == ReviewState::Approved);
            },
            _ => {},
        }
        i = i + 1;
    }
    if has_approved {
        Some(ReviewDecision::Approved)
    } else {
        None
    }
}

fn status_of(node: &PrNode) -> (r: PrStatus)
    ensures
        r == node_status(*node),
{
    let checks_status = if node.commits.len() == 0 {
        None
    } else {
        match node.commits[0] {
            Some(state) => Some(CheckStatus::from(state)),
            None => None,
        }
    };
    // `reviewDecision` is sometimes null even when reviews exist (possibly related to rulesets
    // vs classic branch protection; stacked PRs targeting non-main branches behave differently
    // too). Fall back to deriving status from `latestReviews` (best-effort, doesn't account for
    // required review groups).
    let review_decision = match node.review_decision {
        Some(d) => Some(d),
        None => match &node.latest_reviews {
            Some(reviews) => derive_decision(reviews),
            None => None,
        },
    };
    PrStatus { review_decision, checks_status }
}

fn pr_of(node: &PrNode) -> (r: GhPr)
    ensures
        is_pr_of(r, *node),
{
    GhPr {
        number: node.number,
        head_ref_name: node.head_ref_name.clone(),
        base_ref_name: node.base_ref_name.clone(),
        state: node.state,
        is_draft: node.is_draft,
        url: node.url.clone(),
        title: node.title.clone(),
        merge_commit_oid: match &node.merge_commit {
            Some(oid) => Some(oid.clone()),
            None => None,
        },
        head_repo_owner: match &node.head_repository_owner {
            Some(owner) => Some(owner.clone()),
            None => None,
        },
    }
}

/// Whether the lists hold the PRs of the nodes: each number once, in ascending order, with the
/// data of the first node that has it.
pub open spec fn are_prs_of(
    prs: Seq<GhPr>,
    statuses: Map<u64, PrStatus>,
    nodes: Seq<PrNode>,
) -> bool {
    &&& Seq::new(prs.len(), |i: int| prs[i].number@) == crate::order::num_listing(
        node_numbers(nodes),
    )
    &&& forall|i: int|
        0 <= i < prs.len() ==> first_node(nodes, (#[trigger] prs[i]).number@) is Some && is_pr_of(
            prs[i],
            nodes[first_node(nodes, prs[i].number@)->0],
        )
    &&& statuses.dom() == node_numbers(nodes)
    &&& forall|n: u64| #[trigger]
        statuses.contains_key(n) ==> statuses[n] == node_status(nodes[first_node(nodes, n)->0])
}

proof fn lemma_first_node(nodes: Seq<PrNode>, n: u64, k: int)
    requires
        0 <= k <= nodes.len(),
        first_node(nodes.take(k), n) is Some,
    ensures
        first_node(nodes, n) == first_node(nodes.take(k), n),
    decreases nodes.len() - k,
{
    if k < nodes.len() {
        assert(nodes.take(k + 1).drop_last() == nodes.take(k));
        lemma_first_node(nodes, n, k + 1);
    } else {
        assert(nodes.take(k) == nodes);
    }
}

fn find_node(nodes: &Vec<PrNode>, n: u64) -> (r: usize)
    requires
        node_numbers(nodes@).contains(n),
    ensures
        first_node(nodes@, n) == Some(r as int),
        r < nodes.len(),
        nodes@[r as int].number@ == n,
{
    let ghost list = Seq::new(nodes@.len(), |i: int| nodes@[i].number@);
    let ghost at = choose|i: int| 0 <= i < list.len() && list[i] == n;
    assert(nodes@[at].number@ == n);
    let mut k: usize = 0;
    while nodes[k].number.get() != n
        invariant
            k <= at < nodes.len(),
            nodes@[at].number@ == n,
            first_node(nodes@.take(k as int), n) is None,
        decreases nodes.len() - k,
    {
        assert(nodes@.take(k + 1).drop_last() == nodes@.take(k as int));
        k = k + 1;
    }
    proof {
        assert(nodes@.take(k + 1).drop_last() == nodes@.take(k as int));
        lemma_first_node(nodes@, n, k + 1);
    }
    k
}

/// Collects the PRs of the reply and their statuses.
pub fn collect_prs(nodes: &Vec<PrNode>) -> (r: (Vec<GhPr>, BTreeMap<u64, PrStatus>))
    ensures
        are_prs_of(r.0@, r.1@, nodes@),
{
    let mut all: std::collections::BTreeSet<u64> = std::collections::BTreeSet::new();
    let ghost list = Seq::new(nodes@.len(), |i: int| nodes@[i].number@);
    let mut i: usize = 0;
    assert(list.take(0).to_set() == Set::<u64>::empty());
    while i < nodes.len()
        invariant
            i <= nodes.len(),
            list == Seq::new(nodes@.len(), |i: int| nodes@[i].number@),
            all@ == list.take(i as int).to_set(),
        decreases nodes.len() - i,
    {
        proof {
            crate::sets::lemma_push_to_set(list.take(i as int), list[i as int]);
            assert(list.take(i + 1) == list.take(i as int).push(list[i as int]));
        }
        all.insert(nodes[i].number.get());
        i = i + 1;
    }
    assert(list.take(i as int) == list);
    let numbers = crate::sets::set_numbers(&all);
    let mut prs: Vec<GhPr> = Vec::new();
    let mut statuses: BTreeMap<u64, PrStatus> = BTreeMap::new();
    let mut k: usize = 0;
    assert(Seq::new(prs@.len(), |i: int| prs@[i].number@) == numbers@.take(0));
    assert(numbers@.take(0).to_set() == Set::<u64>::empty());
    assert(statuses@.dom() == Set::<u64>::empty());
    while k < numbers.len()
        invariant
            k <= numbers.len(),
            numbers@.to_set() == node_numbers(nodes@),
            prs@.len() == k,
            forall|i: int| 0 <= i < k ==> (#[trigger] prs@[i]).number@ == numbers@[i],
            forall|i: int|
                0 <= i < k ==> first_node(nodes@, (#[trigger] prs@[i]).number@) is Some
                    && is_pr_of(prs@[i], nodes@[first_node(nodes@, prs@[i].number@)->0]),
            statuses@.dom() == numbers@.take(k as int).to_set(),
            forall|n: u64| #[trigger]
                statuses@.contains_key(n) ==> statuses@[n] == node_status(
                    nodes@[first_node(nodes@, n)->0],
                ),
        decreases numbers.len() - k,
    {
        let n = numbers[k];
        assert(numbers@.to_set().contains(n));
        let node = &nodes[find_node(nodes, n)];
        let ghost before = statuses@;
        statuses.insert(n, status_of(node));
        prs.push(pr_of(node));
        proof {
            crate::sets::lemma_push_to_set(numbers@.take(k as int), n);
            assert(numbers@.take(k + 1) == numbers@.take(k as int).push(n));
            assert(statuses@.dom() =~= numbers@.take(k + 1).to_set());
            assert forall|m: u64| #[trigger] statuses@.contains_key(m) implies statuses@[m]
                == node_status(nodes@[first_node(nodes@, m)->0]) by {
                if m != n {
                    assert(before.contains_key(m));
                }
            }
        }
        k = k + 1;
    }
    assert(numbers@.take(k as int) == numbers@);
    assert(Seq::new(prs@.len(), |i: int| prs@[i].number@) =~= numbers@);
    (prs, statuses)
}

/// What a reply amounts to: the PRs, their statuses and the default branch.
pub fn read_reply(reply: &GraphQlResponse) -> (r: Result<
    (Vec<GhPr>, BTreeMap<u64, PrStatus>, Bookmark),
    ReplyError,
>)
    ensures
        match (reply.errors, reply.data) {
            (Some(errors), _) => r is Err && r->Err_0 is Errors && crate::text::views(
                r->Err_0->Errors_0@,
            ) == crate::text::views(errors@),
            (None, None) => r is Err && r->Err_0 is NoData,
            (None, Some(None)) => r is Err && r->Err_0 is NoRepository,
            (None, Some(Some(repo))) => r is Ok && are_prs_of(
                (r->Ok_0).0@,
                (r->Ok_0).1@,
                repo.pr_nodes@,
            ) && (r->Ok_0).2@ == repo.default_branch@,
        },
{
    if let Some(errors) = &reply.errors {
        return Err(ReplyError::Errors(crate::text::copy_names(errors)));
    }
    match &reply.data {
        None => Err(ReplyError::NoData),
        Some(None) => Err(ReplyError::NoRepository),
        Some(Some(repo)) => {
            let (prs, statuses) = collect_prs(&repo.pr_nodes);
            Ok((prs, statuses, repo.default_branch.clone()))
        },
    }
}

// --- Commands ---

/// Get the owner of the upstream (canonical) repo as `gh` resolves it.
pub fn repo_owner() -> (r: CommandLine)
    ensures
        r@ == crate::command::gh_view(
            seq!["repo"@, "view"@, "--json"@, "owner"@, "-q"@, ".owner.login"@],
            "Failed to run `gh repo view`"@,
            "gh repo view failed"@,
        ),
{
    let parts: Vec<&str> = vec!["repo", "view", "--json", "owner", "-q", ".owner.login"];
    let r = CommandLine::gh(&parts, "Failed to run `gh repo view`", "gh repo view failed");
    assert(r@.args == seq!["repo"@, "view"@, "--json"@, "owner"@, "-q"@, ".owner.login"@]);
    r
}

/// The head of a new PR. For cross-repo (fork) PRs, GitHub requires `OWNER:branch`.
pub open spec fn head_ref(head: Seq<char>, fork_owner: Option<Seq<char>>) -> Seq<char> {
    match fork_owner {
        Some(owner) => owner + ":"@ + head,
        None => head,
    }
}

/// The arguments that create a PR.
pub open spec fn create_args(
    head: Seq<char>,
    base: Seq<char>,
    title: Seq<char>,
    body: Seq<char>,
    draft: bool,
    fork_owner: Option<Seq<char>>,
) -> Seq<Seq<char>> {
    let args = seq![
        "pr"@,
        "create"@,
        "--head"@,
        head_ref(head, fork_owner),
        "--base"@,
        base,
        "--title"@,
        title,
        "--body"@,
        body,
    ];
    if draft {
        args.push("--draft"@)
    } else {
        args
    }
}

/// Create a PR. The command prints its URL.
pub fn create_pr(
    head: &Bookmark,
    base: &Bookmark,
    title: &str,
    body: &str,
    draft: bool,
    fork_owner: Option<&str>,
) -> (r: CommandLine)
    ensures
        r@ == crate::command::gh_view(
            create_args(head@, base@, title@, body@, draft, crate::style::opt_text(fork_owner)),
            "Failed to run `gh pr create`"@,
            "gh pr create failed"@,
        ),
{
    let mut full = String::new();
    if let Some(owner) = fork_owner {
        full.append(owner);
        full.append(":");
    }
    full.append(head.as_str());
    assert(full@ == head_ref(head@, crate::style::opt_text(fork_owner)));
    let mut parts: Vec<&str> = vec![
        "pr",
        "create",
        "--head",
        full.as_str(),
        "--base",
        base.as_str(),
        "--title",
        title,
        "--body",
        body,
    ];
    if draft {
        parts.push("--draft");
    }
    let r = CommandLine::gh(&parts, "Failed to run `gh pr create`", "gh pr create failed");
    assert(r@.args == create_args(
        head@,
        base@,
        title@,
        body@,
        draft,
        crate::style::opt_text(fork_owner),
    ));
    r
}

/// What follows the last slash of `s`, or all of it.
pub open spec fn after_last_slash(s: Seq<char>) -> Seq<char>
    decreases s.len(),
{
    if s.len() == 0 || s.last() == '/' {
        Seq::empty()
    } else {
        after_last_slash(s.drop_last()).push(s.last())
    }
}

/// The PR number at the end of a URL like `https://github.com/owner/repo/pull/123`.
pub open spec fn url_number(url: Seq<char>) -> Option<u64> {
    match crate::text::parsed_u64(after_last_slash(url)) {
        Some(n) => if n != 0 {
            Some(n)
        } else {
            None
        },
        None => None,
    }
}

/// The PR number in the URL that `gh pr create` prints.
pub fn parse_pr_url(url: &str) -> (r: Option<PrNum>)
    ensures
        crate::jj::opt_pr(r) == url_number(url@),
{
    let v = crate::text::to_chars(url);
    let mut k: usize = v.len();
    assert(v@.take(k as int) == v@);
    assert(v@.subrange(k as int, v@.len() as int) == Seq::<char>::empty());
    assert(after_last_slash(v@) == after_last_slash(v@.take(k as int)) + v@.subrange(
        k as int,
        v@.len() as int,
    ));
    while k > 0 && v[k - 1] != '/'
        invariant
            k <= v.len(),
            after_last_slash(v@) == after_last_slash(v@.take(k as int)) + v@.subrange(
                k as int,
                v@.len() as int,
            ),
        decreases k,
    {
        let ghost t = v@.take(k as int);
        assert(t.drop_last() == v@.take(k - 1));
        assert(after_last_slash(t) == after_last_slash(v@.take(k - 1)).push(v@[k - 1]));
        assert(after_last_slash(v@.take(k - 1)).push(v@[k - 1]) + v@.subrange(
            k as int,
            v@.len() as int,
        ) == after_last_slash(v@.take(k - 1)) + v@.subrange(k - 1, v@.len() as int));
        k = k - 1;
    }
    let last = crate::text::slice_to_string(&v, k, v.len());
    assert(after_last_slash(v@.take(k as int)) == Seq::<char>::empty());
    assert(last@ == after_last_slash(url@));
    match crate::text::parse_u64(last.as_str()) {
        Some(n) => PrNum::new(n),
        None => None,
    }
}

/// The number and the URL of a PR, from what `gh pr create` printed.
pub fn created_pr(stdout: &str) -> (r: Result<(PrNum, String), String>)
    ensures
        match url_number(crate::text::trimmed(stdout@)) {
            Some(n) => r is Ok && (r->Ok_0).0@ == n && (r->Ok_0).1@ == crate::text::trimmed(
                stdout@,
            ),
            None => r is Err && r->Err_0@ == "Could not parse PR number from gh output: "@
                + crate::text::trimmed(stdout@),
        },
{
    let url = crate::text::trim(stdout);
    match parse_pr_url(url.as_str()) {
        Some(n) => Ok((n, url)),
        None => {
            let mut s = "Could not parse PR number from gh output: ".to_owned();
            s.append(url.as_str());
            Err(s)
        },
    }
}

/// The number of a PR is read back from its URL.
pub proof fn url_gives_number(prefix: Seq<char>, n: u64)
    requires
        n != 0,
    ensures
        url_number(prefix.push('/') + crate::text::decimal(n as nat)) == Some(n),
{
    let digits = crate::text::decimal(n as nat);
    crate::text::lemma_decimal(n as nat);
    crate::text::parse_of_decimal(n);
    lemma_after_last_slash(prefix.push('/'), digits);
    assert(after_last_slash(prefix.push('/')) == Seq::<char>::empty());
    assert(Seq::<char>::empty() + digits == digits);
}

proof fn lemma_after_last_slash(a: Seq<char>, b: Seq<char>)
    requires
        forall|i: int| 0 <= i < b.len() ==> #[trigger] crate::text::is_digit(b[i]),
    ensures
        after_last_slash(a + b) == after_last_slash(a) + b,
    decreases b.len(),
{
    if b.len() == 0 {
        assert(a + b == a);
        assert(after_last_slash(a) + b == after_last_slash(a));
    } else {
        let t = b.drop_last();
        assert forall|i: int| 0 <= i < t.len() implies #[trigger] crate::text::is_digit(t[i]) by {
            assert(crate::text::is_digit(b[i]));
        }
        lemma_after_last_slash(a, t);
        assert((a + b).drop_last() == a + t);
        assert(crate::text::is_digit(b[b.len() - 1]));
        assert((after_last_slash(a) + t).push(b.last()) == after_last_slash(a) + b);
    }
}

/// Set the base branch of a PR.
pub fn edit_base(pr_number: u64, base: &Bookmark) -> (r: CommandLine)
    ensures
        r@ == crate::command::gh_view(
            seq!["pr"@, "edit"@, crate::text::decimal(pr_number as nat), "--base"@, base@],
            "Failed to run `gh pr edit`"@,
            "gh pr edit "@ + crate::text::decimal(pr_number as nat) + " --base "@ + base@
                + " failed"@,
        ),
{
    let num = crate::text::u64_to_string(pr_number);
    let parts: Vec<&str> = vec!["pr", "edit", num.as_str(), "--base", base.as_str()];
    let mut failure = "gh pr edit ".to_owned();
    failure.append(num.as_str());
    failure.append(" --base ");
    failure.append(base.as_str());
    failure.append(" failed");
    let r = CommandLine::gh(&parts, "Failed to run `gh pr edit`", failure.as_str());
    assert(r@.args == seq!["pr"@, "edit"@, num@, "--base"@, base@]);
    r
}

/// The arguments that mark a PR as ready, or as draft.
pub open spec fn ready_args(pr_number: u64, ready: bool) -> Seq<Seq<char>> {
    let args = seq!["pr"@, "ready"@, crate::text::decimal(pr_number as nat)];
    if ready {
        args
    } else {
        args.push("--undo"@)
    }
}

/// Mark a PR as ready, or as draft.
pub fn set_ready(pr_number: u64, ready: bool) -> (r: CommandLine)
    ensures
        r@ == crate::command::gh_view(
            ready_args(pr_number, ready),
            "Failed to run `gh pr ready`"@,
            "gh pr ready failed"@,
        ),
{
    let num = crate::text::u64_to_string(pr_number);
    let mut parts: Vec<&str> = vec!["pr", "ready", num.as_str()];
    if !ready {
        parts.push("--undo");
    }
    let r = CommandLine::gh(&parts, "Failed to run `gh pr ready`", "gh pr ready failed");
    assert(r@.args == ready_args(pr_number, ready));
    r
}

// --- Laws of the query and the reply ---

/// Whether the node `i` is the first one with the number `n`.
pub open spec fn is_first_node(nodes: Seq<PrNode>, n: u64, i: int) -> bool {
    &&& 0 <= i < nodes.len()
    &&& nodes[i].number@ == n
    &&& forall|j: int| 0 <= j < i ==> (#[trigger] nodes[j]).number@ != n
}

proof fn lemma_is_first_node(nodes: Seq<PrNode>, n: u64, i: int)
    ensures
        first_node(nodes, n) == Some(i) <==> is_first_node(nodes, n, i),
        first_node(nodes, n) is Some ==> is_first_node(nodes, n, first_node(nodes, n)->0),
        first_node(nodes, n) is None ==> forall|j: int|
            0 <= j < nodes.len() ==> (#[trigger] nodes[j]).number@ != n,
    decreases nodes.len(),
{
    if nodes.len() > 0 {
        let head = nodes.drop_last();
        let at = nodes.len() - 1;
        lemma_is_first_node(head, n, i);
        if first_node(head, n) is Some {
            let x = first_node(head, n)->0;
            assert(nodes[x] == head[x]);
            assert forall|j: int| 0 <= j < x implies (#[trigger] nodes[j]).number@ != n by {
                assert(nodes[j] == head[j]);
            }
            if is_first_node(nodes, n, i) && i != x {
                if x < i {
                    assert(nodes[x].number@ == n);
                } else {
                    assert(nodes[i].number@ == n);
                }
            }
        } else {
            assert forall|j: int| 0 <= j < at implies (#[trigger] nodes[j]).number@ != n by {
                assert(nodes[j] == head[j]);
            }
        }
    }
}

/// The reply gives each PR once, in ascending order of the numbers, with the data that its first
/// node has, and a status for each of them and for no other.
pub proof fn reply_gives_each_pr_once(
    prs: Seq<GhPr>,
    statuses: Map<u64, PrStatus>,
    nodes: Seq<PrNode>,
    n: u64,
    f: int,
)
    requires
        are_prs_of(prs, statuses, nodes),
    ensures
        (exists|i: int| 0 <= i < prs.len() && (#[trigger] prs[i]).number@ == n) <==> (exists|
            j: int,
        |
            0 <= j < nodes.len() && (#[trigger] nodes[j]).number@ == n),
        statuses.contains_key(n) <==> exists|j: int|
            0 <= j < nodes.len() && (#[trigger] nodes[j]).number@ == n,
        forall|i: int, j: int|
            0 <= i < j < prs.len() ==> (#[trigger] prs[i]).number@ < (#[trigger] prs[j]).number@,
        is_first_node(nodes, n, f) ==> forall|i: int|
            0 <= i < prs.len() && (#[trigger] prs[i]).number@ == n ==> {
                &&& prs[i].head_ref_name@ == nodes[f].head_ref_name@
                &&& prs[i].base_ref_name@ == nodes[f].base_ref_name@
                &&& prs[i].state == nodes[f].state
                &&& prs[i].is_draft == nodes[f].is_draft
                &&& prs[i].url@ == nodes[f].url@
                &&& prs[i].title@ == nodes[f].title@
                &&& opt_oid(prs[i].merge_commit_oid) == opt_oid(nodes[f].merge_commit)
                &&& opt_string(prs[i].head_repo_owner) == opt_string(
                    nodes[f].head_repository_owner,
                )
            },
        is_first_node(nodes, n, f) ==> {
            let decision = statuses[n].review_decision;
            let checks = statuses[n].checks_status;
            &&& nodes[f].review_decision is Some ==> decision == nodes[f].review_decision
            &&& nodes[f].review_decision is None && nodes[f].latest_reviews is None
                ==> decision is None
            &&& nodes[f].review_decision is None && nodes[f].latest_reviews is Some ==> {
                let reviews = nodes[f].latest_reviews->0@;
                let refused = exists|x: int|
                    0 <= x < reviews.len() && #[trigger] reviews[x] is ChangesRequested;
                let approved = exists|x: int|
                    0 <= x < reviews.len() && #[trigger] reviews[x] is Approved;
                &&& decision == Some(ReviewDecision::ChangesRequested) <==> refused
                &&& decision == Some(ReviewDecision::Approved) <==> approved && !refused
                &&& decision is None <==> !approved && !refused
            }
            &&& nodes[f].commits@.len() == 0 ==> checks is None
            &&& nodes[f].commits@.len() > 0 ==> match nodes[f].commits@[0] {
                None => checks is None,
                Some(c) => {
                    &&& checks == Some(CheckStatus::Pass) <==> c is Success
                    &&& checks == Some(CheckStatus::Fail) <==> c is Failure || c is Error
                    &&& checks == Some(CheckStatus::Pending) <==> c is Pending || c is Expected
                },
            }
        },
{
    let numbers = Seq::new(prs.len(), |i: int| prs[i].number@);
    let all = Seq::new(nodes.len(), |i: int| nodes[i].number@);
    let set = node_numbers(nodes);
    assert(set.finite()) by {
        broadcast use vstd::seq_lib::seq_to_set_is_finite;

    }
    crate::order::lemma_num_listing(set);
    assert(numbers.to_set() == set);
    assert(set.contains(n) <==> exists|j: int|
        0 <= j < nodes.len() && (#[trigger] nodes[j]).number@ == n) by {
        if set.contains(n) {
            let j = choose|j: int| 0 <= j < all.len() && all[j] == n;
            assert(nodes[j].number@ == n);
        }
        if exists|j: int| 0 <= j < nodes.len() && (#[trigger] nodes[j]).number@ == n {
            let j = choose|j: int| 0 <= j < nodes.len() && (#[trigger] nodes[j]).number@ == n;
            assert(all[j] == n);
        }
    }
    if exists|i: int| 0 <= i < prs.len() && (#[trigger] prs[i]).number@ == n {
        let i = choose|i: int| 0 <= i < prs.len() && (#[trigger] prs[i]).number@ == n;
        assert(numbers[i] == n);
        assert(numbers.to_set().contains(n));
    }
    if set.contains(n) {
        assert(numbers.to_set().contains(n));
        let i = choose|i: int| 0 <= i < numbers.len() && numbers[i] == n;
        assert(prs[i].number@ == n);
    }
    assert forall|i: int, j: int| 0 <= i < j < prs.len() implies (#[trigger] prs[i]).number@ < (
    #[trigger] prs[j]).number@ by {
        let less = crate::order::num_less();
        assert(less(numbers[i], numbers[j]));
    }
    if is_first_node(nodes, n, f) {
        lemma_is_first_node(nodes, n, f);
        assert(nodes[f].number@ == n);
        assert(statuses.contains_key(n)) by {
            assert(set.contains(n));
        }
        assert(statuses[n] == node_status(nodes[f]));
        if nodes[f].latest_reviews is Some {
            let reviews = nodes[f].latest_reviews->0@;
            assert(reviews.contains(ReviewState::ChangesRequested) <==> exists|x: int|
                0 <= x < reviews.len() && #[trigger] reviews[x] is ChangesRequested);
            assert(reviews.contains(ReviewState::Approved) <==> exists|x: int|
                0 <= x < reviews.len() && #[trigger] reviews[x] is Approved);
        }
    }
}

/// Whether the text `w` is in `s`.
pub open spec fn is_within(s: Seq<char>, w: Seq<char>) -> bool {
    exists|at: int| #[trigger] crate::style::stands_at(s, at, w)
}

pub proof fn lemma_within_sum(a: Seq<char>, s: Seq<char>, b: Seq<char>, w: Seq<char>)
    requires
        is_within(s, w),
    ensures
        is_within(a + s + b, w),
{
    let at = choose|at: int| #[trigger] crate::style::stands_at(s, at, w);
    assert((a + s + b).subrange(a.len() + at, a.len() + at + w.len()) =~= s.subrange(
        at,
        at + w.len(),
    ));
    assert(crate::style::stands_at(a + s + b, a.len() + at, w));
}

/// The query asks for every PR by its number, under an alias of its own.
pub proof fn query_asks_for_all_numbers(nums: Seq<u64>, names: Seq<Seq<char>>, i: int)
    requires
        0 <= i < nums.len(),
    ensures
        is_within(
            query_text(nums, names),
            " pr"@ + crate::text::decimal(nums[i] as nat) + ": pullRequest(number: "@
                + crate::text::decimal(nums[i] as nat) + ") { "@ + PR_NODE_FIELDS@ + " }"@,
        ),
{
    lemma_number_within(nums, i);
    let head =
        "query($owner: String!, $repo: String!) { repository(owner: $owner, name: $repo) { defaultBranchRef { name }"@;
    let w = " pr"@ + crate::text::decimal(nums[i] as nat) + ": pullRequest(number: "@
        + crate::text::decimal(nums[i] as nat) + ") { "@ + PR_NODE_FIELDS@ + " }"@;
    lemma_within_sum(head, number_fields(nums), branch_fields(names) + " } }"@, w);
    assert(query_text(nums, names) =~= head + number_fields(nums) + (branch_fields(names)
        + " } }"@));
}

proof fn lemma_number_within(nums: Seq<u64>, i: int)
    requires
        0 <= i < nums.len(),
    ensures
        is_within(
            number_fields(nums),
            " pr"@ + crate::text::decimal(nums[i] as nat) + ": pullRequest(number: "@
                + crate::text::decimal(nums[i] as nat) + ") { "@ + PR_NODE_FIELDS@ + " }"@,
        ),
    decreases nums.len(),
{
    let n = crate::text::decimal(nums[i] as nat);
    let w = " pr"@ + n + ": pullRequest(number: "@ + n + ") { "@ + PR_NODE_FIELDS@ + " }"@;
    let head = nums.drop_last();
    let none = Seq::<char>::empty();
    if i < head.len() {
        lemma_number_within(head, i);
        let m = crate::text::decimal(nums.last() as nat);
        let own = " pr"@ + m + ": pullRequest(number: "@ + m + ") { "@ + PR_NODE_FIELDS@ + " }"@;
        lemma_within_sum(none, number_fields(head), own, w);
        assert(number_fields(nums) =~= none + number_fields(head) + own);
    } else {
        assert(number_fields(nums) =~= number_fields(head) + w + none);
        crate::style::lemma_stands(number_fields(head), w, none);
        assert(crate::style::stands_at(
            number_fields(nums),
            number_fields(head).len() as int,
            w,
        ));
    }
}

/// The query asks for the PRs of every branch, under an alias of its own, with the name as it is
/// written in a string literal.
pub proof fn query_asks_for_all_branches(nums: Seq<u64>, names: Seq<Seq<char>>, i: int)
    requires
        0 <= i < names.len(),
    ensures
        is_within(
            query_text(nums, names),
            " br"@ + crate::text::decimal(i as nat) + ": pullRequests(first:1, headRefName:\""@
                + crate::text::escaped(names[i]) + "\") { nodes { "@ + PR_NODE_FIELDS@ + " } }"@,
        ),
{
    lemma_branch_within(names, i);
    let head =
        "query($owner: String!, $repo: String!) { repository(owner: $owner, name: $repo) { defaultBranchRef { name }"@
        + number_fields(nums);
    let w = " br"@ + crate::text::decimal(i as nat) + ": pullRequests(first:1, headRefName:\""@
        + crate::text::escaped(names[i]) + "\") { nodes { "@ + PR_NODE_FIELDS@ + " } }"@;
    lemma_within_sum(head, branch_fields(names), " } }"@, w);
}

proof fn lemma_branch_within(names: Seq<Seq<char>>, i: int)
    requires
        0 <= i < names.len(),
    ensures
        is_within(
            branch_fields(names),
            " br"@ + crate::text::decimal(i as nat) + ": pullRequests(first:1, headRefName:\""@
                + crate::text::escaped(names[i]) + "\") { nodes { "@ + PR_NODE_FIELDS@ + " } }"@,
        ),
    decreases names.len(),
{
    let w = " br"@ + crate::text::decimal(i as nat) + ": pullRequests(first:1, headRefName:\""@
        + crate::text::escaped(names[i]) + "\") { nodes { "@ + PR_NODE_FIELDS@ + " } }"@;
    let head = names.drop_last();
    let none = Seq::<char>::empty();
    if i < head.len() {
        lemma_branch_within(head, i);
        let own = " br"@ + crate::text::decimal((names.len() - 1) as nat)
            + ": pullRequests(first:1, headRefName:\""@ + crate::text::escaped(names.last())
            + "\") { nodes { "@ + PR_NODE_FIELDS@ + " } }"@;
        lemma_within_sum(none, branch_fields(head), own, w);
        assert(branch_fields(names) =~= none + branch_fields(head) + own);
    } else {
        assert(branch_fields(names) =~= branch_fields(head) + w + none);
        crate::style::lemma_stands(branch_fields(head), w, none);
        assert(crate::style::stands_at(
            branch_fields(names),
            branch_fields(head).len() as int,
            w,
        ));
    }
}

/// The aliases of the query are told apart in the reply: those of numbers from those of branches,
/// and both from the default branch.
pub proof fn aliases_are_told_apart(n: nat)
    ensures
        kind_of_alias("pr"@ + crate::text::decimal(n)) is Number,
        kind_of_alias("br"@ + crate::text::decimal(n)) is Branch,
        kind_of_alias("defaultBranchRef"@) is Other,
{
    reveal_strlit("pr");
    reveal_strlit("br");
    reveal_strlit("defaultBranchRef");
    let a = "pr"@ + crate::text::decimal(n);
    let b = "br"@ + crate::text::decimal(n);
    let c = "defaultBranchRef"@;
    assert(a.take(2) =~= "pr"@);
    assert(b.take(2) =~= "br"@);
    assert(b.take(2)[0] == 'b');
    assert(c.take(2)[0] == 'd');
}

/// A new PR is a draft exactly where that is asked for, and is made from the branch of the fork
/// where there is one. A PR is made a draft again exactly where it is not to be ready.
pub proof fn flags_are_given_where_asked_for(
    head: Seq<char>,
    base: Seq<char>,
    title: Seq<char>,
    body: Seq<char>,
    draft: bool,
    fork_owner: Option<Seq<char>>,
    n: u64,
    ready: bool,
)
    ensures
        ({
            let args = create_args(head, base, title, body, draft, fork_owner);
            &&& args.len() == if draft {
                11int
            } else {
                10
            }
            &&& draft ==> args.last() == "--draft"@
            &&& args[2] == "--head"@
            &&& fork_owner is None ==> args[3] == head
            &&& fork_owner is Some ==> args[3] == fork_owner->0 + ":"@ + head
            &&& args[4] == "--base"@ && args[5] == base
            &&& args[6] == "--title"@ && args[7] == title
            &&& args[8] == "--body"@ && args[9] == body
        }),
        ({
            let args = ready_args(n, ready);
            &&& args[2] == crate::text::decimal(n as nat)
            &&& ready ==> args.len() == 3
            &&& !ready ==> args.len() == 4 && args[3] == "--undo"@
        }),
{
}

/// The number of a PR is what follows the last slash of its URL, where that is a number and not
/// zero.
pub proof fn number_follows_the_last_slash(a: Seq<char>, b: Seq<char>, n: u64)
    requires
        forall|i: int| 0 <= i < b.len() ==> #[trigger] b[i] != '/',
    ensures
        url_number(a.push('/') + b) == Some(n) <==> n != 0 && crate::text::parsed_u64(b) == Some(n),
        url_number(b) == Some(n) <==> n != 0 && crate::text::parsed_u64(b) == Some(n),
{
    lemma_after_slash(a.push('/'), b);
    lemma_after_slash(Seq::empty(), b);
    assert(Seq::<char>::empty() + b =~= b);
}

proof fn lemma_after_slash(a: Seq<char>, b: Seq<char>)
    requires
        a.len() == 0 || a.last() == '/',
        forall|i: int| 0 <= i < b.len() ==> #[trigger] b[i] != '/',
    ensures
        after_last_slash(a + b) == b,
    decreases b.len(),
{
    if b.len() == 0 {
        assert(a + b =~= a);
        assert(after_last_slash(a) =~= b);
    } else {
        let head = b.drop_last();
        assert forall|i: int| 0 <= i < head.len() implies #[trigger] head[i] != '/' by {
            assert(head[i] == b[i]);
        }
        lemma_after_slash(a, head);
        assert((a + b).drop_last() =~= a + head);
        assert((a + b).last() == b[b.len() - 1]);
        assert(head.push(b.last()) =~= b);
    }
}

} // verus!
