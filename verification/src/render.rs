//! The graph of pull requests and the log of commits as text.
use std::collections::{BTreeMap, BTreeSet};

use renderdag::{Ancestor, GraphRowRenderer, Renderer};
use vstd::prelude::*;

use crate::claims::find_pr;
use crate::gh::{GhPr, PrStatus};
use crate::jj::JjLogEntry;
use crate::node_graph::node_ref;
use crate::node_store::NodeKey;
use crate::pr_dag::{Node, NodeView, RepoState, RepoView};
use crate::sets::set_numbers;
use crate::style;
use crate::text::{join, same_text};
use crate::types::CommitId;

verus! {

broadcast use crate::text::lemma_views_len;

// --- Graph rows ---

/// A row of a graph: its number, the numbers of the rows below that it is linked to, its glyph
/// and its message.
pub struct Row {
    pub node: u64,
    pub links: Vec<u64>,
    pub glyph: String,
    pub message: String,
}

/// What a row says.
pub type RowView = (u64, Seq<u64>, Seq<char>, Seq<char>);

impl View for Row {
    type V = RowView;

    open spec fn view(&self) -> RowView {
        (self.node, self.links@, self.glyph@, self.message@)
    }
}

/// What a list of rows says.
pub open spec fn row_views(rows: Seq<Row>) -> Seq<RowView> {
    Seq::new(rows.len(), |i: int| rows[i]@)
}

/// A renderer of graph rows that draws with box characters.
#[verifier::external_body]
pub struct GraphPrinter {
    inner: renderdag::BoxDrawingRenderer<u64, GraphRowRenderer<u64>>,
}

/// The rows that a renderer was given.
pub uninterp spec fn fed_rows(printer: GraphPrinter) -> Seq<RowView>;

/// The least number of lines of each row of a renderer.
pub uninterp spec fn row_height(printer: GraphPrinter) -> usize;

/// The text that the renderer draws for the last of the rows, after the others.
pub uninterp spec fn drawn_row(height: usize, rows: Seq<RowView>) -> Seq<char>;

impl GraphPrinter {
    /// `GraphRowRenderer::new`, `output`, `with_min_row_height` and `build_box_drawing` make a
    /// renderer that was given no rows.
    #[verifier::external_body]
    fn new(height: usize) -> (r: Self)
        ensures
            fed_rows(r) == Seq::<RowView>::empty(),
            row_height(r) == height,
    {
        let builder = GraphRowRenderer::new().output().with_min_row_height(height);
        GraphPrinter { inner: builder.build_box_drawing() }
    }

    /// `BoxDrawingRenderer::next_row` draws one more row. Its text, named `drawn_row`, depends
    /// on this row and those before it; of the numbers only which are the same matters.
    #[verifier::external_body]
    fn next_row(&mut self, row: &Row) -> (r: String)
        ensures
            fed_rows(*final(self)) == fed_rows(*old(self)).push(row@),
            row_height(*final(self)) == row_height(*old(self)),
            r@ == drawn_row(row_height(*old(self)), fed_rows(*old(self)).push(row@)),
    {
        let links = row.links.iter().map(|&n| Ancestor::Parent(n)).collect();
        self.inner.next_row(row.node, links, row.glyph.clone(), row.message.clone())
    }
}

/// The text of all rows.
pub open spec fn drawn_rows(height: usize, rows: Seq<RowView>) -> Seq<char>
    decreases rows.len(),
{
    if rows.len() == 0 {
        Seq::empty()
    } else {
        drawn_rows(height, rows.drop_last()) + drawn_row(height, rows)
    }
}

/// Draws the rows, each of one line at least.
pub fn draw_rows(rows: &Vec<Row>) -> (r: String)
    ensures
        r@ == drawn_rows(1, row_views(rows@)),
{
    let mut printer = GraphPrinter::new(1);
    let mut out = String::new();
    let ghost all = row_views(rows@);
    let mut i: usize = 0;
    assert(all.take(0) == Seq::<RowView>::empty());
    while i < rows.len()
        invariant
            i <= rows.len(),
            all == row_views(rows@),
            fed_rows(printer) == all.take(i as int),
            row_height(printer) == 1,
            out@ == drawn_rows(1, all.take(i as int)),
        decreases rows.len() - i,
    {
        assert(all.take(i + 1) == all.take(i as int).push(all[i as int]));
        assert(all.take(i + 1).drop_last() == all.take(i as int));
        let text = printer.next_row(&rows[i]);
        out.append(text.as_str());
        i = i + 1;
    }
    assert(all.take(i as int) == all);
    out
}

// --- Parts of messages ---

/// The URL of a PR.
pub open spec fn url_of(prs: Map<u64, &GhPr>, n: u64) -> Option<Seq<char>> {
    if prs.contains_key(n) {
        Some(prs[n].url@)
    } else {
        None
    }
}

/// The labels of PRs.
pub open spec fn pr_labels(nums: Seq<u64>, prs: Map<u64, &GhPr>, color: bool) -> Seq<Seq<char>> {
    Seq::new(nums.len(), |i: int| style::pr_num_text(nums[i], url_of(prs, nums[i]), color))
}

/// The labels of a set of PRs, in ascending order and separated by commas.
pub open spec fn label_list(set: Set<u64>, prs: Map<u64, &GhPr>, color: bool) -> Seq<char> {
    crate::text::joined(pr_labels(crate::order::num_listing(set), prs, color), ", "@)
}

fn labels_of(set: &BTreeSet<u64>, prs: &BTreeMap<u64, &GhPr>, color: bool) -> (r: String)
    ensures
        r@ == label_list(set@, prs@, color),
{
    let nums = set_numbers(set);
    let mut out: Vec<String> = Vec::new();
    let ghost want = pr_labels(nums@, prs@, color);
    let mut i: usize = 0;
    assert(crate::text::views(out@) == want.take(0));
    while i < nums.len()
        invariant
            i <= nums.len(),
            want == pr_labels(nums@, prs@, color),
            crate::text::views(out@) == want.take(i as int),
        decreases nums.len() - i,
    {
        let url: Option<&str> = match find_pr(prs, nums[i]) {
            Some(pr) => Some(pr.url.as_str()),
            None => None,
        };
        let label = style::pr_label(nums[i], url, color);
        let ghost before = out@;
        let ghost text = label@;
        out.push(label);
        assert(crate::text::views(out@) == crate::text::views(before).push(text));
        assert(want.take(i + 1) == want.take(i as int).push(want[i as int]));
        i = i + 1;
    }
    assert(want.take(i as int) == want);
    join(&out, ", ")
}

/// The CI and review indicators of a PR, after a space.
pub open spec fn indicators_text(status: PrStatus, color: bool) -> Seq<char> {
    let review = style::review_status_text(status.review_decision, color);
    match status.checks_status {
        Some(cs) => " "@ + style::ci_status_text(cs, color) + " "@ + review,
        None => " "@ + review,
    }
}

/// Build the CI and review status indicator string for a PR.
///
/// Returns a string with a leading space containing CI and review status indicators.
pub fn ci_review_indicators(status: &PrStatus, color: bool) -> (r: String)
    ensures
        r@ == indicators_text(*status, color),
{
    let mut out = " ".to_owned();
    if let Some(cs) = status.checks_status {
        out.append(style::ci_status(cs, color).as_str());
        out.append(" ");
    }
    out.append(style::review_status(status.review_decision, color).as_str());
    out
}

/// The indicators of a PR whose status is known, and nothing otherwise.
pub open spec fn known_indicators(
    statuses: Map<u64, PrStatus>,
    n: u64,
    color: bool,
) -> Seq<char> {
    if statuses.contains_key(n) {
        indicators_text(statuses[n], color)
    } else {
        ""@
    }
}

fn indicators_of(statuses: &BTreeMap<u64, PrStatus>, n: u64, color: bool) -> (r: String)
    ensures
        r@ == known_indicators(statuses@, n, color),
{
    broadcast use vstd::std_specs::btree::group_btree_axioms;

    match statuses.get(&n) {
        Some(status) => ci_review_indicators(status, color),
        None => "".to_owned(),
    }
}

/// A star for a node with pending sync actions.
pub open spec fn star_text(v: RepoView, k: NodeKey) -> Seq<char> {
    if v.needs_sync.contains_key(k) {
        "*"@
    } else {
        ""@
    }
}

fn star(state: &RepoState, k: NodeKey) -> (r: &'static str)
    requires
        crate::node_store::is_key(k),
    ensures
        r@ == star_text(state@, k),
{
    if state.node_needs_sync.get(k).is_some() {
        "*"
    } else {
        ""
    }
}

// --- The graph of nodes ---

/// The glyph of a node.
pub open spec fn show_glyph(
    v: RepoView,
    prs: Map<u64, &GhPr>,
    k: NodeKey,
    color: bool,
) -> Seq<char> {
    let conflicted = crate::pr_dag::state_conflicted(v, prs, k);
    if v.current == Some(k) {
        if conflicted {
            style::glyph_current_conflicted_text(color)
        } else {
            style::glyph_current_text(color)
        }
    } else {
        match crate::node_graph::node_at(v.nodes, k) {
            NodeView::Root => style::glyph_elided_text(color),
            NodeView::TrunkTip => style::glyph_immutable_text(color),
            NodeView::Pr(_) => if conflicted {
                style::glyph_conflicted_text(color)
            } else {
                style::GLYPH_MUTABLE@
            },
            NodeView::Ambiguous { branch_prs, trailer_prs } => if conflicted {
                style::glyph_warning_conflicted_text(color)
            } else {
                style::warn_text(style::GLYPH_WARNING@, color)
            },
        }
    }
}

/// What an ambiguous node may belong to.
pub open spec fn ambiguous_parts(
    branch_prs: Set<u64>,
    trailer_prs: Set<u64>,
    prs: Map<u64, &GhPr>,
    branch_label: Seq<char>,
    sep: Seq<char>,
    color: bool,
) -> Seq<char> {
    let branches = branch_label + label_list(branch_prs, prs, color);
    let trailers = "trailers: "@ + label_list(trailer_prs, prs, color);
    if branch_prs.is_empty() {
        if trailer_prs.is_empty() {
            ""@
        } else {
            trailers
        }
    } else {
        if trailer_prs.is_empty() {
            branches
        } else {
            branches + sep + trailers
        }
    }
}

fn ambiguous_list(
    branch_prs: &BTreeSet<u64>,
    trailer_prs: &BTreeSet<u64>,
    prs: &BTreeMap<u64, &GhPr>,
    branch_label: &str,
    sep: &str,
    color: bool,
) -> (r: String)
    ensures
        r@ == ambiguous_parts(
            branch_prs@,
            trailer_prs@,
            prs@,
            branch_label@,
            sep@,
            color,
        ),
{
    let mut out = "".to_owned();
    proof {
        reveal_strlit("");
    }
    assert(out@ == Seq::<char>::empty());
    if !branch_prs.is_empty() {
        out.append(branch_label);
        out.append(labels_of(branch_prs, prs, color).as_str());
        if !trailer_prs.is_empty() {
            out.append(sep);
        }
    }
    if !trailer_prs.is_empty() {
        let mut trailers = "trailers: ".to_owned();
        trailers.append(labels_of(trailer_prs, prs, color).as_str());
        out.append(trailers.as_str());
    }
    assert(out@ == ambiguous_parts(
        branch_prs@,
        trailer_prs@,
        prs@,
        branch_label@,
        sep@,
        color,
    ));
    out
}

/// What to do about an ambiguous node.
pub open spec fn hint_text(branch_prs: Set<u64>, trailer_prs: Set<u64>) -> Seq<char> {
    if branch_prs.len() > 1 {
        if trailer_prs.subset_of(branch_prs) {
            "(restructure PRs to resolve — stack one on the other)"@
        } else {
            "(restructure PRs to resolve, and edit commit trailers to fix PR: tags)"@
        }
    } else {
        if trailer_prs.subset_of(branch_prs) {
            "(multiple sources for same PR — abandon stale commits or restructure)"@
        } else {
            "(edit commit description to fix PR: trailer)"@
        }
    }
}

fn is_subset(a: &BTreeSet<u64>, b: &BTreeSet<u64>) -> (r: bool)
    ensures
        r == a@.subset_of(b@),
{
    broadcast use vstd::std_specs::btree::group_btree_axioms;

    let list = set_numbers(a);
    let mut i: usize = 0;
    while i < list.len()
        invariant
            i <= list.len(),
            list@.to_set() == a@,
            forall|j: int| 0 <= j < i ==> b@.contains(#[trigger] list@[j]),
        decreases list.len() - i,
    {
        if !b.contains(&list[i]) {
            assert(list@.to_set().contains(list@[i as int]));
            return false;
        }
        i = i + 1;
    }
    assert forall|x: u64| a@.contains(x) implies b@.contains(x) by {
        assert(list@.to_set().contains(x));
        let j = choose|j: int| 0 <= j < list@.len() && list@[j] == x;
        assert(b@.contains(list@[j]));
    }
    true
}

fn hint(branch_prs: &BTreeSet<u64>, trailer_prs: &BTreeSet<u64>) -> (r: &'static str)
    ensures
        r@ == hint_text(branch_prs@, trailer_prs@),
{
    broadcast use vstd::std_specs::btree::group_btree_axioms;

    let has_shared = branch_prs.len() > 1;
    let has_trailer_mismatch = !is_subset(trailer_prs, branch_prs);
    if has_shared {
        if has_trailer_mismatch {
            "(restructure PRs to resolve, and edit commit trailers to fix PR: tags)"
        } else {
            "(restructure PRs to resolve — stack one on the other)"
        }
    } else {
        if has_trailer_mismatch {
            "(edit commit description to fix PR: trailer)"
        } else {
            // Same PR claimed by multiple sources (branch + orphan trailer, or multiple orphan
            // trailers).
            "(multiple sources for same PR — abandon stale commits or restructure)"
        }
    }
}

/// The message of a node.
pub open spec fn show_message(
    v: RepoView,
    prs: Map<u64, &GhPr>,
    statuses: Map<u64, PrStatus>,
    k: NodeKey,
    color: bool,
) -> Seq<char> {
    match crate::node_graph::node_at(v.nodes, k) {
        NodeView::Root => style::root_text(color),
        NodeView::TrunkTip => style::trunk_text(color),
        NodeView::Pr(n) => style::pr_num_text(n, Some(prs[n].url@), color) + star_text(v, k)
            + "  "@ + style::status_text(prs[n].state, prs[n].is_draft, color) + known_indicators(
            statuses,
            n,
            color,
        ) + "  "@ + style::bookmark_text(prs[n].head_ref_name@, color) + "\n"@ + prs[n].title@,
        NodeView::Ambiguous { branch_prs, trailer_prs } => style::warn_text("ambiguous"@, color)
            + star_text(v, k) + " "@ + ambiguous_parts(
            branch_prs,
            trailer_prs,
            prs,
            "branches: "@,
            ", "@,
            color,
        ) + "\n"@ + style::dim_text(hint_text(branch_prs, trailer_prs), color),
    }
}

/// The row of a node.
pub open spec fn show_row(
    v: RepoView,
    prs: Map<u64, &GhPr>,
    statuses: Map<u64, PrStatus>,
    reversed: bool,
    color: bool,
    k: NodeKey,
) -> RowView {
    (
        k,
        if reversed {
            v.succs[k]
        } else {
            v.preds[k]
        },
        show_glyph(v, prs, k, color),
        show_message(v, prs, statuses, k, color),
    )
}

/// The rows of the given nodes, in that order, without the hidden ones unless all are shown.
pub open spec fn show_rows_of(
    v: RepoView,
    prs: Map<u64, &GhPr>,
    statuses: Map<u64, PrStatus>,
    show_all: bool,
    reversed: bool,
    color: bool,
    keys: Seq<NodeKey>,
) -> Seq<RowView>
    decreases keys.len(),
{
    if keys.len() == 0 {
        Seq::empty()
    } else {
        let before = show_rows_of(
            v,
            prs,
            statuses,
            show_all,
            reversed,
            color,
            keys.drop_last(),
        );
        if !show_all && v.hidden.contains(keys.last()) {
            before
        } else {
            before.push(show_row(v, prs, statuses, reversed, color, keys.last()))
        }
    }
}

/// The order in which nodes are shown: children first, or parents first if it is reversed.
pub open spec fn shown_order(order: Seq<NodeKey>, reversed: bool) -> Seq<NodeKey> {
    if reversed {
        order
    } else {
        order.reverse()
    }
}

fn node_glyph(
    state: &RepoState,
    prs: &BTreeMap<u64, &GhPr>,
    k: NodeKey,
    color: bool,
) -> (r: String)
    requires
        state.wf(),
        crate::node_store::key_of(k, state@.nodes.len()),
    ensures
        r@ == show_glyph(state@, prs@, k, color),
{
    let conflicted = state.is_node_conflicted(k, prs);
    let is_current = match state.node_current {
        Some(c) => c == k,
        None => false,
    };
    if is_current {
        return if conflicted {
            style::glyph_current_conflicted(color)
        } else {
            style::glyph_current(color)
        };
    }
    match node_ref(&state.nodes, k) {
        Node::Root => style::glyph_elided(color),
        Node::TrunkTip => style::glyph_immutable(color),
        Node::Pr(_) => if conflicted {
            style::glyph_conflicted(color)
        } else {
            style::GLYPH_MUTABLE.to_owned()
        },
        Node::Ambiguous { .. } => if conflicted {
            style::glyph_warning_conflicted(color)
        } else {
            style::warn(style::GLYPH_WARNING, color)
        },
    }
}

fn node_message(
    state: &RepoState,
    prs: &BTreeMap<u64, &GhPr>,
    pr_statuses: &BTreeMap<u64, PrStatus>,
    k: NodeKey,
    color: bool,
) -> (r: String)
    requires
        state.wf(),
        crate::pr_dag::repo_known(state@, prs@),
        crate::node_store::key_of(k, state@.nodes.len()),
    ensures
        r@ == show_message(state@, prs@, pr_statuses@, k, color),
{
    assert(state@.nodes[crate::node_store::place(k)] == crate::node_graph::node_at(
        state@.nodes,
        k,
    ));
    match node_ref(&state.nodes, k) {
        Node::Root => style::root(color),
        Node::TrunkTip => style::trunk(color),
        Node::Pr(n) => {
            let pr = find_pr(prs, n.get()).unwrap();
            let mut s = style::pr_num(*n, Some(pr.url.as_str()), color);
            s.append(star(state, k));
            s.append("  ");
            s.append(style::status(pr.state, pr.is_draft, color).as_str());
            s.append(indicators_of(pr_statuses, n.get(), color).as_str());
            s.append("  ");
            s.append(style::bookmark(&pr.head_ref_name, color).as_str());
            s.append("\n");
            s.append(pr.title.as_str());
            s
        },
        Node::Ambiguous { branch_prs, trailer_prs } => {
            let mut s = style::warn("ambiguous", color);
            s.append(star(state, k));
            s.append(" ");
            s.append(
                ambiguous_list(
                    branch_prs,
                    trailer_prs,
                    prs,
                    "branches: ",
                    ", ",
                    color,
                ).as_str(),
            );
            s.append("\n");
            s.append(style::dim(hint(branch_prs, trailer_prs), color).as_str());
            s
        },
    }
}

fn copy_list(v: &Vec<u64>) -> (r: Vec<u64>)
    ensures
        r@ == v@,
{
    let mut out: Vec<u64> = Vec::new();
    let mut i: usize = 0;
    while i < v.len()
        invariant
            i <= v.len(),
            out@ == v@.take(i as int),
        decreases v.len() - i,
    {
        out.push(v[i]);
        i = i + 1;
    }
    out
}

/// The rows of the PR graph.
pub fn show_rows(
    state: &RepoState,
    prs: &BTreeMap<u64, &GhPr>,
    pr_statuses: &BTreeMap<u64, PrStatus>,
    show_all: bool,
    reversed: bool,
    color: bool,
) -> (r: Vec<Row>)
    requires
        state.wf(),
        crate::pr_dag::repo_known(state@, prs@),
    ensures
        row_views(r@) == show_rows_of(
            state@,
            prs@,
            pr_statuses@,
            show_all,
            reversed,
            color,
            shown_order(state@.order, reversed),
        ),
{
    let mut out: Vec<Row> = Vec::new();
    let ghost keys = shown_order(state@.order, reversed);
    let n = state.topo_order.len();
    let mut i: usize = 0;
    assert(row_views(out@) == Seq::<RowView>::empty());
    while i < n
        invariant
            i <= n == state.topo_order.len() == keys.len(),
            state.wf(),
            crate::pr_dag::repo_known(state@, prs@),
            keys == shown_order(state@.order, reversed),
            row_views(out@) == show_rows_of(
                state@,
                prs@,
                pr_statuses@,
                show_all,
                reversed,
                color,
                keys.take(i as int),
            ),
        decreases n - i,
    {
        let k = if reversed {
            state.topo_order[i]
        } else {
            state.topo_order[n - 1 - i]
        };
        assert(keys[i as int] == k);
        assert(keys.take(i + 1).drop_last() == keys.take(i as int));
        assert(state@.order.contains(k));
        assert(state@.preds.contains_key(k) && state@.succs.contains_key(k));
        if show_all || !state.node_hidden.contains(k) {
            let links = if reversed {
                copy_list(state.node_succs.get(k).unwrap())
            } else {
                copy_list(state.node_preds.get(k).unwrap())
            };
            let row = Row {
                node: k,
                links,
                glyph: node_glyph(state, prs, k, color),
                message: node_message(state, prs, pr_statuses, k, color),
            };
            let ghost view = row@;
            let ghost before = out@;
            out.push(row);
            assert(row_views(out@) == row_views(before).push(view));
        }
        i = i + 1;
    }
    assert(keys.take(i as int) == keys);
    out
}

/// Render the PR DAG as a graph.
pub fn render_show(
    state: &RepoState,
    prs: &BTreeMap<u64, &GhPr>,
    pr_statuses: &BTreeMap<u64, PrStatus>,
    show_all: bool,
    reversed: bool,
    color: bool,
) -> (r: String)
    requires
        state.wf(),
        crate::pr_dag::repo_known(state@, prs@),
    ensures
        r@ == drawn_rows(
            1,
            show_rows_of(
                state@,
                prs@,
                pr_statuses@,
                show_all,
                reversed,
                color,
                shown_order(state@.order, reversed),
            ),
        ),
{
    draw_rows(&show_rows(state, prs, pr_statuses, show_all, reversed, color))
}

// --- The log of commits ---

/// Whether the log has the commits of that ID: all are shown, or it belongs to a node that is
/// not hidden.
pub open spec fn commit_shown(v: RepoView, show_all: bool, commit: Seq<char>) -> bool {
    show_all || (v.owner.contains_key(commit) && !v.hidden.contains(v.owner[commit]))
}

/// The number of a commit in the log: one more than the place of the first entry that has it,
/// and zero for a commit without entry.
pub open spec fn commit_number(entries: Seq<JjLogEntry>, commit: Seq<char>) -> int
    decreases entries.len(),
{
    if entries.len() == 0 {
        0
    } else if commit_number(entries.drop_last(), commit) > 0 {
        commit_number(entries.drop_last(), commit)
    } else if entries.last().commit.commit_id@ == commit {
        entries.len() as int
    } else {
        0
    }
}

/// The number of the row that a commit is linked to: its own if it is shown, or that of the
/// elided revisions, which is zero.
pub open spec fn link_number(
    v: RepoView,
    entries: Seq<JjLogEntry>,
    show_all: bool,
    commit: Seq<char>,
) -> u64 {
    if commit_shown(v, show_all, commit) {
        commit_number(entries, commit) as u64
    } else {
        0
    }
}

/// The rows of the parents of an entry.
pub open spec fn parent_links(
    v: RepoView,
    entries: Seq<JjLogEntry>,
    show_all: bool,
    entry: JjLogEntry,
) -> Seq<u64> {
    Seq::new(
        entry.commit.parents@.len(),
        |j: int| link_number(v, entries, show_all, entry.commit.parents@[j]@),
    )
}

/// How many times a commit is among the first `k` parents of an entry.
pub open spec fn parent_count(entry: JjLogEntry, k: nat, commit: Seq<char>) -> nat
    decreases k,
{
    if k == 0 {
        0
    } else if entry.commit.parents@[k - 1]@ == commit {
        parent_count(entry, (k - 1) as nat, commit) + 1
    } else {
        parent_count(entry, (k - 1) as nat, commit)
    }
}

/// The rows of the shown children of a commit, among the first `k` entries.
pub open spec fn child_links(
    v: RepoView,
    entries: Seq<JjLogEntry>,
    show_all: bool,
    commit: Seq<char>,
    k: nat,
) -> Seq<u64>
    decreases k,
{
    if k == 0 {
        Seq::empty()
    } else {
        let before = child_links(v, entries, show_all, commit, (k - 1) as nat);
        let child = entries[k - 1];
        if commit_shown(v, show_all, child.commit.commit_id@) {
            before + Seq::new(
                parent_count(child, child.commit.parents@.len(), commit),
                |j: int| commit_number(entries, child.commit.commit_id@) as u64,
            )
        } else {
            before
        }
    }
}

/// The node of an entry, if it has one.
pub open spec fn entry_node(v: RepoView, entry: JjLogEntry) -> Option<NodeView> {
    if v.owner.contains_key(entry.commit.commit_id@) {
        Some(crate::node_graph::node_at(v.nodes, v.owner[entry.commit.commit_id@]))
    } else {
        None
    }
}

/// The glyph of a commit.
pub open spec fn log_glyph(v: RepoView, entry: JjLogEntry, color: bool) -> Seq<char> {
    let ambiguous = entry_node(v, entry) is Some && entry_node(v, entry)->0 is Ambiguous;
    if entry.is_working_copy {
        if entry.conflict {
            style::glyph_current_conflicted_text(color)
        } else {
            style::glyph_current_text(color)
        }
    } else if entry.conflict {
        if ambiguous {
            style::glyph_warning_conflicted_text(color)
        } else {
            style::glyph_conflicted_text(color)
        }
    } else {
        match entry_node(v, entry) {
            Some(NodeView::Root) => style::glyph_immutable_text(color),
            Some(NodeView::TrunkTip) => style::glyph_immutable_text(color),
            Some(NodeView::Ambiguous { branch_prs, trailer_prs }) => style::warn_text(
                style::GLYPH_WARNING@,
                color,
            ),
            _ => style::GLYPH_MUTABLE@,
        }
    }
}

/// What the log says of the node of a commit.
pub open spec fn log_node_text(
    v: RepoView,
    prs: Map<u64, &GhPr>,
    statuses: Map<u64, PrStatus>,
    entry: JjLogEntry,
    color: bool,
) -> Seq<char> {
    let k = v.owner[entry.commit.commit_id@];
    match entry_node(v, entry) {
        None => style::dim_text("(no PR)"@, color),
        Some(NodeView::Root) => style::root_text(color),
        Some(NodeView::TrunkTip) => style::trunk_text(color),
        Some(NodeView::Pr(n)) => if prs.contains_key(n) {
            style::pr_num_text(n, Some(prs[n].url@), color) + star_text(v, k) + " "@
                + style::status_text(prs[n].state, prs[n].is_draft, color) + known_indicators(
                statuses,
                n,
                color,
            )
        } else {
            style::pr_num_text(n, None, color) + star_text(v, k)
        },
        Some(NodeView::Ambiguous { branch_prs, trailer_prs }) => style::warn_text(
            "ambiguous"@,
            color,
        ) + star_text(v, k) + " "@ + style::warn_text("["@, color) + ambiguous_parts(
            branch_prs,
            trailer_prs,
            prs,
            ""@,
            "; "@,
            color,
        ) + style::warn_text("]"@, color),
    }
}

/// The labels of the first `k` local bookmarks of an entry, each after a space.
pub open spec fn label_run(entry: JjLogEntry, k: nat, color: bool) -> Seq<char>
    decreases k,
{
    if k == 0 {
        Seq::empty()
    } else {
        label_run(entry, (k - 1) as nat, color) + " "@ + style::bookmark_label_text(
            entry.local_bookmarks@[k - 1].name@,
            color,
        )
    }
}

/// The message of a commit: change ID, commit ID, bookmarks and PR on the first line, the
/// description on the second.
pub open spec fn log_message(
    v: RepoView,
    prs: Map<u64, &GhPr>,
    statuses: Map<u64, PrStatus>,
    entry: JjLogEntry,
    color: bool,
) -> Seq<char> {
    let line1 = style::change_id_text(entry.commit.change_id@, color) + " "@
        + style::commit_id_text(entry.commit.commit_id@, color) + label_run(
        entry,
        entry.local_bookmarks@.len(),
        color,
    ) + " "@ + log_node_text(v, prs, statuses, entry, color);
    let prefix = if entry.empty {
        style::empty_text(color) + " "@
    } else {
        ""@
    };
    line1 + "\n"@ + prefix + style::description_text(entry.commit.description@, color)
}

/// The row of a commit.
pub open spec fn log_row(
    v: RepoView,
    prs: Map<u64, &GhPr>,
    statuses: Map<u64, PrStatus>,
    entries: Seq<JjLogEntry>,
    show_all: bool,
    reversed: bool,
    color: bool,
    entry: JjLogEntry,
) -> RowView {
    (
        commit_number(entries, entry.commit.commit_id@) as u64,
        if reversed {
            child_links(v, entries, show_all, entry.commit.commit_id@, entries.len())
        } else {
            parent_links(v, entries, show_all, entry)
        },
        log_glyph(v, entry, color),
        log_message(v, prs, statuses, entry, color),
    )
}

/// The rows of the given entries, in that order, without those that are not shown.
pub open spec fn log_rows_of(
    v: RepoView,
    prs: Map<u64, &GhPr>,
    statuses: Map<u64, PrStatus>,
    entries: Seq<JjLogEntry>,
    show_all: bool,
    reversed: bool,
    color: bool,
    listed: Seq<JjLogEntry>,
) -> Seq<RowView>
    decreases listed.len(),
{
    if listed.len() == 0 {
        Seq::empty()
    } else {
        let before = log_rows_of(
            v,
            prs,
            statuses,
            entries,
            show_all,
            reversed,
            color,
            listed.drop_last(),
        );
        if commit_shown(v, show_all, listed.last().commit.commit_id@) {
            before.push(
                log_row(v, prs, statuses, entries, show_all, reversed, color, listed.last()),
            )
        } else {
            before
        }
    }
}

/// The row of the elided revisions.
pub open spec fn elided_row(color: bool) -> RowView {
    (0u64, Seq::empty(), style::glyph_elided_text(color), style::root_text(color))
}

/// The rows of the log: the elided revisions are at the bottom, or at the top if it is reversed.
pub open spec fn log_view(
    v: RepoView,
    prs: Map<u64, &GhPr>,
    statuses: Map<u64, PrStatus>,
    entries: Seq<JjLogEntry>,
    show_all: bool,
    reversed: bool,
    color: bool,
) -> Seq<RowView> {
    if reversed {
        seq![elided_row(color)] + log_rows_of(
            v,
            prs,
            statuses,
            entries,
            show_all,
            reversed,
            color,
            entries.reverse(),
        )
    } else {
        log_rows_of(
            v,
            prs,
            statuses,
            entries,
            show_all,
            reversed,
            color,
            entries,
        ).push(elided_row(color))
    }
}

fn is_shown(state: &RepoState, show_all: bool, commit: &CommitId) -> (r: bool)
    requires
        state.wf(),
    ensures
        r == commit_shown(state@, show_all, commit@),
{
    if show_all {
        return true;
    }
    match state.commit_node.get(commit.as_str()) {
        Some(k) => {
            assert(state@.owner.contains_key(commit@));
            !state.node_hidden.contains(k)
        },
        None => false,
    }
}

proof fn lemma_commit_number(entries: Seq<JjLogEntry>, commit: Seq<char>, k: int)
    requires
        0 <= k <= entries.len(),
    ensures
        0 <= commit_number(entries.take(k), commit) <= k,
        commit_number(entries.take(k), commit) > 0 ==> commit_number(entries, commit)
            == commit_number(entries.take(k), commit),
    decreases entries.len() - k, k,
{
    if k > 0 {
        lemma_commit_bound(entries.take(k), commit);
    }
    if k < entries.len() {
        assert(entries.take(k + 1).drop_last() == entries.take(k));
        lemma_commit_number(entries, commit, k + 1);
    } else {
        assert(entries.take(k) == entries);
    }
}

proof fn lemma_commit_bound(entries: Seq<JjLogEntry>, commit: Seq<char>)
    ensures
        0 <= commit_number(entries, commit) <= entries.len(),
    decreases entries.len(),
{
    if entries.len() > 0 {
        lemma_commit_bound(entries.drop_last(), commit);
    }
}

fn number_of(jj_entries: &Vec<JjLogEntry>, commit: &CommitId) -> (r: u64)
    ensures
        r == commit_number(jj_entries@, commit@) as u64,
        r == commit_number(jj_entries@, commit@),
{
    let mut i: usize = 0;
    while i < jj_entries.len()
        invariant
            i <= jj_entries.len(),
            commit_number(jj_entries@.take(i as int), commit@) == 0,
        decreases jj_entries.len() - i,
    {
        assert(jj_entries@.take(i + 1).drop_last() == jj_entries@.take(i as int));
        if same_text(jj_entries[i].commit.commit_id.as_str(), commit.as_str()) {
            proof {
                lemma_commit_number(jj_entries@, commit@, i + 1);
            }
            return i as u64 + 1;
        }
        i = i + 1;
    }
    assert(jj_entries@.take(i as int) == jj_entries@);
    0
}

fn parents_of(
    state: &RepoState,
    jj_entries: &Vec<JjLogEntry>,
    show_all: bool,
    entry: &JjLogEntry,
) -> (r: Vec<u64>)
    requires
        state.wf(),
    ensures
        r@ == parent_links(state@, jj_entries@, show_all, *entry),
{
    let mut out: Vec<u64> = Vec::new();
    let ghost want = parent_links(state@, jj_entries@, show_all, *entry);
    let mut j: usize = 0;
    while j < entry.commit.parents.len()
        invariant
            j <= entry.commit.parents.len(),
            state.wf(),
            want == parent_links(state@, jj_entries@, show_all, *entry),
            out@ == want.take(j as int),
        decreases entry.commit.parents.len() - j,
    {
        let parent = &entry.commit.parents[j];
        let n = if is_shown(state, show_all, parent) {
            number_of(jj_entries, parent)
        } else {
            0
        };
        out.push(n);
        assert(want.take(j + 1) == want.take(j as int).push(want[j as int]));
        j = j + 1;
    }
    assert(want.take(j as int) == want);
    out
}

fn children_of(
    state: &RepoState,
    jj_entries: &Vec<JjLogEntry>,
    show_all: bool,
    commit: &CommitId,
) -> (r: Vec<u64>)
    requires
        state.wf(),
    ensures
        r@ == child_links(state@, jj_entries@, show_all, commit@, jj_entries@.len()),
{
    let mut out: Vec<u64> = Vec::new();
    let mut i: usize = 0;
    while i < jj_entries.len()
        invariant
            i <= jj_entries.len(),
            state.wf(),
            out@ == child_links(state@, jj_entries@, show_all, commit@, i as nat),
        decreases jj_entries.len() - i,
    {
        let child = &jj_entries[i];
        let ghost before = out@;
        if is_shown(state, show_all, &child.commit.commit_id) {
            let n = number_of(jj_entries, &child.commit.commit_id);
            let mut j: usize = 0;
            assert(before + Seq::new(parent_count(*child, 0, commit@), |x: int| n) == before);
            while j < child.commit.parents.len()
                invariant
                    j <= child.commit.parents.len(),
                    out@ == before + Seq::new(
                        parent_count(*child, j as nat, commit@),
                        |x: int| n,
                    ),
                decreases child.commit.parents.len() - j,
            {
                if same_text(child.commit.parents[j].as_str(), commit.as_str()) {
                    out.push(n);
                }
                assert(out@ == before + Seq::new(
                    parent_count(*child, (j + 1) as nat, commit@),
                    |x: int| n,
                ));
                j = j + 1;
            }
            assert(Seq::new(
                parent_count(*child, child.commit.parents@.len(), commit@),
                |x: int| n,
            ) == Seq::new(
                parent_count(*child, child.commit.parents@.len(), commit@),
                |x: int| commit_number(jj_entries@, child.commit.commit_id@) as u64,
            ));
        }
        i = i + 1;
    }
    out
}

fn entry_glyph(state: &RepoState, entry: &JjLogEntry, color: bool) -> (r: String)
    requires
        state.wf(),
    ensures
        r@ == log_glyph(state@, *entry, color),
{
    let node: Option<&Node> = match state.commit_node.get(entry.commit.commit_id.as_str()) {
        Some(k) => {
            assert(state@.owner.contains_key(entry.commit.commit_id@));
            Some(node_ref(&state.nodes, k))
        },
        None => None,
    };
    if entry.is_working_copy {
        return if entry.conflict {
            style::glyph_current_conflicted(color)
        } else {
            style::glyph_current(color)
        };
    }
    if entry.conflict {
        return match node {
            Some(Node::Ambiguous { .. }) => style::glyph_warning_conflicted(color),
            _ => style::glyph_conflicted(color),
        };
    }
    match node {
        Some(Node::Root) => style::glyph_immutable(color),
        Some(Node::TrunkTip) => style::glyph_immutable(color),
        Some(Node::Ambiguous { .. }) => style::warn(style::GLYPH_WARNING, color),
        _ => style::GLYPH_MUTABLE.to_owned(),
    }
}

fn entry_node_label(
    state: &RepoState,
    prs: &BTreeMap<u64, &GhPr>,
    pr_statuses: &BTreeMap<u64, PrStatus>,
    entry: &JjLogEntry,
    color: bool,
) -> (r: String)
    requires
        state.wf(),
    ensures
        r@ == log_node_text(state@, prs@, pr_statuses@, *entry, color),
{
    let k = match state.commit_node.get(entry.commit.commit_id.as_str()) {
        Some(k) => k,
        None => {
            return style::dim("(no PR)", color);
        },
    };
    assert(state@.owner.contains_key(entry.commit.commit_id@));
    match node_ref(&state.nodes, k) {
        Node::Root => style::root(color),
        Node::TrunkTip => style::trunk(color),
        Node::Pr(n) => match find_pr(prs, n.get()) {
            Some(pr) => {
                let mut s = style::pr_num(*n, Some(pr.url.as_str()), color);
                s.append(star(state, k));
                s.append(" ");
                s.append(style::status(pr.state, pr.is_draft, color).as_str());
                s.append(indicators_of(pr_statuses, n.get(), color).as_str());
                s
            },
            None => {
                let mut s = style::pr_num(*n, None, color);
                s.append(star(state, k));
                s
            },
        },
        Node::Ambiguous { branch_prs, trailer_prs } => {
            let mut s = style::warn("ambiguous", color);
            s.append(star(state, k));
            s.append(" ");
            s.append(style::warn("[", color).as_str());
            s.append(
                ambiguous_list(branch_prs, trailer_prs, prs, "", "; ", color).as_str(),
            );
            s.append(style::warn("]", color).as_str());
            s
        },
    }
}

fn entry_message(
    state: &RepoState,
    prs: &BTreeMap<u64, &GhPr>,
    pr_statuses: &BTreeMap<u64, PrStatus>,
    entry: &JjLogEntry,
    color: bool,
) -> (r: String)
    requires
        state.wf(),
    ensures
        r@ == log_message(state@, prs@, pr_statuses@, *entry, color),
{
    // First line: change_id commit_id [bookmarks] [PR info]
    let mut s = style::change_id(&entry.commit.change_id, color);
    s.append(" ");
    s.append(style::commit_id_short(&entry.commit.commit_id, color).as_str());
    let ghost head = s@;
    let mut j: usize = 0;
    assert(head + label_run(*entry, 0, color) == head);
    while j < entry.local_bookmarks.len()
        invariant
            j <= entry.local_bookmarks.len(),
            s@ == head + label_run(*entry, j as nat, color),
        decreases entry.local_bookmarks.len() - j,
    {
        let label = style::bookmark_label(&entry.local_bookmarks[j].name, color);
        let ghost before = s@;
        s.append(" ");
        s.append(label.as_str());
        assert(before + " "@ + label@ == head + (label_run(*entry, j as nat, color) + " "@
            + label@));
        j = j + 1;
    }
    s.append(" ");
    s.append(entry_node_label(state, prs, pr_statuses, entry, color).as_str());
    s.append("\n");
    let ghost line1 = s@;
    // Second line: description (with empty marker if applicable).
    let mut prefix = "".to_owned();
    if entry.empty {
        prefix = style::empty_marker(color);
        prefix.append(" ");
    }
    s.append(prefix.as_str());
    s.append(style::description_first_line(entry.commit.description.as_str(), color).as_str());
    s
}

fn elided(color: bool) -> (r: Row)
    ensures
        r@ == elided_row(color),
{
    let r = Row {
        node: 0,
        links: Vec::new(),
        glyph: style::glyph_elided(color),
        message: style::root(color),
    };
    assert(r.links@ == Seq::<u64>::empty());
    r
}

/// The rows of the log.
pub fn log_rows(
    state: &RepoState,
    prs: &BTreeMap<u64, &GhPr>,
    pr_statuses: &BTreeMap<u64, PrStatus>,
    jj_entries: &Vec<JjLogEntry>,
    show_all: bool,
    reversed: bool,
    color: bool,
) -> (r: Vec<Row>)
    requires
        state.wf(),
    ensures
        row_views(r@) == log_view(
            state@,
            prs@,
            pr_statuses@,
            jj_entries@,
            show_all,
            reversed,
            color,
        ),
{
    let mut out: Vec<Row> = Vec::new();
    let ghost listed = if reversed {
        jj_entries@.reverse()
    } else {
        jj_entries@
    };
    // Print root at the top in reversed mode.
    if reversed {
        out.push(elided(color));
    }
    let ghost head = row_views(out@);
    let n = jj_entries.len();
    let mut i: usize = 0;
    assert(head + log_rows_of(
        state@,
        prs@,
        pr_statuses@,
        jj_entries@,
        show_all,
        reversed,
        color,
        listed.take(0),
    ) == head);
    while i < n
        invariant
            i <= n == jj_entries.len() == listed.len(),
            state.wf(),
            listed == if reversed {
                jj_entries@.reverse()
            } else {
                jj_entries@
            },
            row_views(out@) == head + log_rows_of(
                state@,
                prs@,
                pr_statuses@,
                jj_entries@,
                show_all,
                reversed,
                color,
                listed.take(i as int),
            ),
        decreases n - i,
    {
        let at: usize = if reversed {
            n - 1 - i
        } else {
            i
        };
        let entry = &jj_entries[at];
        assert(listed[i as int] == *entry);
        assert(listed.take(i + 1).drop_last() == listed.take(i as int));
        if is_shown(state, show_all, &entry.commit.commit_id) {
            let links = if reversed {
                children_of(state, jj_entries, show_all, &entry.commit.commit_id)
            } else {
                parents_of(state, jj_entries, show_all, entry)
            };
            let row = Row {
                node: number_of(jj_entries, &entry.commit.commit_id),
                links,
                glyph: entry_glyph(state, entry, color),
                message: entry_message(state, prs, pr_statuses, entry, color),
            };
            let ghost view = row@;
            let ghost before = out@;
            out.push(row);
            assert(row_views(out@) == row_views(before).push(view));
        }
        i = i + 1;
    }
    assert(listed.take(i as int) == listed);
    // Print root.
    if !reversed {
        let row = elided(color);
        let ghost view = row@;
        let ghost before = out@;
        out.push(row);
        assert(row_views(out@) == row_views(before).push(view));
    }
    assert(row_views(out@) == log_view(
        state@,
        prs@,
        pr_statuses@,
        jj_entries@,
        show_all,
        reversed,
        color,
    ));
    out
}

/// Render the commits and their associated PRs as a graph.
pub fn render_log(
    state: &RepoState,
    prs: &BTreeMap<u64, &GhPr>,
    pr_statuses: &BTreeMap<u64, PrStatus>,
    jj_entries: &Vec<JjLogEntry>,
    show_all: bool,
    reversed: bool,
    color: bool,
) -> (r: String)
    requires
        state.wf(),
    ensures
        r@ == drawn_rows(
            1,
            log_view(
                state@,
                prs@,
                pr_statuses@,
                jj_entries@,
                show_all,
                reversed,
                color,
            ),
        ),
{
    draw_rows(&log_rows(state, prs, pr_statuses, jj_entries, show_all, reversed, color))
}

// --- Laws of the graphs ---

/// With everything shown, each node has one row, in the order of the nodes.
pub proof fn all_nodes_have_rows(
    v: RepoView,
    prs: Map<u64, &GhPr>,
    statuses: Map<u64, PrStatus>,
    reversed: bool,
    color: bool,
    keys: Seq<NodeKey>,
)
    ensures
        ({
            let rows = show_rows_of(v, prs, statuses, true, reversed, color, keys);
            &&& rows.len() == keys.len()
            &&& forall|i: int| 0 <= i < keys.len() ==> (#[trigger] rows[i]).0 == keys[i]
        }),
    decreases keys.len(),
{
    if keys.len() > 0 {
        all_nodes_have_rows(v, prs, statuses, reversed, color, keys.drop_last());
    }
}

/// The rows are those of the nodes that are not left out.
proof fn lemma_show_rows(
    v: RepoView,
    prs: Map<u64, &GhPr>,
    statuses: Map<u64, PrStatus>,
    show_all: bool,
    reversed: bool,
    color: bool,
    keys: Seq<NodeKey>,
)
    ensures
        ({
            let rows = show_rows_of(v, prs, statuses, show_all, reversed, color, keys);
            &&& forall|i: int|
                0 <= i < rows.len() ==> {
                    let k = (#[trigger] rows[i]).0;
                    &&& keys.contains(k)
                    &&& show_all || !v.hidden.contains(k)
                    &&& rows[i] == show_row(v, prs, statuses, reversed, color, k)
                }
            &&& forall|k: NodeKey| #[trigger]
                keys.contains(k) && (show_all || !v.hidden.contains(k)) ==> exists|i: int|
                    0 <= i < rows.len() && (#[trigger] rows[i]).0 == k
        }),
    decreases keys.len(),
{
    if keys.len() > 0 {
        let head = keys.drop_last();
        lemma_show_rows(v, prs, statuses, show_all, reversed, color, head);
        let before = show_rows_of(v, prs, statuses, show_all, reversed, color, head);
        let rows = show_rows_of(v, prs, statuses, show_all, reversed, color, keys);
        assert forall|i: int| 0 <= i < rows.len() implies ({
            let k = (#[trigger] rows[i]).0;
            &&& keys.contains(k)
            &&& show_all || !v.hidden.contains(k)
            &&& rows[i] == show_row(v, prs, statuses, reversed, color, k)
        }) by {
            if i < before.len() {
                assert(rows[i] == before[i]);
                let j = choose|j: int| 0 <= j < head.len() && head[j] == before[i].0;
                assert(keys[j] == before[i].0);
            } else {
                assert(keys[keys.len() - 1] == rows[i].0);
            }
        }
        assert forall|k: NodeKey| #[trigger]
            keys.contains(k) && (show_all || !v.hidden.contains(k)) implies exists|i: int|
            0 <= i < rows.len() && (#[trigger] rows[i]).0 == k by {
            let j = choose|j: int| 0 <= j < keys.len() && keys[j] == k;
            if j < head.len() {
                assert(head[j] == k);
                assert(head.contains(k));
                let i = choose|i: int| 0 <= i < before.len() && (#[trigger] before[i]).0 == k;
                assert(rows[i].0 == k);
            } else {
                assert(rows[rows.len() - 1].0 == k);
            }
        }
    }
}

/// Each parent that a row of the graph is linked to has a row itself: hiding closed PRs leaves
/// no loose ends.
pub proof fn shown_parents_have_rows(
    entries: Seq<JjLogEntry>,
    prs: Map<u64, &GhPr>,
    default_branch: Seq<char>,
    tracking: Option<Set<Seq<char>>>,
    push_remote: Seq<char>,
    statuses: Map<u64, PrStatus>,
    show_all: bool,
    color: bool,
    i: int,
    j: int,
)
    requires
        entries.len() < crate::node_store::max_nodes(),
        crate::pr_dag::build_members(entries, prs, tracking) is Ok,
        crate::pr_dag::node_order(
            entries,
            crate::pr_dag::build_members(entries, prs, tracking)->Ok_0,
        ) is Ok,
        ({
            let m = crate::pr_dag::build_members(entries, prs, tracking)->Ok_0;
            let order = crate::pr_dag::node_order(entries, m)->Ok_0;
            let v = crate::pr_dag::built(
                entries,
                prs,
                default_branch,
                tracking,
                push_remote,
                m,
                order,
            );
            let rows = show_rows_of(
                v,
                prs,
                statuses,
                show_all,
                false,
                color,
                shown_order(order, false),
            );
            0 <= i < rows.len() && 0 <= j < rows[i].1.len()
        }),
    ensures
        ({
            let m = crate::pr_dag::build_members(entries, prs, tracking)->Ok_0;
            let order = crate::pr_dag::node_order(entries, m)->Ok_0;
            let v = crate::pr_dag::built(
                entries,
                prs,
                default_branch,
                tracking,
                push_remote,
                m,
                order,
            );
            let rows = show_rows_of(
                v,
                prs,
                statuses,
                show_all,
                false,
                color,
                shown_order(order, false),
            );
            exists|r: int| 0 <= r < rows.len() && (#[trigger] rows[r]).0 == rows[i].1[j]
        }),
{
    let m = crate::pr_dag::build_members(entries, prs, tracking)->Ok_0;
    let order = crate::pr_dag::node_order(entries, m)->Ok_0;
    let v = crate::pr_dag::built(entries, prs, default_branch, tracking, push_remote, m, order);
    let keys = shown_order(order, false);
    let rows = show_rows_of(v, prs, statuses, show_all, false, color, keys);
    let n = v.nodes.len();
    crate::pr_dag::built_repo_is_ok(entries, prs, default_branch, tracking, push_remote);
    lemma_show_rows(v, prs, statuses, show_all, false, color, keys);
    let k = rows[i].0;
    let p = rows[i].1[j];
    let at = choose|at: int| 0 <= at < keys.len() && keys[at] == k;
    assert(order[order.len() - 1 - at] == k);
    assert(order.contains(k));
    assert(v.preds.contains_key(k));
    assert(v.preds[k] == rows[i].1);
    assert(v.preds[k].contains(p));
    assert(crate::node_store::key_of(p, n));
    assert(order.contains(p));
    let q = choose|q: int| 0 <= q < order.len() && order[q] == p;
    assert(keys[order.len() - 1 - q] == p);
    assert(keys.contains(p));
    if !show_all {
        crate::pr_dag::neighbours_agree(
            entries,
            prs,
            default_branch,
            tracking,
            push_remote,
            m,
            order,
            k,
            p,
        );
        crate::pr_dag::hidden_nodes_are_closed_leaves(
            entries,
            prs,
            default_branch,
            tracking,
            push_remote,
            p,
        );
        assert(v.succs[p].contains(k));
        assert(!v.hidden.contains(p));
    }
}

/// Each row of the log is that of a listed entry.
proof fn lemma_log_row_entry(
    v: RepoView,
    prs: Map<u64, &GhPr>,
    statuses: Map<u64, PrStatus>,
    entries: Seq<JjLogEntry>,
    show_all: bool,
    reversed: bool,
    color: bool,
    listed: Seq<JjLogEntry>,
    i: int,
) -> (e: int)
    requires
        0 <= i < log_rows_of(
            v,
            prs,
            statuses,
            entries,
            show_all,
            reversed,
            color,
            listed,
        ).len(),
    ensures
        0 <= e < listed.len(),
        log_rows_of(v, prs, statuses, entries, show_all, reversed, color, listed)[i] == log_row(
            v,
            prs,
            statuses,
            entries,
            show_all,
            reversed,
            color,
            listed[e],
        ),
    decreases listed.len(),
{
    let head = listed.drop_last();
    let before = log_rows_of(v, prs, statuses, entries, show_all, reversed, color, head);
    if i < before.len() {
        lemma_log_row_entry(v, prs, statuses, entries, show_all, reversed, color, head, i)
    } else {
        listed.len() - 1
    }
}

/// The log has a row for each listed entry that is shown.
proof fn lemma_log_entry_row(
    v: RepoView,
    prs: Map<u64, &GhPr>,
    statuses: Map<u64, PrStatus>,
    entries: Seq<JjLogEntry>,
    show_all: bool,
    reversed: bool,
    color: bool,
    listed: Seq<JjLogEntry>,
    e: int,
) -> (i: int)
    requires
        0 <= e < listed.len(),
        commit_shown(v, show_all, listed[e].commit.commit_id@),
    ensures
        ({
            let rows = log_rows_of(v, prs, statuses, entries, show_all, reversed, color, listed);
            0 <= i < rows.len() && rows[i].0 == commit_number(
                entries,
                listed[e].commit.commit_id@,
            ) as u64
        }),
    decreases listed.len(),
{
    let head = listed.drop_last();
    if e < head.len() {
        lemma_log_entry_row(v, prs, statuses, entries, show_all, reversed, color, head, e)
    } else {
        let before = log_rows_of(v, prs, statuses, entries, show_all, reversed, color, head);
        before.len() as int
    }
}

/// A commit with a number has an entry.
proof fn lemma_numbered(entries: Seq<JjLogEntry>, commit: Seq<char>)
    requires
        commit_number(entries, commit) != 0,
    ensures
        exists|e: int|
            0 <= e < entries.len() && (#[trigger] entries[e]).commit.commit_id@ == commit,
    decreases entries.len(),
{
    lemma_commit_bound(entries, commit);
    let head = entries.drop_last();
    if commit_number(head, commit) > 0 {
        lemma_numbered(head, commit);
        let e = choose|e: int|
            0 <= e < head.len() && (#[trigger] head[e]).commit.commit_id@ == commit;
        assert(entries[e] == head[e]);
    } else {
        assert(entries[entries.len() - 1] == entries.last());
    }
}

/// Each child that a commit is linked to is an entry that is shown.
proof fn lemma_child_links(
    v: RepoView,
    entries: Seq<JjLogEntry>,
    show_all: bool,
    commit: Seq<char>,
    k: nat,
    j: int,
)
    requires
        k <= entries.len(),
        0 <= j < child_links(v, entries, show_all, commit, k).len(),
    ensures
        exists|e: int|
            0 <= e < entries.len() && commit_shown(
                v,
                show_all,
                (#[trigger] entries[e]).commit.commit_id@,
            ) && child_links(v, entries, show_all, commit, k)[j] == commit_number(
                entries,
                entries[e].commit.commit_id@,
            ) as u64,
    decreases k,
{
    let before = child_links(v, entries, show_all, commit, (k - 1) as nat);
    if j < before.len() {
        lemma_child_links(v, entries, show_all, commit, (k - 1) as nat, j);
        assert(child_links(v, entries, show_all, commit, k)[j] == before[j]);
    } else {
        assert(commit_shown(v, show_all, entries[k - 1].commit.commit_id@));
    }
}

/// Each row that a row of the log is linked to is there: leaving commits out makes no loose
/// ends, whichever end the log starts from.
pub proof fn log_links_have_rows(
    v: RepoView,
    prs: Map<u64, &GhPr>,
    statuses: Map<u64, PrStatus>,
    entries: Seq<JjLogEntry>,
    show_all: bool,
    reversed: bool,
    color: bool,
    i: int,
    j: int,
)
    requires
        0 <= i < log_view(v, prs, statuses, entries, show_all, reversed, color).len(),
        0 <= j < log_view(v, prs, statuses, entries, show_all, reversed, color)[i].1.len(),
    ensures
        ({
            let all = log_view(v, prs, statuses, entries, show_all, reversed, color);
            exists|r: int| 0 <= r < all.len() && (#[trigger] all[r]).0 == all[i].1[j]
        }),
{
    let all = log_view(v, prs, statuses, entries, show_all, reversed, color);
    let listed = if reversed {
        entries.reverse()
    } else {
        entries
    };
    let rows = log_rows_of(v, prs, statuses, entries, show_all, reversed, color, listed);
    let shift: int = if reversed {
        1
    } else {
        0
    };
    let last = if reversed {
        0
    } else {
        all.len() - 1
    };
    assert(all[last] == elided_row(color));
    assert(i != last);
    assert(all[i] == rows[i - shift]);
    let e = lemma_log_row_entry(
        v,
        prs,
        statuses,
        entries,
        show_all,
        reversed,
        color,
        listed,
        i - shift,
    );
    let link = all[i].1[j];
    if link != 0 {
        let p = if reversed {
            let commit = listed[e].commit.commit_id@;
            lemma_child_links(v, entries, show_all, commit, entries.len(), j);
            choose|p: int|
                0 <= p < entries.len() && commit_shown(
                    v,
                    show_all,
                    (#[trigger] entries[p]).commit.commit_id@,
                ) && link == commit_number(entries, entries[p].commit.commit_id@) as u64
        } else {
            let parent = listed[e].commit.parents@[j]@;
            lemma_numbered(entries, parent);
            choose|p: int|
                0 <= p < entries.len() && (#[trigger] entries[p]).commit.commit_id@ == parent
        };
        let at = if reversed {
            entries.len() - 1 - p
        } else {
            p
        };
        assert(listed[at] == entries[p]);
        let r = lemma_log_entry_row(
            v,
            prs,
            statuses,
            entries,
            show_all,
            reversed,
            color,
            listed,
            at,
        );
        assert(all[r + shift] == rows[r]);
        assert(all[r + shift].0 == link);
    } else {
        assert(all[last].0 == link);
    }
}

// --- Laws of the messages ---

/// One if a node has pending sync actions: so long is the star behind its name.
pub open spec fn star_len(v: RepoView, k: NodeKey) -> int {
    if v.needs_sync.contains_key(k) {
        1
    } else {
        0
    }
}

/// How many characters switch a color on.
pub open spec fn color_len(color: bool) -> int {
    if color {
        5
    } else {
        0
    }
}

/// How many characters switch an effect on.
pub open spec fn effect_len(color: bool) -> int {
    if color {
        4
    } else {
        0
    }
}

/// Whether the name of the state of a PR stands in `s` at that place, behind the sequence that
/// switches its style on, and no other name does.
pub open spec fn names_state(s: Seq<char>, at: int, pr: GhPr, color: bool) -> bool {
    &&& style::stands_at(s, at + color_len(color), "Ready"@) <==> pr.state is Open && !pr.is_draft
    &&& style::stands_at(s, at + color_len(color), "Draft"@) <==> pr.state is Open && pr.is_draft
    &&& style::stands_at(s, at + color_len(color), "Closed"@) <==> pr.state is Closed
    &&& style::stands_at(s, at + effect_len(color), "Merged"@) <==> pr.state is Merged
}

/// Whether the checks, where there are any, and the review of a PR have their signs in `s` at
/// that place. Each sign follows a space.
pub open spec fn signs_status(s: Seq<char>, at: int, status: PrStatus, color: bool) -> bool {
    let checks = status.checks_status;
    let review = status.review_decision;
    let first = at + 1 + color_len(color);
    let second = if checks is Some {
        at + 2 + style::ci_status_text(checks->0, color).len() + color_len(color)
    } else {
        first
    };
    &&& style::stands_at(s, at, " "@)
    &&& checks is Some ==> {
        &&& style::stands_at(s, first, "✓CI"@) <==> checks->0 is Pass
        &&& style::stands_at(s, first, "✗CI"@) <==> checks->0 is Fail
        &&& style::stands_at(s, first, "●CI"@) <==> checks->0 is Pending
    }
    &&& style::stands_at(s, second, "✓Review"@) <==> review is Some && review->0 is Approved
    &&& style::stands_at(s, second, "✗Review"@) <==> review is Some
        && review->0 is ChangesRequested
    &&& style::stands_at(s, second, "●Review"@) <==> !(review is Some && (review->0 is Approved
        || review->0 is ChangesRequested))
}

proof fn lemma_signs(before: Seq<char>, after: Seq<char>, status: PrStatus, color: bool)
    ensures
        signs_status(
            before + indicators_text(status, color) + after,
            before.len() as int,
            status,
            color,
        ),
{
    reveal_strlit(" ");
    let review = style::review_status_text(status.review_decision, color);
    let s = before + indicators_text(status, color) + after;
    match status.checks_status {
        Some(cs) => {
            let ci = style::ci_status_text(cs, color);
            assert(s =~= (before + " "@) + ci + (" "@ + review + after));
            style::checks_have_their_signs(before + " "@, " "@ + review + after, cs, color);
            assert(s =~= (before + " "@ + ci + " "@) + review + after);
            style::reviews_have_their_signs(
                before + " "@ + ci + " "@,
                after,
                status.review_decision,
                color,
            );
            assert(s =~= before + " "@ + (ci + " "@ + review + after));
            style::lemma_stands(before, " "@, ci + " "@ + review + after);
        },
        None => {
            assert(s =~= (before + " "@) + review + after);
            style::reviews_have_their_signs(before + " "@, after, status.review_decision, color);
            assert(s =~= before + " "@ + (review + after));
            style::lemma_stands(before, " "@, review + after);
        },
    }
}

/// What is said of a PR: its number, a star where it has pending sync actions, its state, and the
/// signs of its checks and its review where these are known.
#[verifier::spinoff_prover]
#[verifier::rlimit(60)]
proof fn lemma_pr_text(
    v: RepoView,
    prs: Map<u64, &GhPr>,
    statuses: Map<u64, PrStatus>,
    k: NodeKey,
    n: u64,
    gap: Seq<char>,
    after: Seq<char>,
    color: bool,
)
    requires
        gap.len() > 0,
        gap[0] == ' ',
    ensures
        ({
            let label = style::pr_num_text(n, Some(prs[n].url@), color);
            let state = style::status_text(prs[n].state, prs[n].is_draft, color);
            let s = label + star_text(v, k) + gap + state + known_indicators(statuses, n, color)
                + after;
            let at = label.len() + star_len(v, k) + gap.len();
            &&& style::stands_at(s, 0, label)
            &&& style::stands_at(s, label.len() as int, "*"@) <==> v.needs_sync.contains_key(k)
            &&& names_state(s, at, *prs[n], color)
            &&& statuses.contains_key(n) ==> signs_status(
                s,
                at + state.len(),
                statuses[n],
                color,
            )
            &&& !statuses.contains_key(n) ==> s.len() == at + state.len() + after.len()
        }),
{
    reveal_strlit("*");
    reveal_strlit("");
    let label = style::pr_num_text(n, Some(prs[n].url@), color);
    let state = style::status_text(prs[n].state, prs[n].is_draft, color);
    let signs = known_indicators(statuses, n, color);
    let star = star_text(v, k);
    let s = label + star + gap + state + signs + after;
    assert(s =~= Seq::<char>::empty() + label + (star + gap + state + signs + after));
    style::lemma_stands(Seq::<char>::empty(), label, star + gap + state + signs + after);
    if v.needs_sync.contains_key(k) {
        assert(s =~= label + star + (gap + state + signs + after));
        style::lemma_stands(label, star, gap + state + signs + after);
    } else {
        assert(s[label.len() as int] == gap[0]);
        style::lemma_stands_not(s, label.len() as int, "*"@, 0);
    }
    let before = label + star + gap;
    assert(s =~= before + state + (signs + after));
    style::states_have_their_names(
        before,
        signs + after,
        prs[n].state,
        prs[n].is_draft,
        color,
    );
    if statuses.contains_key(n) {
        assert(s =~= (before + state) + signs + after);
        lemma_signs(before + state, after, statuses[n], color);
    }
}

/// The message of a PR in the graph starts with its number, has a star behind it exactly where it
/// has pending sync actions, names its state and signs its status where that is known, and ends
/// in its bookmark and its title.
pub proof fn graph_shows_the_state_of_prs(
    v: RepoView,
    prs: Map<u64, &GhPr>,
    statuses: Map<u64, PrStatus>,
    k: NodeKey,
    n: u64,
    color: bool,
)
    requires
        crate::node_graph::node_at(v.nodes, k) == NodeView::Pr(n),
    ensures
        ({
            let s = show_message(v, prs, statuses, k, color);
            let label = style::pr_num_text(n, Some(prs[n].url@), color);
            let at = label.len() + star_len(v, k) + 2;
            let state = style::status_text(prs[n].state, prs[n].is_draft, color);
            let tail = "  "@ + style::bookmark_text(prs[n].head_ref_name@, color) + "\n"@
                + prs[n].title@;
            &&& style::stands_at(s, 0, label)
            &&& style::stands_at(s, label.len() as int, "*"@) <==> v.needs_sync.contains_key(k)
            &&& names_state(s, at, *prs[n], color)
            &&& statuses.contains_key(n) ==> signs_status(
                s,
                at + state.len(),
                statuses[n],
                color,
            )
            &&& !statuses.contains_key(n) ==> s.len() == at + state.len() + tail.len()
            &&& style::stands_at(s, s.len() - tail.len(), tail)
        }),
{
    reveal_strlit("  ");
    let s = show_message(v, prs, statuses, k, color);
    let label = style::pr_num_text(n, Some(prs[n].url@), color);
    let state = style::status_text(prs[n].state, prs[n].is_draft, color);
    let signs = known_indicators(statuses, n, color);
    let tail = "  "@ + style::bookmark_text(prs[n].head_ref_name@, color) + "\n"@ + prs[n].title@;
    let front = label + star_text(v, k) + "  "@ + state + signs;
    assert(s =~= front + tail);
    lemma_pr_text(v, prs, statuses, k, n, "  "@, tail, color);
    assert(s =~= front + tail + Seq::<char>::empty());
    style::lemma_stands(front, tail, Seq::<char>::empty());
}

/// The number of a PR is what its label says, behind a link to its URL where there is color.
pub proof fn labels_have_the_numbers_of_prs(n: u64, url: Option<Seq<char>>, color: bool)
    ensures
        ({
            let s = style::pr_num_text(n, url, color);
            let at: int = if !color {
                0
            } else if url is Some {
                15 + url->0.len() as int
            } else {
                9
            };
            &&& style::stands_at(s, at, "PR #"@ + crate::text::decimal(n as nat))
            &&& color && url is Some ==> style::stands_at(s, 14, url->0)
            &&& !color ==> s.len() == 4 + crate::text::decimal(n as nat).len()
        }),
{
    reveal_strlit("PR #");
    reveal_strlit("\u{1b}]8;;");
    reveal_strlit("\u{7}");
    style::lemma_style_start(style::CYAN);
    let s = style::pr_num_text(n, url, color);
    let text = "PR #"@ + crate::text::decimal(n as nat);
    let start = style::style_start(Some(style::CYAN), true, false);
    let end = style::style_end(Some(style::CYAN), true, false);
    let off = "\u{1b}]8;;\u{7}"@;
    if !color {
        assert(s =~= Seq::<char>::empty() + text + Seq::<char>::empty());
        style::lemma_stands(Seq::<char>::empty(), text, Seq::<char>::empty());
    } else if url is Some {
        let u = url->0;
        assert(s =~= (start + "\u{1b}]8;;"@ + u + "\u{7}"@) + text + (off + end));
        style::lemma_stands(start + "\u{1b}]8;;"@ + u + "\u{7}"@, text, off + end);
        assert(s =~= (start + "\u{1b}]8;;"@) + u + ("\u{7}"@ + text + off + end));
        style::lemma_stands(start + "\u{1b}]8;;"@, u, "\u{7}"@ + text + off + end);
    } else {
        style::lemma_stands(start, text, end);
    }
}

/// The trunk and the root have labels of their own in the graph, and an ambiguous node says so,
/// with a star exactly where it has pending sync actions.
pub proof fn graph_tells_nodes_apart(
    v: RepoView,
    prs: Map<u64, &GhPr>,
    statuses: Map<u64, PrStatus>,
    k: NodeKey,
    color: bool,
)
    ensures
        ({
            let s = show_message(v, prs, statuses, k, color);
            let node = crate::node_graph::node_at(v.nodes, k);
            let bold = color_len(color) + effect_len(color);
            &&& style::stands_at(s, bold, "trunk()"@) <==> node is TrunkTip
            &&& style::stands_at(s, effect_len(color), "(elided revisions)"@) <==> node is Root
            &&& style::stands_at(s, color_len(color), "ambiguous"@) <==> node is Ambiguous
            &&& node is TrunkTip && !color ==> s.len() == 7
            &&& node is Ambiguous ==> (style::stands_at(
                s,
                style::warn_text("ambiguous"@, color).len() as int,
                "*"@,
            ) <==> v.needs_sync.contains_key(k))
        }),
{
    reveal_strlit("trunk()");
    reveal_strlit("(elided revisions)");
    reveal_strlit("ambiguous");
    reveal_strlit("PR #");
    reveal_strlit("*");
    reveal_strlit("");
    reveal_strlit(" ");
    reveal_strlit("\u{1b}]8;;");
    style::lemma_style_start(style::GREEN);
    style::lemma_style_start(style::YELLOW);
    style::lemma_style_start(style::CYAN);
    let s = show_message(v, prs, statuses, k, color);
    let node = crate::node_graph::node_at(v.nodes, k);
    lemma_first_chars(node, v, prs, statuses, k, color);
    let bold = color_len(color) + effect_len(color);
    if !(node is TrunkTip) {
        style::lemma_stands_not(s, bold, "trunk()"@, 0);
    }
    if !(node is Root) {
        style::lemma_stands_not(s, effect_len(color), "(elided revisions)"@, 0);
    }
    if !(node is Ambiguous) {
        style::lemma_stands_not(s, color_len(color), "ambiguous"@, 0);
    }
}

#[verifier::spinoff_prover]
#[verifier::rlimit(60)]
proof fn lemma_first_chars(
    node: NodeView,
    v: RepoView,
    prs: Map<u64, &GhPr>,
    statuses: Map<u64, PrStatus>,
    k: NodeKey,
    color: bool,
)
    requires
        node == crate::node_graph::node_at(v.nodes, k),
    ensures
        ({
            let s = show_message(v, prs, statuses, k, color);
            let bold = color_len(color) + effect_len(color);
            &&& node is TrunkTip ==> {
                &&& style::stands_at(s, bold, "trunk()"@)
                &&& s[0] != '(' && s[0] != 'a'
                &&& color ==> s[4] != '(' && s[5] != 'a'
                &&& !color ==> s.len() == 7
            }
            &&& node is Root ==> {
                &&& style::stands_at(s, effect_len(color), "(elided revisions)"@)
                &&& s[0] != 't' && s[0] != 'a'
                &&& color ==> s[9] != 't' && s[5] != 'a'
            }
            &&& node is Ambiguous ==> {
                &&& style::stands_at(s, color_len(color), "ambiguous"@)
                &&& s[0] != 't' && s[0] != '('
                &&& color ==> s[9] != 't' && s[4] != '('
                &&& style::stands_at(
                    s,
                    style::warn_text("ambiguous"@, color).len() as int,
                    "*"@,
                ) <==> v.needs_sync.contains_key(k)
            }
            &&& node is Pr ==> {
                &&& s[0] != 't' && s[0] != '(' && s[0] != 'a'
                &&& color ==> s[9] != 't' && s[4] != '(' && s[5] != 'a'
            }
        }),
{
    reveal_strlit("trunk()");
    reveal_strlit("(elided revisions)");
    reveal_strlit("ambiguous");
    reveal_strlit("PR #");
    reveal_strlit("*");
    reveal_strlit("");
    reveal_strlit(" ");
    reveal_strlit("\u{1b}]8;;");
    reveal_strlit("\u{1b}[1m");
    reveal_strlit("\u{1b}[2m");
    reveal_strlit("\u{1b}[3");
    style::lemma_style_start(style::GREEN);
    style::lemma_style_start(style::YELLOW);
    style::lemma_style_start(style::CYAN);
    let s = show_message(v, prs, statuses, k, color);
    let none = Seq::<char>::empty();
    match node {
        NodeView::TrunkTip => {
            let start = if color {
                style::style_start(Some(style::GREEN), true, false)
            } else {
                none
            };
            let end = if color {
                style::style_end(Some(style::GREEN), true, false)
            } else {
                none
            };
            assert(s =~= start + "trunk()"@ + end);
            style::lemma_stands(start, "trunk()"@, end);
        },
        NodeView::Root => {
            let start = if color {
                style::style_start(None, false, true)
            } else {
                none
            };
            let end = if color {
                style::style_end(None, false, true)
            } else {
                none
            };
            assert(s =~= start + "(elided revisions)"@ + end);
            style::lemma_stands(start, "(elided revisions)"@, end);
        },
        NodeView::Ambiguous { branch_prs, trailer_prs } => {
            let warn = style::warn_text("ambiguous"@, color);
            let star = star_text(v, k);
            let rest = " "@ + ambiguous_parts(
                branch_prs,
                trailer_prs,
                prs,
                "branches: "@,
                ", "@,
                color,
            ) + "\n"@ + style::dim_text(hint_text(branch_prs, trailer_prs), color);
            assert(s =~= none + warn + (star + rest));
            style::lemma_styled_word(none, star + rest, style::YELLOW, "ambiguous"@, color);
            assert(s =~= warn + star + rest);
            if v.needs_sync.contains_key(k) {
                style::lemma_stands(warn, star, rest);
            } else {
                assert(s[warn.len() as int] == rest[0]);
                assert(rest[0] == ' ');
                style::lemma_stands_not(s, warn.len() as int, "*"@, 0);
            }
        },
        NodeView::Pr(n) => {
            let label = style::pr_num_text(n, Some(prs[n].url@), color);
            graph_shows_the_state_of_prs(v, prs, statuses, k, n, color);
            assert(s.subrange(0, label.len() as int) == label);
            assert forall|i: int| 0 <= i < label.len() implies s[i] == #[trigger] label[i] by {
                assert(s.subrange(0, label.len() as int)[i] == s[i]);
            }
            if color {
                let start = style::style_start(Some(style::CYAN), true, false);
                assert(label[9] == "\u{1b}]8;;"@[0]);
                assert(label[4] == start[4] && label[5] == start[5]);
                assert(label[0] == start[0]);
            } else {
                assert(label[0] == 'P');
            }
        },
    }
}

/// Whether a node is marked as conflicted: one of its commits has content conflicts, or it is of
/// a PR whose bookmark is conflicted.
pub open spec fn is_marked(v: RepoView, prs: Map<u64, &GhPr>, k: NodeKey) -> bool {
    v.conflicted.contains(k) || (crate::node_graph::node_at(v.nodes, k) matches NodeView::Pr(n)
        && prs.contains_key(n) && v.blocking.contains(prs[n].head_ref_name@))
}

/// The glyphs of the graph: the working copy has `@`, the root `~`, the trunk `◆`; an ambiguous
/// node has `⚠`; a PR has `✗` where it is conflicted and `○` where it is not. A color tells of
/// conflicts where the glyph does not.
#[verifier::spinoff_prover]
#[verifier::rlimit(60)]
pub proof fn graph_glyphs_tell_nodes_apart(
    v: RepoView,
    prs: Map<u64, &GhPr>,
    k: NodeKey,
)
    requires
        crate::node_store::key_of(k, v.nodes.len()),
    ensures
        ({
            let s = show_glyph(v, prs, k, false);
            let node = crate::node_graph::node_at(v.nodes, k);
            let here = v.current == Some(k);
            &&& s == "@"@ <==> here
            &&& s == "~"@ <==> !here && node is Root
            &&& s == "◆"@ <==> !here && node is TrunkTip
            &&& s == "⚠"@ <==> !here && node is Ambiguous
            &&& s == "✗"@ <==> !here && node is Pr && is_marked(v, prs, k)
            &&& s == "○"@ <==> !here && node is Pr && !is_marked(v, prs, k)
        }),
        ({
            let s = show_glyph(v, prs, k, true);
            let node = crate::node_graph::node_at(v.nodes, k);
            let here = v.current == Some(k);
            &&& here || node is Pr || node is Ambiguous ==> (style::stands_at(
                s,
                0,
                "\u{1b}[31m"@,
            ) <==> is_marked(v, prs, k))
            &&& style::stands_at(s, 5, "@"@) || style::stands_at(s, 9, "@"@) <==> here
        }),
{
    lemma_glyph_texts();
    let node = crate::node_graph::node_at(v.nodes, k);
    let here = v.current == Some(k);
    assert(is_marked(v, prs, k) == crate::pr_dag::state_conflicted(v, prs, k));
    lemma_colored_glyphs();
}

/// The glyphs differ.
proof fn lemma_glyph_texts()
    ensures
        "@"@.len() == 1 && "@"@[0] == '@',
        "~"@.len() == 1 && "~"@[0] == '~',
        "◆"@.len() == 1 && "◆"@[0] == '◆',
        "⚠"@.len() == 1 && "⚠"@[0] == '⚠',
        "✗"@.len() == 1 && "✗"@[0] == '✗',
        "○"@.len() == 1 && "○"@[0] == '○',
{
    reveal_strlit("@");
    reveal_strlit("~");
    reveal_strlit("◆");
    reveal_strlit("⚠");
    reveal_strlit("✗");
    reveal_strlit("○");
}

/// Conflicted glyphs are red, and the working copy has its glyph in any color.
#[verifier::spinoff_prover]
#[verifier::rlimit(60)]
proof fn lemma_colored_glyphs()
    ensures
        ({
            let red = "\u{1b}[31m"@;
            &&& style::stands_at(style::glyph_current_conflicted_text(true), 0, red)
            &&& style::stands_at(style::glyph_conflicted_text(true), 0, red)
            &&& style::stands_at(style::glyph_warning_conflicted_text(true), 0, red)
            &&& !style::stands_at(style::glyph_current_text(true), 0, red)
            &&& !style::stands_at(style::GLYPH_MUTABLE@, 0, red)
            &&& !style::stands_at(style::warn_text(style::GLYPH_WARNING@, true), 0, red)
            &&& !style::stands_at(style::glyph_immutable_text(true), 0, red)
            &&& style::stands_at(style::glyph_current_conflicted_text(true), 5, "@"@)
            &&& style::stands_at(style::glyph_current_text(true), 9, "@"@)
            &&& forall|s: Seq<char>|
                s == style::glyph_conflicted_text(true) || s
                    == style::glyph_warning_conflicted_text(true) || s == style::GLYPH_MUTABLE@ || s
                    == style::warn_text(style::GLYPH_WARNING@, true) || s
                    == style::glyph_immutable_text(true) || s == style::glyph_elided_text(true)
                    ==> !(#[trigger] style::stands_at(s, 5, "@"@)) && !style::stands_at(s, 9, "@"@)
        }),
{
    lemma_glyph_texts();
    reveal_strlit("\u{1b}[31m");
    reveal_strlit("\u{1b}[0m");
    reveal_strlit("\u{1b}[1m");
    reveal_strlit("\u{1b}[2m");
    reveal_strlit("\u{1b}[3");
    reveal_strlit("m");
    reveal_strlit("");
    style::lemma_style_start(style::RED);
    style::lemma_style_start(style::GREEN);
    style::lemma_style_start(style::YELLOW);
    style::lemma_style_start(style::CYAN);
    let red = "\u{1b}[31m"@;
    let none = Seq::<char>::empty();
    let end = "\u{1b}[0m"@;
    assert(crate::text::decimal(1) =~= seq!['1']);
    assert(style::style_start(Some(style::RED), false, false) =~= red);
    let a = style::glyph_current_conflicted_text(true);
    assert(a =~= none + red + ("@"@ + end));
    style::lemma_stands(none, red, "@"@ + end);
    assert(a =~= red + "@"@ + end);
    style::lemma_stands(red, "@"@, end);
    let b = style::glyph_conflicted_text(true);
    assert(b =~= none + red + ("✗"@ + end));
    style::lemma_stands(none, red, "✗"@ + end);
    let c = style::glyph_warning_conflicted_text(true);
    assert(c =~= none + red + ("⚠"@ + end));
    style::lemma_stands(none, red, "⚠"@ + end);
    let d = style::glyph_current_text(true);
    let bold = style::style_start(Some(style::GREEN), true, false);
    assert(d =~= bold + "@"@ + end);
    style::lemma_stands(bold, "@"@, end);
    assert(d[2] == '1');
    style::lemma_stands_not(d, 0, red, 2);
    style::lemma_stands_not(style::GLYPH_MUTABLE@, 0, red, 0);
    let w = style::warn_text(style::GLYPH_WARNING@, true);
    let yellow = style::style_start(Some(style::YELLOW), false, false);
    assert(w =~= yellow + "⚠"@ + end);
    assert(w[3] == yellow[3]);
    style::lemma_stands_not(w, 0, red, 3);
    let t = style::glyph_immutable_text(true);
    let cyan = style::style_start(Some(style::CYAN), true, false);
    assert(t =~= cyan + "◆"@ + end);
    assert(t[2] == '1');
    style::lemma_stands_not(t, 0, red, 2);
    let e = style::glyph_elided_text(true);
    let dim = style::style_start(None, false, true);
    assert(e =~= dim + "~"@ + end);
    assert(b.len() == 10 && c.len() == 10 && w.len() == 10 && t.len() == 14 && e.len() == 9);
    assert forall|s: Seq<char>|
        s == b || s == c || s == style::GLYPH_MUTABLE@ || s == w || s == t || s == e implies !(
    #[trigger] style::stands_at(s, 5, "@"@)) && !style::stands_at(s, 9, "@"@) by {
        if s == b {
            assert(s[5] == '✗' && s[9] == end[3]);
        } else if s == c || s == w {
            assert(s[5] == '⚠' && s[9] == end[3]);
        } else if s == t {
            assert(s[5] == cyan[5] && s[9] == '◆');
        } else if s == e {
            assert(s[5] == end[0]);
        }
        style::lemma_stands_not(s, 5, "@"@, 0);
        style::lemma_stands_not(s, 9, "@"@, 0);
    }
}

/// Whether at least two PRs are in a set.
pub open spec fn has_several(set: Set<u64>) -> bool {
    exists|a: u64, b: u64| #[trigger] set.contains(a) && #[trigger] set.contains(b) && a != b
}

/// Whether a PR is in one set and not in the other.
pub open spec fn has_stray(set: Set<u64>, other: Set<u64>) -> bool {
    exists|a: u64| #[trigger] set.contains(a) && !other.contains(a)
}

/// The hint of an ambiguous node is to restructure exactly where it has the branches of several
/// PRs, and it speaks of trailers exactly where one of them names a PR that has no branch there.
pub proof fn hints_fit_ambiguous_nodes(
    v: RepoView,
    prs: Map<u64, &GhPr>,
    statuses: Map<u64, PrStatus>,
    k: NodeKey,
    branch_prs: Set<u64>,
    trailer_prs: Set<u64>,
)
    requires
        crate::node_graph::node_at(v.nodes, k) == (NodeView::Ambiguous {
            branch_prs,
            trailer_prs,
        }),
        branch_prs.finite(),
    ensures
        ({
            let s = show_message(v, prs, statuses, k, false);
            let hint = if has_several(branch_prs) {
                if has_stray(trailer_prs, branch_prs) {
                    "(restructure PRs to resolve, and edit commit trailers to fix PR: tags)"@
                } else {
                    "(restructure PRs to resolve — stack one on the other)"@
                }
            } else if has_stray(trailer_prs, branch_prs) {
                "(edit commit description to fix PR: trailer)"@
            } else {
                "(multiple sources for same PR — abandon stale commits or restructure)"@
            };
            style::stands_at(s, s.len() - hint.len() - 1, "\n"@ + hint)
        }),
{
    reveal_strlit("\n");
    let s = show_message(v, prs, statuses, k, false);
    let hint = hint_text(branch_prs, trailer_prs);
    assert(has_several(branch_prs) <==> branch_prs.len() > 1) by {
        if has_several(branch_prs) {
            let (a, b) = choose|a: u64, b: u64| #[trigger]
                branch_prs.contains(a) && #[trigger] branch_prs.contains(b) && a != b;
            assert(branch_prs.remove(a).contains(b));
            assert(branch_prs.remove(a).len() > 0) by {
                if branch_prs.remove(a).len() == 0 {
                    assert(branch_prs.remove(a) =~= Set::empty());
                }
            }
        }
        if branch_prs.len() > 1 {
            let a = branch_prs.choose();
            assert(branch_prs.contains(a)) by {
                if branch_prs =~= Set::empty() {
                }
            }
            let rest = branch_prs.remove(a);
            let b = rest.choose();
            assert(rest.contains(b)) by {
                if rest =~= Set::empty() {
                }
            }
            assert(branch_prs.contains(b) && a != b);
        }
    }
    assert(has_stray(trailer_prs, branch_prs) <==> !trailer_prs.subset_of(branch_prs));
    let front = style::warn_text("ambiguous"@, false) + star_text(v, k) + " "@ + ambiguous_parts(
        branch_prs,
        trailer_prs,
        prs,
        "branches: "@,
        ", "@,
        false,
    );
    assert(s =~= front + ("\n"@ + hint) + Seq::<char>::empty());
    style::lemma_stands(front, "\n"@ + hint, Seq::<char>::empty());
}

pub proof fn lemma_joined_part(parts: Seq<Seq<char>>, sep: Seq<char>, i: int) -> (at: int)
    requires
        0 <= i < parts.len(),
    ensures
        style::stands_at(crate::text::joined(parts, sep), at, parts[i]),
    decreases parts.len(),
{
    let all = crate::text::joined(parts, sep);
    let none = Seq::<char>::empty();
    if parts.len() == 1 {
        assert(all =~= none + parts[0] + none);
        style::lemma_stands(none, parts[0], none);
        0
    } else if i == parts.len() - 1 {
        let front = crate::text::joined(parts.drop_last(), sep) + sep;
        assert(all =~= front + parts[i] + none);
        style::lemma_stands(front, parts[i], none);
        front.len() as int
    } else {
        let front = crate::text::joined(parts.drop_last(), sep);
        let at = lemma_joined_part(parts.drop_last(), sep, i);
        assert(all =~= front + (sep + parts.last()));
        assert(all.subrange(at, at + parts[i].len()) =~= front.subrange(
            at,
            at + parts[i].len(),
        ));
        at
    }
}

/// The PRs that an ambiguous node may belong to are all named: those of branches behind the label
/// of branches, those of trailers behind that of trailers. A part without PRs is left out.
pub proof fn ambiguous_nodes_name_their_prs(
    branch_prs: Set<u64>,
    trailer_prs: Set<u64>,
    prs: Map<u64, &GhPr>,
    branch_label: Seq<char>,
    sep: Seq<char>,
    color: bool,
    n: u64,
    url: Option<Seq<char>>,
)
    requires
        branch_prs.finite(),
        trailer_prs.finite(),
        url is Some <==> prs.contains_key(n),
        url is Some ==> url->0 == prs[n].url@,
    ensures
        ({
            let s = ambiguous_parts(branch_prs, trailer_prs, prs, branch_label, sep, color);
            let label = style::pr_num_text(n, url, color);
            &&& branch_prs.contains(n) ==> style::stands_at(s, 0, branch_label) && exists|at: int|
                at >= branch_label.len() && #[trigger] style::stands_at(s, at, label)
            &&& trailer_prs.contains(n) ==> exists|at: int, from: int|
                #![trigger style::stands_at(s, at, label), style::stands_at(s, from, "trailers: "@)]
                style::stands_at(s, from, "trailers: "@) && at >= from + "trailers: "@.len()
                    && style::stands_at(s, at, label)
            &&& branch_prs.is_empty() && trailer_prs.is_empty() ==> s.len() == 0
            &&& branch_prs.is_empty() && !trailer_prs.is_empty() ==> style::stands_at(
                s,
                0,
                "trailers: "@,
            )
        }),
{
    reveal_strlit("");
    let s = ambiguous_parts(branch_prs, trailer_prs, prs, branch_label, sep, color);
    let label = style::pr_num_text(n, url_of(prs, n), color);
    assert(url == url_of(prs, n));
    let none = Seq::<char>::empty();
    let branches = label_list(branch_prs, prs, color);
    let trailers = label_list(trailer_prs, prs, color);
    let head = "trailers: "@;
    assert(trailer_prs.contains(n) ==> !trailer_prs.is_empty());
    if branch_prs.contains(n) {
        assert(!branch_prs.is_empty());
        let at = lemma_label_listed(branch_prs, prs, color, n);
        let rest = if trailer_prs.is_empty() {
            none
        } else {
            sep + (head + trailers)
        };
        assert(s =~= none + branch_label + (branches + rest));
        style::lemma_stands(none, branch_label, branches + rest);
        assert(s =~= branch_label + branches + rest);
        lemma_stands_within(branch_label, branches, rest, at, label);
    }
    if !trailer_prs.is_empty() {
        let front = if branch_prs.is_empty() {
            none
        } else {
            branch_label + branches + sep
        };
        assert(s =~= front + head + trailers);
        style::lemma_stands(front, head, trailers);
        if trailer_prs.contains(n) {
            let at = lemma_label_listed(trailer_prs, prs, color, n);
            assert(s =~= (front + head) + trailers + none);
            lemma_stands_within(front + head, trailers, none, at, label);
            assert(style::stands_at(s, front.len() as int, head));
        }
    }
}

proof fn lemma_stands_within(a: Seq<char>, s: Seq<char>, b: Seq<char>, at: int, w: Seq<char>)
    requires
        style::stands_at(s, at, w),
    ensures
        style::stands_at(a + s + b, a.len() + at, w),
{
    assert((a + s + b).subrange(a.len() + at, a.len() + at + w.len()) =~= s.subrange(
        at,
        at + w.len(),
    ));
}

proof fn lemma_label_listed(set: Set<u64>, prs: Map<u64, &GhPr>, color: bool, n: u64) -> (at: int)
    requires
        set.finite(),
        set.contains(n),
    ensures
        style::stands_at(
            label_list(set, prs, color),
            at,
            style::pr_num_text(n, url_of(prs, n), color),
        ),
{
    let nums = crate::order::num_listing(set);
    crate::order::lemma_num_listing(set);
    assert(nums.to_set().contains(n));
    let i = choose|i: int| 0 <= i < nums.len() && nums[i] == n;
    lemma_joined_part(pr_labels(nums, prs, color), ", "@, i)
}

/// The rows of the graph are those of the nodes that are shown, each once: all, or those that are
/// not hidden. A row is linked to the parents of its node, or to its children where the graph is
/// reversed.
pub proof fn rows_are_those_of_shown_nodes(
    v: RepoView,
    prs: Map<u64, &GhPr>,
    statuses: Map<u64, PrStatus>,
    show_all: bool,
    reversed: bool,
    color: bool,
    k: NodeKey,
)
    requires
        crate::pr_dag::repo_ok(v),
    ensures
        ({
            let rows = show_rows_of(
                v,
                prs,
                statuses,
                show_all,
                reversed,
                color,
                shown_order(v.order, reversed),
            );
            &&& (exists|i: int| 0 <= i < rows.len() && (#[trigger] rows[i]).0 == k)
                <==> crate::node_store::key_of(k, v.nodes.len()) && (show_all
                || !v.hidden.contains(k))
            &&& forall|i: int, j: int|
                0 <= i < j < rows.len() ==> (#[trigger] rows[i]).0 != (#[trigger] rows[j]).0
            &&& forall|i: int|
                0 <= i < rows.len() ==> (#[trigger] rows[i]).1 == if reversed {
                    v.succs[rows[i].0]
                } else {
                    v.preds[rows[i].0]
                }
            &&& forall|i: int|
                0 <= i < rows.len() ==> (#[trigger] rows[i]).2 == show_glyph(
                    v,
                    prs,
                    rows[i].0,
                    color,
                ) && rows[i].3 == show_message(v, prs, statuses, rows[i].0, color)
        }),
{
    let keys = shown_order(v.order, reversed);
    let rows = show_rows_of(v, prs, statuses, show_all, reversed, color, keys);
    lemma_show_rows(v, prs, statuses, show_all, reversed, color, keys);
    assert(keys.contains(k) <==> v.order.contains(k)) by {
        if keys.contains(k) {
            let i = choose|i: int| 0 <= i < keys.len() && keys[i] == k;
            if !reversed {
                assert(v.order[v.order.len() - 1 - i] == k);
            }
        }
        if v.order.contains(k) {
            let i = choose|i: int| 0 <= i < v.order.len() && v.order[i] == k;
            if !reversed {
                assert(keys[v.order.len() - 1 - i] == k);
            }
        }
    }
    assert(keys.no_duplicates()) by {
        if !reversed {
            assert forall|i: int, j: int| 0 <= i < j < keys.len() implies keys[i] != keys[j] by {
                assert(v.order[v.order.len() - 1 - i] != v.order[v.order.len() - 1 - j]);
            }
        }
    }
    assert forall|i: int, j: int| 0 <= i < j < rows.len() implies (#[trigger] rows[i]).0 != (
    #[trigger] rows[j]).0 by {
        let (a, b) = lemma_row_places(v, prs, statuses, show_all, reversed, color, keys, i, j);
        assert(keys[a] != keys[b]);
    }
}

/// Two rows are those of nodes in the same order.
proof fn lemma_row_places(
    v: RepoView,
    prs: Map<u64, &GhPr>,
    statuses: Map<u64, PrStatus>,
    show_all: bool,
    reversed: bool,
    color: bool,
    keys: Seq<NodeKey>,
    i: int,
    j: int,
) -> (r: (int, int))
    requires
        0 <= i < j < show_rows_of(v, prs, statuses, show_all, reversed, color, keys).len(),
    ensures
        ({
            let rows = show_rows_of(v, prs, statuses, show_all, reversed, color, keys);
            0 <= r.0 < r.1 < keys.len() && keys[r.0] == rows[i].0 && keys[r.1] == rows[j].0
        }),
    decreases keys.len(),
{
    let head = keys.drop_last();
    let before = show_rows_of(v, prs, statuses, show_all, reversed, color, head);
    if j < before.len() {
        lemma_row_places(v, prs, statuses, show_all, reversed, color, head, i, j)
    } else {
        lemma_show_rows(v, prs, statuses, show_all, reversed, color, head);
        let a = choose|a: int| 0 <= a < head.len() && head[a] == before[i].0;
        assert(keys[a] == before[i].0);
        (a, keys.len() - 1)
    }
}

/// In the graph children stand above their parents, and below them where it is reversed.
pub proof fn children_stand_above_their_parents(
    v: RepoView,
    prs: Map<u64, &GhPr>,
    statuses: Map<u64, PrStatus>,
    show_all: bool,
    reversed: bool,
    color: bool,
    i: int,
    j: int,
)
    requires
        crate::pr_dag::repo_ok(v),
        ({
            let rows = show_rows_of(
                v,
                prs,
                statuses,
                show_all,
                reversed,
                color,
                shown_order(v.order, reversed),
            );
            0 <= i < rows.len() && 0 <= j < rows.len() && v.preds[rows[i].0].contains(rows[j].0)
        }),
    ensures
        if reversed {
            j < i
        } else {
            i < j
        },
{
    let keys = shown_order(v.order, reversed);
    let rows = show_rows_of(v, prs, statuses, show_all, reversed, color, keys);
    let n = v.order.len();
    lemma_show_rows(v, prs, statuses, show_all, reversed, color, keys);
    let child = rows[i].0;
    let parent = rows[j].0;
    let a = choose|a: int| 0 <= a < keys.len() && keys[a] == child;
    let p = if reversed {
        a
    } else {
        n - 1 - a
    };
    assert(v.order[p] == child);
    assert(v.order.contains(child));
    assert(v.preds.contains_key(child));
    let g = crate::pr_dag::map_graph(v.preds);
    assert(g(v.order[p]).contains(parent));
    assert(v.order.take(p).contains(parent));
    let q = choose|q: int| 0 <= q < v.order.take(p).len() && v.order.take(p)[q] == parent;
    assert(v.order[q] == parent && q < p);
    if i == j {
        assert(v.order[p] != v.order[q]);
    } else if i < j && reversed {
        let (x, y) = lemma_row_places(v, prs, statuses, show_all, reversed, color, keys, i, j);
        assert(v.order[x] == child && v.order[y] == parent);
        assert(x == p && y == q);
    } else if j < i && !reversed {
        let (x, y) = lemma_row_places(v, prs, statuses, show_all, reversed, color, keys, j, i);
        assert(v.order[n - 1 - x] == parent && v.order[n - 1 - y] == child);
        assert(n - 1 - x == q && n - 1 - y == p);
    }
}

// --- Laws of the log ---

/// A commit of a PR is labelled with the number of the PR, a star exactly where it has pending
/// sync actions, its state and its status where that is known.
pub proof fn log_shows_the_state_of_prs(
    v: RepoView,
    prs: Map<u64, &GhPr>,
    statuses: Map<u64, PrStatus>,
    entry: JjLogEntry,
    n: u64,
    color: bool,
)
    requires
        crate::membership::node_of(v.nodes, v.owner, entry) == Some(NodeView::Pr(n)),
    ensures
        ({
            let s = log_node_text(v, prs, statuses, entry, color);
            let k = v.owner[entry.commit.commit_id@];
            let label = style::pr_num_text(n, Some(prs[n].url@), color);
            let at = label.len() + star_len(v, k) + 1;
            let state = style::status_text(prs[n].state, prs[n].is_draft, color);
            &&& prs.contains_key(n) ==> {
                &&& style::stands_at(s, 0, label)
                &&& style::stands_at(s, label.len() as int, "*"@) <==> v.needs_sync.contains_key(k)
                &&& names_state(s, at, *prs[n], color)
                &&& statuses.contains_key(n) ==> signs_status(
                    s,
                    at + state.len(),
                    statuses[n],
                    color,
                )
                &&& !statuses.contains_key(n) ==> s.len() == at + state.len()
            }
            &&& !prs.contains_key(n) ==> {
                let bare = style::pr_num_text(n, None, color);
                &&& style::stands_at(s, 0, bare)
                &&& s.len() == bare.len() + star_len(v, k)
                &&& style::stands_at(s, bare.len() as int, "*"@) <==> v.needs_sync.contains_key(k)
            }
        }),
{
    reveal_strlit(" ");
    reveal_strlit("*");
    reveal_strlit("");
    let s = log_node_text(v, prs, statuses, entry, color);
    let k = v.owner[entry.commit.commit_id@];
    let none = Seq::<char>::empty();
    assert(entry_node(v, entry) == Some(NodeView::Pr(n)));
    if prs.contains_key(n) {
        lemma_pr_text(v, prs, statuses, k, n, " "@, none, color);
        assert(s + none =~= s);
    } else {
        let bare = style::pr_num_text(n, None, color);
        let star = star_text(v, k);
        assert(s =~= none + bare + star);
        style::lemma_stands(none, bare, star);
        if v.needs_sync.contains_key(k) {
            assert(s =~= bare + star + none);
            style::lemma_stands(bare, star, none);
        } else {
            style::lemma_stands_not(s, bare.len() as int, "*"@, 0);
        }
    }
}

/// What the log says of a commit is `trunk()` exactly where it is the tip of the trunk, `(no PR)`
/// exactly where it belongs to no node, and that it is ambiguous exactly where its node is.
pub proof fn log_labels_tell_nodes_apart(
    v: RepoView,
    prs: Map<u64, &GhPr>,
    statuses: Map<u64, PrStatus>,
    entry: JjLogEntry,
    color: bool,
)
    ensures
        ({
            let s = log_node_text(v, prs, statuses, entry, color);
            let node = crate::membership::node_of(v.nodes, v.owner, entry);
            let bold = color_len(color) + effect_len(color);
            &&& style::stands_at(s, effect_len(color), "(no PR)"@) <==> node is None
            &&& style::stands_at(s, bold, "trunk()"@) <==> node == Some(NodeView::TrunkTip)
            &&& style::stands_at(s, effect_len(color), "(elided revisions)"@) <==> node == Some(
                NodeView::Root,
            )
            &&& style::stands_at(s, color_len(color), "ambiguous"@) <==> node is Some
                && node->0 is Ambiguous
            &&& !color && (node is None || node == Some(NodeView::TrunkTip)) ==> s.len() == 7
        }),
{
    lemma_log_chars(v, prs, statuses, entry, color);
    let s = log_node_text(v, prs, statuses, entry, color);
    let node = crate::membership::node_of(v.nodes, v.owner, entry);
    let bold = color_len(color) + effect_len(color);
    reveal_strlit("trunk()");
    reveal_strlit("(no PR)");
    reveal_strlit("(elided revisions)");
    reveal_strlit("ambiguous");
    if node is Some {
        if node->0 is Root {
            style::lemma_stands_not(s, effect_len(color), "(no PR)"@, 1);
        } else {
            style::lemma_stands_not(s, effect_len(color), "(no PR)"@, 0);
        }
    }
    if node != Some(NodeView::TrunkTip) {
        style::lemma_stands_not(s, bold, "trunk()"@, 0);
    }
    if node is None {
        style::lemma_stands_not(s, effect_len(color), "(elided revisions)"@, 1);
    } else if !(node->0 is Root) {
        style::lemma_stands_not(s, effect_len(color), "(elided revisions)"@, 0);
    }
    if !(node is Some && node->0 is Ambiguous) {
        style::lemma_stands_not(s, color_len(color), "ambiguous"@, 0);
    }
}

#[verifier::spinoff_prover]
#[verifier::rlimit(60)]
proof fn lemma_log_chars(
    v: RepoView,
    prs: Map<u64, &GhPr>,
    statuses: Map<u64, PrStatus>,
    entry: JjLogEntry,
    color: bool,
)
    ensures
        ({
            let s = log_node_text(v, prs, statuses, entry, color);
            let node = crate::membership::node_of(v.nodes, v.owner, entry);
            let bold = color_len(color) + effect_len(color);
            &&& node is None ==> {
                &&& style::stands_at(s, effect_len(color), "(no PR)"@)
                &&& s[effect_len(color) + 1] == 'n'
                &&& s[0] != 't' && s[0] != 'a'
                &&& color ==> s[9] != 't' && s[5] != 'a'
                &&& !color ==> s.len() == 7
            }
            &&& node is Some && node->0 is TrunkTip ==> {
                &&& style::stands_at(s, bold, "trunk()"@)
                &&& s[0] != '(' && s[0] != 'a'
                &&& color ==> s[4] != '(' && s[5] != 'a'
                &&& !color ==> s.len() == 7
            }
            &&& node is Some && node->0 is Root ==> {
                &&& style::stands_at(s, effect_len(color), "(elided revisions)"@)
                &&& s[effect_len(color) + 1] == 'e'
                &&& s[0] != 't' && s[0] != 'a'
                &&& color ==> s[9] != 't' && s[5] != 'a'
            }
            &&& node is Some && node->0 is Ambiguous ==> {
                &&& style::stands_at(s, color_len(color), "ambiguous"@)
                &&& s[0] != 't' && s[0] != '('
                &&& color ==> s[9] != 't' && s[4] != '('
            }
            &&& node is Some && node->0 is Pr ==> {
                &&& s[0] != 't' && s[0] != '(' && s[0] != 'a'
                &&& color ==> s[9] != 't' && s[4] != '(' && s[5] != 'a'
            }
        }),
{
    reveal_strlit("trunk()");
    reveal_strlit("(no PR)");
    reveal_strlit("(elided revisions)");
    reveal_strlit("ambiguous");
    reveal_strlit("PR #");
    reveal_strlit("\u{1b}]8;;");
    reveal_strlit("\u{1b}[1m");
    reveal_strlit("\u{1b}[2m");
    reveal_strlit("\u{1b}[3");
    style::lemma_style_start(style::GREEN);
    style::lemma_style_start(style::YELLOW);
    style::lemma_style_start(style::CYAN);
    let s = log_node_text(v, prs, statuses, entry, color);
    let node = crate::membership::node_of(v.nodes, v.owner, entry);
    assert(node == entry_node(v, entry));
    let none = Seq::<char>::empty();
    let dim = if color {
        style::style_start(None, false, true)
    } else {
        none
    };
    let dim_end = if color {
        style::style_end(None, false, true)
    } else {
        none
    };
    match node {
        None => {
            assert(s =~= dim + "(no PR)"@ + dim_end);
            style::lemma_stands(dim, "(no PR)"@, dim_end);
        },
        Some(NodeView::Root) => {
            assert(s =~= dim + "(elided revisions)"@ + dim_end);
            style::lemma_stands(dim, "(elided revisions)"@, dim_end);
        },
        Some(NodeView::TrunkTip) => {
            let start = if color {
                style::style_start(Some(style::GREEN), true, false)
            } else {
                none
            };
            let end = if color {
                style::style_end(Some(style::GREEN), true, false)
            } else {
                none
            };
            assert(s =~= start + "trunk()"@ + end);
            style::lemma_stands(start, "trunk()"@, end);
        },
        Some(NodeView::Ambiguous { branch_prs, trailer_prs }) => {
            let k = v.owner[entry.commit.commit_id@];
            let warn = style::warn_text("ambiguous"@, color);
            let rest = star_text(v, k) + " "@ + style::warn_text("["@, color) + ambiguous_parts(
                branch_prs,
                trailer_prs,
                prs,
                ""@,
                "; "@,
                color,
            ) + style::warn_text("]"@, color);
            assert(s =~= none + warn + rest);
            style::lemma_styled_word(none, rest, style::YELLOW, "ambiguous"@, color);
        },
        Some(NodeView::Pr(n)) => {
            log_shows_the_state_of_prs(v, prs, statuses, entry, n, color);
            let url = if prs.contains_key(n) {
                Some(prs[n].url@)
            } else {
                None
            };
            let label = style::pr_num_text(n, url, color);
            assert(style::stands_at(s, 0, label));
            assert forall|i: int| 0 <= i < label.len() implies s[i] == #[trigger] label[i] by {
                assert(s.subrange(0, label.len() as int)[i] == s[i]);
            }
            if color {
                let start = style::style_start(Some(style::CYAN), true, false);
                assert(label[0] == start[0] && label[4] == start[4] && label[5] == start[5]);
                if prs.contains_key(n) {
                    assert(label[9] == "\u{1b}]8;;"@[0]);
                } else {
                    assert(label[9] == "PR #"@[0]);
                }
            } else {
                assert(label[0] == 'P');
            }
        },
    }
}

/// The message of a commit in the log has its change ID and its commit ID, then its bookmarks,
/// each after a space, and ends its first line with what is said of its node. The second line is
/// marked where the commit is empty, and has the first line of the description.
pub proof fn log_messages_have_two_lines(
    v: RepoView,
    prs: Map<u64, &GhPr>,
    statuses: Map<u64, PrStatus>,
    entry: JjLogEntry,
    color: bool,
)
    ensures
        ({
            let s = log_message(v, prs, statuses, entry, color);
            let change = style::change_id_text(entry.commit.change_id@, color);
            let commit = style::commit_id_text(entry.commit.commit_id@, color);
            let node = log_node_text(v, prs, statuses, entry, color);
            let names = label_run(entry, entry.local_bookmarks@.len(), color);
            let at = (change.len() + 1 + commit.len() + names.len()) as int;
            let text = style::description_text(entry.commit.description@, color);
            let mark = style::empty_text(color) + " "@;
            &&& style::stands_at(s, 0, change + " "@ + commit)
            &&& style::stands_at(s, at, " "@ + node + "\n"@)
            &&& entry.empty ==> style::stands_at(
                s,
                at + node.len() + 2,
                mark + text,
            ) && s.len() == at + node.len() + 2 + mark.len() + text.len()
            &&& !entry.empty ==> style::stands_at(s, at + node.len() + 2, text) && s.len() == at
                + node.len() + 2 + text.len()
        }),
{
    reveal_strlit(" ");
    reveal_strlit("\n");
    reveal_strlit("");
    let s = log_message(v, prs, statuses, entry, color);
    let change = style::change_id_text(entry.commit.change_id@, color);
    let commit = style::commit_id_text(entry.commit.commit_id@, color);
    let node = log_node_text(v, prs, statuses, entry, color);
    let names = label_run(entry, entry.local_bookmarks@.len(), color);
    let text = style::description_text(entry.commit.description@, color);
    let mark = style::empty_text(color) + " "@;
    let none = Seq::<char>::empty();
    let ids = change + " "@ + commit;
    let line2 = if entry.empty {
        mark + text
    } else {
        text
    };
    assert(s =~= none + ids + (names + " "@ + node + "\n"@ + line2));
    style::lemma_stands(none, ids, names + " "@ + node + "\n"@ + line2);
    assert(s =~= (ids + names) + (" "@ + node + "\n"@) + line2);
    style::lemma_stands(ids + names, " "@ + node + "\n"@, line2);
    assert(s =~= (ids + names + " "@ + node + "\n"@) + line2 + none);
    style::lemma_stands(ids + names + " "@ + node + "\n"@, line2, none);
}

/// Each bookmark of a commit stands in its row of the log, after a space, behind those before it.
#[verifier::spinoff_prover]
#[verifier::rlimit(60)]
pub proof fn log_names_all_bookmarks(
    v: RepoView,
    prs: Map<u64, &GhPr>,
    statuses: Map<u64, PrStatus>,
    entry: JjLogEntry,
    color: bool,
    j: int,
)
    requires
        0 <= j < entry.local_bookmarks@.len(),
    ensures
        ({
            let s = log_message(v, prs, statuses, entry, color);
            let change = style::change_id_text(entry.commit.change_id@, color);
            let commit = style::commit_id_text(entry.commit.commit_id@, color);
            style::stands_at(
                s,
                change.len() as int + 1 + commit.len() + label_run(entry, j as nat, color).len(),
                " "@ + style::bookmark_text(entry.local_bookmarks@[j].name@, color),
            )
        }),
{
    reveal_strlit(" ");
    let s = log_message(v, prs, statuses, entry, color);
    let ids = style::change_id_text(entry.commit.change_id@, color) + " "@ + style::commit_id_text(
        entry.commit.commit_id@,
        color,
    );
    let node = log_node_text(v, prs, statuses, entry, color);
    let names = label_run(entry, entry.local_bookmarks@.len(), color);
    let front = label_run(entry, j as nat, color);
    let label = " "@ + style::bookmark_text(entry.local_bookmarks@[j].name@, color);
    let rest = lemma_label_run(entry, j, color);
    let prefix = if entry.empty {
        style::empty_text(color) + " "@
    } else {
        ""@
    };
    let tail = " "@ + node + "\n"@ + prefix + style::description_text(
        entry.commit.description@,
        color,
    );
    assert(s =~= ids + names + tail);
    assert(s =~= (ids + front) + label + (rest + tail));
    style::lemma_stands(ids + front, label, rest + tail);
}

proof fn lemma_label_run(entry: JjLogEntry, j: int, color: bool) -> (rest: Seq<char>)
    requires
        0 <= j < entry.local_bookmarks@.len(),
    ensures
        label_run(entry, entry.local_bookmarks@.len(), color) == label_run(entry, j as nat, color)
            + (" "@ + style::bookmark_text(entry.local_bookmarks@[j].name@, color)) + rest,
{
    lemma_label_run_to(entry, j, entry.local_bookmarks@.len(), color)
}

proof fn lemma_label_run_to(entry: JjLogEntry, j: int, k: nat, color: bool) -> (rest: Seq<char>)
    requires
        0 <= j < k <= entry.local_bookmarks@.len(),
    ensures
        label_run(entry, k, color) == label_run(entry, j as nat, color) + (" "@
            + style::bookmark_text(entry.local_bookmarks@[j].name@, color)) + rest,
    decreases k,
{
    let label = " "@ + style::bookmark_text(entry.local_bookmarks@[j].name@, color);
    let front = label_run(entry, j as nat, color);
    if j == k - 1 {
        assert(label_run(entry, k, color) =~= front + label + Seq::<char>::empty());
        Seq::empty()
    } else {
        let rest = lemma_label_run_to(entry, j, (k - 1) as nat, color);
        let own = " "@ + style::bookmark_text(entry.local_bookmarks@[k - 1].name@, color);
        assert(label_run(entry, k, color) =~= front + label + (rest + own));
        rest + own
    }
}

/// The glyphs of the log: the working copy has `@`; an ambiguous commit has `⚠`; another one with
/// conflicts has `✗`; the trunk has `◆` and other commits have `○`. A color tells of conflicts.
#[verifier::spinoff_prover]
#[verifier::rlimit(60)]
pub proof fn log_glyphs_tell_commits_apart(v: RepoView, entry: JjLogEntry)
    ensures
        ({
            let s = log_glyph(v, entry, false);
            let node = crate::membership::node_of(v.nodes, v.owner, entry);
            let here = entry.is_working_copy;
            let ambiguous = node is Some && node->0 is Ambiguous;
            let fixed = node is Some && (node->0 is TrunkTip || node->0 is Root);
            &&& s == "@"@ <==> here
            &&& s == "⚠"@ <==> !here && ambiguous
            &&& s == "✗"@ <==> !here && !ambiguous && entry.conflict
            &&& s == "◆"@ <==> !here && !entry.conflict && fixed
            &&& s == "○"@ <==> !here && !entry.conflict && !ambiguous && !fixed
        }),
        style::stands_at(log_glyph(v, entry, true), 0, "\u{1b}[31m"@) <==> entry.conflict,
        style::stands_at(log_glyph(v, entry, true), 5, "@"@) || style::stands_at(
            log_glyph(v, entry, true),
            9,
            "@"@,
        ) <==> entry.is_working_copy,
{
    lemma_glyph_texts();
    lemma_colored_glyphs();
    assert(crate::membership::node_of(v.nodes, v.owner, entry) == entry_node(v, entry));
}

/// Whether the log has a row for the commit of an entry: all are shown, or it belongs to a node
/// that is not hidden.
pub open spec fn has_log_row(v: RepoView, show_all: bool, entry: JjLogEntry) -> bool {
    show_all || (v.owner.contains_key(entry.commit.commit_id@) && !v.hidden.contains(
        v.owner[entry.commit.commit_id@],
    ))
}

proof fn lemma_log_rows(
    v: RepoView,
    prs: Map<u64, &GhPr>,
    statuses: Map<u64, PrStatus>,
    entries: Seq<JjLogEntry>,
    show_all: bool,
    reversed: bool,
    color: bool,
    listed: Seq<JjLogEntry>,
)
    ensures
        log_rows_of(v, prs, statuses, entries, show_all, reversed, color, listed) == listed.filter(
            |e: JjLogEntry| has_log_row(v, show_all, e),
        ).map_values(
            |e: JjLogEntry|
                log_row(v, prs, statuses, entries, show_all, reversed, color, e),
        ),
    decreases listed.len(),
{
    reveal(Seq::filter);
    let keep = |e: JjLogEntry| has_log_row(v, show_all, e);
    let row = |e: JjLogEntry| log_row(v, prs, statuses, entries, show_all, reversed, color, e);
    if listed.len() > 0 {
        let head = listed.drop_last();
        let e = listed.last();
        lemma_log_rows(v, prs, statuses, entries, show_all, reversed, color, head);
        if has_log_row(v, show_all, e) {
            assert(listed.filter(keep) == head.filter(keep).push(e));
            assert(head.filter(keep).push(e).map_values(row) =~= head.filter(keep).map_values(
                row,
            ).push(row(e)));
        } else {
            assert(listed.filter(keep) == head.filter(keep));
        }
    } else {
        assert(listed.filter(keep).map_values(row) =~= Seq::<RowView>::empty());
    }
}

/// The entries in the order in which the log has them.
pub open spec fn log_order(entries: Seq<JjLogEntry>, reversed: bool) -> Seq<JjLogEntry> {
    if reversed {
        entries.reverse()
    } else {
        entries
    }
}

/// The log has one row for each commit that is shown, in the order of the log or reversed, and a
/// row without links for the elided revisions at its end, or at its start where it is reversed.
/// The row of a commit has its glyph and its message.
pub proof fn log_rows_are_those_of_shown_commits(
    v: RepoView,
    prs: Map<u64, &GhPr>,
    statuses: Map<u64, PrStatus>,
    entries: Seq<JjLogEntry>,
    show_all: bool,
    reversed: bool,
    color: bool,
)
    ensures
        ({
            let rows = log_view(v, prs, statuses, entries, show_all, reversed, color);
            let shown = log_order(entries, reversed).filter(
                |e: JjLogEntry| has_log_row(v, show_all, e),
            );
            let shift: int = if reversed {
                1
            } else {
                0
            };
            let last: int = if reversed {
                0
            } else {
                shown.len() as int
            };
            &&& rows.len() == shown.len() + 1
            &&& forall|i: int|
                0 <= i < shown.len() ==> {
                    let row = rows[i + shift];
                    &&& row.0 == commit_number(
                        entries,
                        (#[trigger] shown[i]).commit.commit_id@,
                    ) as u64
                    &&& row.2 == log_glyph(v, shown[i], color)
                    &&& row.3 == log_message(v, prs, statuses, shown[i], color)
                }
            &&& rows[last].0 == 0
            &&& rows[last].1.len() == 0
            &&& rows[last].2 == style::glyph_elided_text(color)
            &&& rows[last].3 == style::root_text(color)
        }),
{
    let listed = log_order(entries, reversed);
    lemma_log_rows(v, prs, statuses, entries, show_all, reversed, color, listed);
}

/// The number of a commit in the log is one more than the place of its first entry; a commit
/// without entry has the number of the elided revisions.
pub proof fn numbers_are_places_in_the_log(entries: Seq<JjLogEntry>, commit: Seq<char>, i: int)
    ensures
        0 <= i < entries.len() && entries[i].commit.commit_id@ == commit && (forall|j: int|
            0 <= j < i ==> (#[trigger] entries[j]).commit.commit_id@ != commit) ==> commit_number(
            entries,
            commit,
        ) == i + 1,
        (forall|j: int|
            0 <= j < entries.len() ==> (#[trigger] entries[j]).commit.commit_id@ != commit)
            ==> commit_number(entries, commit) == 0,
{
    if forall|j: int|
        0 <= j < entries.len() ==> (#[trigger] entries[j]).commit.commit_id@ != commit {
        if commit_number(entries, commit) != 0 {
            lemma_numbered(entries, commit);
        }
    }
    if 0 <= i < entries.len() && entries[i].commit.commit_id@ == commit && (forall|j: int|
        0 <= j < i ==> (#[trigger] entries[j]).commit.commit_id@ != commit) {
        let head = entries.take(i);
        if commit_number(head, commit) != 0 {
            lemma_numbered(head, commit);
            let j = choose|j: int|
                0 <= j < head.len() && (#[trigger] head[j]).commit.commit_id@ == commit;
            assert(entries[j] == head[j]);
        }
        assert(entries.take(i + 1).drop_last() == head);
        assert(entries.take(i + 1).last() == entries[i]);
        lemma_commit_number(entries, commit, i + 1);
    }
}

/// A row of the log is linked to its parents in their order, each by its number where it has a
/// row, and to the elided revisions where it has none. In a reversed log it is linked to exactly
/// the children that have rows.
pub proof fn log_rows_are_linked_to_their_neighbours(
    v: RepoView,
    prs: Map<u64, &GhPr>,
    statuses: Map<u64, PrStatus>,
    entries: Seq<JjLogEntry>,
    show_all: bool,
    color: bool,
    entry: JjLogEntry,
    x: u64,
)
    ensures
        ({
            let links = log_row(v, prs, statuses, entries, show_all, false, color, entry).1;
            &&& links.len() == entry.commit.parents@.len()
            &&& forall|j: int|
                0 <= j < links.len() ==> #[trigger] links[j] == if show_all || (
                v.owner.contains_key(entry.commit.parents@[j]@) && !v.hidden.contains(
                    v.owner[entry.commit.parents@[j]@],
                )) {
                    commit_number(entries, entry.commit.parents@[j]@) as u64
                } else {
                    0
                }
        }),
        log_row(v, prs, statuses, entries, show_all, true, color, entry).1.contains(x)
            <==> exists|i: int, p: int|
            #![trigger entries[i].commit.parents@[p]]
            0 <= i < entries.len() && 0 <= p < entries[i].commit.parents@.len()
                && entries[i].commit.parents@[p]@ == entry.commit.commit_id@ && has_log_row(
                v,
                show_all,
                entries[i],
            ) && x == commit_number(entries, entries[i].commit.commit_id@) as u64,
{
    lemma_children_linked(v, entries, show_all, entry.commit.commit_id@, entries.len(), x);
}

proof fn lemma_parent_count(entry: JjLogEntry, k: nat, commit: Seq<char>)
    requires
        k <= entry.commit.parents@.len(),
    ensures
        parent_count(entry, k, commit) > 0 <==> exists|p: int|
            0 <= p < k && (#[trigger] entry.commit.parents@[p])@ == commit,
    decreases k,
{
    if k > 0 {
        lemma_parent_count(entry, (k - 1) as nat, commit);
        if entry.commit.parents@[k - 1]@ == commit {
            assert((entry.commit.parents@[k - 1])@ == commit);
        }
    }
}

proof fn lemma_children_linked(
    v: RepoView,
    entries: Seq<JjLogEntry>,
    show_all: bool,
    commit: Seq<char>,
    k: nat,
    x: u64,
)
    requires
        k <= entries.len(),
    ensures
        child_links(v, entries, show_all, commit, k).contains(x) <==> exists|i: int, p: int|
            #![trigger entries[i].commit.parents@[p]]
            0 <= i < k && 0 <= p < entries[i].commit.parents@.len()
                && entries[i].commit.parents@[p]@ == commit && has_log_row(
                v,
                show_all,
                entries[i],
            ) && x == commit_number(entries, entries[i].commit.commit_id@) as u64,
    decreases k,
{
    let links = child_links(v, entries, show_all, commit, k);
    if k > 0 {
        let before = child_links(v, entries, show_all, commit, (k - 1) as nat);
        let child = entries[k - 1];
        let count = parent_count(child, child.commit.parents@.len(), commit);
        let number = commit_number(entries, child.commit.commit_id@) as u64;
        lemma_children_linked(v, entries, show_all, commit, (k - 1) as nat, x);
        lemma_parent_count(child, child.commit.parents@.len(), commit);
        if before.contains(x) {
            let j = choose|j: int| 0 <= j < before.len() && before[j] == x;
            assert(links[j] == x);
        }
        if links.contains(x) && !before.contains(x) {
            let j = choose|j: int| 0 <= j < links.len() && links[j] == x;
            if j < before.len() {
                assert(before[j] == x);
            }
            let p = choose|p: int|
                0 <= p < child.commit.parents@.len() && (#[trigger] child.commit.parents@[p])@
                    == commit;
            assert(entries[k - 1].commit.parents@[p]@ == commit);
        }
        if exists|i: int, p: int|
            #![trigger entries[i].commit.parents@[p]]
            0 <= i < k && 0 <= p < entries[i].commit.parents@.len()
                && entries[i].commit.parents@[p]@ == commit && has_log_row(
                v,
                show_all,
                entries[i],
            ) && x == commit_number(entries, entries[i].commit.commit_id@) as u64 {
            let (i, p) = choose|i: int, p: int|
                #![trigger entries[i].commit.parents@[p]]
                0 <= i < k && 0 <= p < entries[i].commit.parents@.len()
                    && entries[i].commit.parents@[p]@ == commit && has_log_row(
                    v,
                    show_all,
                    entries[i],
                ) && x == commit_number(entries, entries[i].commit.commit_id@) as u64;
            if i == k - 1 {
                assert((child.commit.parents@[p])@ == commit);
                assert(count > 0);
                assert(links[before.len() as int] == number);
            }
        }
    }
}

/// All rows are drawn, in order: one more row leaves what was drawn before as it is, and what
/// follows is that row, drawn after the others.
pub proof fn rows_are_drawn_in_order(height: usize, rows: Seq<RowView>, row: RowView)
    ensures
        drawn_rows(height, Seq::empty()).len() == 0,
        drawn_rows(height, rows.push(row)) == drawn_rows(height, rows) + drawn_row(
            height,
            rows.push(row),
        ),
{
    assert(rows.push(row).drop_last() =~= rows);
}

} // verus!
