//! Terminal styling: ANSI colors and OSC 8 hyperlinks.
//!
//! Whether there is color at all is for the caller to say.
use anstyle::{Ansi256Color, Color, Effects, Style};
use vstd::prelude::*;

use crate::gh::{CheckStatus, PrNum, PrState, ReviewDecision};
use crate::text::{lines, u64_to_string};
use crate::types::{Bookmark, ChangeId, CommitId};

verus! {

// --- Glyphs ---
pub const GLYPH_IMMUTABLE: &'static str = "◆";

pub const GLYPH_MUTABLE: &'static str = "○";

pub const GLYPH_CONFLICTED: &'static str = "✗";

pub const GLYPH_WARNING: &'static str = "⚠";

// --- Labels ---
pub const LABEL_TRUNK: &'static str = "trunk()";

pub const LABEL_ROOT: &'static str = "(elided revisions)";

// --- Hues ---
pub const RED: u8 = 1;

pub const GREEN: u8 = 2;

pub const YELLOW: u8 = 3;

pub const BLUE: u8 = 4;

pub const MAGENTA: u8 = 5;

pub const CYAN: u8 = 6;

/// Whether there is color: it is forced, or the stream that is written to has it.
pub fn use_color(force: bool, stream_never: bool) -> (r: bool)
    ensures
        r == (force || !stream_never),
{
    force || !stream_never
}

/// The escape sequences that switch a style on.
pub open spec fn style_start(hue: Option<u8>, bold: bool, dimmed: bool) -> Seq<char> {
    let effects = if bold && dimmed {
        "\u{1b}[1m\u{1b}[2m"@
    } else if bold {
        "\u{1b}[1m"@
    } else if dimmed {
        "\u{1b}[2m"@
    } else {
        ""@
    };
    match hue {
        Some(h) => effects + "\u{1b}[3"@ + crate::text::decimal(h as nat) + "m"@,
        None => effects,
    }
}

/// The escape sequence that switches a style off. A style that changes nothing has none.
pub open spec fn style_end(hue: Option<u8>, bold: bool, dimmed: bool) -> Seq<char> {
    if hue is None && !bold && !dimmed {
        ""@
    } else {
        "\u{1b}[0m"@
    }
}

/// A text in a style, if there is color.
pub open spec fn styled_text(
    color: bool,
    hue: Option<u8>,
    bold: bool,
    dimmed: bool,
    text: Seq<char>,
) -> Seq<char> {
    if color {
        style_start(hue, bold, dimmed) + text + style_end(hue, bold, dimmed)
    } else {
        text
    }
}

/// A text that links to `url`, if there is color.
pub open spec fn linked_text(color: bool, url: Seq<char>, text: Seq<char>) -> Seq<char> {
    if color {
        "\u{1b}]8;;"@ + url + "\u{7}"@ + text + "\u{1b}]8;;\u{7}"@
    } else {
        text
    }
}

/// `anstyle::Style` displays as the escape sequences of its effects, bold before dimmed, and
/// then of its foreground color; its alternate form is the reset sequence, or nothing for a
/// style that sets nothing. The colors below eight are those of the basic palette.
#[verifier::external_body]
fn paint(hue: Option<u8>, bold: bool, dimmed: bool, text: &str) -> (r: String)
    requires
        hue is Some ==> hue->0 < 8,
    ensures
        r@ == style_start(hue, bold, dimmed) + text@ + style_end(hue, bold, dimmed),
{
    let effects = Effects::new().set(Effects::BOLD, bold).set(Effects::DIMMED, dimmed);
    let fg = hue.and_then(|h| Ansi256Color(h).into_ansi()).map(Color::Ansi);
    let style = Style::new().fg_color(fg).effects(effects);
    format!("{style}{text}{style:#}")
}

fn styled(color: bool, hue: Option<u8>, bold: bool, dimmed: bool, text: &str) -> (r: String)
    requires
        hue is Some ==> hue->0 < 8,
    ensures
        r@ == styled_text(color, hue, bold, dimmed, text@),
{
    if color {
        paint(hue, bold, dimmed, text)
    } else {
        text.to_owned()
    }
}

fn osc8(color: bool, url: &str, text: &str) -> (r: String)
    ensures
        r@ == linked_text(color, url@, text@),
{
    if color {
        let mut s = "\u{1b}]8;;".to_owned();
        s.append(url);
        s.append("\u{7}");
        s.append(text);
        s.append("\u{1b}]8;;\u{7}");
        s
    } else {
        text.to_owned()
    }
}

/// The text of an optional string.
pub open spec fn opt_text(s: Option<&str>) -> Option<Seq<char>> {
    match s {
        Some(t) => Some(t@),
        None => None,
    }
}

/// A PR number, linked to its URL if there is one, in bold cyan.
pub open spec fn pr_num_text(n: u64, url: Option<Seq<char>>, color: bool) -> Seq<char> {
    let text = "PR #"@ + crate::text::decimal(n as nat);
    styled_text(
        color,
        Some(CYAN),
        true,
        false,
        match url {
            Some(u) => linked_text(color, u, text),
            None => text,
        },
    )
}

/// Formats the PR with the number `n`, which is not checked.
pub fn pr_label(n: u64, url: Option<&str>, color: bool) -> (r: String)
    ensures
        r@ == pr_num_text(n, opt_text(url), color),
{
    let mut text = "PR #".to_owned();
    text.append(u64_to_string(n).as_str());
    let linked = match url {
        Some(u) => osc8(color, u, text.as_str()),
        None => text,
    };
    styled(color, Some(CYAN), true, false, linked.as_str())
}

/// Format a PR number as a clickable hyperlink (if URL provided) with bold cyan styling.
pub fn pr_num(number: PrNum, url: Option<&str>, color: bool) -> (r: String)
    ensures
        r@ == pr_num_text(number@, opt_text(url), color),
{
    pr_label(number.get(), url, color)
}

/// The state of a PR.
pub open spec fn status_text(state: PrState, is_draft: bool, color: bool) -> Seq<char> {
    match state {
        PrState::Closed => styled_text(color, Some(RED), false, false, "Closed"@),
        PrState::Open => if is_draft {
            styled_text(color, Some(YELLOW), false, false, "Draft"@)
        } else {
            styled_text(color, Some(GREEN), false, false, "Ready"@)
        },
        PrState::Merged => styled_text(color, None, false, true, "Merged"@),
    }
}

pub fn status(state: PrState, is_draft: bool, color: bool) -> (r: String)
    ensures
        r@ == status_text(state, is_draft, color),
{
    match state {
        PrState::Closed => styled(color, Some(RED), false, false, "Closed"),
        PrState::Open => if is_draft {
            styled(color, Some(YELLOW), false, false, "Draft")
        } else {
            styled(color, Some(GREEN), false, false, "Ready")
        },
        PrState::Merged => styled(color, None, false, true, "Merged"),
    }
}

/// The first characters of an ID: as many as twelve bytes hold.
pub open spec fn short_id(id: Seq<char>) -> Seq<char> {
    crate::text::prefix_within(id, 12)
}

/// The first characters of a change ID, in bold magenta (like jj's unique prefix style).
pub open spec fn change_id_text(id: Seq<char>, color: bool) -> Seq<char> {
    styled_text(color, Some(MAGENTA), true, false, short_id(id))
}

pub fn change_id(id: &ChangeId, color: bool) -> (r: String)
    ensures
        r@ == change_id_text(id@, color),
{
    let short = crate::text::byte_prefix(id.as_str(), 12);
    styled(color, Some(MAGENTA), true, false, short.as_str())
}

/// The first characters of a commit ID.
pub open spec fn commit_id_text(id: Seq<char>, color: bool) -> Seq<char> {
    styled_text(color, Some(BLUE), false, false, short_id(id))
}

pub fn commit_id_short(id: &CommitId, color: bool) -> (r: String)
    ensures
        r@ == commit_id_text(id@, color),
{
    let short = crate::text::byte_prefix(id.as_str(), 12);
    styled(color, Some(BLUE), false, false, short.as_str())
}

/// The first line of a description.
pub open spec fn first_line(desc: Seq<char>) -> Seq<char> {
    if crate::text::line_seq(desc).len() == 0 {
        Seq::empty()
    } else {
        crate::text::line_seq(desc)[0]
    }
}

/// The first line of a description, or a note that there is none.
pub open spec fn description_text(desc: Seq<char>, color: bool) -> Seq<char> {
    if first_line(desc).len() == 0 {
        styled_text(color, Some(GREEN), false, false, "(no description set)"@)
    } else {
        styled_text(color, None, false, false, first_line(desc))
    }
}

pub fn description_first_line(desc: &str, color: bool) -> (r: String)
    ensures
        r@ == description_text(desc@, color),
{
    let all = lines(desc);
    proof {
        crate::text::lemma_views_len(all@);
    }
    if all.len() == 0 || all[0].as_str().is_empty() {
        styled(color, Some(GREEN), false, false, "(no description set)")
    } else {
        styled(color, None, false, false, all[0].as_str())
    }
}

/// A bookmark name.
pub open spec fn bookmark_text(name: Seq<char>, color: bool) -> Seq<char> {
    styled_text(color, Some(MAGENTA), true, false, name)
}

pub fn bookmark(name: &Bookmark, color: bool) -> (r: String)
    ensures
        r@ == bookmark_text(name@, color),
{
    styled(color, Some(MAGENTA), true, false, name.as_str())
}

/// A bookmark name beside a commit.
pub open spec fn bookmark_label_text(name: Seq<char>, color: bool) -> Seq<char> {
    styled_text(color, Some(MAGENTA), true, false, name)
}

pub fn bookmark_label(name: &Bookmark, color: bool) -> (r: String)
    ensures
        r@ == bookmark_label_text(name@, color),
{
    styled(color, Some(MAGENTA), true, false, name.as_str())
}

/// The mark of a commit that changes nothing.
pub open spec fn empty_text(color: bool) -> Seq<char> {
    styled_text(color, Some(GREEN), false, false, "(empty)"@)
}

pub fn empty_marker(color: bool) -> (r: String)
    ensures
        r@ == empty_text(color),
{
    styled(color, Some(GREEN), false, false, "(empty)")
}

/// A text in bold.
pub open spec fn bold_text(text: Seq<char>, color: bool) -> Seq<char> {
    styled_text(color, None, true, false, text)
}

pub fn bold(text: &str, color: bool) -> (r: String)
    ensures
        r@ == bold_text(text@, color),
{
    styled(color, None, true, false, text)
}

/// A dimmed text.
pub open spec fn dim_text(text: Seq<char>, color: bool) -> Seq<char> {
    styled_text(color, None, false, true, text)
}

pub fn dim(text: &str, color: bool) -> (r: String)
    ensures
        r@ == dim_text(text@, color),
{
    styled(color, None, false, true, text)
}

/// A warning.
pub open spec fn warn_text(text: Seq<char>, color: bool) -> Seq<char> {
    styled_text(color, Some(YELLOW), false, false, text)
}

pub fn warn(text: &str, color: bool) -> (r: String)
    ensures
        r@ == warn_text(text@, color),
{
    styled(color, Some(YELLOW), false, false, text)
}

/// The label of the trunk.
pub open spec fn trunk_text(color: bool) -> Seq<char> {
    styled_text(color, Some(GREEN), true, false, LABEL_TRUNK@)
}

pub fn trunk(color: bool) -> (r: String)
    ensures
        r@ == trunk_text(color),
{
    styled(color, Some(GREEN), true, false, LABEL_TRUNK)
}

/// The label of the root.
pub open spec fn root_text(color: bool) -> Seq<char> {
    styled_text(color, None, false, true, LABEL_ROOT@)
}

pub fn root(color: bool) -> (r: String)
    ensures
        r@ == root_text(color),
{
    styled(color, None, false, true, LABEL_ROOT)
}

/// The glyph of the trunk.
pub open spec fn glyph_immutable_text(color: bool) -> Seq<char> {
    styled_text(color, Some(CYAN), true, false, GLYPH_IMMUTABLE@)
}

pub fn glyph_immutable(color: bool) -> (r: String)
    ensures
        r@ == glyph_immutable_text(color),
{
    styled(color, Some(CYAN), true, false, GLYPH_IMMUTABLE)
}

/// The glyph of the root.
pub open spec fn glyph_elided_text(color: bool) -> Seq<char> {
    styled_text(color, None, false, true, "~"@)
}

pub fn glyph_elided(color: bool) -> (r: String)
    ensures
        r@ == glyph_elided_text(color),
{
    styled(color, None, false, true, "~")
}

/// The glyph of a conflict.
pub open spec fn glyph_conflicted_text(color: bool) -> Seq<char> {
    styled_text(color, Some(RED), false, false, GLYPH_CONFLICTED@)
}

pub fn glyph_conflicted(color: bool) -> (r: String)
    ensures
        r@ == glyph_conflicted_text(color),
{
    styled(color, Some(RED), false, false, GLYPH_CONFLICTED)
}

/// The glyph of the working copy.
pub open spec fn glyph_current_text(color: bool) -> Seq<char> {
    styled_text(color, Some(GREEN), true, false, "@"@)
}

pub fn glyph_current(color: bool) -> (r: String)
    ensures
        r@ == glyph_current_text(color),
{
    styled(color, Some(GREEN), true, false, "@")
}

/// The glyph of the working copy with a conflict.
pub open spec fn glyph_current_conflicted_text(color: bool) -> Seq<char> {
    styled_text(color, Some(RED), false, false, "@"@)
}

pub fn glyph_current_conflicted(color: bool) -> (r: String)
    ensures
        r@ == glyph_current_conflicted_text(color),
{
    styled(color, Some(RED), false, false, "@")
}

/// The glyph of an ambiguous node with a conflict.
pub open spec fn glyph_warning_conflicted_text(color: bool) -> Seq<char> {
    styled_text(color, Some(RED), false, false, GLYPH_WARNING@)
}

pub fn glyph_warning_conflicted(color: bool) -> (r: String)
    ensures
        r@ == glyph_warning_conflicted_text(color),
{
    styled(color, Some(RED), false, false, GLYPH_WARNING)
}

/// The state of the checks of a PR.
pub open spec fn ci_status_text(status: CheckStatus, color: bool) -> Seq<char> {
    match status {
        CheckStatus::Pass => styled_text(color, Some(GREEN), false, false, "✓CI"@),
        CheckStatus::Fail => styled_text(color, Some(RED), false, false, "✗CI"@),
        CheckStatus::Pending => styled_text(color, Some(YELLOW), false, false, "●CI"@),
    }
}

pub fn ci_status(status: CheckStatus, color: bool) -> (r: String)
    ensures
        r@ == ci_status_text(status, color),
{
    match status {
        CheckStatus::Pass => styled(color, Some(GREEN), false, false, "✓CI"),
        CheckStatus::Fail => styled(color, Some(RED), false, false, "✗CI"),
        CheckStatus::Pending => styled(color, Some(YELLOW), false, false, "●CI"),
    }
}

/// The state of the review of a PR.
pub open spec fn review_status_text(decision: Option<ReviewDecision>, color: bool) -> Seq<char> {
    match decision {
        Some(ReviewDecision::Approved) => styled_text(
            color,
            Some(GREEN),
            false,
            false,
            "✓Review"@,
        ),
        Some(ReviewDecision::ChangesRequested) => styled_text(
            color,
            Some(RED),
            false,
            false,
            "✗Review"@,
        ),
        _ => styled_text(color, Some(YELLOW), false, false, "●Review"@),
    }
}

pub fn review_status(decision: Option<ReviewDecision>, color: bool) -> (r: String)
    ensures
        r@ == review_status_text(decision, color),
{
    match decision {
        Some(ReviewDecision::Approved) => styled(color, Some(GREEN), false, false, "✓Review"),
        Some(ReviewDecision::ChangesRequested) => styled(
            color,
            Some(RED),
            false,
            false,
            "✗Review",
        ),
        _ => styled(color, Some(YELLOW), false, false, "●Review"),
    }
}

/// Without color every text is left as it is.
pub proof fn plain_text_is_unchanged(
    hue: Option<u8>,
    bold: bool,
    dimmed: bool,
    url: Seq<char>,
    text: Seq<char>,
)
    ensures
        styled_text(false, hue, bold, dimmed, text) == text,
        linked_text(false, url, text) == text,
{
}

/// Whether the text `w` stands in `s` at that place.
pub open spec fn stands_at(s: Seq<char>, at: int, w: Seq<char>) -> bool {
    0 <= at && at + w.len() <= s.len() && s.subrange(at, at + w.len()) == w
}

/// A text stands where it was put.
pub proof fn lemma_stands(a: Seq<char>, w: Seq<char>, b: Seq<char>)
    ensures
        stands_at(a + w + b, a.len() as int, w),
        w.len() > 0 ==> (a + w + b)[a.len() as int] == w[0],
        w.len() > 1 ==> (a + w + b)[a.len() as int + 1] == w[1],
{
    assert((a + w + b).subrange(a.len() as int, (a.len() + w.len()) as int) =~= w);
}

/// Where another character stands, a text does not.
pub proof fn lemma_stands_not(s: Seq<char>, at: int, w: Seq<char>, i: int)
    requires
        0 <= i < w.len(),
        0 <= at,
        at + i < s.len() ==> s[at + i] != w[i],
    ensures
        !stands_at(s, at, w),
{
    if stands_at(s, at, w) {
        assert(s.subrange(at, at + w.len())[i] == s[at + i]);
    }
}

/// How many characters switch a style on: four for an effect and five for a color.
pub proof fn lemma_style_start(hue: u8)
    requires
        hue < 8,
    ensures
        style_start(Some(hue), false, false).len() == 5,
        style_start(Some(hue), false, false)[4] == 'm',
        style_start(Some(hue), false, false)[3] == crate::text::digit_char(hue as nat),
        style_start(Some(hue), false, false)[2] == '3',
        style_start(Some(hue), true, false).len() == 9,
        style_start(Some(hue), true, false)[4] == '\u{1b}',
        style_start(None, false, true).len() == 4,
        style_start(None, false, true)[2] == '2',
        style_start(None, false, false).len() == 0,
{
    reveal_strlit("\u{1b}[1m");
    reveal_strlit("\u{1b}[2m");
    reveal_strlit("\u{1b}[3");
    reveal_strlit("m");
    reveal_strlit("");
    assert(crate::text::decimal(hue as nat) == seq![crate::text::digit_char(hue as nat)]);
}

/// What a state of a PR is called stands behind the sequence that switches its style on: `Ready`
/// exactly where the PR is open and no draft, `Draft` where it is open and a draft, `Closed` and
/// `Merged` in those states.
pub proof fn states_have_their_names(
    before: Seq<char>,
    after: Seq<char>,
    state: PrState,
    is_draft: bool,
    color: bool,
)
    ensures
        ({
            let s = before + status_text(state, is_draft, color) + after;
            let at = before.len() + if color {
                5int
            } else {
                0
            };
            let dimmed = before.len() + if color {
                4int
            } else {
                0
            };
            &&& stands_at(s, at, "Ready"@) <==> state is Open && !is_draft
            &&& stands_at(s, at, "Draft"@) <==> state is Open && is_draft
            &&& stands_at(s, at, "Closed"@) <==> state is Closed
            &&& stands_at(s, dimmed, "Merged"@) <==> state is Merged
        }),
{
    reveal_strlit("Ready");
    reveal_strlit("Draft");
    reveal_strlit("Closed");
    reveal_strlit("Merged");
    lemma_style_start(RED);
    lemma_style_start(YELLOW);
    lemma_style_start(GREEN);
    let s = before + status_text(state, is_draft, color) + after;
    let at = before.len() + if color {
        5int
    } else {
        0
    };
    let dimmed = before.len() + if color {
        4int
    } else {
        0
    };
    let (hue, dim, word) = match state {
        PrState::Closed => (Some(RED), false, "Closed"@),
        PrState::Open => if is_draft {
            (Some(YELLOW), false, "Draft"@)
        } else {
            (Some(GREEN), false, "Ready"@)
        },
        PrState::Merged => (None, true, "Merged"@),
    };
    let start = if color {
        style_start(hue, false, dim)
    } else {
        Seq::empty()
    };
    let end = if color {
        style_end(hue, false, dim)
    } else {
        Seq::empty()
    };
    assert(status_text(state, is_draft, color) =~= start + word + end);
    assert(s =~= (before + start) + word + (end + after));
    lemma_stands(before + start, word, end + after);
    assert((before + start).len() == if state is Merged {
        dimmed
    } else {
        at
    });
    if state is Merged && color {
        assert(s[at] == word[1]);
    }
    if !(state is Merged) && color {
        assert(s[dimmed] == start[4]);
    }
    if !(state is Open && !is_draft) {
        lemma_stands_not(s, at, "Ready"@, 0);
    }
    if !(state is Open && is_draft) {
        lemma_stands_not(s, at, "Draft"@, 0);
    }
    if !(state is Closed) {
        lemma_stands_not(s, at, "Closed"@, 0);
    }
    if !(state is Merged) {
        lemma_stands_not(s, dimmed, "Merged"@, 0);
    }
}

/// The checks of a PR have a sign of their own for each outcome.
pub proof fn checks_have_their_signs(
    before: Seq<char>,
    after: Seq<char>,
    status: CheckStatus,
    color: bool,
)
    ensures
        ({
            let s = before + ci_status_text(status, color) + after;
            let at = before.len() + if color {
                5int
            } else {
                0
            };
            &&& stands_at(s, at, "✓CI"@) <==> status is Pass
            &&& stands_at(s, at, "✗CI"@) <==> status is Fail
            &&& stands_at(s, at, "●CI"@) <==> status is Pending
        }),
{
    reveal_strlit("✓CI");
    reveal_strlit("✗CI");
    reveal_strlit("●CI");
    lemma_style_start(RED);
    lemma_style_start(YELLOW);
    lemma_style_start(GREEN);
    let s = before + ci_status_text(status, color) + after;
    let at = before.len() + if color {
        5int
    } else {
        0
    };
    let (hue, word) = match status {
        CheckStatus::Pass => (GREEN, "✓CI"@),
        CheckStatus::Fail => (RED, "✗CI"@),
        CheckStatus::Pending => (YELLOW, "●CI"@),
    };
    lemma_styled_word(before, after, hue, word, color);
    if !(status is Pass) {
        lemma_stands_not(s, at, "✓CI"@, 0);
    }
    if !(status is Fail) {
        lemma_stands_not(s, at, "✗CI"@, 0);
    }
    if !(status is Pending) {
        lemma_stands_not(s, at, "●CI"@, 0);
    }
}

/// The review of a PR has a sign of its own where it was approved, and where changes were
/// requested; otherwise it is pending.
pub proof fn reviews_have_their_signs(
    before: Seq<char>,
    after: Seq<char>,
    decision: Option<ReviewDecision>,
    color: bool,
)
    ensures
        ({
            let s = before + review_status_text(decision, color) + after;
            let at = before.len() + if color {
                5int
            } else {
                0
            };
            let approved = decision is Some && decision->0 is Approved;
            let refused = decision is Some && decision->0 is ChangesRequested;
            &&& stands_at(s, at, "✓Review"@) <==> approved
            &&& stands_at(s, at, "✗Review"@) <==> refused
            &&& stands_at(s, at, "●Review"@) <==> !approved && !refused
        }),
{
    reveal_strlit("✓Review");
    reveal_strlit("✗Review");
    reveal_strlit("●Review");
    lemma_style_start(RED);
    lemma_style_start(YELLOW);
    lemma_style_start(GREEN);
    let s = before + review_status_text(decision, color) + after;
    let at = before.len() + if color {
        5int
    } else {
        0
    };
    let approved = decision is Some && decision->0 is Approved;
    let refused = decision is Some && decision->0 is ChangesRequested;
    let (hue, word) = if approved {
        (GREEN, "✓Review"@)
    } else if refused {
        (RED, "✗Review"@)
    } else {
        (YELLOW, "●Review"@)
    };
    lemma_styled_word(before, after, hue, word, color);
    if !approved {
        lemma_stands_not(s, at, "✓Review"@, 0);
    }
    if !refused {
        lemma_stands_not(s, at, "✗Review"@, 0);
    }
    if approved || refused {
        lemma_stands_not(s, at, "●Review"@, 0);
    }
}

/// A text in a color stands behind the sequence that switches the color on.
pub proof fn lemma_styled_word(
    before: Seq<char>,
    after: Seq<char>,
    hue: u8,
    word: Seq<char>,
    color: bool,
)
    requires
        hue < 8,
        word.len() > 0,
    ensures
        ({
            let s = before + styled_text(color, Some(hue), false, false, word) + after;
            let at = before.len() + if color {
                5int
            } else {
                0
            };
            stands_at(s, at, word) && s[at] == word[0] && (word.len() > 1 ==> s[at + 1] == word[1])
        }),
{
    lemma_style_start(hue);
    let s = before + styled_text(color, Some(hue), false, false, word) + after;
    if color {
        let start = style_start(Some(hue), false, false);
        let end = style_end(Some(hue), false, false);
        assert(s =~= (before + start) + word + (end + after));
        lemma_stands(before + start, word, end + after);
    } else {
        lemma_stands(before, word, after);
    }
}

// --- Laws of descriptions and IDs ---

/// Of a description its first line is shown, which ends at the first line feed, or at the carriage
/// return before it; where that line is empty, a note is shown. `k` is where the line feed is, or
/// the length where there is none.
pub proof fn descriptions_are_shown_by_their_first_line(desc: Seq<char>, k: int)
    requires
        0 <= k <= desc.len(),
        forall|i: int| 0 <= i < k ==> desc[i] != '\n',
        k < desc.len() ==> desc[k] == '\n',
    ensures
        ({
            let end = if k < desc.len() && k > 0 && desc[k - 1] == '\r' {
                k - 1
            } else {
                k
            };
            &&& end == 0 ==> description_text(desc, false) == "(no description set)"@ && stands_at(
                description_text(desc, true),
                5,
                "(no description set)"@,
            )
            &&& end > 0 ==> description_text(desc, false) == desc.take(end) && description_text(
                desc,
                true,
            ) == desc.take(end)
        }),
{
    crate::text::lemma_index_of_char_is(desc, '\n', k);
    let end = if k < desc.len() && k > 0 && desc[k - 1] == '\r' {
        k - 1
    } else {
        k
    };
    assert(first_line(desc) =~= desc.take(end)) by {
        if desc.len() > 0 && k < desc.len() {
            let head = desc.take(k);
            assert(crate::text::line_seq(desc)[0] == crate::text::without_cr(head));
            if k > 0 {
                assert(head.last() == desc[k - 1]);
            }
            assert(crate::text::without_cr(head) =~= desc.take(end));
        }
    }
    let note = "(no description set)"@;
    lemma_style_start(GREEN);
    lemma_stands(style_start(Some(GREEN), false, false), note, style_end(Some(GREEN), false, false));
    reveal_strlit("");
    let line = first_line(desc);
    assert(style_start(None, false, false) + line + style_end(None, false, false) =~= line);
}

/// An ID of ASCII characters is shown by the first twelve of them, or whole where it has no more.
pub proof fn ids_are_shown_by_their_first_characters(id: Seq<char>)
    requires
        forall|i: int| 0 <= i < id.len() ==> (#[trigger] id[i] as u32) < 0x80,
    ensures
        id.len() <= 12 ==> change_id_text(id, false) == id && commit_id_text(id, false) == id,
        id.len() > 12 ==> change_id_text(id, false) == id.take(12) && commit_id_text(id, false)
            == id.take(12),
        id.len() > 12 ==> stands_at(change_id_text(id, true), 9, id.take(12)) && stands_at(
            commit_id_text(id, true),
            5,
            id.take(12),
        ),
{
    crate::text::ascii_is_shortened_by_characters(id, 12);
    let s = short_id(id);
    lemma_style_start(MAGENTA);
    lemma_style_start(BLUE);
    lemma_stands(
        style_start(Some(MAGENTA), true, false),
        s,
        style_end(Some(MAGENTA), true, false),
    );
    lemma_stands(style_start(Some(BLUE), false, false), s, style_end(Some(BLUE), false, false));
}

} // verus!
