//! jj commits, the `PR: #N` trailers of their descriptions and the `jj` command lines.
use vstd::prelude::*;

use crate::command::CommandLine;
use crate::gh::PrNum;
use crate::text::{
    contains, ends_with, join, lines, owned, starts_with, strip_prefix, trim, trim_end,
    u64_to_string,
};
use crate::types::{Bookmark, ChangeId, CommitId};

verus! {

broadcast use crate::text::lemma_views_len;

/// Raw commit data from `json(self)`.
#[derive(Debug)]
pub struct JjCommit {
    pub commit_id: CommitId,
    pub change_id: ChangeId,
    pub parents: Vec<CommitId>,
    pub description: String,
}

/// Bookmark reference from `json(local_bookmarks)`.
///
/// The target of a conflicted bookmark alternates adds (even indices) and removes (odd
/// indices); the local side comes first, and `None` stands for a deleted side.
#[derive(Debug)]
pub struct JjBookmark {
    pub name: Bookmark,
    pub target: Vec<Option<CommitId>>,
}

/// Remote bookmark reference from `json(remote_bookmarks)`.
#[derive(Debug)]
pub struct JjRemoteBookmark {
    pub name: Bookmark,
    pub remote: Option<String>,
    pub target: Vec<Option<CommitId>>,
}

/// One commit of the log, with its bookmarks.
#[derive(Debug)]
pub struct JjLogEntry {
    pub commit: JjCommit,
    pub local_bookmarks: Vec<JjBookmark>,
    pub remote_bookmarks: Vec<JjRemoteBookmark>,
    pub immutable: bool,
    pub is_trunk_tip: bool,
    pub empty: bool,
    pub is_working_copy: bool,
    pub conflict: bool,
}

// --- Trailers ---

/// Whether a line holds nothing but white space.
pub open spec fn is_blank(line: Seq<char>) -> bool {
    crate::text::trimmed(line).len() == 0
}

/// Whether a line is a PR trailer, whatever follows the `#`.
pub open spec fn is_trailer_line(line: Seq<char>) -> bool {
    crate::text::has_prefix(crate::text::trimmed(line), "PR: #"@)
}

/// The PR number of a trailer line, if it has one.
pub open spec fn trailer_value(line: Seq<char>) -> Option<u64> {
    if !is_trailer_line(line) {
        None
    } else {
        match crate::text::parsed_u64(
            crate::text::trimmed(crate::text::trimmed(line).skip("PR: #"@.len() as int)),
        ) {
            Some(n) => if n != 0 {
                Some(n)
            } else {
                None
            },
            None => None,
        }
    }
}

/// The last PR number in the block of lines that ends `lines`. Blank lines after the block are
/// skipped; a blank line before it ends it. `in_block` tells that the lines cut off from the
/// end were part of the block.
pub open spec fn block_trailer(lines: Seq<Seq<char>>, in_block: bool) -> Option<u64>
    decreases lines.len(),
{
    if lines.len() == 0 {
        None
    } else if is_blank(lines.last()) {
        if in_block {
            None
        } else {
            block_trailer(lines.drop_last(), false)
        }
    } else {
        match trailer_value(lines.last()) {
            Some(n) => Some(n),
            None => block_trailer(lines.drop_last(), true),
        }
    }
}

/// The index of the last trailer line in the block of lines that ends `lines`.
pub open spec fn block_trailer_index(lines: Seq<Seq<char>>, in_block: bool) -> Option<int>
    decreases lines.len(),
{
    if lines.len() == 0 {
        None
    } else if is_blank(lines.last()) {
        if in_block {
            None
        } else {
            block_trailer_index(lines.drop_last(), false)
        }
    } else if is_trailer_line(lines.last()) {
        Some(lines.len() - 1)
    } else {
        block_trailer_index(lines.drop_last(), true)
    }
}

/// The PR number in the trailer of a description.
pub open spec fn pr_trailer(description: Seq<char>) -> Option<u64> {
    block_trailer(crate::text::line_seq(description), false)
}

/// The trailer line for a PR.
pub open spec fn trailer_text(n: u64) -> Seq<char> {
    "PR: #"@ + crate::text::decimal(n as nat)
}

/// `text`, ended by a line feed if `description` is.
pub open spec fn ended_like(text: Seq<char>, description: Seq<char>) -> Seq<char> {
    if crate::text::ends_with_char(description, '\n') {
        text.push('\n')
    } else {
        text
    }
}

/// A description with its PR trailer set: the trailer line of its last block is replaced;
/// where there is none, one is added to the block if that is made of trailers, and in a block
/// of its own otherwise.
pub open spec fn with_pr_trailer(description: Seq<char>, n: u64) -> Seq<char> {
    let lines = crate::text::line_seq(description);
    let body = crate::text::trimmed_end(description);
    match block_trailer_index(lines, false) {
        Some(i) => ended_like(
            crate::text::joined(lines.update(i, trailer_text(n)), "\n"@),
            description,
        ),
        None => if body.len() == 0 {
            trailer_text(n) + "\n"@
        } else if crate::text::has_infix(crate::text::line_seq(body).last(), ": "@) {
            body + "\n"@ + trailer_text(n) + "\n"@
        } else {
            body + "\n\n"@ + trailer_text(n) + "\n"@
        },
    }
}

/// The number of an optional PR.
pub open spec fn opt_pr(pr: Option<PrNum>) -> Option<u64> {
    match pr {
        Some(n) => Some(n@),
        None => None,
    }
}

/// Parsed PR trailer value, e.g. `PR: #1234` → `1234`.
pub fn parse_pr_trailer(description: &str) -> (r: Option<PrNum>)
    ensures
        opt_pr(r) == pr_trailer(description@),
{
    let all = lines(description);
    let mut in_trailer_block: bool = false;
    let mut k: usize = all.len();
    let ghost texts = crate::text::views(all@);
    assert(texts.take(k as int) == texts);
    while k > 0
        invariant
            k <= all.len(),
            texts == crate::text::views(all@),
            texts == crate::text::line_seq(description@),
            block_trailer(texts.take(k as int), in_trailer_block) == pr_trailer(description@),
        decreases k,
    {
        let line = trim(all[k - 1].as_str());
        assert(texts.take(k as int).last() == all@[k - 1]@);
        assert(texts.take(k as int).drop_last() == texts.take(k - 1));
        k = k - 1;
        if line.as_str().is_empty() {
            if in_trailer_block {
                return None;
            }
            continue ;
        }
        in_trailer_block = true;
        if let Some(value) = strip_prefix(line.as_str(), "PR: #") {
            if let Some(n) = crate::text::parse_u64(trim(value.as_str()).as_str()) {
                if let Some(pr_num) = PrNum::new(n) {
                    return Some(pr_num);
                }
            }
        }
    }
    None
}

/// Update or append a `PR: #N` trailer in a description.
pub fn set_pr_trailer(description: &str, pr: PrNum) -> (r: String)
    ensures
        r@ == with_pr_trailer(description@, pr@),
{
    let mut trailer_line = "PR: #".to_owned();
    trailer_line.append(u64_to_string(pr.get()).as_str());
    let mut all = lines(description);
    let ghost texts = crate::text::views(all@);
    if let Some(k) = find_trailer(&all) {
        all.set(k, trailer_line);
        assert(crate::text::views(all@) == texts.update(k as int, trailer_text(pr@)));
        let mut result = join(&all, "\n");
        if ends_with(description, '\n') {
            result.push('\n');
        }
        return result;
    }

    // No existing trailer: append after a blank line if needed.
    let body = trim_end(description);
    if body.as_str().is_empty() {
        trailer_line.append("\n");
        return trailer_line;
    }
    let body_lines = lines(body.as_str());
    proof {
        crate::text::lemma_line_seq_some(body@);
    }
    let last_line = &body_lines[body_lines.len() - 1];
    assert(last_line@ == crate::text::line_seq(body@).last());
    let mut result = body.clone();
    if contains(last_line.as_str(), ": ") {
        // Append to the existing trailer block.
        result.append("\n");
    } else {
        // Start a new trailer block with a blank line as separator.
        result.append("\n\n");
    }
    result.append(trailer_line.as_str());
    result.append("\n");
    result
}

/// Whether the line `i` is a block of its own: the lines next to it are blank, if there are any.
pub open spec fn is_own_block(lines: Seq<Seq<char>>, i: int) -> bool {
    (i == 0 || is_blank(lines[i - 1])) && (i == lines.len() - 1 || is_blank(lines[i + 1]))
}

/// The lines without the trailer line `i`. The blank line before it separates its block from the
/// text: it goes with the trailer where no other line of the block remains.
pub open spec fn without_trailer_line(lines: Seq<Seq<char>>, i: int) -> Seq<Seq<char>> {
    if i > 0 && is_own_block(lines, i) {
        lines.take(i - 1) + lines.skip(i + 1)
    } else {
        lines.take(i) + lines.skip(i + 1)
    }
}

/// A description without its PR trailer, which is the line that setting a trailer would replace.
pub open spec fn without_pr_trailer(description: Seq<char>) -> Seq<char> {
    let lines = crate::text::line_seq(description);
    match block_trailer_index(lines, false) {
        None => description,
        Some(i) => {
            let text = crate::text::joined(without_trailer_line(lines, i), "\n"@);
            if crate::text::ends_with_char(text, '\n') {
                text
            } else {
                ended_like(text, description)
            }
        },
    }
}

/// Finds the trailer line in the last block of lines.
fn find_trailer(all: &Vec<String>) -> (r: Option<usize>)
    ensures
        match r {
            Some(i) => i < all.len() && block_trailer_index(crate::text::views(all@), false)
                == Some(i as int),
            None => block_trailer_index(crate::text::views(all@), false) is None,
        },
{
    let ghost texts = crate::text::views(all@);
    let mut seen_content: bool = false;
    let mut k: usize = all.len();
    assert(texts.take(k as int) == texts);
    while k > 0
        invariant
            k <= all.len(),
            texts == crate::text::views(all@),
            block_trailer_index(texts.take(k as int), seen_content) == block_trailer_index(
                texts,
                false,
            ),
        decreases k,
    {
        let trimmed = trim(all[k - 1].as_str());
        assert(texts.take(k as int).last() == all@[k - 1]@);
        assert(texts.take(k as int).drop_last() == texts.take(k - 1));
        k = k - 1;
        if trimmed.as_str().is_empty() {
            if seen_content {
                return None;
            }
        } else if starts_with(trimmed.as_str(), "PR: #") {
            return Some(k);
        } else {
            seen_content = true;
        }
    }
    None
}

fn blank(line: &str) -> (r: bool)
    ensures
        r == is_blank(line@),
{
    trim(line).as_str().is_empty()
}

/// Remove the `PR: #N` trailer from a description.
pub fn remove_pr_trailer(description: &str) -> (r: String)
    ensures
        r@ == without_pr_trailer(description@),
{
    let mut all = lines(description);
    let ghost texts = crate::text::views(all@);
    let i = match find_trailer(&all) {
        Some(i) => i,
        None => {
            return description.to_owned();
        },
    };
    let opens = i == 0 || blank(all[i - 1].as_str());
    let closes = i == all.len() - 1 || blank(all[i + 1].as_str());
    assert((opens && closes) == is_own_block(texts, i as int));
    all.remove(i);
    assert(crate::text::views(all@) == texts.take(i as int) + texts.skip(i + 1));
    // The separator stays if the block has other lines.
    if i > 0 && opens && closes {
        all.remove(i - 1);
        assert(crate::text::views(all@) == texts.take(i - 1) + texts.skip(i + 1));
    }
    let mut result = join(&all, "\n");
    if ends_with(description, '\n') && !ends_with(result.as_str(), '\n') {
        result.push('\n');
    }
    result
}

proof fn lemma_trailer_text(n: u64)
    requires
        n != 0,
    ensures
        !is_blank(trailer_text(n)),
        is_trailer_line(trailer_text(n)),
        trailer_value(trailer_text(n)) == Some(n),
        crate::text::single_line(trailer_text(n)),
{
    reveal_strlit("PR: #");
    let digits = crate::text::decimal(n as nat);
    let line = trailer_text(n);
    crate::text::lemma_decimal(n as nat);
    crate::text::parse_of_decimal(n);
    assert(crate::text::is_digit(digits.first()) && crate::text::is_digit(digits.last()));
    assert(line.last() == digits.last() && line.first() == 'P');
    crate::text::lemma_trimmed_same(line);
    crate::text::lemma_trimmed_same(digits);
    assert(line.take(5) == "PR: #"@);
    assert(line.skip(5) == digits);
    assert forall|i: int| 0 <= i < line.len() implies #[trigger] line[i] != '\n' by {
        if i >= 5 {
            assert(line[i] == digits[i - 5]);
            assert(crate::text::is_digit(digits[i - 5]));
        }
    }
}

proof fn lemma_block_trailer_same(a: Seq<Seq<char>>, b: Seq<Seq<char>>, in_block: bool)
    requires
        a.len() == b.len(),
        forall|i: int|
            0 <= i < a.len() ==> #[trigger] crate::text::trimmed(a[i]) == crate::text::trimmed(
                b[i],
            ),
    ensures
        block_trailer(a, in_block) == block_trailer(b, in_block),
    decreases a.len(),
{
    if a.len() > 0 {
        assert(crate::text::trimmed(a[a.len() - 1]) == crate::text::trimmed(b[a.len() - 1]));
        let x = a.drop_last();
        let y = b.drop_last();
        assert forall|i: int| 0 <= i < x.len() implies #[trigger] crate::text::trimmed(x[i])
            == crate::text::trimmed(y[i]) by {
            assert(crate::text::trimmed(a[i]) == crate::text::trimmed(b[i]));
        }
        lemma_block_trailer_same(x, y, false);
        lemma_block_trailer_same(x, y, true);
    }
}

proof fn lemma_block_trailer_update(lines: Seq<Seq<char>>, in_block: bool, n: u64)
    requires
        n != 0,
        block_trailer_index(lines, in_block) is Some,
    ensures
        0 <= block_trailer_index(lines, in_block)->0 < lines.len(),
        block_trailer(
            lines.update(block_trailer_index(lines, in_block)->0, trailer_text(n)),
            in_block,
        ) == Some(n),
    decreases lines.len(),
{
    let i = block_trailer_index(lines, in_block)->0;
    lemma_trailer_text(n);
    if is_blank(lines.last()) || !is_trailer_line(lines.last()) {
        let next = !is_blank(lines.last());
        lemma_block_trailer_update(lines.drop_last(), next, n);
        assert(lines.update(i, trailer_text(n)).drop_last() == lines.drop_last().update(
            i,
            trailer_text(n),
        ));
    }
}

proof fn lemma_ended_trailer(text: Seq<char>, n: u64)
    requires
        n != 0,
    ensures
        pr_trailer(text.push('\n') + trailer_text(n) + "\n"@) == Some(n),
{
    reveal_strlit("\n");
    lemma_trailer_text(n);
    let line = trailer_text(n);
    let whole = text.push('\n') + line + "\n"@;
    assert(whole == text.push('\n') + line.push('\n'));
    crate::text::lemma_lines_split(text, line.push('\n'));
    crate::text::lemma_first_line(line, Seq::empty());
    assert(line.push('\n') + Seq::<char>::empty() == line.push('\n'));
    assert(line.last() != '\r') by {
        crate::text::lemma_decimal(n as nat);
        let digits = crate::text::decimal(n as nat);
        assert(crate::text::is_digit(digits[digits.len() - 1]));
    }
    assert(crate::text::line_seq(whole).last() == line);
}

/// Reading the PR trailer of a description gives back the PR that was set, whatever the
/// description was.
pub proof fn set_trailer_is_read_back(description: Seq<char>, n: u64)
    requires
        n != 0,
    ensures
        pr_trailer(with_pr_trailer(description, n)) == Some(n),
{
    reveal_strlit("\n");
    reveal_strlit("\n\n");
    let lines = crate::text::line_seq(description);
    let body = crate::text::trimmed_end(description);
    let result = with_pr_trailer(description, n);
    lemma_trailer_text(n);
    match block_trailer_index(lines, false) {
        Some(i) => {
            lemma_block_trailer_update(lines, false, n);
            let set = lines.update(i, trailer_text(n));
            crate::text::lemma_lines_are_single(description);
            assert forall|j: int| 0 <= j < set.len() implies crate::text::single_line(
                #[trigger] set[j],
            ) by {
                if j != i {
                    assert(set[j] == lines[j]);
                }
            }
            crate::text::lemma_joined_lines(set);
            let f = |l: Seq<char>| crate::text::without_cr(l);
            let read = crate::text::line_seq(result);
            let head = set.drop_last();
            if crate::text::ends_with_char(description, '\n') {
                assert(result == crate::text::terminated(set) + Seq::<char>::empty());
                crate::text::lemma_terminated(set, Seq::empty());
                assert(read == set.map_values(f));
            } else {
                crate::text::lemma_last_line(description);
                crate::text::lemma_terminated(head, set.last());
                crate::text::lemma_index_of_char_is(set.last(), '\n', set.last().len() as int);
                assert(crate::text::line_seq(set.last()) == seq![set.last()]);
                assert(read == head.map_values(f) + seq![set.last()]);
            }
            assert forall|j: int| 0 <= j < set.len() implies #[trigger] crate::text::trimmed(
                set[j],
            ) == crate::text::trimmed(read[j]) by {
                crate::text::lemma_trimmed_without_cr(set[j]);
                if j < head.len() {
                    assert(head.map_values(f)[j] == f(set[j]));
                }
            }
            lemma_block_trailer_same(set, read, false);
        },
        None => {
            if body.len() == 0 {
                crate::text::lemma_first_line(trailer_text(n), Seq::empty());
                assert(trailer_text(n) + "\n"@ == trailer_text(n).push('\n')
                    + Seq::<char>::empty());
                assert(trailer_text(n).last() != '\r') by {
                    crate::text::lemma_decimal(n as nat);
                    let digits = crate::text::decimal(n as nat);
                    assert(crate::text::is_digit(digits[digits.len() - 1]));
                }
                assert(crate::text::line_seq(result).last() == trailer_text(n));
            } else if crate::text::has_infix(crate::text::line_seq(body).last(), ": "@) {
                assert(body + "\n"@ == body.push('\n'));
                lemma_ended_trailer(body, n);
            } else {
                assert(body + "\n\n"@ == body.push('\n').push('\n'));
                lemma_ended_trailer(body.push('\n'), n);
            }
        },
    }
}

proof fn lemma_index_update(lines: Seq<Seq<char>>, in_block: bool, n: u64)
    requires
        n != 0,
        block_trailer_index(lines, in_block) is Some,
    ensures
        0 <= block_trailer_index(lines, in_block)->0 < lines.len(),
        block_trailer_index(
            lines.update(block_trailer_index(lines, in_block)->0, trailer_text(n)),
            in_block,
        ) == block_trailer_index(lines, in_block),
    decreases lines.len(),
{
    let i = block_trailer_index(lines, in_block)->0;
    lemma_trailer_text(n);
    if is_blank(lines.last()) || !is_trailer_line(lines.last()) {
        let next = !is_blank(lines.last());
        lemma_index_update(lines.drop_last(), next, n);
        assert(lines.update(i, trailer_text(n)).drop_last() == lines.drop_last().update(
            i,
            trailer_text(n),
        ));
    }
}

proof fn lemma_trailer_end(n: u64)
    ensures
        trailer_text(n).len() > 0,
        !crate::text::ends_with_char(trailer_text(n), '\r'),
{
    crate::text::lemma_decimal(n as nat);
    let digits = crate::text::decimal(n as nat);
    assert(crate::text::is_digit(digits[digits.len() - 1]));
    assert(trailer_text(n).last() == digits.last());
}

proof fn lemma_reset_ended(prefix: Seq<char>, a: u64, b: u64)
    requires
        a != 0,
        b != 0,
        crate::text::no_crlf(prefix),
        prefix.len() > 0 ==> prefix.last() == '\n',
    ensures
        with_pr_trailer(prefix + trailer_text(a) + "\n"@, b) == prefix + trailer_text(b) + "\n"@,
{
    reveal_strlit("\n");
    let ta = trailer_text(a);
    let tb = trailer_text(b);
    let text = prefix + ta + "\n"@;
    let head = crate::text::line_seq(prefix);
    lemma_trailer_text(a);
    lemma_trailer_text(b);
    lemma_trailer_end(a);
    crate::text::lemma_first_line(ta, Seq::empty());
    assert(ta.push('\n') + Seq::<char>::empty() == ta.push('\n'));
    assert(crate::text::without_cr(ta) == ta);
    assert(crate::text::line_seq(ta.push('\n')) == seq![ta]);
    assert(text == prefix + ta.push('\n'));
    if prefix.len() > 0 {
        crate::text::lemma_lines_split(prefix.drop_last(), ta.push('\n'));
        assert(prefix.drop_last().push('\n') == prefix);
    } else {
        assert(text == ta.push('\n'));
    }
    let lines = crate::text::line_seq(text);
    assert(lines == head.push(ta));
    let set = lines.update(lines.len() - 1, tb);
    crate::text::lemma_joined_lines(set);
    assert(set.drop_last() == head);
    crate::text::lemma_lines_terminated(prefix);
    assert(with_pr_trailer(text, b) == (prefix + tb).push('\n'));
}

/// Whether setting a trailer leaves no carriage return right before a line feed: where a
/// trailer line is replaced, the ends of lines are made line feeds, so that only a second
/// carriage return would stay; where one is added, the ends of lines stay as they are.
pub open spec fn ends_in_line_feeds(description: Seq<char>) -> bool {
    let lines = crate::text::line_seq(description);
    match block_trailer_index(lines, false) {
        Some(i) => forall|j: int|
            0 <= j < lines.len() && j != i && (j < lines.len() - 1 || crate::text::ends_with_char(
                description,
                '\n',
            )) ==> !crate::text::ends_with_char(#[trigger] lines[j], '\r'),
        None => crate::text::no_crlf(crate::text::trimmed_end(description)),
    }
}

/// Of two PRs that are set one after the other the second remains, as if the first had never
/// been set, where no carriage return is left before a line feed. So setting a PR again changes
/// nothing.
pub proof fn last_trailer_remains(description: Seq<char>, a: u64, b: u64)
    requires
        a != 0,
        b != 0,
        ends_in_line_feeds(description),
    ensures
        with_pr_trailer(with_pr_trailer(description, a), b) == with_pr_trailer(description, b),
{
    reveal_strlit("\n");
    reveal_strlit("\n\n");
    let lines = crate::text::line_seq(description);
    let body = crate::text::trimmed_end(description);
    let ended = crate::text::ends_with_char(description, '\n');
    lemma_trailer_text(a);
    lemma_trailer_end(a);
    match block_trailer_index(lines, false) {
        Some(i) => {
            lemma_index_update(lines, false, a);
            let set = lines.update(i, trailer_text(a));
            crate::text::lemma_lines_are_single(description);
            assert forall|j: int| 0 <= j < set.len() implies crate::text::single_line(
                #[trigger] set[j],
            ) by {
                if j != i {
                    assert(set[j] == lines[j]);
                }
            }
            assert forall|j: int|
                0 <= j < set.len() && (ended || j < set.len()
                    - 1) implies !crate::text::ends_with_char(#[trigger] set[j], '\r') by {
                if j != i {
                    assert(set[j] == lines[j]);
                }
            }
            if !ended {
                crate::text::lemma_last_line(description);
                assert(set.last().len() > 0);
            }
            crate::text::lemma_joined_read_back(set, ended);
            assert(set.update(i, trailer_text(b)) == lines.update(i, trailer_text(b)));
        },
        None => {
            crate::text::lemma_trimmed_end(description);
            if body.len() == 0 {
                let none = Seq::<char>::empty();
                lemma_reset_ended(none, a, b);
                assert(none + trailer_text(a) + "\n"@ == trailer_text(a) + "\n"@);
                assert(none + trailer_text(b) + "\n"@ == trailer_text(b) + "\n"@);
            } else if crate::text::has_infix(crate::text::line_seq(body).last(), ": "@) {
                lemma_reset_ended(body + "\n"@, a, b);
            } else {
                lemma_reset_ended(body + "\n\n"@, a, b);
            }
        },
    }
}

/// Joining lines keeps the trailer that they have.
proof fn lemma_joined_trailer(kept: Seq<Seq<char>>)
    requires
        forall|i: int| 0 <= i < kept.len() ==> crate::text::single_line(#[trigger] kept[i]),
    ensures
        pr_trailer(crate::text::joined(kept, "\n"@)) == block_trailer(kept, false),
        pr_trailer(crate::text::joined(kept, "\n"@).push('\n')) == block_trailer(kept, false),
{
    let text = crate::text::joined(kept, "\n"@);
    let f = |l: Seq<char>| crate::text::without_cr(l);
    if kept.len() == 0 {
        assert(crate::text::line_seq(text) == Seq::<Seq<char>>::empty());
        let none = Seq::<char>::empty();
        crate::text::lemma_first_line(none, none);
        assert(none.push('\n') + none == text.push('\n'));
        let lines = crate::text::line_seq(text.push('\n'));
        assert(lines == seq![none]);
        assert(is_blank(lines.last()));
        assert(lines.drop_last() == Seq::<Seq<char>>::empty());
    } else {
        let head = kept.drop_last();
        let last = kept[kept.len() - 1];
        crate::text::lemma_joined_lines(kept);
        assert forall|i: int| 0 <= i < head.len() implies crate::text::single_line(
            #[trigger] head[i],
        ) by {
            assert(head[i] == kept[i]);
        }
        crate::text::lemma_terminated(head, last);
        crate::text::lemma_index_of_char_is(last, '\n', last.len() as int);
        let lines = crate::text::line_seq(text);
        if last.len() == 0 {
            assert(lines == head.map_values(f));
            lemma_block_trailer_ends(head, lines);
            assert(is_blank(kept.last()));
        } else {
            assert(lines == head.map_values(f).push(last));
            assert forall|j: int| 0 <= j < kept.len() implies #[trigger] crate::text::trimmed(
                kept[j],
            ) == crate::text::trimmed(lines[j]) by {
                if j < head.len() {
                    assert(lines[j] == f(kept[j]));
                    crate::text::lemma_trimmed_without_cr(kept[j]);
                }
            }
            lemma_block_trailer_same(kept, lines, false);
        }
        assert(text.push('\n') == crate::text::terminated(kept) + Seq::<char>::empty());
        crate::text::lemma_terminated(kept, Seq::empty());
        assert(crate::text::line_seq(text.push('\n')) == kept.map_values(f));
        lemma_block_trailer_ends(kept, kept.map_values(f));
    }
}

/// Carriage returns at the ends of lines do not change the trailer.
proof fn lemma_block_trailer_ends(lines: Seq<Seq<char>>, read: Seq<Seq<char>>)
    requires
        read == lines.map_values(|l: Seq<char>| crate::text::without_cr(l)),
    ensures
        block_trailer(lines, false) == block_trailer(read, false),
{
    assert forall|j: int| 0 <= j < lines.len() implies #[trigger] crate::text::trimmed(lines[j])
        == crate::text::trimmed(read[j]) by {
        assert(read[j] == crate::text::without_cr(lines[j]));
        crate::text::lemma_trimmed_without_cr(lines[j]);
    }
    lemma_block_trailer_same(lines, read, false);
}

/// A value is read from a trailer line alone.
proof fn lemma_value_has_index(lines: Seq<Seq<char>>, in_block: bool)
    ensures
        block_trailer_index(lines, in_block) is None ==> block_trailer(lines, in_block) is None,
        block_trailer_index(lines, in_block) matches Some(i) ==> 0 <= i < lines.len()
            && is_trailer_line(lines[i]) && !is_blank(lines[i]),
    decreases lines.len(),
{
    if lines.len() > 0 {
        lemma_value_has_index(lines.drop_last(), false);
        lemma_value_has_index(lines.drop_last(), true);
    }
}

/// Without the trailer line, the block reads as the lines before it in the block do, where other
/// lines of the block follow.
proof fn lemma_block_without(lines: Seq<Seq<char>>, in_block: bool)
    requires
        block_trailer_index(lines, in_block) is Some,
    ensures
        ({
            let i = block_trailer_index(lines, in_block)->0;
            let kept = lines.take(i) + lines.skip(i + 1);
            let follows = in_block || (i < lines.len() - 1 && !is_blank(lines[i + 1]));
            block_trailer(kept, in_block) == block_trailer(lines.take(i), follows)
        }),
    decreases lines.len(),
{
    lemma_value_has_index(lines, in_block);
    let i = block_trailer_index(lines, in_block)->0;
    let kept = lines.take(i) + lines.skip(i + 1);
    if i == lines.len() - 1 {
        assert(kept == lines.take(i));
    } else {
        let head = lines.drop_last();
        let next = !is_blank(lines.last());
        lemma_block_without(head, next);
        assert(block_trailer_index(head, next) == Some(i));
        assert(head.take(i) == lines.take(i));
        assert(kept.last() == lines.last());
        assert(kept.drop_last() == head.take(i) + head.skip(i + 1));
        if next {
            lemma_index_follows(lines, in_block);
        } else if i < head.len() - 1 {
            assert(head[i + 1] == lines[i + 1]);
        }
    }
}

/// Between a trailer line and a later line of its block there is no blank line.
proof fn lemma_index_follows(lines: Seq<Seq<char>>, in_block: bool)
    requires
        block_trailer_index(lines, in_block) is Some,
        lines.len() > 0,
        !is_blank(lines.last()),
        block_trailer_index(lines, in_block)->0 < lines.len() - 1,
    ensures
        !is_blank(lines[block_trailer_index(lines, in_block)->0 + 1]),
    decreases lines.len(),
{
    let head = lines.drop_last();
    let i = block_trailer_index(head, true)->0;
    lemma_value_has_index(head, true);
    if i < head.len() - 1 {
        assert(!is_blank(head.last()));
        lemma_index_follows(head, true);
        assert(head[i + 1] == lines[i + 1]);
    }
}

/// After the trailer was removed, what is read is what the lines before it have: those of its
/// block, or those of the block before where it was a block of its own.
pub proof fn removal_uncovers_the_lines_before(description: Seq<char>)
    requires
        block_trailer_index(crate::text::line_seq(description), false) is Some,
    ensures
        ({
            let lines = crate::text::line_seq(description);
            let i = block_trailer_index(lines, false)->0;
            pr_trailer(without_pr_trailer(description)) == block_trailer(
                lines.take(i),
                !is_own_block(lines, i),
            )
        }),
{
    let lines = crate::text::line_seq(description);
    lemma_value_has_index(lines, false);
    let i = block_trailer_index(lines, false)->0;
    let kept = without_trailer_line(lines, i);
    let follows = i < lines.len() - 1 && !is_blank(lines[i + 1]);
    crate::text::lemma_lines_are_single(description);
    assert forall|k: int| 0 <= k < kept.len() implies crate::text::single_line(
        #[trigger] kept[k],
    ) by {
        let start = if i > 0 && is_own_block(lines, i) {
            i - 1
        } else {
            i
        };
        let at = if k < start {
            k
        } else {
            i + 1 + (k - start)
        };
        assert(kept[k] == lines[at]);
    }
    lemma_joined_trailer(kept);
    lemma_block_without(lines, false);
    if i > 0 {
        assert(lines.take(i).last() == lines[i - 1]);
        assert(lines.take(i).drop_last() == lines.take(i - 1));
    }
    if i > 0 && is_own_block(lines, i) {
        lemma_blanks_follow(lines, i + 1);
        lemma_skip_blanks(lines.take(i - 1), lines.skip(i + 1));
    }
}

/// Whether the last block of lines has at most one trailer line.
pub open spec fn has_one_trailer(lines: Seq<Seq<char>>) -> bool {
    block_trailer_index(lines, false) matches Some(i) ==> block_trailer_index(
        lines.take(i),
        true,
    ) is None
}

/// A description with at most one trailer line in its last block has no PR trailer after that
/// was removed. Where the trailer line was all of the block, the block before it comes last then,
/// so that must not have a trailer either.
pub proof fn removed_trailer_is_gone(description: Seq<char>)
    requires
        ({
            let lines = crate::text::line_seq(description);
            &&& has_one_trailer(lines)
            &&& block_trailer_index(lines, false) matches Some(i) ==> is_own_block(lines, i)
                ==> block_trailer(lines.take(i), false) is None
        }),
    ensures
        pr_trailer(without_pr_trailer(description)) is None,
{
    let lines = crate::text::line_seq(description);
    lemma_value_has_index(lines, false);
    if block_trailer_index(lines, false) is Some {
        removal_uncovers_the_lines_before(description);
        lemma_value_has_index(lines.take(block_trailer_index(lines, false)->0), true);
    }
}

/// Removing gives back what setting a trailer was added to, up to the white space at the end,
/// which becomes one line feed, and the ends of lines, which become line feeds.
pub proof fn removing_undoes_setting(description: Seq<char>, n: u64)
    requires
        n != 0,
        block_trailer_index(crate::text::line_seq(description), false) is None,
    ensures
        ({
            let body = crate::text::trimmed_end(description);
            let back = without_pr_trailer(with_pr_trailer(description, n));
            &&& back == crate::text::joined(crate::text::line_seq(body), "\n"@).push('\n')
            &&& crate::text::no_crlf(body) ==> back == body.push('\n')
        }),
{
    reveal_strlit("\n");
    reveal_strlit("\n\n");
    let body = crate::text::trimmed_end(description);
    let kept = crate::text::line_seq(body);
    let line = trailer_text(n);
    let ended = line.push('\n');
    let set = with_pr_trailer(description, n);
    let lines = crate::text::line_seq(set);
    let none = Seq::<char>::empty();
    lemma_trailer_text(n);
    lemma_trailer_end(n);
    crate::text::lemma_trimmed_end(description);
    crate::text::lemma_first_line(line, none);
    assert(ended + none == ended);
    assert(crate::text::without_cr(line) == line);
    assert(crate::text::line_seq(ended) == seq![line]);
    if body.len() == 0 {
        assert(set == ended);
        assert(without_trailer_line(lines, 0) == kept);
        assert(kept == Seq::<Seq<char>>::empty());
        assert(crate::text::joined(kept, "\n"@) == body);
    } else {
        crate::text::lemma_lines_ended(body);
        let shut = body.push('\n');
        if crate::text::has_infix(kept.last(), ": "@) {
            assert(set == shut + ended);
            crate::text::lemma_lines_split(body, ended);
            assert(lines == kept.push(line));
            assert(block_trailer_index(lines, false) == Some(kept.len() as int));
            crate::text::lemma_not_blank(kept.last());
            assert(!is_own_block(lines, kept.len() as int)) by {
                assert(lines[kept.len() - 1] == kept.last());
            }
            assert(without_trailer_line(lines, kept.len() as int) == kept);
        } else {
            assert(set == shut.push('\n') + ended);
            crate::text::lemma_lines_split(shut, ended);
            crate::text::lemma_lines_split(body, seq!['\n']);
            assert(shut + seq!['\n'] == shut.push('\n'));
            crate::text::lemma_first_line(none, none);
            assert(none.push('\n') + none == seq!['\n']);
            assert(crate::text::line_seq(seq!['\n']) == seq![none]);
            assert(lines == kept.push(none).push(line));
            let at = kept.len() + 1;
            assert(block_trailer_index(lines, false) == Some(at as int));
            assert(lines[at - 1] == none);
            assert(is_own_block(lines, at as int));
            assert(without_trailer_line(lines, at as int) == kept);
        }
        crate::text::lemma_joined_lines(kept);
        crate::text::lemma_lines_are_single(body);
        let text = crate::text::joined(kept, "\n"@);
        assert(text.last() == kept.last().last());
        assert(crate::text::ends_with_char(set, '\n'));
        if crate::text::no_crlf(body) {
            assert(crate::text::no_crlf(shut)) by {
                assert forall|i: int| 0 <= i < shut.len() - 1 && #[trigger] shut[i] == '\r' implies
                    shut[i + 1] != '\n' by {
                    assert(body[i] == '\r');
                    assert(i < body.len() - 1);
                }
            }
            crate::text::lemma_lines_terminated(shut);
            assert(text.push('\n') == crate::text::terminated(kept));
        }
    }
}

/// After a trailer line that ends its block there are blank lines alone.
proof fn lemma_blanks_follow(lines: Seq<Seq<char>>, from: int)
    requires
        block_trailer_index(lines, false) == Some(from - 1),
        from == lines.len() || is_blank(lines[from]),
    ensures
        forall|j: int| from <= j < lines.len() ==> is_blank(#[trigger] lines[j]),
    decreases lines.len(),
{
    lemma_value_has_index(lines, false);
    if from < lines.len() {
        let head = lines.drop_last();
        if is_blank(lines.last()) {
            if from < head.len() {
                assert(head[from] == lines[from]);
            }
            lemma_blanks_follow(head, from);
            assert forall|j: int| from <= j < lines.len() implies is_blank(
                #[trigger] lines[j],
            ) by {
                if j < head.len() {
                    assert(head[j] == lines[j]);
                }
            }
        } else {
            lemma_index_follows(lines, false);
        }
    }
}

/// Blank lines at the end do not change the trailer.
proof fn lemma_skip_blanks(a: Seq<Seq<char>>, blanks: Seq<Seq<char>>)
    requires
        forall|j: int| 0 <= j < blanks.len() ==> is_blank(#[trigger] blanks[j]),
    ensures
        block_trailer(a + blanks, false) == block_trailer(a, false),
    decreases blanks.len(),
{
    if blanks.len() == 0 {
        assert(a + blanks == a);
    } else {
        assert((a + blanks).last() == blanks[blanks.len() - 1]);
        assert((a + blanks).drop_last() == a + blanks.drop_last());
        lemma_skip_blanks(a, blanks.drop_last());
    }
}

// --- Commands ---

/// The template that prints one JSON object per commit.
pub const JJ_TEMPLATE: &'static str = r#""{\"commit\": " ++ json(self) ++ ", \"local_bookmarks\": " ++ json(local_bookmarks) ++ ", \"remote_bookmarks\": " ++ json(remote_bookmarks) ++ ", \"immutable\": " ++ json(self.immutable()) ++ ", \"is_trunk_tip\": " ++ json(self.contained_in("trunk()")) ++ ", \"empty\": " ++ json(self.empty()) ++ ", \"is_working_copy\": " ++ json(self.contained_in("@")) ++ ", \"conflict\": " ++ json(self.conflict()) ++ "}\n""#;

/// The revset of the commits that matter: those above `trunk()`, and its tip.
pub const ENTRIES_REVSET: &'static str = "trunk().. | trunk()";

/// The arguments that print what `template` makes of each revision of a revset.
pub open spec fn log_args(revset: Seq<char>, template: Seq<char>) -> Seq<Seq<char>> {
    seq!["log"@, "--no-graph"@, "-r"@, revset, "-T"@, template]
}

/// Resolve a revision string to a commit_id, which is what the command prints.
pub fn resolve_revision(rev: &str) -> (r: CommandLine)
    ensures
        r@ == crate::command::jj_view(
            log_args(rev@, "commit_id"@),
            "Failed to resolve revision"@,
            "Failed to resolve revision "@ + rev@,
        ),
{
    let parts: Vec<&str> = vec!["log", "--no-graph", "-r", rev, "-T", "commit_id"];
    let mut failure = "Failed to resolve revision ".to_owned();
    failure.append(rev);
    let r = CommandLine::jj(&parts, "Failed to resolve revision", failure.as_str());
    assert(r@.args == log_args(rev@, "commit_id"@));
    r
}

/// Print the entries above `trunk()`, and its tip, one JSON object per line.
pub fn load_entries() -> (r: CommandLine)
    ensures
        r@ == crate::command::jj_view(
            log_args(ENTRIES_REVSET@, JJ_TEMPLATE@),
            "Failed to run `jj log`"@,
            "jj log failed"@,
        ),
{
    load_entries_with_revset(ENTRIES_REVSET)
}

/// Print the entries of a revset, one JSON object per line.
pub fn load_entries_with_revset(revset: &str) -> (r: CommandLine)
    ensures
        r@ == crate::command::jj_view(
            log_args(revset@, JJ_TEMPLATE@),
            "Failed to run `jj log`"@,
            "jj log failed"@,
        ),
{
    let parts: Vec<&str> = vec!["log", "--no-graph", "-r", revset, "-T", JJ_TEMPLATE];
    let r = CommandLine::jj(&parts, "Failed to run `jj log`", "jj log failed");
    assert(r@.args == log_args(revset@, JJ_TEMPLATE@));
    r
}

/// Read the description of a revision.
pub fn read_description(revision: &str) -> (r: CommandLine)
    ensures
        r@ == crate::command::jj_view(
            log_args(revision@, "description"@),
            "Failed to run `jj log` for description"@,
            "jj log failed"@,
        ),
{
    let parts: Vec<&str> = vec!["log", "--no-graph", "-r", revision, "-T", "description"];
    let r = CommandLine::jj(&parts, "Failed to run `jj log` for description", "jj log failed");
    assert(r@.args == log_args(revision@, "description"@));
    r
}

/// The lines of a JSONL output, trimmed and without blank ones.
pub open spec fn json_lines_of(lines: Seq<Seq<char>>) -> Seq<Seq<char>>
    decreases lines.len(),
{
    if lines.len() == 0 {
        Seq::empty()
    } else {
        let before = json_lines_of(lines.drop_last());
        if is_blank(lines.last()) {
            before
        } else {
            before.push(crate::text::trimmed(lines.last()))
        }
    }
}

/// The lines of a JSONL output, trimmed and without blank ones.
pub fn json_lines(stdout: &str) -> (r: Vec<String>)
    ensures
        crate::text::views(r@) == json_lines_of(crate::text::line_seq(stdout@)),
{
    let all = lines(stdout);
    let ghost texts = crate::text::views(all@);
    let mut out: Vec<String> = Vec::new();
    let mut i: usize = 0;
    assert(crate::text::views(out@) == Seq::<Seq<char>>::empty());
    while i < all.len()
        invariant
            i <= all.len(),
            texts == crate::text::views(all@),
            crate::text::views(out@) == json_lines_of(texts.take(i as int)),
        decreases all.len() - i,
    {
        assert(texts.take(i + 1).drop_last() == texts.take(i as int));
        assert(texts.take(i + 1).last() == all@[i as int]@);
        let line = trim(all[i].as_str());
        if !line.as_str().is_empty() {
            let ghost before = out@;
            let ghost text = line@;
            out.push(line);
            assert(crate::text::views(out@) == crate::text::views(before).push(text));
        }
        i = i + 1;
    }
    assert(texts.take(i as int) == texts);
    out
}

/// Set the description of a revision via `jj describe --stdin`.
pub fn describe_stdin(revision: &str, description: &str) -> (r: CommandLine)
    ensures
        r@ == (crate::command::CommandView {
            program: "jj"@,
            args: seq!["describe"@, revision@, "--stdin"@],
            stdin: Some(description@),
            context: "Failed to spawn `jj describe`"@,
            failure: "jj describe failed"@,
        }),
{
    let parts: Vec<&str> = vec!["describe", revision, "--stdin"];
    let r = CommandLine {
        program: "jj".to_owned(),
        args: owned(&parts),
        stdin: Some(description.to_owned()),
        context: "Failed to spawn `jj describe`".to_owned(),
        failure: "jj describe failed".to_owned(),
    };
    assert(r@.args == seq!["describe"@, revision@, "--stdin"@]);
    r
}

/// Push a bookmark to the remote.
pub fn git_push_bookmark(bookmark: &Bookmark) -> (r: CommandLine)
    ensures
        r@ == crate::command::jj_view(
            seq!["git"@, "push"@, "--bookmark"@, bookmark@],
            "Failed to run `jj git push`"@,
            "jj git push --bookmark "@ + bookmark@ + " failed"@,
        ),
{
    let parts: Vec<&str> = vec!["git", "push", "--bookmark", bookmark.as_str()];
    let mut failure = "jj git push --bookmark ".to_owned();
    failure.append(bookmark.as_str());
    failure.append(" failed");
    let r = CommandLine::jj(&parts, "Failed to run `jj git push`", failure.as_str());
    assert(r@.args == seq!["git"@, "push"@, "--bookmark"@, bookmark@]);
    r
}

/// The flags that name bookmarks.
pub open spec fn bookmark_flags(names: Seq<Seq<char>>) -> Seq<Seq<char>>
    decreases names.len(),
{
    if names.len() == 0 {
        Seq::empty()
    } else {
        bookmark_flags(names.drop_last()).push("--bookmark"@).push(names.last())
    }
}

/// Push multiple bookmarks to the remote in a single command.
pub fn git_push_bookmarks(bookmarks: &Vec<Bookmark>) -> (r: CommandLine)
    ensures
        r@ == crate::command::jj_view(
            seq!["git"@, "push"@] + bookmark_flags(crate::types::bookmark_views(bookmarks@)),
            "Failed to run `jj git push`"@,
            "jj git push failed"@,
        ),
{
    let mut parts: Vec<&str> = vec!["git", "push"];
    let ghost head = crate::text::str_views(parts@);
    let ghost names = crate::types::bookmark_views(bookmarks@);
    let mut i: usize = 0;
    assert(head + bookmark_flags(names.take(0)) == head);
    while i < bookmarks.len()
        invariant
            i <= bookmarks.len(),
            names == crate::types::bookmark_views(bookmarks@),
            crate::text::str_views(parts@) == head + bookmark_flags(names.take(i as int)),
        decreases bookmarks.len() - i,
    {
        let ghost before = parts@;
        let ghost done = bookmark_flags(names.take(i as int));
        assert(names.take(i + 1).drop_last() == names.take(i as int));
        parts.push("--bookmark");
        parts.push(bookmarks[i].as_str());
        proof {
            assert(crate::text::str_views(parts@) == crate::text::str_views(before).push(
                "--bookmark"@,
            ).push(names[i as int]));
            assert((head + done).push("--bookmark"@).push(names[i as int]) == head + done.push(
                "--bookmark"@,
            ).push(names[i as int]));
        }
        i = i + 1;
    }
    assert(names.take(i as int) == names);
    assert(head == seq!["git"@, "push"@]);
    CommandLine::jj(&parts, "Failed to run `jj git push`", "jj git push failed")
}

/// Set a bookmark to point at a revision.
pub fn bookmark_set(name: &Bookmark, revision: &str) -> (r: CommandLine)
    ensures
        r@ == crate::command::jj_view(
            seq!["bookmark"@, "set"@, name@, "-r"@, revision@],
            "Failed to run `jj bookmark set`"@,
            "jj bookmark set "@ + name@ + " failed"@,
        ),
{
    let parts: Vec<&str> = vec!["bookmark", "set", name.as_str(), "-r", revision];
    let mut failure = "jj bookmark set ".to_owned();
    failure.append(name.as_str());
    failure.append(" failed");
    let r = CommandLine::jj(&parts, "Failed to run `jj bookmark set`", failure.as_str());
    assert(r@.args == seq!["bookmark"@, "set"@, name@, "-r"@, revision@]);
    r
}

/// Track a remote bookmark.
pub fn bookmark_track(name: &Bookmark, remote: &str) -> (r: CommandLine)
    ensures
        r@ == crate::command::jj_view(
            seq!["bookmark"@, "track"@, name@ + "@"@ + remote@],
            "Failed to run `jj bookmark track`"@,
            "jj bookmark track "@ + (name@ + "@"@ + remote@) + " failed"@,
        ),
{
    let mut refname = name.as_str().to_owned();
    refname.append("@");
    refname.append(remote);
    let parts: Vec<&str> = vec!["bookmark", "track", refname.as_str()];
    let mut failure = "jj bookmark track ".to_owned();
    failure.append(refname.as_str());
    failure.append(" failed");
    let r = CommandLine::jj(&parts, "Failed to run `jj bookmark track`", failure.as_str());
    assert(r@.args == seq!["bookmark"@, "track"@, name@ + "@"@ + remote@]);
    r
}

/// Delete a bookmark.
pub fn bookmark_delete(name: &Bookmark) -> (r: CommandLine)
    ensures
        r@ == crate::command::jj_view(
            seq!["bookmark"@, "delete"@, name@],
            "Failed to run `jj bookmark delete`"@,
            "jj bookmark delete "@ + name@ + " failed"@,
        ),
{
    let parts: Vec<&str> = vec!["bookmark", "delete", name.as_str()];
    let mut failure = "jj bookmark delete ".to_owned();
    failure.append(name.as_str());
    failure.append(" failed");
    let r = CommandLine::jj(&parts, "Failed to run `jj bookmark delete`", failure.as_str());
    assert(r@.args == seq!["bookmark"@, "delete"@, name@]);
    r
}

/// Rebase revisions onto a destination.
/// `sources` is a revset expression for `-s`, `dest` is a revset for `-d`.
pub fn rebase(sources: &str, dest: &str) -> (r: CommandLine)
    ensures
        r@ == crate::command::jj_view(
            seq!["rebase"@, "-s"@, sources@, "-d"@, dest@],
            "Failed to run `jj rebase`"@,
            "jj rebase -s "@ + sources@ + " -d "@ + dest@ + " failed"@,
        ),
{
    let parts: Vec<&str> = vec!["rebase", "-s", sources, "-d", dest];
    let mut failure = "jj rebase -s ".to_owned();
    failure.append(sources);
    failure.append(" -d ");
    failure.append(dest);
    failure.append(" failed");
    let r = CommandLine::jj(&parts, "Failed to run `jj rebase`", failure.as_str());
    assert(r@.args == seq!["rebase"@, "-s"@, sources@, "-d"@, dest@]);
    r
}

/// Abandon revisions matching a revset.
pub fn abandon(revset: &str) -> (r: CommandLine)
    ensures
        r@ == crate::command::jj_view(
            seq!["abandon"@, revset@],
            "Failed to run `jj abandon`"@,
            "jj abandon "@ + revset@ + " failed"@,
        ),
{
    let parts: Vec<&str> = vec!["abandon", revset];
    let mut failure = "jj abandon ".to_owned();
    failure.append(revset);
    failure.append(" failed");
    let r = CommandLine::jj(&parts, "Failed to run `jj abandon`", failure.as_str());
    assert(r@.args == seq!["abandon"@, revset@]);
    r
}

/// Print the git directory of the repo.
pub fn git_root() -> (r: CommandLine)
    ensures
        r@ == crate::command::jj_view(
            seq!["git"@, "root"@],
            "failed to run `jj git root`"@,
            "jj git root failed"@,
        ),
{
    let parts: Vec<&str> = vec!["git", "root"];
    let r = CommandLine::jj(&parts, "failed to run `jj git root`", "jj git root failed");
    assert(r@.args == seq!["git"@, "root"@]);
    r
}

// --- Which trailer counts ---

/// Whether the line `i` is in the last block of lines: it is not blank, and only blank lines
/// follow a blank line after it.
pub open spec fn in_last_block(lines: Seq<Seq<char>>, i: int) -> bool {
    &&& 0 <= i < lines.len()
    &&& !crate::text::all_white(lines[i])
    &&& forall|j: int, k: int|
        i < j < k < lines.len() && crate::text::all_white(#[trigger] lines[j])
            ==> crate::text::all_white(#[trigger] lines[k])
}

/// Whether no line from `i` on is blank.
spec fn in_run(lines: Seq<Seq<char>>, i: int) -> bool {
    &&& 0 <= i < lines.len()
    &&& forall|j: int| i <= j < lines.len() ==> !crate::text::all_white(#[trigger] lines[j])
}

proof fn lemma_blank(line: Seq<char>)
    ensures
        is_blank(line) <==> crate::text::all_white(line),
        is_blank(line) ==> !is_trailer_line(line),
{
    reveal_strlit("PR: #");
    crate::text::trimming_takes_white_space_at_the_ends(line);
}

proof fn lemma_value_found(lines: Seq<Seq<char>>, in_block: bool) -> (i: int)
    requires
        block_trailer(lines, in_block) is Some,
    ensures
        if in_block {
            in_run(lines, i)
        } else {
            in_last_block(lines, i)
        },
        trailer_value(lines[i]) == block_trailer(lines, in_block),
        forall|j: int| i < j < lines.len() ==> trailer_value(#[trigger] lines[j]) is None,
    decreases lines.len(),
{
    let at = lines.len() - 1;
    let head = lines.drop_last();
    lemma_blank(lines[at]);
    if is_blank(lines[at]) {
        let i = lemma_value_found(head, false);
        assert(lines[i] == head[i]);
        assert forall|j: int, k: int|
            i < j < k < lines.len() && crate::text::all_white(
                #[trigger] lines[j],
            ) implies crate::text::all_white(#[trigger] lines[k]) by {
            if k < at {
                assert(head[j] == lines[j] && head[k] == lines[k]);
            }
        }
        assert forall|j: int| i < j < lines.len() implies trailer_value(
            #[trigger] lines[j],
        ) is None by {
            if j < at {
                assert(head[j] == lines[j]);
            }
        }
        i
    } else if trailer_value(lines[at]) is Some {
        at
    } else {
        let i = lemma_value_found(head, true);
        assert(lines[i] == head[i]);
        assert forall|j: int| i <= j < lines.len() implies !crate::text::all_white(
            #[trigger] lines[j],
        ) by {
            if j < at {
                assert(head[j] == lines[j]);
            }
        }
        assert forall|j: int| i < j < lines.len() implies trailer_value(
            #[trigger] lines[j],
        ) is None by {
            if j < at {
                assert(head[j] == lines[j]);
            }
        }
        i
    }
}

proof fn lemma_value_only(lines: Seq<Seq<char>>, in_block: bool, i: int)
    requires
        if in_block {
            in_run(lines, i)
        } else {
            in_last_block(lines, i)
        },
        trailer_value(lines[i]) is Some,
        forall|j: int| i < j < lines.len() ==> trailer_value(#[trigger] lines[j]) is None,
    ensures
        block_trailer(lines, in_block) == trailer_value(lines[i]),
    decreases lines.len(),
{
    let at = lines.len() - 1;
    let head = lines.drop_last();
    lemma_blank(lines[at]);
    if i < at {
        assert(trailer_value(lines[at]) is None);
        assert(head[i] == lines[i]);
        assert forall|j: int| i < j < head.len() implies trailer_value(
            #[trigger] head[j],
        ) is None by {
            assert(head[j] == lines[j]);
        }
        if is_blank(lines[at]) {
            assert forall|j: int, k: int|
                i < j < k < head.len() && crate::text::all_white(
                    #[trigger] head[j],
                ) implies crate::text::all_white(#[trigger] head[k]) by {
                assert(head[j] == lines[j] && head[k] == lines[k]);
            }
            lemma_value_only(head, false, i);
        } else {
            assert forall|j: int| i <= j < head.len() implies !crate::text::all_white(
                #[trigger] head[j],
            ) by {
                assert(head[j] == lines[j]);
                if i < j && crate::text::all_white(lines[j]) {
                    assert(crate::text::all_white(lines[at]));
                }
            }
            lemma_value_only(head, true, i);
        }
    }
}

/// A line is a trailer exactly where it reads `PR: #` and something, white space around it aside;
/// it names the PR `n` exactly where that something is a number other than zero, with white space
/// around it or without.
pub proof fn trailers_name_prs(line: Seq<char>, n: u64)
    ensures
        is_trailer_line(line) <==> exists|rest: Seq<char>|
            crate::text::trimmed(line) == #[trigger] ("PR: #"@ + rest),
        trailer_value(line) == Some(n) <==> n != 0 && exists|rest: Seq<char>|
            crate::text::trimmed(line) == #[trigger] ("PR: #"@ + rest) && crate::text::parsed_u64(
                crate::text::trimmed(rest),
            ) == Some(n),
{
    let t = crate::text::trimmed(line);
    let p = "PR: #"@;
    if is_trailer_line(line) {
        assert(t =~= p + t.skip(p.len() as int));
    }
    if exists|rest: Seq<char>| t == #[trigger] (p + rest) {
        let rest = choose|rest: Seq<char>| t == #[trigger] (p + rest);
        assert(t.take(p.len() as int) =~= p);
    }
    assert forall|rest: Seq<char>| t == #[trigger] (p + rest) implies t.skip(p.len() as int)
        == rest by {
        assert(t.skip(p.len() as int) =~= rest);
    }
}

/// The PR of a description is read from the last trailer with a PR number in the last block of
/// lines, and from nothing else.
pub proof fn trailer_is_read_from_the_last_block(description: Seq<char>, n: u64)
    ensures
        ({
            let lines = crate::text::line_seq(description);
            pr_trailer(description) == Some(n) <==> exists|i: int|
                #[trigger] in_last_block(lines, i) && trailer_value(lines[i]) == Some(n) && (
                forall|j: int|
                    i < j < lines.len() ==> trailer_value(#[trigger] lines[j]) is None)
        }),
{
    let lines = crate::text::line_seq(description);
    if pr_trailer(description) == Some(n) {
        let i = lemma_value_found(lines, false);
        assert(in_last_block(lines, i));
    }
    if exists|i: int|
        #[trigger] in_last_block(lines, i) && trailer_value(lines[i]) == Some(n) && (forall|j: int|
            i < j < lines.len() ==> trailer_value(#[trigger] lines[j]) is None) {
        let i = choose|i: int|
            #[trigger] in_last_block(lines, i) && trailer_value(lines[i]) == Some(n) && (forall|
                j: int,
            |
                i < j < lines.len() ==> trailer_value(#[trigger] lines[j]) is None);
        lemma_value_only(lines, false, i);
    }
}

/// Whether the line `i` is the last trailer line of the last block.
pub open spec fn is_last_trailer(lines: Seq<Seq<char>>, i: int) -> bool {
    &&& in_last_block(lines, i)
    &&& is_trailer_line(lines[i])
    &&& forall|j: int| i < j < lines.len() ==> !is_trailer_line(#[trigger] lines[j])
}

proof fn lemma_index_found(lines: Seq<Seq<char>>, in_block: bool)
    requires
        block_trailer_index(lines, in_block) is Some,
    ensures
        ({
            let i = block_trailer_index(lines, in_block)->0;
            &&& in_block ==> in_run(lines, i)
            &&& !in_block ==> in_last_block(lines, i)
            &&& 0 <= i < lines.len()
            &&& is_trailer_line(lines[i])
            &&& forall|j: int| i < j < lines.len() ==> !is_trailer_line(#[trigger] lines[j])
        }),
    decreases lines.len(),
{
    let at = lines.len() - 1;
    let head = lines.drop_last();
    let i = block_trailer_index(lines, in_block)->0;
    lemma_blank(lines[at]);
    if is_blank(lines[at]) {
        lemma_index_found(head, false);
        assert(lines[i] == head[i]);
        assert forall|j: int, k: int|
            i < j < k < lines.len() && crate::text::all_white(
                #[trigger] lines[j],
            ) implies crate::text::all_white(#[trigger] lines[k]) by {
            if k < at {
                assert(head[j] == lines[j] && head[k] == lines[k]);
            }
        }
    } else if !is_trailer_line(lines[at]) {
        lemma_index_found(head, true);
        assert(lines[i] == head[i]);
        assert forall|j: int| i <= j < lines.len() implies !crate::text::all_white(
            #[trigger] lines[j],
        ) by {
            if j < at {
                assert(head[j] == lines[j]);
            }
        }
    }
    assert forall|j: int| i < j < lines.len() implies !is_trailer_line(#[trigger] lines[j]) by {
        if j < at {
            assert(head[j] == lines[j]);
        }
    }
}

proof fn lemma_index_only(lines: Seq<Seq<char>>, in_block: bool, i: int)
    requires
        in_block ==> in_run(lines, i),
        !in_block ==> in_last_block(lines, i),
        is_trailer_line(lines[i]),
        forall|j: int| i < j < lines.len() ==> !is_trailer_line(#[trigger] lines[j]),
    ensures
        block_trailer_index(lines, in_block) == Some(i),
    decreases lines.len(),
{
    let at = lines.len() - 1;
    let head = lines.drop_last();
    lemma_blank(lines[at]);
    if i < at {
        assert(!is_trailer_line(lines[at]));
        assert(head[i] == lines[i]);
        assert forall|j: int| i < j < head.len() implies !is_trailer_line(#[trigger] head[j]) by {
            assert(head[j] == lines[j]);
        }
        if is_blank(lines[at]) {
            assert forall|j: int, k: int|
                i < j < k < head.len() && crate::text::all_white(
                    #[trigger] head[j],
                ) implies crate::text::all_white(#[trigger] head[k]) by {
                assert(head[j] == lines[j] && head[k] == lines[k]);
            }
            lemma_index_only(head, false, i);
        } else {
            assert forall|j: int| i <= j < head.len() implies !crate::text::all_white(
                #[trigger] head[j],
            ) by {
                assert(head[j] == lines[j]);
                if i < j && crate::text::all_white(lines[j]) {
                    assert(crate::text::all_white(lines[at]));
                }
            }
            lemma_index_only(head, true, i);
        }
    }
}

/// Setting a trailer replaces the last trailer line of the last block and keeps all other lines.
/// Where there is none, the description is kept but for the white space at its end, and the
/// trailer follows as the last line: right after a line that is itself a trailer, with a blank
/// line between otherwise.
pub proof fn setting_changes_the_trailer_alone(description: Seq<char>, n: u64, i: int)
    ensures
        ({
            let lines = crate::text::line_seq(description);
            let r = with_pr_trailer(description, n);
            let body = crate::text::trimmed_end(description);
            let trailer = "PR: #"@ + crate::text::decimal(n as nat);
            let none = forall|j: int| #[trigger]
                in_last_block(lines, j) ==> !is_trailer_line(lines[j]);
            let ended = description.len() > 0 && description.last() == '\n';
            let replaced = crate::text::joined(
                lines.take(i) + seq![trailer] + lines.skip(i + 1),
                "\n"@,
            );
            &&& is_last_trailer(lines, i) && ended ==> r == replaced + "\n"@
            &&& is_last_trailer(lines, i) && !ended ==> r == replaced
            &&& none && body.len() == 0 ==> r == trailer + "\n"@
            &&& none && body.len() > 0 && crate::text::has_infix(
                crate::text::line_seq(body).last(),
                ": "@,
            ) ==> r == body + "\n"@ + trailer + "\n"@
            &&& none && body.len() > 0 && !crate::text::has_infix(
                crate::text::line_seq(body).last(),
                ": "@,
            ) ==> r == body + "\n\n"@ + trailer + "\n"@
        }),
{
    reveal_strlit("\n");
    let lines = crate::text::line_seq(description);
    let trailer = "PR: #"@ + crate::text::decimal(n as nat);
    if is_last_trailer(lines, i) {
        lemma_index_only(lines, false, i);
        assert(lines.update(i, trailer) =~= lines.take(i) + seq![trailer] + lines.skip(i + 1));
        let replaced = crate::text::joined(
            lines.take(i) + seq![trailer] + lines.skip(i + 1),
            "\n"@,
        );
        assert(replaced.push('\n') =~= replaced + "\n"@);
    }
    if block_trailer_index(lines, false) is Some {
        lemma_index_found(lines, false);
        assert(in_last_block(lines, block_trailer_index(lines, false)->0));
    }
}

/// Removing a trailer takes the last trailer line of the last block out, with the blank line
/// before it where it is all of its block, and keeps all other lines. Where there is none, the
/// description is kept as it is.
pub proof fn removing_takes_the_trailer_alone(description: Seq<char>, i: int)
    ensures
        ({
            let lines = crate::text::line_seq(description);
            let r = without_pr_trailer(description);
            let none = forall|j: int| #[trigger]
                in_last_block(lines, j) ==> !is_trailer_line(lines[j]);
            let alone = i > 0 && crate::text::all_white(lines[i - 1]) && (i + 1 == lines.len()
                || crate::text::all_white(lines[i + 1]));
            let from = if alone {
                i - 1
            } else {
                i
            };
            let kept = crate::text::joined(lines.take(from) + lines.skip(i + 1), "\n"@);
            let feed = |s: Seq<char>| s.len() > 0 && s.last() == '\n';
            &&& none ==> r == description
            &&& is_last_trailer(lines, i) && feed(description) && !feed(kept) ==> r == kept + "\n"@
            &&& is_last_trailer(lines, i) && (!feed(description) || feed(kept)) ==> r == kept
        }),
{
    reveal_strlit("\n");
    let lines = crate::text::line_seq(description);
    if is_last_trailer(lines, i) {
        lemma_index_only(lines, false, i);
        if i > 0 {
            lemma_blank(lines[i - 1]);
        }
        if i + 1 < lines.len() {
            lemma_blank(lines[i + 1]);
        }
        let kept = crate::text::joined(without_trailer_line(lines, i), "\n"@);
        assert(kept.push('\n') =~= kept + "\n"@);
    }
    if block_trailer_index(lines, false) is Some {
        lemma_index_found(lines, false);
        assert(in_last_block(lines, block_trailer_index(lines, false)->0));
    }
}

// --- Laws of the outputs and the flags ---

/// Each line of a JSONL output is taken on its own, in order: a blank line gives nothing, another
/// one is given without the white space around it.
pub proof fn json_lines_are_taken_one_by_one(
    a: Seq<Seq<char>>,
    b: Seq<Seq<char>>,
    line: Seq<char>,
)
    ensures
        json_lines_of(a + b) == json_lines_of(a) + json_lines_of(b),
        crate::text::all_white(line) ==> json_lines_of(seq![line]).len() == 0,
        !crate::text::all_white(line) ==> json_lines_of(seq![line]) == seq![
            crate::text::trimmed(line),
        ],
    decreases b.len(),
{
    let one = seq![line];
    assert(one.drop_last() =~= Seq::<Seq<char>>::empty());
    assert(json_lines_of(one.drop_last()) =~= Seq::<Seq<char>>::empty());
    lemma_blank(line);
    if b.len() == 0 {
        assert(a + b =~= a);
        assert(json_lines_of(a) + json_lines_of(b) =~= json_lines_of(a));
    } else {
        json_lines_are_taken_one_by_one(a, b.drop_last(), line);
        assert((a + b).drop_last() =~= a + b.drop_last());
        assert((a + b).last() == b.last());
    }
    assert(json_lines_of(a + b) =~= json_lines_of(a) + json_lines_of(b));
}

/// Each bookmark that is pushed has its flag, in order, and there are no others.
pub proof fn all_bookmarks_have_flags(names: Seq<Seq<char>>, i: int)
    ensures
        bookmark_flags(names).len() == 2 * names.len(),
        0 <= i < names.len() ==> bookmark_flags(names)[2 * i] == "--bookmark"@ && bookmark_flags(
            names,
        )[2 * i + 1] == names[i],
    decreases names.len(),
{
    if names.len() > 0 {
        all_bookmarks_have_flags(names.drop_last(), i);
    }
}

} // verus!
