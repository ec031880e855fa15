//! Word wrapping for graph row messages.
//!
//! The graph renderer prefixes every line of a row's message with the graph gutter, but performs
//! no wrapping of its own. Without help, a long PR title is emitted as a single long line, and
//! the terminal's soft wrap places the continuation at column 0, outside the gutter, visually
//! breaking the graph. This module wraps messages to the available width *before* they are
//! handed to the renderer, so continuation lines get the gutter prefix too.
//!
//! Messages contain ANSI SGR sequences (colors) and OSC 8 hyperlinks, so wrapping must measure
//! display width, not char count. `textwrap` handles this: it skips ANSI CSI and OSC escape
//! sequences when measuring and segmenting words, and measures wide (e.g. CJK) characters with
//! `unicode-width`.
use textwrap::{Options, WordSplitter};
use vstd::prelude::*;

use crate::text::{join, lines};

verus! {

/// The lines into which `textwrap::wrap` breaks a text for a width in display columns, without
/// hyphenation; `break_words` tells whether it breaks a word that is longer than the line.
pub uninterp spec fn wrapped_line(line: Seq<char>, width: usize, break_words: bool) -> Seq<
    Seq<char>,
>;

/// Whether a line takes fewer bytes than `width`.
pub open spec fn is_short(line: Seq<char>, width: usize) -> bool {
    crate::text::single_line(line) && crate::text::byte_len(line) < width
}

/// `textwrap::wrap` without hyphenation and without indentation. The result is given the name
/// `wrapped_line`; a line of fewer bytes than the width is kept, but for trailing spaces.
#[verifier::external_body]
fn wrap_line(line: &str, width: usize, break_words: bool) -> (r: Vec<String>)
    ensures
        crate::text::views(r@) == wrapped_line(line@, width, break_words),
        is_short(line@, width) ==> crate::text::views(r@) == seq![
            crate::text::without_trailing_spaces(line@),
        ],
{
    let options = Options::new(width)
        .word_splitter(WordSplitter::NoHyphenation)
        .break_words(break_words);
    textwrap::wrap(line, &options).into_iter().map(|l| l.into_owned()).collect()
}

/// The wrapped lines of several lines, one after the other.
pub open spec fn wrapped_lines(lines: Seq<Seq<char>>, width: usize) -> Seq<Seq<char>>
    decreases lines.len(),
{
    if lines.len() == 0 {
        Seq::empty()
    } else {
        wrapped_lines(lines.drop_last(), width) + wrapped_line(lines.last(), width, true)
    }
}

/// The lines without their trailing spaces.
pub open spec fn spaceless(lines: Seq<Seq<char>>) -> Seq<Seq<char>> {
    Seq::new(lines.len(), |i: int| crate::text::without_trailing_spaces(lines[i]))
}

/// Joins the wrapped lines of a message.
pub fn join_wrapped(wrapped: &Vec<String>) -> (r: String)
    ensures
        r@ == crate::text::joined(crate::text::views(wrapped@), "\n"@),
{
    join(wrapped, "\n")
}

/// Wrap each line of a (possibly multi-line) graph row message to `width`
/// display columns.
///
/// A word that is longer than the line is broken, as the terminal's soft wrap would do, rather
/// than left to overflow.
pub fn wrap_message(message: &str, width: usize) -> (r: String)
    ensures
        r@ == crate::text::joined(
            wrapped_lines(crate::text::line_seq(message@), width),
            "\n"@,
        ),
        (forall|i: int|
            0 <= i < crate::text::line_seq(message@).len() ==> is_short(
                #[trigger] crate::text::line_seq(message@)[i],
                width,
            )) ==> r@ == crate::text::joined(
            spaceless(crate::text::line_seq(message@)),
            "\n"@,
        ),
{
    let all = lines(message);
    let ghost texts = crate::text::views(all@);
    let mut out: Vec<String> = Vec::new();
    let mut i: usize = 0;
    assert(crate::text::views(out@) == wrapped_lines(texts.take(0), width));
    assert(crate::text::views(out@) == spaceless(texts).take(0));
    while i < all.len()
        invariant
            i <= all.len(),
            texts == crate::text::views(all@),
            texts == crate::text::line_seq(message@),
            crate::text::views(out@) == wrapped_lines(texts.take(i as int), width),
            (forall|j: int| 0 <= j < texts.len() ==> is_short(#[trigger] texts[j], width))
                ==> crate::text::views(out@) == spaceless(texts).take(i as int),
        decreases all.len() - i,
    {
        let mut part = wrap_line(all[i].as_str(), width, true);
        let ghost new = crate::text::views(part@);
        let ghost before = out@;
        assert(texts.take(i + 1).drop_last() == texts.take(i as int));
        assert(texts.take(i + 1).last() == all@[i as int]@);
        out.append(&mut part);
        proof {
            assert(crate::text::views(out@) == crate::text::views(before) + new);
            if forall|j: int| 0 <= j < texts.len() ==> is_short(#[trigger] texts[j], width) {
                assert(is_short(texts[i as int], width));
                assert(spaceless(texts).take(i + 1) == spaceless(texts).take(i as int) + new);
            }
        }
        i = i + 1;
    }
    assert(texts.take(i as int) == texts);
    assert(spaceless(texts).take(i as int) == spaceless(texts));
    join_wrapped(&out)
}

/// The width to wrap to: that of the terminal, or `None` when standard output is not a terminal
/// (so piped/redirected output is never wrapped) or its width is not known.
pub fn terminal_width(is_terminal: bool, columns: Option<u16>) -> (r: Option<usize>)
    ensures
        r is Some <==> is_terminal && columns is Some && columns->0 > 0,
        r is Some ==> r->0 == columns->0,
{
    if !is_terminal {
        return None;
    }
    match columns {
        Some(n) => if n > 0 {
            Some(n as usize)
        } else {
            None
        },
        None => None,
    }
}

/// Lines are wrapped one by one, in order, each to the same width and with long words broken.
pub proof fn lines_are_wrapped_one_by_one(
    a: Seq<Seq<char>>,
    b: Seq<Seq<char>>,
    line: Seq<char>,
    width: usize,
)
    ensures
        wrapped_lines(a + b, width) == wrapped_lines(a, width) + wrapped_lines(b, width),
        wrapped_lines(seq![line], width) == wrapped_line(line, width, true),
    decreases b.len(),
{
    let one = seq![line];
    assert(one.drop_last() =~= Seq::<Seq<char>>::empty());
    assert(wrapped_lines(one.drop_last(), width) =~= Seq::<Seq<char>>::empty());
    assert(one.last() == line);
    assert(wrapped_lines(one, width) =~= wrapped_line(line, width, true));
    if b.len() == 0 {
        assert(a + b =~= a);
    } else {
        lines_are_wrapped_one_by_one(a, b.drop_last(), line, width);
        assert((a + b).drop_last() =~= a + b.drop_last());
        assert((a + b).last() == b.last());
    }
    assert(wrapped_lines(a + b, width) =~= wrapped_lines(a, width) + wrapped_lines(b, width));
}

} // verus!
