//! Confirmation prompts.
use vstd::prelude::*;

use crate::text::{lower, same_text, trim};

verus! {

/// The text that asks for confirmation. Default is yes (capital Y).
pub fn prompt(message: &str) -> (r: String)
    ensures
        r@ == message@ + " [Y/n] "@,
{
    let mut s = message.to_owned();
    s.append(" [Y/n] ");
    s
}

/// Whether an answer is a yes: it is empty, `y` or `yes`, in any case.
pub open spec fn is_yes(line: Seq<char>) -> bool {
    let answer = crate::text::lower_text(crate::text::trimmed(line));
    answer.len() == 0 || answer == "y"@ || answer == "yes"@
}

/// Whether the user confirms. `line` is the answer, or `None` where it could not be read: that
/// counts as a yes. If `auto_yes` is true, there is no need for an answer.
pub fn confirm(auto_yes: bool, line: Option<&str>) -> (r: bool)
    ensures
        r == (auto_yes || line is None || is_yes(line->0@)),
{
    if auto_yes {
        return true;
    }
    match line {
        None => true,
        Some(l) => {
            let answer = lower(trim(l).as_str());
            answer.as_str().is_empty() || same_text(answer.as_str(), "y") || same_text(
                answer.as_str(),
                "yes",
            )
        },
    }
}

/// An answer counts as a yes exactly where nothing but white space is in it, or `y` or `yes` with
/// each letter in either case, white space around it aside.
pub proof fn only_yes_is_a_yes(line: Seq<char>)
    ensures
        ({
            let s = crate::text::trimmed(line);
            is_yes(line) <==> s.len() == 0 || (s.len() == 1 && (s[0] == 'y' || s[0] == 'Y')) || (
            s.len() == 3 && (s[0] == 'y' || s[0] == 'Y') && (s[1] == 'e' || s[1] == 'E') && (s[2]
                == 's' || s[2] == 'S'))
        }),
{
    reveal_strlit("y");
    reveal_strlit("yes");
    let s = crate::text::trimmed(line);
    let a = crate::text::lower_text(s);
    assert(a.len() == s.len());
    if s.len() == 1 {
        lemma_lower(s[0]);
        assert(a[0] == crate::text::lower_char(s[0]));
        if a[0] == 'y' {
            assert(a =~= "y"@);
        } else {
            assert("y"@[0] == 'y');
        }
    }
    if s.len() == 3 {
        lemma_lower(s[0]);
        lemma_lower(s[1]);
        lemma_lower(s[2]);
        assert(a[0] == crate::text::lower_char(s[0]));
        assert(a[1] == crate::text::lower_char(s[1]));
        assert(a[2] == crate::text::lower_char(s[2]));
        if a[0] == 'y' && a[1] == 'e' && a[2] == 's' {
            assert(a =~= "yes"@);
        } else {
            assert("yes"@[0] == 'y' && "yes"@[1] == 'e' && "yes"@[2] == 's');
        }
    }
}

proof fn lemma_lower(c: char)
    ensures
        crate::text::lower_char(c) == 'y' <==> c == 'y' || c == 'Y',
        crate::text::lower_char(c) == 'e' <==> c == 'e' || c == 'E',
        crate::text::lower_char(c) == 's' <==> c == 's' || c == 'S',
{
}

} // verus!
