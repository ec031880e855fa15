//! Text as sequences of characters: white space, lines, trimming, joining, searching and
//! decimal numbers.
//!
//! Each executable function here is proved equal to a specification function over
//! `Seq<char>`, the view of `str` and `String`.
use vstd::prelude::*;

verus! {

/// `String::push` appends the character to the end of the string.
pub assume_specification[ String::push ](s: &mut String, c: char)
    ensures
        final(s)@ == old(s)@.push(c),
;

/// The texts of a list of strings.
pub open spec fn views(v: Seq<String>) -> Seq<Seq<char>> {
    Seq::new(v.len(), |i: int| v[i]@)
}

/// A list of strings has as many texts.
pub broadcast proof fn lemma_views_len(v: Seq<String>)
    ensures
        #[trigger] views(v).len() == v.len(),
{
}

/// The texts of a list of string slices.
pub open spec fn str_views(v: Seq<&str>) -> Seq<Seq<char>> {
    Seq::new(v.len(), |i: int| v[i]@)
}

// --- Conversion ---

/// The same strings.
pub fn copy_names(names: &Vec<String>) -> (r: Vec<String>)
    ensures
        views(r@) == views(names@),
{
    let mut out: Vec<String> = Vec::new();
    let ghost want = views(names@);
    let mut i: usize = 0;
    assert(views(out@) == want.take(0));
    while i < names.len()
        invariant
            i <= names.len(),
            want == views(names@),
            views(out@) == want.take(i as int),
        decreases names.len() - i,
    {
        let s = names[i].clone();
        let ghost before = out@;
        out.push(s);
        assert(views(out@) == views(before).push(want[i as int]));
        assert(want.take(i + 1) == want.take(i as int).push(want[i as int]));
        i = i + 1;
    }
    assert(want.take(i as int) == want);
    out
}

/// The strings that the slices hold.
pub fn owned(parts: &Vec<&str>) -> (r: Vec<String>)
    ensures
        views(r@) == str_views(parts@),
{
    let mut out: Vec<String> = Vec::new();
    let ghost want = str_views(parts@);
    let mut i: usize = 0;
    assert(views(out@) == want.take(0));
    while i < parts.len()
        invariant
            i <= parts.len(),
            want == str_views(parts@),
            views(out@) == want.take(i as int),
        decreases parts.len() - i,
    {
        let part: &str = parts[i];
        let ghost before = out@;
        out.push(part.to_owned());
        assert(views(out@) == views(before).push(want[i as int]));
        assert(want.take(i + 1) == want.take(i as int).push(want[i as int]));
        i = i + 1;
    }
    assert(want.take(i as int) == want);
    out
}

/// The characters of `s`.
pub fn to_chars(s: &str) -> (r: Vec<char>)
    ensures
        r@ == s@,
{
    let mut v: Vec<char> = Vec::new();
    for c in it: s.chars()
        invariant
            it.seq() == s@,
            v@ == s@.take(it.index() as int),
    {
        v.push(c);
    }
    v
}

/// The string made of the characters from `lo` up to, but not including, `hi`.
pub fn slice_to_string(v: &Vec<char>, lo: usize, hi: usize) -> (r: String)
    requires
        lo <= hi <= v.len(),
    ensures
        r@ == v@.subrange(lo as int, hi as int),
{
    let mut s = String::new();
    let mut i: usize = lo;
    while i < hi
        invariant
            lo <= i <= hi <= v.len(),
            s@ == v@.subrange(lo as int, i as int),
        decreases hi - i,
    {
        s.push(v[i]);
        i = i + 1;
    }
    s
}

// --- White space ---

/// The characters with the Unicode property `White_Space`.
pub open spec fn is_white_space(c: char) -> bool {
    let u = c as u32;
    ||| 0x09 <= u <= 0x0d
    ||| u == 0x20
    ||| u == 0x85
    ||| u == 0xa0
    ||| u == 0x1680
    ||| 0x2000 <= u <= 0x200a
    ||| u == 0x2028
    ||| u == 0x2029
    ||| u == 0x202f
    ||| u == 0x205f
    ||| u == 0x3000
}

/// Whether `c` has the Unicode property `White_Space`.
pub fn white_space(c: char) -> (r: bool)
    ensures
        r == is_white_space(c),
{
    let u: u32 = c as u32;
    (0x09 <= u && u <= 0x0d) || u == 0x20 || u == 0x85 || u == 0xa0 || u == 0x1680 || (0x2000 <= u
        && u <= 0x200a) || u == 0x2028 || u == 0x2029 || u == 0x202f || u == 0x205f || u == 0x3000
}

/// `s` without its leading white space.
pub open spec fn trimmed_start(s: Seq<char>) -> Seq<char>
    decreases s.len(),
{
    if s.len() > 0 && is_white_space(s[0]) {
        trimmed_start(s.drop_first())
    } else {
        s
    }
}

/// `s` without its trailing white space.
pub open spec fn trimmed_end(s: Seq<char>) -> Seq<char>
    decreases s.len(),
{
    if s.len() > 0 && is_white_space(s.last()) {
        trimmed_end(s.drop_last())
    } else {
        s
    }
}

/// `s` without its leading and trailing white space.
pub open spec fn trimmed(s: Seq<char>) -> Seq<char> {
    trimmed_end(trimmed_start(s))
}

/// `s` without its trailing spaces.
pub open spec fn without_trailing_spaces(s: Seq<char>) -> Seq<char>
    decreases s.len(),
{
    if s.len() > 0 && s.last() == ' ' {
        without_trailing_spaces(s.drop_last())
    } else {
        s
    }
}

/// The end of `v[lo..hi]` without its trailing white space.
fn trimmed_end_index(v: &Vec<char>, lo: usize, hi: usize) -> (r: usize)
    requires
        lo <= hi <= v.len(),
    ensures
        lo <= r <= hi,
        v@.subrange(lo as int, r as int) == trimmed_end(v@.subrange(lo as int, hi as int)),
{
    let mut end: usize = hi;
    while end > lo && white_space(v[end - 1])
        invariant
            lo <= end <= hi <= v.len(),
            trimmed_end(v@.subrange(lo as int, end as int)) == trimmed_end(
                v@.subrange(lo as int, hi as int),
            ),
        decreases end,
    {
        assert(v@.subrange(lo as int, end as int).drop_last() == v@.subrange(
            lo as int,
            end - 1,
        ));
        end = end - 1;
    }
    end
}

/// Removes leading and trailing white space.
pub fn trim(s: &str) -> (r: String)
    ensures
        r@ == trimmed(s@),
{
    let v = to_chars(s);
    let mut lo: usize = 0;
    assert(v@.subrange(0, v@.len() as int) == s@);
    while lo < v.len() && white_space(v[lo])
        invariant
            lo <= v.len(),
            trimmed_start(v@.subrange(lo as int, v@.len() as int)) == trimmed_start(s@),
        decreases v.len() - lo,
    {
        assert(v@.subrange(lo as int, v@.len() as int).drop_first() == v@.subrange(
            lo + 1,
            v@.len() as int,
        ));
        lo = lo + 1;
    }
    let hi = trimmed_end_index(&v, lo, v.len());
    slice_to_string(&v, lo, hi)
}

/// Removes trailing white space.
pub fn trim_end(s: &str) -> (r: String)
    ensures
        r@ == trimmed_end(s@),
{
    let v = to_chars(s);
    assert(v@.subrange(0, v@.len() as int) == s@);
    let hi = trimmed_end_index(&v, 0, v.len());
    slice_to_string(&v, 0, hi)
}

// --- Lines ---

/// The index of the first `c` in `s`, or the length of `s` when there is none.
pub open spec fn index_of_char(s: Seq<char>, c: char) -> int
    decreases s.len(),
{
    if s.len() == 0 || s[0] == c {
        0
    } else {
        1 + index_of_char(s.drop_first(), c)
    }
}

pub proof fn lemma_index_of_char(s: Seq<char>, c: char)
    ensures
        0 <= index_of_char(s, c) <= s.len(),
        forall|i: int| 0 <= i < index_of_char(s, c) ==> s[i] != c,
        index_of_char(s, c) < s.len() ==> s[index_of_char(s, c)] == c,
    decreases s.len(),
{
    if s.len() > 0 && s[0] != c {
        lemma_index_of_char(s.drop_first(), c);
        let k = index_of_char(s.drop_first(), c);
        assert forall|i: int| 0 <= i < index_of_char(s, c) implies s[i] != c by {
            if i > 0 {
                assert(s.drop_first()[i - 1] != c);
            }
        }
    }
}

/// `index_of_char` is determined by what `lemma_index_of_char` says of it.
pub proof fn lemma_index_of_char_is(s: Seq<char>, c: char, k: int)
    requires
        0 <= k <= s.len(),
        forall|i: int| 0 <= i < k ==> s[i] != c,
        k < s.len() ==> s[k] == c,
    ensures
        index_of_char(s, c) == k,
{
    lemma_index_of_char(s, c);
    let j = index_of_char(s, c);
    if j < k {
        assert(s[j] != c);
    }
    if k < j {
        assert(s[k] != c);
    }
}

/// `s` without one trailing carriage return.
pub open spec fn without_cr(s: Seq<char>) -> Seq<char> {
    if s.len() > 0 && s.last() == '\r' {
        s.drop_last()
    } else {
        s
    }
}

/// The lines of `s`: each ends at a line feed, or at a carriage return and a line feed, which
/// are not part of it; what follows the last line feed is a line when it is not empty.
pub open spec fn line_seq(s: Seq<char>) -> Seq<Seq<char>>
    decreases s.len(),
    via line_seq_decreases
{
    let k = index_of_char(s, '\n');
    if s.len() == 0 {
        Seq::empty()
    } else if k == s.len() {
        seq![s]
    } else {
        seq![without_cr(s.take(k))] + line_seq(s.skip(k + 1))
    }
}

#[via_fn]
proof fn line_seq_decreases(s: Seq<char>) {
    lemma_index_of_char(s, '\n');
}

/// A text that is not empty has a line.
pub proof fn lemma_line_seq_some(s: Seq<char>)
    requires
        s.len() > 0,
    ensures
        line_seq(s).len() > 0,
{
}

/// Splits `s` into its lines.
pub fn lines(s: &str) -> (r: Vec<String>)
    ensures
        views(r@) == line_seq(s@),
{
    let v = to_chars(s);
    let mut out: Vec<String> = Vec::new();
    let mut start: usize = 0;
    let mut i: usize = 0;
    assert(v@.skip(0) == s@);
    assert(views(out@) + line_seq(v@.skip(0)) == line_seq(s@));
    while i < v.len()
        invariant
            start <= i <= v.len(),
            forall|j: int| start <= j < i ==> v@[j] != '\n',
            views(out@) + line_seq(v@.skip(start as int)) == line_seq(s@),
        decreases v.len() - i,
    {
        if v[i] == '\n' {
            let end: usize = if i > start && v[i - 1] == '\r' {
                i - 1
            } else {
                i
            };
            let line = slice_to_string(&v, start, end);
            let ghost rest = v@.skip(start as int);
            proof {
                lemma_index_of_char_is(rest, '\n', i - start);
                assert(rest.take(i - start) == v@.subrange(start as int, i as int));
                assert(without_cr(rest.take(i - start)) == line@);
                assert(rest.skip(i - start + 1) == v@.skip(i + 1));
                assert(line_seq(rest) == seq![line@] + line_seq(v@.skip(i + 1)));
            }
            let ghost before = out@;
            out.push(line);
            proof {
                assert(views(out@) == views(before).push(line@));
                assert(views(before) + (seq![line@] + line_seq(v@.skip(i + 1))) == views(out@)
                    + line_seq(v@.skip(i + 1)));
            }
            start = i + 1;
        }
        i = i + 1;
    }
    let ghost rest = v@.skip(start as int);
    if start < v.len() {
        let line = slice_to_string(&v, start, v.len());
        let ghost before = out@;
        proof {
            lemma_index_of_char_is(rest, '\n', rest.len() as int);
            assert(line@ == rest);
        }
        out.push(line);
        assert(views(out@) == views(before) + seq![line@]);
    } else {
        assert(line_seq(rest) == Seq::<Seq<char>>::empty());
        assert(views(out@) + Seq::<Seq<char>>::empty() == views(out@));
    }
    out
}

// --- Joining and searching ---

/// The parts one after the other, with `sep` between neighbours.
pub open spec fn joined(parts: Seq<Seq<char>>, sep: Seq<char>) -> Seq<char>
    decreases parts.len(),
{
    if parts.len() == 0 {
        Seq::empty()
    } else if parts.len() == 1 {
        parts[0]
    } else {
        joined(parts.drop_last(), sep) + sep + parts.last()
    }
}

/// Joins strings with a separator.
pub fn join(parts: &Vec<String>, sep: &str) -> (r: String)
    ensures
        r@ == joined(views(parts@), sep@),
{
    let mut out = String::new();
    let mut i: usize = 0;
    while i < parts.len()
        invariant
            i <= parts.len(),
            out@ == joined(views(parts@).take(i as int), sep@),
        decreases parts.len() - i,
    {
        let ghost next = views(parts@).take(i + 1);
        assert(next.drop_last() == views(parts@).take(i as int));
        assert(next.last() == parts@[i as int]@);
        if i > 0 {
            out.append(sep);
        }
        out.append(parts[i].as_str());
        i = i + 1;
    }
    assert(views(parts@).take(parts.len() as int) == views(parts@));
    out
}

/// Whether `s` begins with `p`.
pub open spec fn has_prefix(s: Seq<char>, p: Seq<char>) -> bool {
    p.len() <= s.len() && s.take(p.len() as int) == p
}

/// Whether `p` occurs in `s`.
pub open spec fn has_infix(s: Seq<char>, p: Seq<char>) -> bool {
    exists|i: int| 0 <= i <= s.len() && #[trigger] has_prefix(s.skip(i), p)
}

/// Whether `v` has `p` at position `at`.
fn matches_at(v: &Vec<char>, at: usize, p: &Vec<char>) -> (r: bool)
    requires
        at <= v.len(),
    ensures
        r == has_prefix(v@.skip(at as int), p@),
{
    if v.len() - at < p.len() {
        return false;
    }
    let mut j: usize = 0;
    while j < p.len()
        invariant
            j <= p.len() <= v.len() - at,
            forall|k: int| 0 <= k < j ==> v@[at + k] == p@[k],
        decreases p.len() - j,
    {
        if v[at + j] != p[j] {
            assert(v@.skip(at as int).take(p@.len() as int)[j as int] != p@[j as int]);
            return false;
        }
        j = j + 1;
    }
    assert(v@.skip(at as int).take(p@.len() as int) == p@);
    true
}

/// Whether `s` begins with `p`.
pub fn starts_with(s: &str, p: &str) -> (r: bool)
    ensures
        r == has_prefix(s@, p@),
{
    let v = to_chars(s);
    let w = to_chars(p);
    assert(v@.skip(0) == v@);
    matches_at(&v, 0, &w)
}

/// What follows `p` at the start of `s`, if `s` begins with `p`.
pub fn strip_prefix(s: &str, p: &str) -> (r: Option<String>)
    ensures
        r is Some <==> has_prefix(s@, p@),
        r is Some ==> r->0@ == s@.skip(p@.len() as int),
{
    let v = to_chars(s);
    let w = to_chars(p);
    assert(v@.skip(0) == v@);
    if matches_at(&v, 0, &w) {
        Some(slice_to_string(&v, w.len(), v.len()))
    } else {
        None
    }
}

/// Whether `p` occurs in `s`.
pub fn contains(s: &str, p: &str) -> (r: bool)
    ensures
        r == has_infix(s@, p@),
{
    let v = to_chars(s);
    let w = to_chars(p);
    let mut i: usize = 0;
    while i < v.len()
        invariant
            i <= v.len(),
            v@ == s@,
            w@ == p@,
            forall|k: int| 0 <= k < i ==> !#[trigger] has_prefix(s@.skip(k), p@),
        decreases v.len() - i,
    {
        if matches_at(&v, i, &w) {
            return true;
        }
        i = i + 1;
    }
    matches_at(&v, i, &w)
}

/// Whether `s` ends with the character `c`.
pub open spec fn ends_with_char(s: Seq<char>, c: char) -> bool {
    s.len() > 0 && s.last() == c
}

/// Whether `s` ends with the character `c`.
pub fn ends_with(s: &str, c: char) -> (r: bool)
    ensures
        r == ends_with_char(s@, c),
{
    let v = to_chars(s);
    v.len() > 0 && v[v.len() - 1] == c
}

/// Whether two texts are the same.
pub fn same_text(a: &str, b: &str) -> (r: bool)
    ensures
        r == (a@ == b@),
{
    a.to_owned() == b.to_owned()
}

// --- Prefixes ---

/// How many bytes a character takes in UTF-8.
pub open spec fn utf8_width(c: char) -> nat {
    if (c as u32) < 0x80 {
        1
    } else if (c as u32) < 0x800 {
        2
    } else if (c as u32) < 0x10000 {
        3
    } else {
        4
    }
}

/// How many bytes a text takes in UTF-8.
pub open spec fn byte_len(s: Seq<char>) -> nat
    decreases s.len(),
{
    if s.len() == 0 {
        0
    } else {
        byte_len(s.drop_last()) + utf8_width(s.last())
    }
}

/// The longest prefix of `s` that takes at most `n` bytes in UTF-8.
pub open spec fn prefix_within(s: Seq<char>, n: nat) -> Seq<char>
    decreases s.len(),
{
    if s.len() == 0 || utf8_width(s[0]) > n {
        Seq::empty()
    } else {
        seq![s[0]] + prefix_within(s.drop_first(), (n - utf8_width(s[0])) as nat)
    }
}

/// The longest prefix of `s` that takes at most `n` bytes in UTF-8.
pub fn byte_prefix(s: &str, n: usize) -> (r: String)
    ensures
        r@ == prefix_within(s@, n as nat),
{
    let v = to_chars(s);
    let mut out = String::new();
    let mut left: usize = n;
    let mut i: usize = 0;
    assert(v@.skip(0) == s@);
    assert(out@ + prefix_within(v@.skip(0), left as nat) == prefix_within(s@, n as nat));
    while i < v.len()
        invariant
            i <= v.len(),
            out@ + prefix_within(v@.skip(i as int), left as nat) == prefix_within(s@, n as nat),
        decreases v.len() - i,
    {
        let u: u32 = v[i] as u32;
        let width: usize = if u < 0x80 {
            1
        } else if u < 0x800 {
            2
        } else if u < 0x10000 {
            3
        } else {
            4
        };
        let ghost rest = v@.skip(i as int);
        assert(rest[0] == v@[i as int]);
        if width > left {
            assert(prefix_within(rest, left as nat) == Seq::<char>::empty());
            assert(out@ + Seq::<char>::empty() == out@);
            return out;
        }
        assert(rest.drop_first() == v@.skip(i + 1));
        let ghost before = out@;
        out.push(v[i]);
        assert(before + (seq![v@[i as int]] + prefix_within(
            v@.skip(i + 1),
            (left - width) as nat,
        )) == out@ + prefix_within(v@.skip(i + 1), (left - width) as nat));
        left = left - width;
        i = i + 1;
    }
    assert(out@ + Seq::<char>::empty() == out@);
    out
}

/// The first `n` characters of `s`, or all of it.
pub open spec fn char_prefix_text(s: Seq<char>, n: nat) -> Seq<char> {
    if s.len() <= n {
        s
    } else {
        s.take(n as int)
    }
}

/// The first `n` characters of `s`, or all of it.
pub fn char_prefix(s: &str, n: usize) -> (r: String)
    ensures
        r@ == char_prefix_text(s@, n as nat),
{
    let v = to_chars(s);
    let end: usize = if v.len() <= n {
        v.len()
    } else {
        n
    };
    let r = slice_to_string(&v, 0, end);
    assert(r@ == char_prefix_text(s@, n as nat));
    r
}

// --- Case ---

/// `c` in lower case, if it is an ASCII letter.
pub open spec fn lower_char(c: char) -> char {
    if 'A' <= c <= 'Z' {
        (c as u32 + 32) as char
    } else {
        c
    }
}

/// `s` with its ASCII letters in lower case.
pub open spec fn lower_text(s: Seq<char>) -> Seq<char> {
    s.map_values(|c: char| lower_char(c))
}

/// `s` with its ASCII letters in lower case.
pub fn lower(s: &str) -> (r: String)
    ensures
        r@ == lower_text(s@),
{
    let v = to_chars(s);
    let mut out = String::new();
    let ghost want = lower_text(s@);
    let mut i: usize = 0;
    while i < v.len()
        invariant
            i <= v.len(),
            v@ == s@,
            want == lower_text(s@),
            out@ == want.take(i as int),
        decreases v.len() - i,
    {
        let c = v[i];
        if 'A' <= c && c <= 'Z' {
            let u: u8 = c as u8;
            out.push((u + 32) as char);
        } else {
            out.push(c);
        }
        assert(want.take(i + 1) == want.take(i as int).push(want[i as int]));
        i = i + 1;
    }
    assert(want.take(i as int) == want);
    out
}

// --- Quoting ---

/// `s` with a backslash before each backslash and each double quote.
pub open spec fn escaped(s: Seq<char>) -> Seq<char>
    decreases s.len(),
{
    if s.len() == 0 {
        Seq::empty()
    } else if s.last() == '\\' || s.last() == '"' {
        escaped(s.drop_last()).push('\\').push(s.last())
    } else {
        escaped(s.drop_last()).push(s.last())
    }
}

/// Puts a backslash before each backslash and each double quote.
pub fn escape(s: &str) -> (r: String)
    ensures
        r@ == escaped(s@),
{
    let v = to_chars(s);
    let mut out = String::new();
    let mut i: usize = 0;
    while i < v.len()
        invariant
            i <= v.len(),
            out@ == escaped(v@.take(i as int)),
        decreases v.len() - i,
    {
        assert(v@.take(i + 1).drop_last() == v@.take(i as int));
        if v[i] == '\\' || v[i] == '"' {
            out.push('\\');
        }
        out.push(v[i]);
        i = i + 1;
    }
    assert(v@.take(v@.len() as int) == v@);
    out
}

// --- Order ---

/// The order of texts: by the first character in which they differ, a prefix first.
pub open spec fn text_less(a: Seq<char>, b: Seq<char>) -> bool
    decreases a.len(),
{
    if b.len() == 0 {
        false
    } else if a.len() == 0 {
        true
    } else if a[0] != b[0] {
        a[0] < b[0]
    } else {
        text_less(a.drop_first(), b.drop_first())
    }
}

/// Whether `a` comes before `b`.
pub fn less(a: &str, b: &str) -> (r: bool)
    ensures
        r == text_less(a@, b@),
{
    let v = to_chars(a);
    let w = to_chars(b);
    let mut i: usize = 0;
    assert(v@.skip(0) == a@ && w@.skip(0) == b@);
    while i < v.len() && i < w.len() && v[i] == w[i]
        invariant
            i <= v.len(),
            i <= w.len(),
            text_less(v@.skip(i as int), w@.skip(i as int)) == text_less(a@, b@),
        decreases v.len() - i,
    {
        assert(v@.skip(i as int).drop_first() == v@.skip(i + 1));
        assert(w@.skip(i as int).drop_first() == w@.skip(i + 1));
        i = i + 1;
    }
    if i == w.len() {
        false
    } else if i == v.len() {
        true
    } else {
        v[i] < w[i]
    }
}

pub proof fn lemma_text_less_transitive(a: Seq<char>, b: Seq<char>, c: Seq<char>)
    requires
        text_less(a, b),
        text_less(b, c),
    ensures
        text_less(a, c),
    decreases a.len(),
{
    if a.len() > 0 && a[0] == b[0] && b[0] == c[0] {
        lemma_text_less_transitive(a.drop_first(), b.drop_first(), c.drop_first());
    }
}

pub proof fn lemma_text_less_irreflexive(a: Seq<char>)
    ensures
        !text_less(a, a),
    decreases a.len(),
{
    if a.len() > 0 {
        lemma_text_less_irreflexive(a.drop_first());
    }
}

pub proof fn lemma_text_less_total(a: Seq<char>, b: Seq<char>)
    ensures
        text_less(a, b) || text_less(b, a) || a == b,
    decreases a.len(),
{
    if a.len() > 0 && b.len() > 0 && a[0] == b[0] {
        lemma_text_less_total(a.drop_first(), b.drop_first());
        if a.drop_first() == b.drop_first() {
            assert(a == seq![a[0]] + a.drop_first());
            assert(b == seq![b[0]] + b.drop_first());
        }
    }
}

// --- Numbers ---

/// The decimal digit of `d`.
pub open spec fn digit_char(d: nat) -> char {
    (48 + d) as char
}

/// Whether `c` is an ASCII digit.
pub open spec fn is_digit(c: char) -> bool {
    '0' <= c <= '9'
}

/// The decimal notation of `n`.
pub open spec fn decimal(n: nat) -> Seq<char>
    decreases n,
{
    if n < 10 {
        seq![digit_char(n)]
    } else {
        decimal(n / 10).push(digit_char(n % 10))
    }
}

/// The number that a sequence of digits denotes.
pub open spec fn digits_value(s: Seq<char>) -> nat
    decreases s.len(),
{
    if s.len() == 0 {
        0
    } else {
        digits_value(s.drop_last()) * 10 + (s.last() as u32 - 48) as nat
    }
}

/// Whether `s` is one or more ASCII digits.
pub open spec fn is_number(s: Seq<char>) -> bool {
    s.len() > 0 && forall|i: int| 0 <= i < s.len() ==> is_digit(#[trigger] s[i])
}

/// The number that `s` denotes: digits, after an optional plus sign, whose value fits 64 bits.
pub open spec fn parsed_u64(s: Seq<char>) -> Option<u64> {
    let d = if s.len() > 0 && s[0] == '+' {
        s.drop_first()
    } else {
        s
    };
    if is_number(d) && digits_value(d) <= u64::MAX {
        Some(digits_value(d) as u64)
    } else {
        None
    }
}

/// The decimal notation of `n`.
pub fn u64_to_string(n: u64) -> (r: String)
    ensures
        r@ == decimal(n as nat),
    decreases n,
{
    let mut s = if n < 10 {
        String::new()
    } else {
        u64_to_string(n / 10)
    };
    let d: u8 = (n % 10) as u8;
    s.push((48 + d) as char);
    assert(n < 10 ==> s@ == seq![digit_char(n as nat)]);
    s
}

proof fn lemma_digits_value_prefix(s: Seq<char>, k: int)
    requires
        0 <= k <= s.len(),
    ensures
        digits_value(s.take(k)) <= digits_value(s),
    decreases s.len(),
{
    if k < s.len() {
        lemma_digits_value_prefix(s.drop_last(), k);
        assert(s.drop_last().take(k) == s.take(k));
    } else {
        assert(s.take(k) == s);
    }
}

/// Reads an unsigned 64-bit number.
pub fn parse_u64(s: &str) -> (r: Option<u64>)
    ensures
        r == parsed_u64(s@),
{
    let v = to_chars(s);
    let start: usize = if v.len() > 0 && v[0] == '+' {
        1
    } else {
        0
    };
    let ghost d = v@.skip(start as int);
    assert(d == if s@.len() > 0 && s@[0] == '+' {
        s@.drop_first()
    } else {
        s@
    });
    if start == v.len() {
        return None;
    }
    let mut acc: u64 = 0;
    let mut i: usize = start;
    while i < v.len()
        invariant
            start <= i <= v.len(),
            d == v@.skip(start as int),
            parsed_u64(s@) == (if is_number(d) && digits_value(d) <= u64::MAX {
                Some(digits_value(d) as u64)
            } else {
                None::<u64>
            }),
            forall|k: int| 0 <= k < i - start ==> is_digit(#[trigger] d[k]),
            acc == digits_value(d.take(i - start)),
        decreases v.len() - i,
    {
        let c = v[i];
        assert(d[i - start] == c);
        if c < '0' || '9' < c {
            assert(!is_digit(d[i - start]));
            return None;
        }
        let x: u64 = (c as u32 - 48) as u64;
        assert(d.take(i - start + 1).drop_last() == d.take(i - start));
        assert(digits_value(d.take(i - start + 1)) == acc * 10 + x);
        if acc > (u64::MAX - x) / 10 {
            proof {
                lemma_digits_value_prefix(d, i - start + 1);
            }
            return None;
        }
        acc = acc * 10 + x;
        i = i + 1;
    }
    assert(d.take(i - start) == d);
    Some(acc)
}

/// Decimal notation consists of digits and denotes the number it was made from.
pub proof fn lemma_decimal(n: nat)
    ensures
        is_number(decimal(n)),
        digits_value(decimal(n)) == n,
    decreases n,
{
    if n < 10 {
        assert(decimal(n).drop_last() == Seq::<char>::empty());
        assert(digits_value(Seq::<char>::empty()) == 0);
    } else {
        lemma_decimal(n / 10);
        assert(decimal(n).drop_last() == decimal(n / 10));
    }
}

/// Reading the decimal notation of a number gives the number back.
pub proof fn parse_of_decimal(n: u64)
    ensures
        parsed_u64(decimal(n as nat)) == Some(n),
{
    lemma_decimal(n as nat);
    assert(is_digit(decimal(n as nat)[0]));
}

// --- Lines and their joining ---

/// Whether `s` has no line feed.
pub open spec fn single_line(s: Seq<char>) -> bool {
    forall|i: int| 0 <= i < s.len() ==> #[trigger] s[i] != '\n'
}

/// The lines, each followed by a line feed.
pub open spec fn terminated(lines: Seq<Seq<char>>) -> Seq<char>
    decreases lines.len(),
{
    if lines.len() == 0 {
        Seq::empty()
    } else {
        terminated(lines.drop_last()) + lines.last().push('\n')
    }
}

/// The first line feed ends the first line.
pub proof fn lemma_first_line(a: Seq<char>, rest: Seq<char>)
    requires
        single_line(a),
    ensures
        line_seq(a.push('\n') + rest) == seq![without_cr(a)] + line_seq(rest),
{
    let s = a.push('\n') + rest;
    assert forall|i: int| 0 <= i < a.len() implies s[i] != '\n' by {
        assert(s[i] == a[i]);
    }
    lemma_index_of_char_is(s, '\n', a.len() as int);
    assert(s.take(a.len() as int) == a);
    assert(s.skip(a.len() as int + 1) == rest);
}

/// Lines that were ended by line feeds are read back, but for a carriage return at their ends.
pub proof fn lemma_terminated(lines: Seq<Seq<char>>, rest: Seq<char>)
    requires
        forall|i: int| 0 <= i < lines.len() ==> single_line(#[trigger] lines[i]),
    ensures
        line_seq(terminated(lines) + rest) == lines.map_values(|l: Seq<char>| without_cr(l))
            + line_seq(rest),
    decreases lines.len(),
{
    let f = |l: Seq<char>| without_cr(l);
    if lines.len() == 0 {
        assert(terminated(lines) + rest == rest);
        assert(lines.map_values(f) + line_seq(rest) == line_seq(rest));
    } else {
        let head = lines.drop_last();
        let tail = lines.last().push('\n') + rest;
        assert(terminated(lines) + rest == terminated(head) + tail);
        lemma_terminated(head, tail);
        lemma_first_line(lines.last(), rest);
        assert(lines.map_values(f) == head.map_values(f).push(f(lines.last())));
        assert(head.map_values(f) + (seq![without_cr(lines.last())] + line_seq(rest))
            == lines.map_values(f) + line_seq(rest));
    }
}

/// Joining with line feeds ends all lines but the last.
pub proof fn lemma_joined_lines(lines: Seq<Seq<char>>)
    requires
        lines.len() > 0,
    ensures
        joined(lines, "\n"@) == terminated(lines.drop_last()) + lines.last(),
    decreases lines.len(),
{
    reveal_strlit("\n");
    let head = lines.drop_last();
    if head.len() == 0 {
        assert(terminated(head) + lines.last() == lines[0]);
    } else {
        lemma_joined_lines(head);
        assert(terminated(head) == joined(head, "\n"@) + "\n"@);
    }
}

/// What follows a line feed does not change the lines before it.
pub proof fn lemma_lines_split(a: Seq<char>, rest: Seq<char>)
    ensures
        line_seq(a.push('\n') + rest) == line_seq(a.push('\n')) + line_seq(rest),
    decreases a.len(),
{
    let k = index_of_char(a, '\n');
    lemma_index_of_char(a, '\n');
    if k == a.len() {
        lemma_first_line(a, rest);
        lemma_first_line(a, Seq::empty());
        assert(a.push('\n') + Seq::<char>::empty() == a.push('\n'));
        assert(seq![without_cr(a)] + line_seq(Seq::empty()) == seq![without_cr(a)]);
    } else {
        let first = a.take(k);
        let more = a.skip(k + 1);
        assert(a.push('\n') + rest == first.push('\n') + (more.push('\n') + rest));
        assert(a.push('\n') == first.push('\n') + more.push('\n'));
        lemma_first_line(first, more.push('\n') + rest);
        lemma_first_line(first, more.push('\n'));
        lemma_lines_split(more, rest);
        assert(seq![without_cr(first)] + (line_seq(more.push('\n')) + line_seq(rest)) == seq![
            without_cr(first),
        ] + line_seq(more.push('\n')) + line_seq(rest));
    }
}

/// No line has a line feed in it.
pub proof fn lemma_lines_are_single(s: Seq<char>)
    ensures
        forall|i: int|
            0 <= i < line_seq(s).len() ==> single_line(#[trigger] line_seq(s)[i]),
    decreases s.len(),
{
    let k = index_of_char(s, '\n');
    lemma_index_of_char(s, '\n');
    if s.len() > 0 && k < s.len() {
        let rest = s.skip(k + 1);
        lemma_lines_are_single(rest);
        assert forall|i: int| 0 <= i < line_seq(s).len() implies single_line(
            #[trigger] line_seq(s)[i],
        ) by {
            if i == 0 {
                assert(line_seq(s)[0] == without_cr(s.take(k)));
            } else {
                assert(line_seq(s)[i] == line_seq(rest)[i - 1]);
            }
        }
    } else if s.len() > 0 {
        assert(single_line(s));
    }
}

/// Where the text does not end in a line feed, the last line is not empty.
pub proof fn lemma_last_line(s: Seq<char>)
    requires
        !ends_with_char(s, '\n'),
    ensures
        s.len() > 0 ==> line_seq(s).len() > 0 && line_seq(s).last().len() > 0,
    decreases s.len(),
{
    let k = index_of_char(s, '\n');
    lemma_index_of_char(s, '\n');
    if s.len() > 0 && k < s.len() {
        let rest = s.skip(k + 1);
        assert(rest.len() > 0 && rest.last() == s.last());
        lemma_last_line(rest);
    }
}

proof fn lemma_trimmed_start_drop_last(s: Seq<char>)
    requires
        s.len() > 0,
        is_white_space(s.last()),
    ensures
        trimmed_start(s).len() > 0 ==> trimmed_start(s).last() == s.last()
            && trimmed_start(s.drop_last()) == trimmed_start(s).drop_last(),
        trimmed_start(s).len() == 0 ==> trimmed_start(s.drop_last()).len() == 0,
    decreases s.len(),
{
    if is_white_space(s[0]) {
        let t = s.drop_first();
        if t.len() > 0 {
            lemma_trimmed_start_drop_last(t);
            assert(s.drop_last().drop_first() == t.drop_last());
        } else {
            assert(trimmed_start(t) == t);
        }
    } else {
        assert(s.drop_last().len() > 0 && s.drop_last()[0] == s[0]);
    }
}

/// A trailing carriage return is white space.
pub proof fn lemma_trimmed_without_cr(s: Seq<char>)
    ensures
        trimmed(without_cr(s)) == trimmed(s),
{
    if s.len() > 0 && s.last() == '\r' {
        lemma_trimmed_start_drop_last(s);
    }
}

/// A text whose ends are not white space is kept by trimming.
pub proof fn lemma_trimmed_same(s: Seq<char>)
    requires
        s.len() > 0,
        !is_white_space(s.first()),
        !is_white_space(s.last()),
    ensures
        trimmed(s) == s,
{
}

/// Whether `s` has no line that ends in a carriage return and a line feed.
pub open spec fn no_crlf(s: Seq<char>) -> bool {
    forall|i: int| 0 <= i < s.len() - 1 && #[trigger] s[i] == '\r' ==> s[i + 1] != '\n'
}

/// Lines are ended one after the other.
pub proof fn lemma_terminated_first(first: Seq<char>, rest: Seq<Seq<char>>)
    ensures
        terminated(seq![first] + rest) == first.push('\n') + terminated(rest),
    decreases rest.len(),
{
    let all = seq![first] + rest;
    if rest.len() == 0 {
        assert(all.drop_last() =~= Seq::empty());
        assert(terminated(all.drop_last()) + all.last().push('\n') == first.push('\n')
            + terminated(rest));
    } else {
        lemma_terminated_first(first, rest.drop_last());
        assert(all.drop_last() == seq![first] + rest.drop_last());
        assert(terminated(all) == first.push('\n') + (terminated(rest.drop_last())
            + rest.last().push('\n')));
    }
}

/// Ending its lines again gives back a text whose lines all end in single line feeds.
pub proof fn lemma_lines_terminated(s: Seq<char>)
    requires
        no_crlf(s),
        s.len() > 0 ==> s.last() == '\n',
    ensures
        terminated(line_seq(s)) == s,
    decreases s.len(),
{
    let k = index_of_char(s, '\n');
    lemma_index_of_char(s, '\n');
    if s.len() > 0 {
        assert(k < s.len());
        let first = s.take(k);
        let rest = s.skip(k + 1);
        assert forall|i: int|
            0 <= i < rest.len() - 1 && #[trigger] rest[i] == '\r' implies rest[i + 1] != '\n' by {
            assert(s[k + 1 + i] == '\r');
        }
        assert(rest.len() > 0 ==> rest.last() == s.last());
        lemma_lines_terminated(rest);
        assert(without_cr(first) == first) by {
            if k > 0 {
                assert(first.last() == s[k - 1]);
            }
        }
        lemma_terminated_first(first, line_seq(rest));
        assert(first.push('\n') + rest == s);
    }
}

/// Joined lines are read back, where no line that a line feed follows ends in a carriage
/// return, and where an empty one at the end is followed by a line feed.
pub proof fn lemma_joined_read_back(lines: Seq<Seq<char>>, ended: bool)
    requires
        lines.len() > 0,
        forall|i: int| 0 <= i < lines.len() ==> single_line(#[trigger] lines[i]),
        forall|i: int|
            0 <= i < lines.len() && (ended || i < lines.len() - 1) ==> !ends_with_char(
                #[trigger] lines[i],
                '\r',
            ),
        ended || lines.last().len() > 0,
    ensures
        ({
            let text = joined(lines, "\n"@);
            let whole = if ended {
                text.push('\n')
            } else {
                text
            };
            &&& line_seq(whole) == lines
            &&& ends_with_char(whole, '\n') == ended
        }),
{
    let f = |l: Seq<char>| without_cr(l);
    let head = lines.drop_last();
    let text = joined(lines, "\n"@);
    let last = lines[lines.len() - 1];
    lemma_joined_lines(lines);
    assert forall|i: int| 0 <= i < head.len() implies single_line(#[trigger] head[i]) by {
        assert(head[i] == lines[i]);
    }
    if ended {
        assert(text.push('\n') == terminated(lines) + Seq::<char>::empty());
        lemma_terminated(lines, Seq::empty());
        assert(lines.map_values(f) == lines) by {
            assert forall|i: int| 0 <= i < lines.len() implies #[trigger] lines.map_values(f)[i]
                == lines[i] by {
                assert(!ends_with_char(lines[i], '\r'));
            }
        }
        assert(lines + line_seq(Seq::<char>::empty()) == lines);
    } else {
        lemma_terminated(head, last);
        lemma_index_of_char_is(last, '\n', last.len() as int);
        assert(line_seq(last) == seq![last]);
        assert(head.map_values(f) == head) by {
            assert forall|i: int| 0 <= i < head.len() implies #[trigger] head.map_values(f)[i]
                == head[i] by {
                assert(!ends_with_char(lines[i], '\r'));
            }
        }
        assert(head + seq![last] == lines);
        assert(text.last() == last.last());
        assert(single_line(last));
    }
}

/// No white space is left at the end that was trimmed.
pub proof fn lemma_trimmed_end(s: Seq<char>)
    ensures
        trimmed_end(s).len() > 0 ==> !is_white_space(trimmed_end(s).last()),
    decreases s.len(),
{
    if s.len() > 0 && is_white_space(s.last()) {
        lemma_trimmed_end(s.drop_last());
    }
}

/// A text that ends in no white space has the same lines when a line feed ends it, and its last
/// line ends as it does.
pub proof fn lemma_lines_ended(s: Seq<char>)
    requires
        s.len() > 0,
        !is_white_space(s.last()),
    ensures
        line_seq(s.push('\n')) == line_seq(s),
        line_seq(s).len() > 0,
        line_seq(s).last().len() > 0,
        line_seq(s).last().last() == s.last(),
    decreases s.len(),
{
    let k = index_of_char(s, '\n');
    lemma_index_of_char(s, '\n');
    let ended = s.push('\n');
    let none = Seq::<char>::empty();
    if k == s.len() {
        lemma_first_line(s, none);
        assert(ended + none == ended);
        assert(without_cr(s) == s);
        assert(line_seq(ended) == seq![s] + line_seq(none));
        assert(seq![s] + line_seq(none) == seq![s]);
    } else {
        let rest = s.skip(k + 1);
        assert(rest.len() > 0 && rest.last() == s.last());
        lemma_lines_ended(rest);
        assert forall|i: int| 0 <= i < k implies ended[i] != '\n' by {
            assert(ended[i] == s[i]);
        }
        lemma_index_of_char_is(ended, '\n', k);
        assert(ended.take(k) == s.take(k));
        assert(ended.skip(k + 1) == rest.push('\n'));
    }
}

/// Something is left of a line that ends in no white space.
pub proof fn lemma_not_blank(s: Seq<char>)
    requires
        s.len() > 0,
        !is_white_space(s.last()),
    ensures
        trimmed(s).len() > 0,
    decreases s.len(),
{
    if is_white_space(s[0]) {
        assert(s.drop_first().last() == s.last());
        lemma_not_blank(s.drop_first());
    }
}

// --- Laws of quoting ---

/// What a string literal of characters and escape sequences stands for, where a backslash
/// stands for the character after it.
pub open spec fn unescaped(s: Seq<char>) -> Seq<char>
    decreases s.len(),
{
    if s.len() == 0 {
        Seq::empty()
    } else if s[0] == '\\' && s.len() > 1 {
        seq![s[1]] + unescaped(s.skip(2))
    } else {
        seq![s[0]] + unescaped(s.skip(1))
    }
}

/// Where a string literal ends that starts with `s`: at its first double quote that no
/// backslash escapes.
pub open spec fn literal_end(s: Seq<char>) -> int
    decreases s.len(),
{
    if s.len() == 0 || s[0] == '"' {
        0
    } else if s[0] == '\\' && s.len() > 1 {
        2 + literal_end(s.skip(2))
    } else {
        1 + literal_end(s.skip(1))
    }
}

/// Text that was escaped stands for itself in a string literal, and does not end it.
pub proof fn escaped_text_is_quoted(s: Seq<char>, rest: Seq<char>)
    ensures
        unescaped(escaped(s) + rest) == s + unescaped(rest),
        literal_end(escaped(s) + rest) == escaped(s).len() + literal_end(rest),
    decreases s.len(),
{
    if s.len() == 0 {
        assert(escaped(s) + rest == rest);
        assert(s + unescaped(rest) == unescaped(rest));
    } else {
        let c = s.last();
        let head = s.drop_last();
        if c == '\\' || c == '"' {
            let tail = seq!['\\', c] + rest;
            assert(escaped(s) + rest == escaped(head) + tail);
            escaped_text_is_quoted(head, tail);
            assert(tail.skip(2) == rest);
            assert(s + unescaped(rest) == head + (seq![c] + unescaped(rest)));
        } else {
            let tail = seq![c] + rest;
            assert(escaped(s) + rest == escaped(head) + tail);
            escaped_text_is_quoted(head, tail);
            assert(tail.skip(1) == rest);
            assert(s + unescaped(rest) == head + (seq![c] + unescaped(rest)));
        }
    }
}

// --- Laws of trimming and of prefixes ---

/// Whether all characters of `s` are white space.
pub open spec fn all_white(s: Seq<char>) -> bool {
    forall|i: int| 0 <= i < s.len() ==> is_white_space(#[trigger] s[i])
}

/// Trimming takes white space away, at the ends alone, and all that is there.
pub proof fn trimming_takes_white_space_at_the_ends(s: Seq<char>)
    ensures
        exists|a: Seq<char>, b: Seq<char>|
            #![trigger all_white(a), all_white(b)]
            all_white(a) && all_white(b) && s == a + trimmed(s) + b,
        trimmed(s).len() > 0 ==> !is_white_space(trimmed(s)[0]) && !is_white_space(
            trimmed(s).last(),
        ),
        all_white(s) <==> trimmed(s).len() == 0,
{
    let mid = trimmed_start(s);
    let a = lemma_trimmed_front(s);
    let b = lemma_trimmed_back(mid);
    assert(s =~= a + trimmed(s) + b);
    assert(all_white(a) && all_white(b));
    if trimmed(s).len() > 0 {
        assert(trimmed(s)[0] == mid[0]);
    } else {
        assert forall|i: int| 0 <= i < s.len() implies is_white_space(#[trigger] s[i]) by {
            if i < a.len() {
                assert(s[i] == a[i]);
            } else {
                assert(s[i] == b[i - a.len()]);
            }
        }
    }
    if all_white(s) && trimmed(s).len() > 0 {
        assert(s[a.len() as int] == trimmed(s)[0]);
    }
}

proof fn lemma_trimmed_front(s: Seq<char>) -> (a: Seq<char>)
    ensures
        all_white(a),
        s == a + trimmed_start(s),
        trimmed_start(s).len() > 0 ==> !is_white_space(trimmed_start(s)[0]),
    decreases s.len(),
{
    if s.len() > 0 && is_white_space(s[0]) {
        let a = lemma_trimmed_front(s.drop_first());
        let r = seq![s[0]] + a;
        assert(trimmed_start(s) == trimmed_start(s.drop_first()));
        assert(seq![s[0]] + s.drop_first() =~= s);
        assert(seq![s[0]] + (a + trimmed_start(s)) =~= r + trimmed_start(s));
        assert forall|i: int| 0 <= i < r.len() implies is_white_space(#[trigger] r[i]) by {
            if i > 0 {
                assert(r[i] == a[i - 1]);
            }
        }
        r
    } else {
        assert(s =~= Seq::<char>::empty() + trimmed_start(s));
        Seq::empty()
    }
}

proof fn lemma_trimmed_back(s: Seq<char>) -> (b: Seq<char>)
    ensures
        all_white(b),
        s == trimmed_end(s) + b,
        trimmed_end(s).len() > 0 ==> !is_white_space(trimmed_end(s).last()),
    decreases s.len(),
{
    if s.len() > 0 && is_white_space(s.last()) {
        let b = lemma_trimmed_back(s.drop_last());
        let r = b.push(s.last());
        assert(trimmed_end(s) == trimmed_end(s.drop_last()));
        assert(s.drop_last().push(s.last()) =~= s);
        assert((trimmed_end(s) + b).push(s.last()) =~= trimmed_end(s) + r);
        assert forall|i: int| 0 <= i < r.len() implies is_white_space(#[trigger] r[i]) by {
            if i < b.len() {
                assert(r[i] == b[i]);
            }
        }
        r
    } else {
        assert(s =~= trimmed_end(s) + Seq::<char>::empty());
        Seq::empty()
    }
}

/// A text of ASCII characters is shortened to as many characters as the bytes that are allowed; a
/// text that takes no more is kept.
pub proof fn ascii_is_shortened_by_characters(s: Seq<char>, n: nat)
    requires
        forall|i: int| 0 <= i < s.len() ==> (#[trigger] s[i] as u32) < 0x80,
    ensures
        prefix_within(s, n) == if s.len() <= n {
            s
        } else {
            s.take(n as int)
        },
    decreases s.len(),
{
    if s.len() > 0 && n > 0 {
        let rest = s.drop_first();
        assert forall|i: int| 0 <= i < rest.len() implies (#[trigger] rest[i] as u32) < 0x80 by {
            assert(rest[i] == s[i + 1]);
        }
        ascii_is_shortened_by_characters(rest, (n - 1) as nat);
        assert((s[0] as u32) < 0x80);
        if s.len() <= n {
            assert(seq![s[0]] + rest =~= s);
        } else {
            assert(seq![s[0]] + rest.take(n - 1) =~= s.take(n as int));
        }
    } else if s.len() > 0 {
        assert(prefix_within(s, n) =~= s.take(0));
    }
}

/// Without its trailing spaces a text is the same but for spaces at its end, and ends in none.
pub proof fn trailing_spaces_are_taken(s: Seq<char>)
    ensures
        ({
            let r = without_trailing_spaces(s);
            &&& r.len() <= s.len() && r == s.take(r.len() as int)
            &&& forall|i: int| r.len() <= i < s.len() ==> #[trigger] s[i] == ' '
            &&& r.len() > 0 ==> r.last() != ' '
        }),
    decreases s.len(),
{
    let r = without_trailing_spaces(s);
    if s.len() > 0 && s.last() == ' ' {
        trailing_spaces_are_taken(s.drop_last());
        assert(r =~= s.take(r.len() as int));
        assert forall|i: int| r.len() <= i < s.len() implies #[trigger] s[i] == ' ' by {
            if i < s.len() - 1 {
                assert(s.drop_last()[i] == s[i]);
            }
        }
    } else {
        assert(r =~= s.take(r.len() as int));
    }
}

/// A text is less than another exactly where they agree up to some place at which the first one
/// ends and the other does not, or has a lower character.
pub proof fn texts_are_ordered_by_characters(a: Seq<char>, b: Seq<char>)
    ensures
        text_less(a, b) <==> exists|k: int|
            0 <= k <= a.len() && k < b.len() && #[trigger] a.take(k) == b.take(k) && (k == a.len()
                || a[k] < b[k]),
    decreases a.len(),
{
    if a.len() > 0 && b.len() > 0 && a[0] == b[0] {
        let c = a.drop_first();
        let d = b.drop_first();
        texts_are_ordered_by_characters(c, d);
        if text_less(a, b) {
            let k = choose|k: int|
                0 <= k <= c.len() && k < d.len() && #[trigger] c.take(k) == d.take(k) && (k
                    == c.len() || c[k] < d[k]);
            assert(a.take(k + 1) =~= seq![a[0]] + c.take(k));
            assert(b.take(k + 1) =~= seq![b[0]] + d.take(k));
            assert(a.take(k + 1) == b.take(k + 1));
            assert(k + 1 < a.len() ==> a[k + 1] == c[k]);
            assert(b[k + 1] == d[k]);
        }
        if exists|k: int|
            0 <= k <= a.len() && k < b.len() && #[trigger] a.take(k) == b.take(k) && (k == a.len()
                || a[k] < b[k]) {
            let k = choose|k: int|
                0 <= k <= a.len() && k < b.len() && #[trigger] a.take(k) == b.take(k) && (k
                    == a.len() || a[k] < b[k]);
            assert(k > 0);
            assert(k < a.len() ==> c[k - 1] == a[k]);
            assert(d[k - 1] == b[k]);
            assert(c.take(k - 1) =~= a.take(k).drop_first());
            assert(d.take(k - 1) =~= b.take(k).drop_first());
        }
    } else {
        if text_less(a, b) {
            assert(a.take(0) =~= b.take(0));
        }
        assert forall|k: int|
            0 <= k <= a.len() && k < b.len() && #[trigger] a.take(k) == b.take(k) && (k == a.len()
                || a[k] < b[k]) implies text_less(a, b) by {
            if k > 0 {
                assert(a.take(k)[0] == a[0] && b.take(k)[0] == b[0]);
            }
        }
    }
}

} // verus!
