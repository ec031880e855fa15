//! Typed identifiers and the revset expressions that select them.
use vstd::prelude::*;

verus! {

/// A `git`/`jj` commit SHA hash. Used by both `jj` and GitHub.
#[derive(Debug, PartialEq, Eq, PartialOrd, Ord, Hash)]
pub struct CommitId(pub String);

/// A `jj` change ID.
#[derive(Debug, PartialEq, Eq, PartialOrd, Ord, Hash)]
pub struct ChangeId(pub String);

/// A bookmark (branch) name.
#[derive(Debug, PartialEq, Eq, PartialOrd, Ord, Hash)]
pub struct Bookmark(pub String);

/// A git remote name (e.g. "origin", "fork").
#[derive(Debug, PartialEq, Eq, PartialOrd, Ord, Hash)]
pub struct Remote(pub String);

/// A GitHub owner (user or organization, e.g. "hydro-project").
#[derive(Debug, PartialEq, Eq, PartialOrd, Ord, Hash)]
pub struct Owner(pub String);

/// The `@git` tracking remote (local-only, not a real push target).
pub const REMOTE_GIT: &'static str = "git";

/// The default remote name.
pub const REMOTE_ORIGIN: &'static str = "origin";

impl View for CommitId {
    type V = Seq<char>;

    open spec fn view(&self) -> Seq<char> {
        self.0@
    }
}

impl View for ChangeId {
    type V = Seq<char>;

    open spec fn view(&self) -> Seq<char> {
        self.0@
    }
}

impl View for Bookmark {
    type V = Seq<char>;

    open spec fn view(&self) -> Seq<char> {
        self.0@
    }
}

impl View for Remote {
    type V = Seq<char>;

    open spec fn view(&self) -> Seq<char> {
        self.0@
    }
}

impl View for Owner {
    type V = Seq<char>;

    open spec fn view(&self) -> Seq<char> {
        self.0@
    }
}

impl Clone for CommitId {
    fn clone(&self) -> (r: Self)
        ensures
            r == *self,
    {
        CommitId(self.0.clone())
    }
}

impl Clone for ChangeId {
    fn clone(&self) -> (r: Self)
        ensures
            r == *self,
    {
        ChangeId(self.0.clone())
    }
}

impl Clone for Bookmark {
    fn clone(&self) -> (r: Self)
        ensures
            r == *self,
    {
        Bookmark(self.0.clone())
    }
}

impl Clone for Remote {
    fn clone(&self) -> (r: Self)
        ensures
            r == *self,
    {
        Remote(self.0.clone())
    }
}

impl Clone for Owner {
    fn clone(&self) -> (r: Self)
        ensures
            r == *self,
    {
        Owner(self.0.clone())
    }
}

impl CommitId {
    /// The hash as text.
    pub fn as_str(&self) -> (r: &str)
        ensures
            r@ == self@,
    {
        self.0.as_str()
    }
}

impl ChangeId {
    /// The change ID as text.
    pub fn as_str(&self) -> (r: &str)
        ensures
            r@ == self@,
    {
        self.0.as_str()
    }
}

impl Bookmark {
    /// The name as text.
    pub fn as_str(&self) -> (r: &str)
        ensures
            r@ == self@,
    {
        self.0.as_str()
    }
}

/// The texts of a list of commit IDs.
pub open spec fn commit_views(v: Seq<CommitId>) -> Seq<Seq<char>> {
    Seq::new(v.len(), |i: int| v[i]@)
}

/// The texts of a list of change IDs.
pub open spec fn change_views(v: Seq<ChangeId>) -> Seq<Seq<char>> {
    Seq::new(v.len(), |i: int| v[i]@)
}

/// The names of a list of bookmarks.
pub open spec fn bookmark_views(v: Seq<Bookmark>) -> Seq<Seq<char>> {
    Seq::new(v.len(), |i: int| v[i]@)
}

/// A jj revset expression. Wraps a `String` that can be passed directly to `-r`.
pub struct Revset(pub String);

impl View for Revset {
    type V = Seq<char>;

    open spec fn view(&self) -> Seq<char> {
        self.0@
    }
}

impl Revset {
    /// The expression as text.
    pub fn as_str(&self) -> (r: &str)
        ensures
            r@ == self@,
    {
        self.0.as_str()
    }
}

/// Convert a typed ID into a jj revset expression.
pub trait AsRevset {
    /// The text of the expression.
    spec fn revset_text(&self) -> Seq<char>;

    /// The expression that selects what `self` names.
    fn as_revset(&self) -> (r: Revset)
        ensures
            r@ == self.revset_text(),
    ;
}

impl AsRevset for CommitId {
    open spec fn revset_text(&self) -> Seq<char> {
        "commit_id("@ + self@ + ")"@
    }

    fn as_revset(&self) -> (r: Revset) {
        let mut s = "commit_id(".to_owned();
        s.append(self.0.as_str());
        s.append(")");
        Revset(s)
    }
}

impl AsRevset for ChangeId {
    open spec fn revset_text(&self) -> Seq<char> {
        "change_id("@ + self@ + ")"@
    }

    fn as_revset(&self) -> (r: Revset) {
        let mut s = "change_id(".to_owned();
        s.append(self.0.as_str());
        s.append(")");
        Revset(s)
    }
}

impl AsRevset for Bookmark {
    /// The name is quoted, so that special characters (e.g. `-`, `/`) are taken literally.
    open spec fn revset_text(&self) -> Seq<char> {
        "bookmark(\""@ + crate::text::escaped(self@) + "\")"@
    }

    fn as_revset(&self) -> (r: Revset) {
        let mut s = "bookmark(\"".to_owned();
        s.append(crate::text::escape(self.0.as_str()).as_str());
        s.append("\")");
        Revset(s)
    }
}

impl<R: AsRevset> AsRevset for &R {
    open spec fn revset_text(&self) -> Seq<char> {
        (**self).revset_text()
    }

    fn as_revset(&self) -> (r: Revset) {
        (**self).as_revset()
    }
}

/// The expressions of `items`, with ` | ` before each that follows some text.
pub open spec fn union_text<R: AsRevset>(items: Seq<R>) -> Seq<char>
    decreases items.len(),
{
    if items.len() == 0 {
        Seq::empty()
    } else {
        let head = union_text(items.drop_last());
        if head.len() == 0 {
            items.last().revset_text()
        } else {
            head + " | "@ + items.last().revset_text()
        }
    }
}

/// Join multiple revset-able items with `|` into a single revset expression.
pub fn revset_union<R: AsRevset>(items: &Vec<R>) -> (r: Revset)
    ensures
        r@ == union_text(items@),
{
    let mut buf = String::new();
    let mut i: usize = 0;
    while i < items.len()
        invariant
            i <= items.len(),
            buf@ == union_text(items@.take(i as int)),
        decreases items.len() - i,
    {
        assert(items@.take(i + 1).drop_last() == items@.take(i as int));
        if !buf.as_str().is_empty() {
            buf.append(" | ");
        }
        buf.append(items[i].as_revset().as_str());
        i = i + 1;
    }
    assert(items@.take(items.len() as int) == items@);
    Revset(buf)
}

/// A union of change IDs is their expressions joined with ` | `.
pub proof fn union_of_changes_is_joined(ids: Seq<ChangeId>)
    ensures
        union_text(ids) == crate::text::joined(
            Seq::new(ids.len(), |i: int| ids[i].revset_text()),
            " | "@,
        ),
        ids.len() > 0 ==> union_text(ids).len() > 0,
    decreases ids.len(),
{
    let texts = Seq::new(ids.len(), |i: int| ids[i].revset_text());
    if ids.len() > 0 {
        let head = ids.drop_last();
        union_of_changes_is_joined(head);
        assert(texts.drop_last() == Seq::new(head.len(), |i: int| head[i].revset_text()));
        reveal_strlit("change_id(");
        assert(ids.last().revset_text().len() > 0);
        if ids.len() == 1 {
            assert(union_text(head).len() == 0);
        }
    }
}

} // verus!
