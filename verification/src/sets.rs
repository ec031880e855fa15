//! Ordered sets and maps: the listing of number sets, and sets and maps keyed by text.
use std::collections::{BTreeMap, BTreeSet};
use vstd::prelude::*;

verus! {

/// What it means for references to numbers to be increasing.
proof fn lemma_increasing(s: Seq<&u64>)
    requires
        vstd::std_specs::btree::increasing_seq(s),
    ensures
        crate::order::ascending(crate::order::num_less(), s.unref()),
{
    broadcast use vstd::std_specs::btree::group_btree_axioms;
    broadcast use vstd::laws_cmp::group_laws_cmp;

    let t = s.unref();
    let less = crate::order::num_less();
    assert forall|i: int, j: int| 0 <= i < j < t.len() implies #[trigger] less(t[i], t[j]) by {
        assert(vstd::std_specs::cmp::OrdSpec::cmp_spec(&s[i], &s[j]) is Less);
    }
}

/// The numbers of `set` in ascending order.
pub fn set_numbers(set: &BTreeSet<u64>) -> (r: Vec<u64>)
    ensures
        r@ == crate::order::num_listing(set@),
        crate::order::ascending(crate::order::num_less(), r@),
        r@.to_set() == set@,
{
    broadcast use vstd::std_specs::btree::group_btree_axioms;

    let mut out: Vec<u64> = Vec::new();
    let ghost all = vstd::std_specs::iter::IteratorSpec::remaining(
        &vstd::std_specs::btree::spec_btree_keys_iter(set),
    );
    for x in it: set.iter()
        invariant
            out@ == it.seq().unref().take(it.index() as int),
            it.seq() == all,
    {
        out.push(*x);
    }
    proof {
        vstd::std_specs::btree::axiom_spec_btree_keys_iter(set);
        lemma_increasing(all);
        assert(out@ == all.unref());
        crate::order::lemma_num_less();
        crate::order::lemma_listing(crate::order::num_less(), out@, set@);
    }
    out
}

/// The keys of `map` in ascending order.
pub fn map_numbers<T>(map: &BTreeMap<u64, T>) -> (r: Vec<u64>)
    ensures
        r@ == crate::order::num_listing(map@.dom()),
        crate::order::ascending(crate::order::num_less(), r@),
        r@.to_set() == map@.dom(),
{
    broadcast use vstd::std_specs::btree::group_btree_axioms;

    let mut out: Vec<u64> = Vec::new();
    let ghost all = vstd::std_specs::iter::IteratorSpec::remaining(
        &vstd::std_specs::btree::spec_keys_iter(map),
    );
    for x in it: map.keys()
        invariant
            out@ == it.seq().unref().take(it.index() as int),
            it.seq() == all,
    {
        out.push(*x);
    }
    proof {
        vstd::std_specs::btree::axiom_spec_keys_iter(map);
        lemma_increasing(all);
        assert(out@ == all.unref());
        crate::order::lemma_num_less();
        crate::order::lemma_listing(crate::order::num_less(), out@, map@.dom());
    }
    out
}

/// Whether two sets have the same numbers.
pub fn same_numbers(a: &BTreeSet<u64>, b: &BTreeSet<u64>) -> (r: bool)
    ensures
        r == (a@ == b@),
{
    let x = set_numbers(a);
    let y = set_numbers(b);
    if x.len() != y.len() {
        return false;
    }
    let mut i: usize = 0;
    while i < x.len()
        invariant
            i <= x.len() == y.len(),
            x@ == crate::order::num_listing(a@),
            y@ == crate::order::num_listing(b@),
            x@.take(i as int) == y@.take(i as int),
        decreases x.len() - i,
    {
        if x[i] != y[i] {
            return false;
        }
        assert(x@.take(i + 1) == x@.take(i as int).push(x@[i as int]));
        assert(y@.take(i + 1) == y@.take(i as int).push(y@[i as int]));
        i = i + 1;
    }
    assert(x@.take(i as int) == x@ && y@.take(i as int) == y@);
    true
}

/// Adds the numbers of `more` to `set`.
pub fn add_all(set: &mut BTreeSet<u64>, more: &BTreeSet<u64>)
    ensures
        final(set)@ == old(set)@.union(more@),
{
    let list = set_numbers(more);
    let mut i: usize = 0;
    assert(set@ == old(set)@.union(list@.take(0).to_set()));
    while i < list.len()
        invariant
            i <= list.len(),
            set@ == old(set)@.union(list@.take(i as int).to_set()),
        decreases list.len() - i,
    {
        let ghost before = set@;
        set.insert(list[i]);
        proof {
            let next = list@.take(i + 1);
            assert(next == list@.take(i as int).push(list@[i as int]));
            lemma_push_to_set(list@.take(i as int), list@[i as int]);
            assert(set@ == old(set)@.union(next.to_set()));
        }
        i = i + 1;
    }
    assert(list@.take(i as int) == list@);
}

pub proof fn lemma_push_to_set<A>(s: Seq<A>, x: A)
    ensures
        s.push(x).to_set() == s.to_set().insert(x),
{
    let t = s.push(x);
    assert(t[s.len() as int] == x);
    assert forall|y: A| s.contains(y) implies t.contains(y) by {
        let i = choose|i: int| 0 <= i < s.len() && s[i] == y;
        assert(t[i] == y);
    }
    assert forall|y: A| t.contains(y) implies s.contains(y) || y == x by {
        let i = choose|i: int| 0 <= i < t.len() && t[i] == y;
        if i < s.len() {
            assert(s[i] == y);
        }
    }
    assert(t.to_set() =~= s.to_set().insert(x));
}

/// Whether the names are in strictly ascending order.
pub open spec fn sorted_names(names: Seq<String>) -> bool {
    crate::order::ascending(crate::order::name_less(), crate::text::views(names))
}

/// The first index whose name does not come before `s`.
fn position(names: &Vec<String>, s: &str) -> (r: usize)
    requires
        sorted_names(names@),
    ensures
        r <= names.len(),
        forall|i: int| 0 <= i < r ==> crate::text::text_less(#[trigger] names@[i]@, s@),
        forall|i: int| r <= i < names.len() ==> !crate::text::text_less(#[trigger] names@[i]@, s@),
{
    let ghost texts = crate::text::views(names@);
    let ghost less = crate::order::name_less();
    let mut lo: usize = 0;
    let mut hi: usize = names.len();
    while lo < hi
        invariant
            lo <= hi <= names.len(),
            sorted_names(names@),
            texts == crate::text::views(names@),
            less == crate::order::name_less(),
            forall|i: int| 0 <= i < lo ==> crate::text::text_less(#[trigger] names@[i]@, s@),
            forall|i: int|
                hi <= i < names.len() ==> !crate::text::text_less(#[trigger] names@[i]@, s@),
        decreases hi - lo,
    {
        let mid = lo + (hi - lo) / 2;
        if crate::text::less(names[mid].as_str(), s) {
            assert forall|i: int| 0 <= i < mid + 1 implies crate::text::text_less(
                #[trigger] names@[i]@,
                s@,
            ) by {
                if i < mid {
                    assert(less(texts[i], texts[mid as int]));
                    crate::text::lemma_text_less_transitive(texts[i], texts[mid as int], s@);
                }
            }
            lo = mid + 1;
        } else {
            assert forall|i: int| mid <= i < names.len() implies !crate::text::text_less(
                #[trigger] names@[i]@,
                s@,
            ) by {
                if i > mid && crate::text::text_less(names@[i]@, s@) {
                    assert(less(texts[mid as int], texts[i]));
                    crate::text::lemma_text_less_transitive(texts[mid as int], texts[i], s@);
                }
            }
            hi = mid;
        }
    }
    lo
}

/// A set of texts, kept in ascending order.
#[derive(Debug)]
pub struct TextSet {
    names: Vec<String>,
}

impl View for TextSet {
    type V = Set<Seq<char>>;

    closed spec fn view(&self) -> Set<Seq<char>> {
        crate::text::views(self.names@).to_set()
    }
}

impl TextSet {
    /// The names are in strictly ascending order.
    pub closed spec fn wf(&self) -> bool {
        sorted_names(self.names@)
    }

    /// The empty set.
    pub fn new() -> (r: Self)
        ensures
            r.wf(),
            r@ == Set::<Seq<char>>::empty(),
    {
        let r = TextSet { names: Vec::new() };
        assert(r@ == Set::<Seq<char>>::empty());
        r
    }

    /// Whether `s` is in the set.
    pub fn contains(&self, s: &str) -> (r: bool)
        requires
            self.wf(),
        ensures
            r == self@.contains(s@),
    {
        let at = position(&self.names, s);
        let ghost texts = crate::text::views(self.names@);
        let found = at < self.names.len() && crate::text::same_text(self.names[at].as_str(), s);
        proof {
            if found {
                assert(texts[at as int] == s@);
            } else if self@.contains(s@) {
                let i = choose|i: int| 0 <= i < texts.len() && texts[i] == s@;
                assert(self.names@[i]@ == s@);
                crate::text::lemma_text_less_irreflexive(s@);
                assert(at < i);
                let less = crate::order::name_less();
                assert(less(texts[at as int], texts[i]));
            }
        }
        found
    }

    /// Adds `s` to the set.
    pub fn insert(&mut self, s: &str)
        requires
            old(self).wf(),
        ensures
            final(self).wf(),
            final(self)@ == old(self)@.insert(s@),
    {
        let at = position(&self.names, s);
        let ghost before = crate::text::views(self.names@);
        if at < self.names.len() && crate::text::same_text(self.names[at].as_str(), s) {
            assert(before[at as int] == s@);
            assert(self@.insert(s@) == self@);
            return ;
        }
        self.names.insert(at, s.to_owned());
        proof {
            let after = crate::text::views(self.names@);
            assert(after == before.insert(at as int, s@));
            lemma_insert_ascending(before, at as int, s@);
            assert(after.to_set() == before.to_set().insert(s@)) by {
                lemma_insert_to_set(before, at as int, s@);
            }
        }
    }

    /// Whether the set is empty.
    pub fn is_empty(&self) -> (r: bool)
        ensures
            r == (self@ == Set::<Seq<char>>::empty()),
    {
        let r = self.names.len() == 0;
        proof {
            let texts = crate::text::views(self.names@);
            if r {
                assert(self@ == Set::<Seq<char>>::empty());
            } else {
                assert(texts.to_set().contains(texts[0]));
            }
        }
        r
    }

    /// The texts in ascending order.
    pub fn names(&self) -> (r: &Vec<String>)
        requires
            self.wf(),
        ensures
            crate::text::views(r@) == crate::order::name_listing(self@),
            crate::order::ascending(crate::order::name_less(), crate::text::views(r@)),
            crate::text::views(r@).to_set() == self@,
    {
        proof {
            crate::order::lemma_name_less();
            crate::order::lemma_listing(
                crate::order::name_less(),
                crate::text::views(self.names@),
                self@,
            );
        }
        &self.names
    }
}

proof fn lemma_insert_to_set(s: Seq<Seq<char>>, at: int, x: Seq<char>)
    requires
        0 <= at <= s.len(),
    ensures
        s.insert(at, x).to_set() == s.to_set().insert(x),
{
    let t = s.insert(at, x);
    assert(t[at] == x);
    assert forall|y: Seq<char>| s.contains(y) implies t.contains(y) by {
        let i = choose|i: int| 0 <= i < s.len() && s[i] == y;
        if i < at {
            assert(t[i] == y);
        } else {
            assert(t[i + 1] == y);
        }
    }
    assert forall|y: Seq<char>| t.contains(y) implies s.contains(y) || y == x by {
        let i = choose|i: int| 0 <= i < t.len() && t[i] == y;
        if i < at {
            assert(s[i] == y);
        } else if i > at {
            assert(s[i - 1] == y);
        }
    }
    assert(t.to_set() =~= s.to_set().insert(x));
}

proof fn lemma_insert_ascending(s: Seq<Seq<char>>, at: int, x: Seq<char>)
    requires
        0 <= at <= s.len(),
        crate::order::ascending(crate::order::name_less(), s),
        forall|i: int| 0 <= i < at ==> crate::text::text_less(#[trigger] s[i], x),
        forall|i: int| at <= i < s.len() ==> !crate::text::text_less(#[trigger] s[i], x),
        at < s.len() ==> s[at] != x,
    ensures
        crate::order::ascending(crate::order::name_less(), s.insert(at, x)),
{
    let t = s.insert(at, x);
    let less = crate::order::name_less();
    assert forall|i: int, j: int| 0 <= i < j < t.len() implies #[trigger] less(t[i], t[j]) by {
        if j < at {
            assert(less(s[i], s[j]));
        } else if j == at {
            assert(crate::text::text_less(s[i], x));
        } else {
            crate::text::lemma_text_less_total(x, s[at]);
            assert(!crate::text::text_less(s[at], x));
            if i > at {
                assert(less(s[i - 1], s[j - 1]));
            } else if i == at {
                if j - 1 > at {
                    assert(less(s[at], s[j - 1]));
                    crate::text::lemma_text_less_transitive(x, s[at], s[j - 1]);
                }
            } else {
                assert(less(s[i], s[j - 1]));
            }
        }
    }
}

/// A map from texts to numbers, kept in ascending order of the texts.
#[derive(Debug)]
pub struct TextMap {
    names: Vec<String>,
    numbers: Vec<u64>,
}

/// The map that takes each text of `keys` to the number at its place.
pub open spec fn zipped(keys: Seq<Seq<char>>, numbers: Seq<u64>) -> Map<Seq<char>, u64> {
    Map::new(|k: Seq<char>| keys.contains(k), |k: Seq<char>| numbers[keys.index_of(k)])
}

impl View for TextMap {
    type V = Map<Seq<char>, u64>;

    closed spec fn view(&self) -> Map<Seq<char>, u64> {
        zipped(crate::text::views(self.names@), self.numbers@)
    }
}

impl TextMap {
    /// The texts are in strictly ascending order, and each has a number.
    pub closed spec fn wf(&self) -> bool {
        &&& sorted_names(self.names@)
        &&& self.names.len() == self.numbers.len()
    }

    /// The empty map.
    pub fn new() -> (r: Self)
        ensures
            r.wf(),
            r@ == Map::<Seq<char>, u64>::empty(),
    {
        let r = TextMap { names: Vec::new(), numbers: Vec::new() };
        assert(r@ == Map::<Seq<char>, u64>::empty());
        r
    }

    /// The number of `s`.
    pub fn get(&self, s: &str) -> (r: Option<u64>)
        requires
            self.wf(),
        ensures
            r is Some <==> self@.contains_key(s@),
            r is Some ==> r->0 == self@[s@],
    {
        let at = position(&self.names, s);
        let ghost texts = crate::text::views(self.names@);
        if at < self.names.len() && crate::text::same_text(self.names[at].as_str(), s) {
            assert(texts[at as int] == s@);
            proof {
                lemma_ascending_index_of(texts, at as int);
            }
            return Some(self.numbers[at]);
        }
        proof {
            if texts.contains(s@) {
                let i = choose|i: int| 0 <= i < texts.len() && texts[i] == s@;
                assert(self.names@[i]@ == s@);
                crate::text::lemma_text_less_irreflexive(s@);
                assert(at < i);
                let less = crate::order::name_less();
                assert(less(texts[at as int], texts[i]));
            }
        }
        None
    }

    /// Gives `s` the number `n`.
    pub fn insert(&mut self, s: &str, n: u64)
        requires
            old(self).wf(),
        ensures
            final(self).wf(),
            final(self)@ == old(self)@.insert(s@, n),
    {
        let at = position(&self.names, s);
        let ghost before = crate::text::views(self.names@);
        let ghost numbers = self.numbers@;
        if at < self.names.len() && crate::text::same_text(self.names[at].as_str(), s) {
            self.numbers.set(at, n);
            proof {
                assert(before[at as int] == s@);
                assert forall|i: int| 0 <= i < before.len() implies before.index_of(
                    #[trigger] before[i],
                ) == i by {
                    lemma_ascending_index_of(before, i);
                }
                assert(self@ =~= old(self)@.insert(s@, n));
            }
            return ;
        }
        self.names.insert(at, s.to_owned());
        self.numbers.insert(at, n);
        proof {
            let after = crate::text::views(self.names@);
            assert(after == before.insert(at as int, s@));
            lemma_insert_ascending(before, at as int, s@);
            lemma_insert_to_set(before, at as int, s@);
            assert(after.to_set() == before.to_set().insert(s@));
            assert forall|k: Seq<char>| after.contains(k) <==> before.contains(k) || k == s@ by {
                assert(after.to_set().contains(k) <==> before.to_set().insert(s@).contains(k));
            }
            assert forall|k: Seq<char>| #[trigger] after.contains(k) implies self@[k] == old(
                self,
            )@.insert(s@, n)[k] by {
                let i = choose|i: int| 0 <= i < after.len() && after[i] == k;
                lemma_ascending_index_of(after, i);
                if k != s@ {
                    if i < at {
                        assert(before[i] == k);
                        lemma_ascending_index_of(before, i);
                    } else {
                        assert(i != at);
                        assert(before[i - 1] == k);
                        lemma_ascending_index_of(before, i - 1);
                    }
                } else {
                    assert(after[at as int] == s@);
                    lemma_ascending_index_of(after, at as int);
                }
            }
            assert(self@ =~= old(self)@.insert(s@, n));
        }
    }
}

proof fn lemma_ascending_index_of(s: Seq<Seq<char>>, i: int)
    requires
        crate::order::ascending(crate::order::name_less(), s),
        0 <= i < s.len(),
    ensures
        s.index_of(s[i]) == i,
{
    let j = s.index_of(s[i]);
    let less = crate::order::name_less();
    assert(s.contains(s[i]));
    assert(0 <= j < s.len() && s[j] == s[i]);
    crate::text::lemma_text_less_irreflexive(s[i]);
    if i < j {
        assert(less(s[i], s[j]));
    }
    if j < i {
        assert(less(s[j], s[i]));
    }
}

} // verus!
