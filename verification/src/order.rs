//! Strictly ascending lists, as the listing of a set in order.
use vstd::prelude::*;

verus! {

/// Whether each element of `s` comes before all that follow it.
pub open spec fn ascending<A>(less: spec_fn(A, A) -> bool, s: Seq<A>) -> bool {
    forall|i: int, j: int| 0 <= i < j < s.len() ==> #[trigger] less(s[i], s[j])
}

/// Whether `less` is a strict order.
pub open spec fn strict_order<A>(less: spec_fn(A, A) -> bool) -> bool {
    &&& forall|a: A| !#[trigger] less(a, a)
    &&& forall|a: A, b: A, c: A| #[trigger] less(a, b) && #[trigger] less(b, c) ==> less(a, c)
}

/// The elements of `set` in ascending order.
pub open spec fn listing<A>(less: spec_fn(A, A) -> bool, set: Set<A>) -> Seq<A> {
    choose|s: Seq<A>| ascending(less, s) && #[trigger] s.to_set() == set
}

proof fn lemma_ascending_same<A>(less: spec_fn(A, A) -> bool, a: Seq<A>, b: Seq<A>)
    requires
        strict_order(less),
        ascending(less, a),
        ascending(less, b),
        a.to_set() == b.to_set(),
    ensures
        a == b,
    decreases a.len(),
{
    if a.len() == 0 {
        if b.len() > 0 {
            assert(b.to_set().contains(b[0]));
        }
        assert(a == b);
    } else {
        assert(a.to_set().contains(a[0]));
        assert(b.contains(a[0]));
        assert(b.to_set().contains(b[0]));
        assert(a.contains(b[0]));
        let i = choose|i: int| 0 <= i < b.len() && b[i] == a[0];
        let j = choose|j: int| 0 <= j < a.len() && a[j] == b[0];
        if i > 0 {
            assert(less(b[0], b[i]));
            if j > 0 {
                assert(less(a[0], a[j]));
            }
        }
        assert(a[0] == b[0]);
        let x = a.drop_first();
        let y = b.drop_first();
        assert forall|e: A| x.to_set().contains(e) implies y.to_set().contains(e) by {
            let k = choose|k: int| 0 <= k < x.len() && x[k] == e;
            assert(a[k + 1] == e);
            assert(a.to_set().contains(e));
            assert(b.contains(e));
            let m = choose|m: int| 0 <= m < b.len() && b[m] == e;
            if m == 0 {
                assert(less(a[0], a[k + 1]));
            }
            assert(y[m - 1] == e);
        }
        assert forall|e: A| y.to_set().contains(e) implies x.to_set().contains(e) by {
            let k = choose|k: int| 0 <= k < y.len() && y[k] == e;
            assert(b[k + 1] == e);
            assert(b.to_set().contains(e));
            assert(a.contains(e));
            let m = choose|m: int| 0 <= m < a.len() && a[m] == e;
            if m == 0 {
                assert(less(b[0], b[k + 1]));
            }
            assert(x[m - 1] == e);
        }
        assert(x.to_set() == y.to_set());
        assert forall|p: int, q: int| 0 <= p < q < x.len() implies #[trigger] less(x[p], x[q]) by {
            assert(less(a[p + 1], a[q + 1]));
        }
        assert forall|p: int, q: int| 0 <= p < q < y.len() implies #[trigger] less(y[p], y[q]) by {
            assert(less(b[p + 1], b[q + 1]));
        }
        lemma_ascending_same(less, x, y);
        assert(a == seq![a[0]] + x);
        assert(b == seq![b[0]] + y);
    }
}

/// An ascending list is the listing of its elements.
pub proof fn lemma_listing<A>(less: spec_fn(A, A) -> bool, s: Seq<A>, set: Set<A>)
    requires
        strict_order(less),
        ascending(less, s),
        s.to_set() == set,
    ensures
        listing(less, set) == s,
{
    lemma_ascending_same(less, listing(less, set), s);
}

/// The order of the natural numbers.
pub open spec fn num_less() -> spec_fn(u64, u64) -> bool {
    |a: u64, b: u64| a < b
}

pub proof fn lemma_num_less()
    ensures
        strict_order(num_less()),
{
}

/// The numbers of `set` in ascending order.
pub open spec fn num_listing(set: Set<u64>) -> Seq<u64> {
    listing(num_less(), set)
}

spec fn num_position(s: Seq<u64>, x: u64) -> int
    decreases s.len(),
{
    if s.len() == 0 || s.last() < x {
        s.len() as int
    } else {
        num_position(s.drop_last(), x)
    }
}

proof fn lemma_num_position(s: Seq<u64>, x: u64)
    requires
        ascending(num_less(), s),
        !s.contains(x),
    ensures
        0 <= num_position(s, x) <= s.len(),
        forall|i: int| 0 <= i < num_position(s, x) ==> s[i] < x,
        forall|i: int| num_position(s, x) <= i < s.len() ==> x < s[i],
    decreases s.len(),
{
    let less = num_less();
    if s.len() > 0 {
        let t = s.drop_last();
        if s.last() < x {
            assert forall|i: int| 0 <= i < s.len() implies s[i] < x by {
                if i < s.len() - 1 {
                    assert(less(s[i], s[s.len() - 1]));
                }
            }
        } else {
            assert forall|i: int, j: int| 0 <= i < j < t.len() implies #[trigger] less(
                t[i],
                t[j],
            ) by {
                assert(less(s[i], s[j]));
            }
            assert(!t.contains(x)) by {
                if t.contains(x) {
                    let i = choose|i: int| 0 <= i < t.len() && t[i] == x;
                    assert(s[i] == x);
                }
            }
            lemma_num_position(t, x);
            assert(s[s.len() - 1] != x);
            assert forall|i: int| 0 <= i < s.len() - 1 implies s[i] == t[i] by {}
            assert forall|i: int| 0 <= i < num_position(s, x) implies s[i] < x by {
                assert(t[i] < x);
            }
            assert forall|i: int| num_position(s, x) <= i < s.len() implies x < s[i] by {
                if i < s.len() - 1 {
                    assert(x < t[i]);
                }
            }
        }
    }
}

/// A finite set of numbers is listed in ascending order.
pub proof fn lemma_num_listing(set: Set<u64>)
    requires
        set.finite(),
    ensures
        ascending(num_less(), num_listing(set)),
        num_listing(set).to_set() == set,
    decreases set.len(),
{
    if set.len() == 0 {
        assert(set =~= Set::empty());
        assert(Seq::<u64>::empty().to_set() =~= set);
    } else {
        let x = set.choose();
        let rest = set.remove(x);
        lemma_num_listing(rest);
        let s = num_listing(rest);
        assert(!s.contains(x)) by {
            assert(s.to_set().contains(x) <==> rest.contains(x));
        }
        lemma_num_position(s, x);
        let p = num_position(s, x);
        let t = s.insert(p, x);
        let less = num_less();
        assert forall|i: int, j: int| 0 <= i < j < t.len() implies #[trigger] less(
            t[i],
            t[j],
        ) by {
            if j < p {
                assert(less(s[i], s[j]));
            } else if j > p && i > p {
                assert(less(s[i - 1], s[j - 1]));
            } else if j > p && i < p {
                assert(less(s[i], s[j - 1]));
            }
        }
        assert(t.to_set() =~= set) by {
            assert(t[p] == x);
            assert forall|y: u64| set.contains(y) implies t.contains(y) by {
                if y != x {
                    assert(s.to_set().contains(y));
                    let i = choose|i: int| 0 <= i < s.len() && s[i] == y;
                    if i < p {
                        assert(t[i] == y);
                    } else {
                        assert(t[i + 1] == y);
                    }
                }
            }
            assert forall|y: u64| t.contains(y) implies set.contains(y) by {
                let i = choose|i: int| 0 <= i < t.len() && t[i] == y;
                if i < p {
                    assert(s.to_set().contains(s[i]));
                } else if i > p {
                    assert(s.to_set().contains(s[i - 1]));
                }
            }
        }
        assert(ascending(num_less(), t) && t.to_set() == set);
    }
}

/// The order of texts.
pub open spec fn name_less() -> spec_fn(Seq<char>, Seq<char>) -> bool {
    |a: Seq<char>, b: Seq<char>| crate::text::text_less(a, b)
}

pub proof fn lemma_name_less()
    ensures
        strict_order(name_less()),
{
    assert forall|a: Seq<char>| !#[trigger] name_less()(a, a) by {
        crate::text::lemma_text_less_irreflexive(a);
    }
    assert forall|a: Seq<char>, b: Seq<char>, c: Seq<char>| #[trigger]
        name_less()(a, b) && #[trigger] name_less()(b, c) implies name_less()(a, c) by {
        crate::text::lemma_text_less_transitive(a, b, c);
    }
}

/// The texts of `set` in ascending order.
pub open spec fn name_listing(set: Set<Seq<char>>) -> Seq<Seq<char>> {
    listing(name_less(), set)
}

} // verus!
