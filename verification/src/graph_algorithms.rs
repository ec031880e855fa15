//! Depth-first search and topological sorting of graphs whose nodes are numbers.
//!
//! A graph is given by the function that lists the neighbours of a node.
use std::collections::{BTreeMap, HashSet};
use vstd::prelude::*;

verus! {

/// A graph: the list of neighbours of each node.
pub type Graph = spec_fn(u64) -> Seq<u64>;

/// Whether `f` returns the neighbours that `g` lists.
pub open spec fn lists<F: Fn(u64) -> Vec<u64>>(f: F, g: Graph) -> bool {
    forall|x: u64, v: Vec<u64>| #[trigger] call_ensures(f, (x,), v) ==> v@ == g(x)
}

/// Whether consecutive nodes of `c` are linked: each is a neighbour of the next.
pub open spec fn chain(g: Graph, c: Seq<u64>) -> bool {
    &&& c.len() > 0
    &&& forall|i: int| 0 <= i < c.len() - 1 ==> #[trigger] g(c[i + 1]).contains(c[i])
}

/// Whether `x` is `n` itself or is reached from it through neighbours.
pub open spec fn reaches(g: Graph, n: u64, x: u64) -> bool {
    exists|c: Seq<u64>| #[trigger] chain(g, c) && c[0] == x && c.last() == n
}

/// Whether `c` is a cycle that lists each of its nodes once: each node is a neighbour of the
/// next, and the last one of the first.
pub open spec fn is_cycle(g: Graph, c: Seq<u64>) -> bool {
    &&& chain(g, c)
    &&& c.no_duplicates()
    &&& g(c[0]).contains(c.last())
}

/// Whether one of the nodes reaches all of `c`.
pub open spec fn reached_from(g: Graph, nodes: Seq<u64>, c: Seq<u64>) -> bool {
    exists|n: u64| #[trigger]
        nodes.contains(n) && forall|i: int| 0 <= i < c.len() ==> reaches(g, n, #[trigger] c[i])
}

/// How many node numbers there are.
pub open spec fn id_count() -> nat {
    Set::<u64>::full().len()
}

/// There are more node numbers than a list without repetition that lacks one of them holds.
proof fn lemma_id_count(s: Seq<u64>, x: u64)
    requires
        s.no_duplicates(),
        !s.contains(x),
    ensures
        s.len() < id_count(),
{
    broadcast use vstd::set_lib::full_set_properties;

    let t = s.push(x);
    assert(t.no_duplicates());
    t.unique_seq_to_set();
    vstd::set_lib::lemma_len_subset(t.to_set(), Set::<u64>::full());
}

/// A node reaches itself.
pub proof fn lemma_reaches_self(g: Graph, n: u64)
    ensures
        reaches(g, n, n),
{
    let c = seq![n];
    assert(chain(g, c) && c[0] == n && c.last() == n);
}

/// A node reaches what its neighbours reach.
pub proof fn lemma_reaches_step(g: Graph, n: u64, m: u64, x: u64)
    requires
        g(n).contains(m),
        reaches(g, m, x),
    ensures
        reaches(g, n, x),
{
    let c = choose|c: Seq<u64>| #[trigger] chain(g, c) && c[0] == x && c.last() == m;
    let d = c.push(n);
    assert forall|i: int| 0 <= i < d.len() - 1 implies #[trigger] g(d[i + 1]).contains(d[i]) by {
        if i < c.len() - 1 {
            assert(g(c[i + 1]).contains(c[i]));
        }
    }
    assert(chain(g, d) && d[0] == x && d.last() == n);
}

/// What a node reaches is the node itself or is reached by a neighbour.
pub proof fn lemma_reaches_cases(g: Graph, n: u64, x: u64)
    requires
        reaches(g, n, x),
    ensures
        x == n || exists|m: u64| #[trigger] g(n).contains(m) && reaches(g, m, x),
{
    let c = choose|c: Seq<u64>| #[trigger] chain(g, c) && c[0] == x && c.last() == n;
    if c.len() > 1 {
        let d = c.drop_last();
        assert forall|i: int| 0 <= i < d.len() - 1 implies #[trigger] g(d[i + 1]).contains(
            d[i],
        ) by {
            assert(g(c[i + 1]).contains(c[i]));
        }
        assert(g(c[c.len() - 2 + 1]).contains(c[c.len() - 2]));
        assert(chain(g, d) && d[0] == x && d.last() == c[c.len() - 2]);
        assert(g(n).contains(d.last()) && reaches(g, d.last(), x));
    }
}

/// Whether a node reaches an element of `set`.
pub open spec fn reaches_any(g: Graph, n: u64, set: Set<u64>) -> bool {
    exists|x: u64| #[trigger] reaches(g, n, x) && set.contains(x)
}

/// A node reaches an element of a set exactly where it is one or a neighbour reaches one.
pub proof fn lemma_reaches_any(g: Graph, n: u64, set: Set<u64>)
    ensures
        reaches_any(g, n, set) <==> set.contains(n) || exists|m: u64| #[trigger]
            g(n).contains(m) && reaches_any(g, m, set),
{
    if reaches_any(g, n, set) {
        let x = choose|x: u64| #[trigger] reaches(g, n, x) && set.contains(x);
        lemma_reaches_cases(g, n, x);
        if x != n {
            let m = choose|m: u64| #[trigger] g(n).contains(m) && reaches(g, m, x);
            assert(g(n).contains(m) && reaches_any(g, m, set));
        }
    }
    if set.contains(n) {
        lemma_reaches_self(g, n);
    }
    if exists|m: u64| #[trigger] g(n).contains(m) && reaches_any(g, m, set) {
        let m = choose|m: u64| #[trigger] g(n).contains(m) && reaches_any(g, m, set);
        let x = choose|x: u64| #[trigger] reaches(g, m, x) && set.contains(x);
        lemma_reaches_step(g, n, m, x);
    }
}

/// A set that holds a node's neighbours along with the node holds all that the node reaches.
pub proof fn lemma_closed_reaches(g: Graph, s: Seq<u64>, n: u64, x: u64)
    requires
        forall|a: u64, b: u64| #[trigger] s.contains(a) && #[trigger] g(a).contains(b) ==> s.contains(
            b,
        ),
        s.contains(n),
        reaches(g, n, x),
    ensures
        s.contains(x),
{
    let c = choose|c: Seq<u64>| #[trigger] chain(g, c) && c[0] == x && c.last() == n;
    lemma_closed_chain(g, s, c);
}

proof fn lemma_closed_chain(g: Graph, s: Seq<u64>, c: Seq<u64>)
    requires
        forall|a: u64, b: u64| #[trigger] s.contains(a) && #[trigger] g(a).contains(b) ==> s.contains(
            b,
        ),
        chain(g, c),
        s.contains(c.last()),
    ensures
        s.contains(c[0]),
    decreases c.len(),
{
    if c.len() > 1 {
        let d = c.drop_last();
        assert(g(c[c.len() - 2 + 1]).contains(c[c.len() - 2]));
        assert forall|i: int| 0 <= i < d.len() - 1 implies #[trigger] g(d[i + 1]).contains(
            d[i],
        ) by {
            assert(g(c[i + 1]).contains(c[i]));
        }
        lemma_closed_chain(g, s, d);
    }
}

// --- Depth-first search ---

/// The nodes that a depth-first search visits after those of `seen`, in the order of their
/// visits, when `stack` holds the nodes that it has yet to look at, the next one last.
pub open spec fn dfs_visits(g: Graph, stack: Seq<u64>, seen: Seq<u64>) -> Seq<u64>
    decreases id_count() - seen.len(), stack.len(),
{
    if stack.len() == 0 || seen.len() >= id_count() {
        seen
    } else if seen.contains(stack.last()) {
        dfs_visits(g, stack.drop_last(), seen)
    } else {
        dfs_visits(g, stack.drop_last() + g(stack.last()), seen.push(stack.last()))
    }
}

/// Depth-first search, pre-order traversal in `nexts`.
///
/// Returns the nodes that were visited, each once, in the order in which `succs` was asked for
/// their successors.
pub fn dfs<F: Fn(u64) -> Vec<u64>>(start: u64, succs: F) -> (r: Vec<u64>)
    requires
        forall|x: u64| #[trigger] call_requires(succs, (x,)),
    ensures
        r@.no_duplicates(),
        forall|g: Graph| #[trigger]
            lists(succs, g) ==> r@ == dfs_visits(g, seq![start], Seq::empty()),
        forall|g: Graph, x: u64|
            lists(succs, g) ==> (r@.contains(x) <==> #[trigger] reaches(g, start, x)),
{
    let mut visited: HashSet<u64> = HashSet::new();
    let mut order: Vec<u64> = Vec::new();
    let mut stack: Vec<u64> = Vec::new();
    stack.push(start);
    assert(stack@ == seq![start]);
    proof {
        assert forall|g: Graph| #[trigger] lists(succs, g) implies dfs_open(
            g,
            start,
            stack@,
            order@,
        ) by {
            lemma_reaches_self(g, start);
            assert(stack@[0] == start);
        }
    }
    while stack.len() > 0
        invariant
            forall|x: u64| #[trigger] call_requires(succs, (x,)),
            visited@ == order@.to_set(),
            order@.no_duplicates(),
            forall|g: Graph| #[trigger]
                lists(succs, g) ==> dfs_visits(g, stack@, order@) == dfs_visits(
                    g,
                    seq![start],
                    Seq::empty(),
                ),
            forall|g: Graph| #[trigger] lists(succs, g) ==> dfs_open(g, start, stack@, order@),
        decreases id_count() - order@.len(), stack@.len(),
    {
        broadcast use vstd::std_specs::hash::group_hash_axioms;

        let ghost before = stack@;
        let ghost seen = order@;
        let id: u64 = stack[stack.len() - 1];
        stack.pop();
        assert(stack@ == before.drop_last());
        if visited.contains(&id) {
            assert(seen.contains(id));
            proof {
                seen.unique_seq_to_set();
                assert forall|g: Graph| #[trigger] lists(succs, g) implies dfs_visits(
                    g,
                    stack@,
                    order@,
                ) == dfs_visits(g, before, seen) && dfs_open(g, start, stack@, order@) by {
                    lemma_dfs_bound(g, before, seen);
                    lemma_dfs_open_pop(g, start, before, seen);
                }
            }
            continue ;
        }
        assert(!seen.contains(id));
        proof {
            lemma_id_count(seen, id);
        }
        visited.insert(id);
        order.push(id);
        proof {
            seen.lemma_push_to_set_commute(id);
        }
        let next = succs(id);
        let mut k: usize = 0;
        while k < next.len()
            invariant
                k <= next.len(),
                stack@ == before.drop_last() + next@.take(k as int),
            decreases next.len() - k,
        {
            stack.push(next[k]);
            k = k + 1;
        }
        assert(next@.take(next.len() as int) == next@);
        proof {
            assert forall|g: Graph| #[trigger] lists(succs, g) implies dfs_visits(
                g,
                stack@,
                order@,
            ) == dfs_visits(g, before, seen) && dfs_open(g, start, stack@, order@) by {
                assert(next@ == g(id));
                lemma_dfs_open_push(g, start, before, seen);
            }
        }
    }
    proof {
        assert forall|g: Graph, x: u64| lists(succs, g) implies (order@.contains(x)
            <==> #[trigger] reaches(g, start, x)) by {
            assert(dfs_open(g, start, stack@, order@));
            if reaches(g, start, x) {
                lemma_closed_reaches(g, order@, start, x);
            }
        }
    }
    order
}

/// What holds between two steps of a depth-first search from `start`.
spec fn dfs_open(g: Graph, start: u64, stack: Seq<u64>, seen: Seq<u64>) -> bool {
    &&& forall|x: u64| #[trigger] seen.contains(x) ==> reaches(g, start, x)
    &&& forall|x: u64| #[trigger] stack.contains(x) ==> reaches(g, start, x)
    &&& seen.contains(start) || stack.contains(start)
    &&& forall|a: u64, b: u64| #[trigger]
        seen.contains(a) && #[trigger] g(a).contains(b) ==> seen.contains(b) || stack.contains(b)
}

proof fn lemma_dfs_bound(g: Graph, stack: Seq<u64>, seen: Seq<u64>)
    requires
        stack.len() > 0,
        seen.contains(stack.last()),
    ensures
        dfs_visits(g, stack, seen) == dfs_visits(g, stack.drop_last(), seen),
{
}

proof fn lemma_dfs_open_pop(g: Graph, start: u64, stack: Seq<u64>, seen: Seq<u64>)
    requires
        stack.len() > 0,
        seen.contains(stack.last()),
        dfs_open(g, start, stack, seen),
    ensures
        dfs_open(g, start, stack.drop_last(), seen),
{
    let rest = stack.drop_last();
    assert forall|x: u64| stack.contains(x) implies rest.contains(x) || seen.contains(x) by {
        let i = choose|i: int| 0 <= i < stack.len() && stack[i] == x;
        if i < rest.len() {
            assert(rest[i] == x);
        }
    }
    assert forall|x: u64| #[trigger] rest.contains(x) implies reaches(g, start, x) by {
        let i = choose|i: int| 0 <= i < rest.len() && rest[i] == x;
        assert(stack[i] == x);
        assert(stack.contains(x));
    }
}

proof fn lemma_dfs_open_push(g: Graph, start: u64, stack: Seq<u64>, seen: Seq<u64>)
    requires
        stack.len() > 0,
        dfs_open(g, start, stack, seen),
    ensures
        dfs_open(
            g,
            start,
            stack.drop_last() + g(stack.last()),
            seen.push(stack.last()),
        ),
{
    let id = stack.last();
    let rest = stack.drop_last() + g(id);
    let now = seen.push(id);
    assert(stack.contains(id));
    assert(now[seen.len() as int] == id);
    assert forall|x: u64| #[trigger] seen.contains(x) implies now.contains(x) by {
        let i = choose|i: int| 0 <= i < seen.len() && seen[i] == x;
        assert(now[i] == x);
    }
    assert forall|x: u64| #[trigger] stack.contains(x) implies rest.contains(x) || x == id by {
        let i = choose|i: int| 0 <= i < stack.len() && stack[i] == x;
        if i < stack.len() - 1 {
            assert(rest[i] == x);
        }
    }
    assert forall|x: u64| #[trigger] g(id).contains(x) implies rest.contains(x) by {
        let next = g(id);
        let i = choose|i: int| 0 <= i < next.len() && next[i] == x;
        assert(rest[stack.len() - 1 + i] == x);
    }
    assert forall|x: u64| #[trigger] now.contains(x) implies reaches(g, start, x) by {
        let i = choose|i: int| 0 <= i < now.len() && now[i] == x;
        if i < seen.len() {
            assert(seen.contains(x));
        }
    }
    assert forall|x: u64| #[trigger] rest.contains(x) implies reaches(g, start, x) by {
        let i = choose|i: int| 0 <= i < rest.len() && rest[i] == x;
        if i < stack.len() - 1 {
            assert(stack[i] == x);
            assert(stack.contains(x));
        } else {
            assert(g(id)[i - (stack.len() - 1)] == x);
            assert(g(id).contains(x));
            let c = choose|c: Seq<u64>| #[trigger] chain(g, c) && c[0] == id && c.last() == start;
            let d = seq![x] + c;
            assert forall|k: int| 0 <= k < d.len() - 1 implies #[trigger] g(d[k + 1]).contains(
                d[k],
            ) by {
                if k > 0 {
                    assert(g(c[k - 1 + 1]).contains(c[k - 1]));
                }
            }
            assert(chain(g, d) && d[0] == x && d.last() == start);
        }
    }
    assert forall|a: u64, b: u64| #[trigger]
        now.contains(a) && #[trigger] g(a).contains(b) implies now.contains(b) || rest.contains(
        b,
    ) by {
        let i = choose|i: int| 0 <= i < now.len() && now[i] == a;
        if i < seen.len() {
            assert(seen.contains(a));
        }
    }
}

// --- Topological sort ---

/// How a visit of a node ends: with the order extended, or with the nodes met on the way back
/// from a node that was met twice.
pub enum Visit {
    Done(Seq<u64>),
    Cycle(Seq<u64>),
}

/// Adds `node` to the nodes of a cycle that is being traced back, until it is closed.
pub open spec fn traced(c: Seq<u64>, node: u64) -> Seq<u64> {
    if c.len() == 1 || c.first() != c.last() {
        c.push(node)
    } else {
        c
    }
}

/// Visits `node`: its neighbours first, then the node itself, unless `order` has it already.
/// `path` holds the nodes whose visits have not ended.
pub open spec fn visit(g: Graph, node: u64, path: Seq<u64>, order: Seq<u64>) -> Visit
    decreases id_count() - path.len(), 0int,
{
    if order.contains(node) {
        Visit::Done(order)
    } else if path.contains(node) || path.len() >= id_count() {
        Visit::Cycle(seq![node])
    } else {
        match visit_all(g, g(node), path.push(node), order) {
            Visit::Done(o) => Visit::Done(o.push(node)),
            Visit::Cycle(c) => Visit::Cycle(traced(c, node)),
        }
    }
}

/// Visits the nodes of `ids` one after the other, up to the first that ends in a cycle.
pub open spec fn visit_all(g: Graph, ids: Seq<u64>, path: Seq<u64>, order: Seq<u64>) -> Visit
    decreases id_count() - path.len(), ids.len() + 1,
{
    if ids.len() == 0 {
        Visit::Done(order)
    } else {
        match visit_all(g, ids.drop_last(), path, order) {
            Visit::Done(o) => visit(g, ids.last(), path, o),
            Visit::Cycle(c) => Visit::Cycle(c),
        }
    }
}

/// The nodes of `nodes` and all that they reach in depth-first post-order, or a cycle.
pub open spec fn topo_sorted(g: Graph, nodes: Seq<u64>) -> Result<Seq<u64>, Seq<u64>> {
    match visit_all(g, nodes, Seq::empty(), Seq::empty()) {
        Visit::Done(o) => Ok(o),
        Visit::Cycle(c) => Err(c.drop_first()),
    }
}

/// Whether every neighbour of a node of `order` stands before it.
pub open spec fn topological(g: Graph, order: Seq<u64>) -> bool {
    forall|i: int, p: u64|
        0 <= i < order.len() && #[trigger] g(order[i]).contains(p) ==> #[trigger] order.take(
            i,
        ).contains(p)
}

/// Whether `c` has been traced back from a second meeting with a node of `path` to `node`, or
/// holds a cycle behind its first element.
spec fn is_trace(g: Graph, c: Seq<u64>, node: u64, path: Seq<u64>) -> bool {
    ||| {
        &&& c.len() >= 2
        &&& c.first() == c.last()
        &&& is_cycle(g, c.drop_first())
    }
    ||| {
        &&& chain(g, c)
        &&& c.last() == node
        &&& path.contains(c[0])
        &&& c.drop_first().no_duplicates()
        &&& forall|i: int| 1 <= i < c.len() ==> !path.contains(#[trigger] c[i])
    }
}

proof fn lemma_traced(g: Graph, c: Seq<u64>, p: u64, node: u64, path: Seq<u64>)
    requires
        is_trace(g, c, p, path.push(node)),
        g(node).contains(p),
        !path.contains(node),
    ensures
        is_trace(g, traced(c, node), node, path),
{
    let longer = path.push(node);
    assert(longer[path.len() as int] == node);
    assert(longer.contains(node));
    assert forall|x: u64| #[trigger] path.contains(x) implies longer.contains(x) by {
        let i = choose|i: int| 0 <= i < path.len() && path[i] == x;
        assert(longer[i] == x);
    }
    if c.len() >= 2 && c.first() == c.last() && is_cycle(g, c.drop_first()) {
        assert(traced(c, node) == c);
    } else {
        if c.len() > 1 {
            assert(!longer.contains(c[c.len() - 1]));
        }
        let d = c.push(node);
        assert(traced(c, node) == d);
        assert forall|i: int| 0 <= i < d.len() - 1 implies #[trigger] g(d[i + 1]).contains(
            d[i],
        ) by {
            if i < c.len() - 1 {
                assert(g(c[i + 1]).contains(c[i]));
            }
        }
        let e = d.drop_first();
        assert forall|i: int, j: int| 0 <= i < e.len() && 0 <= j < e.len() && i != j implies e[i]
            != e[j] by {
            if i < c.len() - 1 {
                assert(e[i] == c[i + 1]);
                assert(!longer.contains(c[i + 1]));
                assert(c.drop_first()[i] == c[i + 1]);
            }
            if j < c.len() - 1 {
                assert(e[j] == c[j + 1]);
                assert(!longer.contains(c[j + 1]));
                assert(c.drop_first()[j] == c[j + 1]);
            }
        }
        if c[0] == node {
            assert forall|i: int| 0 <= i < e.len() - 1 implies #[trigger] g(e[i + 1]).contains(
                e[i],
            ) by {
                assert(g(d[i + 1 + 1]).contains(d[i + 1]));
            }
            assert(g(d[0int + 1]).contains(d[0]));
            assert(is_cycle(g, e));
        } else {
            let i = choose|i: int| 0 <= i < longer.len() && longer[i] == c[0];
            assert(path[i] == c[0]);
            assert forall|k: int| 1 <= k < d.len() implies !path.contains(#[trigger] d[k]) by {
                if k < c.len() {
                    assert(!longer.contains(c[k]));
                }
            }
        }
    }
}

/// What a visit that started from `order` with `path` open leaves.
spec fn visited(
    g: Graph,
    ids: Seq<u64>,
    path: Seq<u64>,
    order: Seq<u64>,
    now: Seq<u64>,
) -> bool {
    &&& now.no_duplicates()
    &&& topological(g, now)
    &&& order.len() <= now.len()
    &&& now.take(order.len() as int) == order
    &&& forall|x: u64| #[trigger] now.contains(x) ==> !path.contains(x)
    &&& forall|x: u64| #[trigger] ids.contains(x) ==> now.contains(x)
    &&& forall|x: u64| #[trigger]
        now.contains(x) ==> order.contains(x) || exists|n: u64| #[trigger]
            ids.contains(n) && reaches(g, n, x)
}

/// What holds when a visit begins.
spec fn visitable(g: Graph, path: Seq<u64>, order: Seq<u64>) -> bool {
    &&& path.no_duplicates()
    &&& order.no_duplicates()
    &&& topological(g, order)
    &&& forall|x: u64| #[trigger] order.contains(x) ==> !path.contains(x)
}

proof fn lemma_visit(g: Graph, node: u64, path: Seq<u64>, order: Seq<u64>)
    requires
        visitable(g, path, order),
    ensures
        match visit(g, node, path, order) {
            Visit::Done(now) => visited(g, seq![node], path, order, now),
            Visit::Cycle(c) => is_trace(g, c, node, path),
        },
    decreases id_count() - path.len(), 0int,
{
    assert(seq![node][0] == node);
    if order.contains(node) {
        assert(order.take(order.len() as int) == order);
    } else if path.contains(node) {
        assert(chain(g, seq![node]));
    } else {
        lemma_id_count(path, node);
        let longer = path.push(node);
        assert forall|x: u64| #[trigger] longer.contains(x) implies path.contains(x) || x
            == node by {
            let i = choose|i: int| 0 <= i < longer.len() && longer[i] == x;
            if i < path.len() {
                assert(path[i] == x);
            }
        }
        assert(longer[path.len() as int] == node);
        assert forall|x: u64| #[trigger] path.contains(x) implies longer.contains(x) by {
            let i = choose|i: int| 0 <= i < path.len() && path[i] == x;
            assert(longer[i] == x);
        }
        assert(visitable(g, longer, order));
        lemma_visit_all(g, g(node), longer, order);
        match visit_all(g, g(node), longer, order) {
            Visit::Done(o) => {
                let now = o.push(node);
                assert(longer.contains(node));
                assert(!o.contains(node));
                assert(now.take(order.len() as int) == order);
                assert(now[o.len() as int] == node);
                assert forall|i: int, p: u64|
                    0 <= i < now.len() && #[trigger] g(now[i]).contains(
                        p,
                    ) implies #[trigger] now.take(i).contains(p) by {
                    if i < o.len() {
                        assert(now.take(i) == o.take(i));
                        assert(g(o[i]).contains(p));
                    } else {
                        assert(now.take(i) == o);
                    }
                }
                assert forall|x: u64| #[trigger] now.contains(x) implies o.contains(x) || x
                    == node by {
                    let i = choose|i: int| 0 <= i < now.len() && now[i] == x;
                    if i < o.len() {
                        assert(o[i] == x);
                    }
                }
                lemma_reaches_self(g, node);
                assert forall|x: u64| #[trigger] now.contains(x) implies order.contains(x)
                    || exists|n: u64| #[trigger] seq![node].contains(n) && reaches(g, n, x) by {
                    assert(seq![node].contains(node));
                    if x != node && !order.contains(x) {
                        let n = choose|n: u64| #[trigger]
                            g(node).contains(n) && reaches(g, n, x);
                        lemma_reaches_step(g, node, n, x);
                    }
                }
            },
            Visit::Cycle(c) => {
                let p = choose|p: u64| #[trigger] g(node).contains(p) && is_trace(g, c, p, longer);
                lemma_traced(g, c, p, node, path);
            },
        }
    }
}

proof fn lemma_visit_all(g: Graph, ids: Seq<u64>, path: Seq<u64>, order: Seq<u64>)
    requires
        visitable(g, path, order),
    ensures
        match visit_all(g, ids, path, order) {
            Visit::Done(now) => visited(g, ids, path, order, now),
            Visit::Cycle(c) => exists|p: u64| #[trigger]
                ids.contains(p) && is_trace(g, c, p, path),
        },
    decreases id_count() - path.len(), ids.len() + 1,
{
    if ids.len() == 0 {
        assert(order.take(order.len() as int) == order);
    } else {
        let front = ids.drop_last();
        lemma_visit_all(g, front, path, order);
        assert(ids[ids.len() - 1] == ids.last());
        assert(ids.contains(ids.last()));
        assert forall|x: u64| #[trigger] front.contains(x) implies ids.contains(x) by {
            let i = choose|i: int| 0 <= i < front.len() && front[i] == x;
            assert(ids[i] == x);
        }
        match visit_all(g, front, path, order) {
            Visit::Done(o) => {
                assert(visitable(g, path, o));
                lemma_visit(g, ids.last(), path, o);
                match visit(g, ids.last(), path, o) {
                    Visit::Done(now) => {
                        assert(now.take(order.len() as int) == o.take(order.len() as int));
                        assert forall|x: u64| #[trigger] o.contains(x) implies now.contains(x) by {
                            let i = choose|i: int| 0 <= i < o.len() && o[i] == x;
                            assert(now.take(o.len() as int)[i] == x);
                            assert(now[i] == x);
                        }
                        assert forall|x: u64| #[trigger] ids.contains(x) implies now.contains(
                            x,
                        ) by {
                            let i = choose|i: int| 0 <= i < ids.len() && ids[i] == x;
                            if i < front.len() {
                                assert(front[i] == x);
                                assert(front.contains(x));
                            } else {
                                assert(seq![ids.last()][0] == x);
                                assert(seq![ids.last()].contains(x));
                            }
                        }
                        assert forall|x: u64| #[trigger] now.contains(x) implies order.contains(x)
                            || exists|n: u64| #[trigger] ids.contains(n) && reaches(g, n, x) by {
                            if o.contains(x) {
                                if !order.contains(x) {
                                    let n = choose|n: u64| #[trigger]
                                        front.contains(n) && reaches(g, n, x);
                                    assert(ids.contains(n));
                                }
                            } else {
                                let n = choose|n: u64| #[trigger]
                                    seq![ids.last()].contains(n) && reaches(g, n, x);
                                assert(n == ids.last());
                            }
                        }
                    },
                    Visit::Cycle(c) => {},
                }
            },
            Visit::Cycle(c) => {
                let p = choose|p: u64| #[trigger] front.contains(p) && is_trace(g, c, p, path);
                assert(ids.contains(p));
            },
        }
    }
}

/// A list in which every neighbour stands before its node, without repetition, has no node of
/// a cycle.
pub proof fn topological_order_has_no_cycle(g: Graph, order: Seq<u64>, c: Seq<u64>)
    requires
        order.no_duplicates(),
        topological(g, order),
        is_cycle(g, c),
    ensures
        forall|i: int| 0 <= i < c.len() ==> !order.contains(#[trigger] c[i]),
{
    assert forall|i: int| 0 <= i < c.len() implies !order.contains(#[trigger] c[i]) by {
        lemma_not_on_cycle(g, order, c, i);
    }
}

proof fn lemma_not_on_cycle(g: Graph, order: Seq<u64>, c: Seq<u64>, i: int)
    requires
        order.no_duplicates(),
        topological(g, order),
        is_cycle(g, c),
        0 <= i < c.len(),
    ensures
        !order.contains(c[i]),
    decreases order.len(),
{
    if order.contains(c[i]) {
        let k = choose|k: int| 0 <= k < order.len() && order[k] == c[i];
        let h = if i == 0 {
            c.len() - 1
        } else {
            i - 1
        };
        if i > 0 {
            assert(g(c[h + 1]).contains(c[h]));
        }
        assert(g(order[k]).contains(c[h]));
        let less = order.take(k);
        assert(less.contains(c[h]));
        assert forall|j: int, p: u64|
            0 <= j < less.len() && #[trigger] g(less[j]).contains(p) implies #[trigger] less.take(
            j,
        ).contains(p) by {
            assert(g(order[j]).contains(p));
            assert(less.take(j) == order.take(j));
        }
        lemma_not_on_cycle(g, less, c, h);
    }
}

/// A sorted graph is listed without repetition and with every neighbour before its node; the
/// list has the given nodes and all that they reach, and nothing else. What is not sorted has
/// a cycle, which is listed without repetition.
pub proof fn topo_sorted_is_topological(g: Graph, nodes: Seq<u64>)
    ensures
        match topo_sorted(g, nodes) {
            Ok(order) => {
                &&& order.no_duplicates()
                &&& topological(g, order)
                &&& forall|x: u64| #[trigger]
                    order.contains(x) <==> exists|n: u64| #[trigger]
                        nodes.contains(n) && reaches(g, n, x)
            },
            Err(c) => is_cycle(g, c) && reached_from(g, nodes, c),
        },
{
    assert(visitable(g, Seq::empty(), Seq::empty()));
    lemma_visit_all(g, nodes, Seq::empty(), Seq::empty());
    match visit_all(g, nodes, Seq::empty(), Seq::empty()) {
        Visit::Done(order) => {
            assert forall|a: u64, b: u64| #[trigger]
                order.contains(a) && #[trigger] g(a).contains(b) implies order.contains(b) by {
                let i = choose|i: int| 0 <= i < order.len() && order[i] == a;
                assert(g(order[i]).contains(b));
                assert(order.take(i).contains(b));
                let j = choose|j: int| 0 <= j < order.take(i).len() && order.take(i)[j] == b;
                assert(order[j] == b);
            }
            assert forall|x: u64| #[trigger] order.contains(x) <==> exists|n: u64| #[trigger]
                nodes.contains(n) && reaches(g, n, x) by {
                if exists|n: u64| #[trigger] nodes.contains(n) && reaches(g, n, x) {
                    let n = choose|n: u64| #[trigger] nodes.contains(n) && reaches(g, n, x);
                    lemma_closed_reaches(g, order, n, x);
                }
            }
        },
        Visit::Cycle(c) => {
            lemma_visit_all_reaches(g, nodes, Seq::empty(), Seq::empty());
            let n = choose|n: u64| #[trigger]
                nodes.contains(n) && forall|i: int|
                    0 <= i < c.len() ==> reaches(g, n, #[trigger] c[i]);
            assert forall|i: int| 0 <= i < c.drop_first().len() implies reaches(
                g,
                n,
                #[trigger] c.drop_first()[i],
            ) by {
                assert(c.drop_first()[i] == c[i + 1]);
            }
        },
    }
}

proof fn lemma_visit_reaches(g: Graph, node: u64, path: Seq<u64>, order: Seq<u64>)
    ensures
        visit(g, node, path, order) matches Visit::Cycle(c) ==> forall|i: int|
            0 <= i < c.len() ==> reaches(g, node, #[trigger] c[i]),
    decreases id_count() - path.len(), 0int,
{
    lemma_reaches_self(g, node);
    if !order.contains(node) && !path.contains(node) && path.len() < id_count() {
        lemma_visit_all_reaches(g, g(node), path.push(node), order);
        if let Visit::Cycle(c) = visit_all(g, g(node), path.push(node), order) {
            let p = choose|p: u64| #[trigger]
                g(node).contains(p) && forall|i: int|
                    0 <= i < c.len() ==> reaches(g, p, #[trigger] c[i]);
            let all = traced(c, node);
            assert forall|i: int| 0 <= i < all.len() implies reaches(g, node, #[trigger] all[i]) by {
                if i < c.len() {
                    assert(all[i] == c[i]);
                    lemma_reaches_step(g, node, p, c[i]);
                }
            }
        }
    }
}

proof fn lemma_visit_all_reaches(g: Graph, ids: Seq<u64>, path: Seq<u64>, order: Seq<u64>)
    ensures
        visit_all(g, ids, path, order) matches Visit::Cycle(c) ==> reached_from(g, ids, c),
    decreases id_count() - path.len(), ids.len() + 1,
{
    if ids.len() > 0 {
        let front = ids.drop_last();
        lemma_visit_all_reaches(g, front, path, order);
        match visit_all(g, front, path, order) {
            Visit::Done(o) => {
                lemma_visit_reaches(g, ids.last(), path, o);
                assert(ids[ids.len() - 1] == ids.last());
                assert(ids.contains(ids.last()));
            },
            Visit::Cycle(c) => {
                let n = choose|n: u64| #[trigger]
                    front.contains(n) && forall|i: int|
                        0 <= i < c.len() ==> reaches(g, n, #[trigger] c[i]);
                let j = choose|j: int| 0 <= j < front.len() && front[j] == n;
                assert(ids[j] == n);
                assert(ids.contains(n));
            },
        }
    }
}

/// A graph is sorted exactly where the given nodes reach no cycle.
pub proof fn acyclic_graph_is_sorted(g: Graph, nodes: Seq<u64>)
    ensures
        topo_sorted(g, nodes) is Ok <==> forall|c: Seq<u64>| #[trigger]
            is_cycle(g, c) ==> !reached_from(g, nodes, c),
{
    topo_sorted_is_topological(g, nodes);
    match topo_sorted(g, nodes) {
        Ok(order) => {
            assert forall|c: Seq<u64>| #[trigger] is_cycle(g, c) implies !reached_from(
                g,
                nodes,
                c,
            ) by {
                topological_order_has_no_cycle(g, order, c);
                if reached_from(g, nodes, c) {
                    assert(chain(g, c));
                    let n = choose|n: u64| #[trigger]
                        nodes.contains(n) && forall|i: int|
                            0 <= i < c.len() ==> reaches(g, n, #[trigger] c[i]);
                    assert(reaches(g, n, c[0]));
                    assert(order.contains(c[0]));
                }
            }
        },
        Err(c) => {},
    }
}

proof fn lemma_visit_all_stops(g: Graph, ids: Seq<u64>, path: Seq<u64>, order: Seq<u64>, k: int)
    requires
        0 <= k <= ids.len(),
        visit_all(g, ids.take(k), path, order) is Cycle,
    ensures
        visit_all(g, ids, path, order) == visit_all(g, ids.take(k), path, order),
    decreases ids.len() - k,
{
    if k < ids.len() {
        let next = ids.take(k + 1);
        assert(next.drop_last() == ids.take(k));
        lemma_visit_all_stops(g, ids, path, order, k + 1);
    } else {
        assert(ids.take(k) == ids);
    }
}

/// Whether `marked` has the nodes of `path` as open and those of `order` as finished.
spec fn marks(marked: Map<u64, bool>, path: Seq<u64>, order: Seq<u64>) -> bool {
    &&& forall|x: u64| #[trigger]
        marked.contains_key(x) <==> path.contains(x) || order.contains(x)
    &&& forall|x: u64| #[trigger] marked.contains_key(x) ==> (marked[x] <==> order.contains(x))
}

proof fn lemma_marks_open(marked: Map<u64, bool>, path: Seq<u64>, order: Seq<u64>, node: u64)
    requires
        marks(marked, path, order),
        !marked.contains_key(node),
    ensures
        marks(marked.insert(node, false), path.push(node), order),
{
    let longer = path.push(node);
    assert(longer[path.len() as int] == node);
    assert forall|x: u64| #[trigger] longer.contains(x) <==> path.contains(x) || x == node by {
        if path.contains(x) {
            let i = choose|i: int| 0 <= i < path.len() && path[i] == x;
            assert(longer[i] == x);
        }
        if longer.contains(x) {
            let i = choose|i: int| 0 <= i < longer.len() && longer[i] == x;
            if i < path.len() {
                assert(path[i] == x);
            }
        }
    }
}

proof fn lemma_marks_finish(marked: Map<u64, bool>, path: Seq<u64>, order: Seq<u64>, node: u64)
    requires
        marks(marked, path.push(node), order),
        !path.contains(node),
    ensures
        marks(marked.insert(node, true), path, order.push(node)),
{
    let longer = path.push(node);
    let now = order.push(node);
    assert(longer[path.len() as int] == node);
    assert(now[order.len() as int] == node);
    assert forall|x: u64| #[trigger] longer.contains(x) <==> path.contains(x) || x == node by {
        if path.contains(x) {
            let i = choose|i: int| 0 <= i < path.len() && path[i] == x;
            assert(longer[i] == x);
        }
        if longer.contains(x) {
            let i = choose|i: int| 0 <= i < longer.len() && longer[i] == x;
            if i < path.len() {
                assert(path[i] == x);
            }
        }
    }
    assert forall|x: u64| #[trigger] now.contains(x) <==> order.contains(x) || x == node by {
        if order.contains(x) {
            let i = choose|i: int| 0 <= i < order.len() && order[i] == x;
            assert(now[i] == x);
        }
        if now.contains(x) {
            let i = choose|i: int| 0 <= i < now.len() && now[i] == x;
            if i < order.len() {
                assert(order[i] == x);
            }
        }
    }
}

/// Visits `node` and all that it reaches, in post-order.
///
/// `marked` has `false` for the nodes whose visits are open and `true` for those that are
/// finished. On a cycle, `order` holds what was traced of it.
fn pred_dfs_postorder<F: Fn(u64) -> Vec<u64>>(
    node: u64,
    preds: &F,
    marked: &mut BTreeMap<u64, bool>,
    order: &mut Vec<u64>,
    Ghost(path): Ghost<Seq<u64>>,
) -> (r: Result<(), ()>)
    requires
        forall|x: u64| #[trigger] call_requires(*preds, (x,)),
        path.no_duplicates(),
        marks(old(marked)@, path, old(order)@),
    ensures
        r is Ok ==> marks(final(marked)@, path, final(order)@),
        r is Err ==> final(order)@.len() > 0,
        forall|g: Graph| #[trigger]
            lists(*preds, g) ==> match visit(g, node, path, old(order)@) {
                Visit::Done(o) => r is Ok && final(order)@ == o,
                Visit::Cycle(c) => r is Err && final(order)@ == c,
            },
    decreases id_count() - path.len(),
{
    broadcast use vstd::std_specs::btree::group_btree_axioms;

    let ghost start = order@;
    let mark: Option<bool> = match marked.get(&node) {
        Some(m) => Some(*m),
        None => None,
    };
    match mark {
        Some(true) => {
            return Ok(());
        },
        Some(false) => {
            order.clear();
            order.push(node);
            assert(order@ == seq![node]);
            return Err(());
        },
        None => {},
    }
    assert(!path.contains(node) && !start.contains(node));
    proof {
        lemma_id_count(path, node);
        lemma_marks_open(marked@, path, order@, node);
    }
    marked.insert(node, false);
    let ghost longer = path.push(node);
    let next = (*preds)(node);
    let mut k: usize = 0;
    assert(next@.take(0) == Seq::<u64>::empty());
    while k < next.len()
        invariant
            k <= next.len(),
            forall|x: u64| #[trigger] call_requires(*preds, (x,)),
            call_ensures(*preds, (node,), next),
            start == old(order)@,
            longer == path.push(node),
            longer.no_duplicates(),
            path.len() < id_count(),
            !path.contains(node) && !start.contains(node),
            marks(marked@, longer, order@),
            forall|g: Graph| #[trigger]
                lists(*preds, g) ==> visit_all(g, next@.take(k as int), longer, start)
                    == Visit::Done(order@),
        decreases next.len() - k,
    {
        let ghost before = order@;
        let ghost done = next@.take(k as int);
        assert(next@.take(k + 1).drop_last() == done);
        let visited = pred_dfs_postorder(next[k], preds, marked, order, Ghost(longer));
        if visited.is_err() {
            let ghost trace = order@;
            if order.len() == 1 || order[0] != order[order.len() - 1] {
                order.push(node);
            }
            proof {
                assert forall|g: Graph| #[trigger] lists(*preds, g) implies visit(
                    g,
                    node,
                    path,
                    start,
                ) == Visit::Cycle(order@) by {
                    assert(visit_all(g, done, longer, start) == Visit::Done(before));
                    assert(visit_all(g, next@.take(k + 1), longer, start) == visit(
                        g,
                        next@[k as int],
                        longer,
                        before,
                    ));
                    lemma_visit_all_stops(g, next@, longer, start, k + 1);
                    assert(g(node) == next@);
                    assert(order@ == traced(trace, node));
                }
            }
            return Err(());
        }
        proof {
            assert forall|g: Graph| #[trigger] lists(*preds, g) implies visit_all(
                g,
                next@.take(k + 1),
                longer,
                start,
            ) == Visit::Done(order@) by {
                assert(visit_all(g, done, longer, start) == Visit::Done(before));
            }
        }
        k = k + 1;
    }
    assert(next@.take(next.len() as int) == next@);
    proof {
        lemma_marks_finish(marked@, path, order@, node);
        assert forall|g: Graph| #[trigger] lists(*preds, g) implies visit(g, node, path, start)
            == Visit::Done(order@.push(node)) by {
            assert(g(node) == next@);
        }
    }
    order.push(node);
    marked.insert(node, true);
    Ok(())
}

/// Topologically sorts nodes. Returns a list where the order of the nodes will agree with the
/// order of any path through the graph.
///
/// All nodes in `nodes` as well as their ancestors will be included and sorted.
///
/// This succeeds if the input is a directed acyclic graph (DAG).
///
/// If the nodes reach a cycle, an `Err` will be returned containing the cycle. Each node in the
/// cycle will be listed exactly once.
///
/// <https://en.wikipedia.org/wiki/Topological_sorting>
pub fn topo_sort<F: Fn(u64) -> Vec<u64>>(nodes: &Vec<u64>, preds: F) -> (r: Result<
    Vec<u64>,
    Vec<u64>,
>)
    requires
        forall|x: u64| #[trigger] call_requires(preds, (x,)),
    ensures
        forall|g: Graph| #[trigger]
            lists(preds, g) ==> match topo_sorted(g, nodes@) {
                Ok(order) => r is Ok && r->Ok_0@ == order,
                Err(cycle) => r is Err && r->Err_0@ == cycle,
            },
        forall|g: Graph| #[trigger]
            lists(preds, g) ==> match r {
                Ok(order) => {
                    &&& order@.no_duplicates()
                    &&& topological(g, order@)
                    &&& forall|x: u64| #[trigger]
                        order@.contains(x) <==> exists|n: u64| #[trigger]
                            nodes@.contains(n) && reaches(g, n, x)
                },
                Err(cycle) => is_cycle(g, cycle@) && reached_from(g, nodes@, cycle@),
            },
{
    let mut marked: BTreeMap<u64, bool> = BTreeMap::new();
    let mut order: Vec<u64> = Vec::new();
    let mut k: usize = 0;
    assert(nodes@.take(0) == Seq::<u64>::empty());
    while k < nodes.len()
        invariant
            k <= nodes.len(),
            forall|x: u64| #[trigger] call_requires(preds, (x,)),
            marks(marked@, Seq::empty(), order@),
            forall|g: Graph| #[trigger]
                lists(preds, g) ==> visit_all(
                    g,
                    nodes@.take(k as int),
                    Seq::empty(),
                    Seq::empty(),
                ) == Visit::Done(order@),
        decreases nodes.len() - k,
    {
        let ghost before = order@;
        let ghost done = nodes@.take(k as int);
        assert(nodes@.take(k + 1).drop_last() == done);
        let visited = pred_dfs_postorder(
            nodes[k],
            &preds,
            &mut marked,
            &mut order,
            Ghost(Seq::empty()),
        );
        if visited.is_err() {
            // The first node of the trace is met again where the cycle closes.
            let ghost trace = order@;
            order.remove(0);
            proof {
                assert(order@ == trace.drop_first());
                assert forall|g: Graph| #[trigger] lists(preds, g) implies topo_sorted(g, nodes@)
                    == Err::<Seq<u64>, Seq<u64>>(order@) by {
                    assert(visit_all(g, done, Seq::empty(), Seq::empty()) == Visit::Done(before));
                    lemma_visit_all_stops(g, nodes@, Seq::empty(), Seq::empty(), k + 1);
                }
                assert forall|g: Graph| #[trigger] lists(preds, g) implies is_cycle(g, order@)
                    && reached_from(g, nodes@, order@) by {
                    topo_sorted_is_topological(g, nodes@);
                }
            }
            return Err(order);
        }
        proof {
            assert forall|g: Graph| #[trigger] lists(preds, g) implies visit_all(
                g,
                nodes@.take(k + 1),
                Seq::empty(),
                Seq::empty(),
            ) == Visit::Done(order@) by {
                assert(visit_all(g, done, Seq::empty(), Seq::empty()) == Visit::Done(before));
            }
        }
        k = k + 1;
    }
    assert(nodes@.take(nodes.len() as int) == nodes@);
    proof {
        assert forall|g: Graph| #[trigger] lists(preds, g) implies topo_sorted(g, nodes@) == Ok::<
            Seq<u64>,
            Seq<u64>,
        >(order@) by {
            assert(visit_all(g, nodes@, Seq::empty(), Seq::empty()) == Visit::Done(order@));
        }
        assert forall|g: Graph| #[trigger] lists(preds, g) implies {
            &&& order@.no_duplicates()
            &&& topological(g, order@)
            &&& forall|x: u64| #[trigger]
                order@.contains(x) <==> exists|n: u64| #[trigger]
                    nodes@.contains(n) && reaches(g, n, x)
        } by {
            topo_sorted_is_topological(g, nodes@);
        }
    }
    Ok(order)
}

} // verus!
