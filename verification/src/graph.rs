//! Paths and reachability, for every analysis that walks one relation to its
//! end.

use vstd::prelude::*;

verus! {

/// A relation between numbered nodes: `edge(a, b)` is a step from `a` to `b`.
pub type Edges = spec_fn(int, int) -> bool;

/// The step of `path` at position `i` follows an edge.
pub open spec fn steps(edge: Edges, path: Seq<int>, i: int) -> bool {
    edge(path[i], path[i + 1])
}

/// Every step of a non-empty `path` follows an edge.
pub open spec fn is_path(edge: Edges, path: Seq<int>) -> bool {
    path.len() > 0 && forall|i: int| 0 <= i && i + 1 < path.len() ==> #[trigger] steps(edge, path, i)
}

/// `b` can be walked to from `a`, in any number of steps.
pub open spec fn reaches(edge: Edges, a: int, b: int) -> bool {
    exists|path: Seq<int>| #[trigger] is_path(edge, path) && path[0] == a && path.last() == b
}

/// `a` can be walked back to from itself in at least one step.
pub open spec fn on_cycle(edge: Edges, a: int) -> bool {
    exists|path: Seq<int>| #[trigger]
        is_path(edge, path) && path.len() >= 2 && path[0] == a && path.last() == a
}

/// A walk from `a` can end on a node that leads back to itself.
pub open spec fn reaches_cycle(edge: Edges, a: int) -> bool {
    exists|b: int| #[trigger] reaches(edge, a, b) && on_cycle(edge, b)
}

/// Every node is reached from itself.
pub proof fn lemma_reaches_self(edge: Edges, a: int)
    ensures
        reaches(edge, a, a),
{
    assert(is_path(edge, seq![a]));
}

/// Walking one edge further stays reachable.
pub proof fn lemma_reaches_step(edge: Edges, a: int, b: int, c: int)
    requires
        reaches(edge, a, b),
        edge(b, c),
    ensures
        reaches(edge, a, c),
{
    let path = choose|path: Seq<int>| #[trigger]
        is_path(edge, path) && path[0] == a && path.last() == b;
    let longer = path.push(c);
    assert forall|i: int| 0 <= i && i + 1 < longer.len() implies #[trigger] steps(
        edge,
        longer,
        i,
    ) by {
        if i + 1 < path.len() {
            assert(steps(edge, path, i));
        }
    }
    assert(is_path(edge, longer));
    assert(longer[0] == a && longer.last() == c);
}

/// Reaching is transitive.
pub proof fn lemma_reaches_trans(edge: Edges, a: int, b: int, c: int)
    requires
        reaches(edge, a, b),
        reaches(edge, b, c),
    ensures
        reaches(edge, a, c),
{
    let first = choose|path: Seq<int>| #[trigger]
        is_path(edge, path) && path[0] == a && path.last() == b;
    let second = choose|path: Seq<int>| #[trigger]
        is_path(edge, path) && path[0] == b && path.last() == c;
    let whole = first + second.skip(1);
    assert forall|i: int| 0 <= i && i + 1 < whole.len() implies #[trigger] steps(
        edge,
        whole,
        i,
    ) by {
        if i + 1 < first.len() {
            assert(steps(edge, first, i));
        } else {
            assert(steps(edge, second, i + 1 - first.len()));
        }
    }
    assert(is_path(edge, whole));
    assert(whole[0] == a);
    assert(whole.last() == c) by {
        if second.len() == 1 {
            assert(whole =~= first);
        }
    }
}

/// Starting with an edge reaches whatever its end reaches.
pub proof fn lemma_reaches_from(edge: Edges, a: int, b: int, c: int)
    requires
        edge(a, b),
        reaches(edge, b, c),
    ensures
        reaches(edge, a, c),
{
    lemma_reaches_self(edge, a);
    lemma_reaches_step(edge, a, a, b);
    lemma_reaches_trans(edge, a, b, c);
}

/// A set that holds `a` and every step out of itself holds all `a` reaches.
pub proof fn lemma_closed(edge: Edges, inside: spec_fn(int) -> bool, a: int, b: int)
    requires
        inside(a),
        forall|x: int, y: int| inside(x) && #[trigger] edge(x, y) ==> inside(y),
        reaches(edge, a, b),
    ensures
        inside(b),
{
    let path = choose|path: Seq<int>| #[trigger]
        is_path(edge, path) && path[0] == a && path.last() == b;
    lemma_closed_along(edge, inside, path, path.len() - 1);
}

proof fn lemma_closed_along(edge: Edges, inside: spec_fn(int) -> bool, path: Seq<int>, n: int)
    requires
        is_path(edge, path),
        inside(path[0]),
        forall|x: int, y: int| inside(x) && #[trigger] edge(x, y) ==> inside(y),
        0 <= n < path.len(),
    ensures
        inside(path[n]),
    decreases n,
{
    if n > 0 {
        lemma_closed_along(edge, inside, path, n - 1);
        assert(steps(edge, path, n - 1));
    }
}

/// What a node that reaches `a` reaches includes every cycle `a` reaches.
pub proof fn lemma_reaches_cycle_from(edge: Edges, a: int, b: int)
    requires
        edge(a, b),
        reaches_cycle(edge, b),
    ensures
        reaches_cycle(edge, a),
{
    let c = choose|c: int| #[trigger] reaches(edge, b, c) && on_cycle(edge, c);
    lemma_reaches_from(edge, a, b, c);
}

/// An edge back to where a walk began closes a cycle.
pub proof fn lemma_closes_cycle(edge: Edges, a: int, b: int)
    requires
        reaches(edge, a, b),
        edge(b, a),
    ensures
        on_cycle(edge, a),
        on_cycle(edge, b),
{
    let path = choose|path: Seq<int>| #[trigger]
        is_path(edge, path) && path[0] == a && path.last() == b;
    let around = path.push(a);
    assert forall|i: int| 0 <= i && i + 1 < around.len() implies #[trigger] steps(
        edge,
        around,
        i,
    ) by {
        if i + 1 < path.len() {
            assert(steps(edge, path, i));
        }
    }
    assert(is_path(edge, around) && around.len() >= 2 && around[0] == a && around.last() == a);
    let other = seq![b] + path;
    assert forall|i: int| 0 <= i && i + 1 < other.len() implies #[trigger] steps(
        edge,
        other,
        i,
    ) by {
        if i > 0 {
            assert(steps(edge, path, i - 1));
        }
    }
    assert(is_path(edge, other) && other.len() >= 2 && other[0] == b && other.last() == b);
}

/// Along a measure that every edge decreases, nothing reaches a cycle.
pub proof fn lemma_descending_acyclic(
    edge: Edges,
    inside: spec_fn(int) -> bool,
    rank: spec_fn(int) -> int,
    a: int,
)
    requires
        inside(a),
        forall|x: int, y: int| inside(x) && #[trigger] edge(x, y) ==> inside(y) && rank(y) < rank(x),
    ensures
        !reaches_cycle(edge, a),
{
    if reaches_cycle(edge, a) {
        let b = choose|b: int| #[trigger] reaches(edge, a, b) && on_cycle(edge, b);
        lemma_closed(edge, inside, a, b);
        let path = choose|path: Seq<int>| #[trigger]
            is_path(edge, path) && path.len() >= 2 && path[0] == b && path.last() == b;
        lemma_descends_along(edge, inside, rank, path, path.len() - 1);
    }
}

proof fn lemma_descends_along(
    edge: Edges,
    inside: spec_fn(int) -> bool,
    rank: spec_fn(int) -> int,
    path: Seq<int>,
    n: int,
)
    requires
        is_path(edge, path),
        inside(path[0]),
        forall|x: int, y: int| inside(x) && #[trigger] edge(x, y) ==> inside(y) && rank(y) < rank(x),
        0 <= n < path.len(),
    ensures
        inside(path[n]),
        rank(path[n]) <= rank(path[0]) - n,
    decreases n,
{
    if n > 0 {
        lemma_descends_along(edge, inside, rank, path, n - 1);
        assert(steps(edge, path, n - 1));
    }
}

/// Distinct nodes below `count` number at most `count`.
pub proof fn lemma_distinct_below(nodes: Seq<int>, count: int)
    requires
        nodes.no_duplicates(),
        forall|i: int| 0 <= i < nodes.len() ==> 0 <= #[trigger] nodes[i] < count,
        count >= 0,
    ensures
        nodes.len() <= count,
{
    nodes.unique_seq_to_set();
    let all = vstd::set_lib::set_int_range(0, count);
    vstd::set_lib::lemma_int_range(0, count);
    assert(nodes.to_set().subset_of(all)) by {
        assert forall|x: int| #[trigger] nodes.to_set().contains(x) implies all.contains(x) by {
            let i = choose|i: int| 0 <= i < nodes.len() && nodes[i] == x;
            assert(nodes[i] == x);
        }
    }
    vstd::set_lib::lemma_len_subset(nodes.to_set(), all);
}

/// Where every node of a finite set can be left only to a node of the set, a
/// walk inside it must close a cycle.
pub proof fn lemma_no_exit_cycles(
    edge: Edges,
    inside: spec_fn(int) -> bool,
    count: int,
    start: int,
)
    requires
        inside(start),
        forall|x: int| #[trigger] inside(x) ==> 0 <= x < count,
        forall|x: int| #[trigger] inside(x) ==> exists|y: int| #[trigger] edge(x, y) && inside(y),
    ensures
        exists|b: int| #[trigger] reaches(edge, start, b) && on_cycle(edge, b) && inside(b),
{
    assert(is_path(edge, seq![start]));
    lemma_walk_closes(edge, inside, count, seq![start]);
}

proof fn lemma_walk_closes(
    edge: Edges,
    inside: spec_fn(int) -> bool,
    count: int,
    path: Seq<int>,
)
    requires
        is_path(edge, path),
        path.no_duplicates(),
        forall|i: int| 0 <= i < path.len() ==> inside(#[trigger] path[i]),
        forall|x: int| #[trigger] inside(x) ==> 0 <= x < count,
        forall|x: int| #[trigger] inside(x) ==> exists|y: int| #[trigger] edge(x, y) && inside(y),
    ensures
        exists|b: int| #[trigger] reaches(edge, path[0], b) && on_cycle(edge, b) && inside(b),
    decreases count - path.len(),
{
    let last = path.last();
    assert(inside(path[path.len() - 1]));
    let next = choose|y: int| #[trigger] edge(last, y) && inside(y);
    let longer = path.push(next);
    assert forall|i: int| 0 <= i && i + 1 < longer.len() implies #[trigger] steps(
        edge,
        longer,
        i,
    ) by {
        if i + 1 < path.len() {
            assert(steps(edge, path, i));
        }
    }
    if path.contains(next) {
        let j = choose|j: int| 0 <= j < path.len() && path[j] == next;
        let around = longer.skip(j);
        assert forall|i: int| 0 <= i && i + 1 < around.len() implies #[trigger] steps(
            edge,
            around,
            i,
        ) by {
            assert(steps(edge, longer, i + j));
        }
        assert(is_path(edge, around) && around[0] == next && around.last() == next);
        assert(on_cycle(edge, next));
        assert(is_path(edge, longer) && longer[0] == path[0] && longer.last() == next);
        assert(reaches(edge, path[0], next));
    } else {
        assert forall|i: int| 0 <= i < longer.len() implies inside(#[trigger] longer[i]) by {
            if i < path.len() {
                assert(longer[i] == path[i]);
            }
        }
        lemma_distinct_below(longer, count);
        lemma_walk_closes(edge, inside, count, longer);
        assert(longer[0] == path[0]);
    }
}

/// How many flags are still down.
pub open spec fn unset(flags: Seq<bool>) -> nat
    decreases flags.len(),
{
    if flags.len() == 0 {
        0
    } else {
        unset(flags.drop_last()) + if flags.last() {
            0nat
        } else {
            1nat
        }
    }
}

/// Raising a flag leaves one fewer down.
pub proof fn lemma_unset_raise(flags: Seq<bool>, i: int)
    requires
        0 <= i < flags.len(),
        !flags[i],
    ensures
        unset(flags.update(i, true)) + 1 == unset(flags),
    decreases flags.len(),
{
    let raised = flags.update(i, true);
    if i == flags.len() - 1 {
        assert(raised.drop_last() =~= flags.drop_last());
    } else {
        lemma_unset_raise(flags.drop_last(), i);
        assert(raised.drop_last() =~= flags.drop_last().update(i, true));
    }
}

/// No more flags are down than there are flags.
pub proof fn lemma_unset_bound(flags: Seq<bool>)
    ensures
        unset(flags) <= flags.len(),
    decreases flags.len(),
{
    if flags.len() > 0 {
        lemma_unset_bound(flags.drop_last());
    }
}

/// `count` flags, all down.
pub fn flags_down(count: usize) -> (flags: Vec<bool>)
    ensures
        flags@.len() == count,
        forall|i: int| 0 <= i < count ==> !flags@[i],
{
    let mut flags: Vec<bool> = Vec::new();
    let mut i: usize = 0;
    while i < count
        invariant
            i <= count,
            flags@.len() == i,
            forall|k: int| 0 <= k < i ==> !flags@[k],
        decreases count - i,
    {
        flags.push(false);
        i += 1;
    }
    flags
}

} // verus!
