//! Evaluation order for module constants, decided on the resolved program.
//!
//! The rows of a program's constants promise to sit in evaluation order: filling
//! the slots front to back at program start initializes every constant after
//! everything its initializer reads. Analysis hands the rows over in declaration
//! order; this pass walks the call graph each initializer can execute, sorts the
//! rows, and rewrites every read to match.
//!
//! The only cycles are real ones: an initializer that reaches its own slot
//! through the functions it calls. Those are refused.

use vstd::prelude::*;

use crate::graph::{
    flags_down, lemma_descending_acyclic, lemma_distinct_below, lemma_no_exit_cycles,
    lemma_reaches_self, lemma_unset_raise, on_cycle, reaches, reaches_cycle, unset, Edges,
};

verus! {

/// Every slot has one flag per slot.
pub open spec fn square(deps: Seq<Seq<bool>>) -> bool {
    forall|i: int| 0 <= i < deps.len() ==> (#[trigger] deps[i]).len() == deps.len()
}

/// The flags of every slot, by slot.
pub open spec fn rows(deps: Seq<Vec<bool>>) -> Seq<Seq<bool>> {
    deps.map_values(|flags: Vec<bool>| flags@)
}

/// Slot `a`'s value needs slot `b`'s.
pub open spec fn depends(deps: Seq<Seq<bool>>, a: int, b: int) -> bool {
    0 <= a < deps.len() && 0 <= b < deps.len() && deps[a][b]
}

/// From a slot to the slots its value needs.
pub open spec fn needs(deps: Seq<Seq<bool>>) -> Edges {
    |a: int, b: int| depends(deps, a, b)
}

/// Slot `slot` sits in `order`.
pub open spec fn placed_in(order: Seq<u32>, slot: int) -> bool {
    exists|k: int| 0 <= k < order.len() && #[trigger] order[k] == slot
}

/// `slot` is not placed yet and everything it needs is.
pub open spec fn ready(deps: Seq<Seq<bool>>, order: Seq<u32>, slot: int) -> bool {
    &&& 0 <= slot < deps.len()
    &&& !placed_in(order, slot)
    &&& forall|d: int| #[trigger] depends(deps, slot, d) ==> d != slot && placed_in(order, d)
}

/// `slot` is the first ready slot in declaration order.
pub open spec fn first_ready(deps: Seq<Seq<bool>>, order: Seq<u32>, slot: int) -> bool {
    ready(deps, order, slot) && forall|s: int| 0 <= s < slot ==> !#[trigger] ready(deps, order, s)
}

/// Each slot of `order` was the first ready one when it was placed.
pub open spec fn greedy(deps: Seq<Seq<bool>>, order: Seq<u32>) -> bool {
    forall|k: int|
        0 <= k < order.len() ==> first_ready(deps, #[trigger] order.take(k), order[k] as int)
}

/// `rest` lists, in declaration order, exactly the slots `order` does not hold.
pub open spec fn leftover(count: int, order: Seq<u32>, rest: Seq<u32>) -> bool {
    &&& forall|i: int, j: int| 0 <= i < j < rest.len() ==> #[trigger] rest[i] < #[trigger] rest[j]
    &&& forall|k: int|
        0 <= k < rest.len() ==> #[trigger] rest[k] < count && !placed_in(order, rest[k] as int)
    &&& forall|s: int|
        0 <= s < count && !#[trigger] placed_in(order, s) ==> placed_in(rest, s)
}

/// `order` places slots one ready slot at a time until none is ready, `placed`
/// of them, and then lists the rest.
pub open spec fn evaluation_order(deps: Seq<Seq<bool>>, order: Seq<u32>, placed: int) -> bool {
    &&& 0 <= placed <= order.len()
    &&& greedy(deps, order.take(placed))
    &&& forall|s: int| !#[trigger] ready(deps, order.take(placed), s)
    &&& leftover(deps.len() as int, order.take(placed), order.skip(placed))
}

/// A slot order and how many of its slots were placed after all they need.
#[derive(Debug)]
pub struct ConstantOrder {
    pub order: Vec<u32>,
    pub placed: usize,
}

fn is_ready(deps: &Vec<Vec<bool>>, placed: &Vec<bool>, order: &Vec<u32>, slot: usize) -> (res: bool)
    requires
        square(rows(deps@)),
        slot < deps@.len(),
        placed@.len() == deps@.len(),
        forall|s: int| 0 <= s < placed@.len() ==> #[trigger] placed@[s] == placed_in(order@, s),
    ensures
        res == ready(rows(deps@), order@, slot as int),
{
    if placed[slot] {
        return false;
    }
    let mut d: usize = 0;
    while d < deps.len()
        invariant
            square(rows(deps@)),
            slot < deps@.len(),
            d <= deps@.len(),
            placed@.len() == deps@.len(),
            forall|s: int| 0 <= s < placed@.len() ==> #[trigger] placed@[s] == placed_in(order@, s),
            !placed@[slot as int],
            forall|e: int|
                0 <= e < d && #[trigger] depends(rows(deps@), slot as int, e) ==> e != slot && placed_in(
                    order@,
                    e,
                ),
        decreases deps@.len() - d,
    {
        assert(rows(deps@)[slot as int] == deps@[slot as int]@);
        if deps[slot][d] && (d == slot || !placed[d]) {
            assert(depends(rows(deps@), slot as int, d as int));
            return false;
        }
        d += 1;
    }
    true
}

/// Each slot after everything it depends on, ties broken by declaration order.
///
/// A slot that cannot be placed needs its own value. It still gets a position,
/// after all that can be placed, so that every read stays in range.
pub fn solve_constant_order(deps: &Vec<Vec<bool>>) -> (solved: ConstantOrder)
    requires
        square(rows(deps@)),
        deps@.len() <= u32::MAX,
    ensures
        evaluation_order(rows(deps@), solved.order@, solved.placed as int),
{
    let count: usize = deps.len();
    let mut placed: Vec<bool> = flags_down(count);
    let mut order: Vec<u32> = Vec::new();
    let mut searching: bool = true;
    while searching
        invariant
            square(rows(deps@)),
            count == deps@.len(),
            count <= u32::MAX,
            placed@.len() == count,
            forall|s: int| 0 <= s < count ==> #[trigger] placed@[s] == placed_in(order@, s),
            greedy(rows(deps@), order@),
            !searching ==> forall|s: int| !#[trigger] ready(rows(deps@), order@, s),
        decreases unset(placed@), searching as int,
    {
        let mut slot: usize = 0;
        while slot < count && !is_ready(deps, &placed, &order, slot)
            invariant
                square(rows(deps@)),
                count == deps@.len(),
                placed@.len() == count,
                slot <= count,
                forall|s: int| 0 <= s < count ==> #[trigger] placed@[s] == placed_in(order@, s),
                forall|s: int| 0 <= s < slot ==> !#[trigger] ready(rows(deps@), order@, s),
            ensures
                slot <= count,
                forall|s: int| 0 <= s < slot ==> !#[trigger] ready(rows(deps@), order@, s),
                slot < count ==> ready(rows(deps@), order@, slot as int),
            decreases count - slot,
        {
            slot += 1;
        }
        if slot < count {
            let ghost before = order@;
            let ghost marked = placed@;
            placed[slot] = true;
            order.push(slot as u32);
            proof {
                lemma_unset_raise(marked, slot as int);
                assert forall|s: int| 0 <= s < count implies #[trigger] placed@[s] == placed_in(
                    order@,
                    s,
                ) by {
                    if s == slot {
                        assert(order@[before.len() as int] == s);
                    } else {
                        if placed_in(before, s) {
                            let k = choose|k: int| 0 <= k < before.len() && #[trigger] before[k] == s;
                            assert(order@[k] == s);
                        }
                        if placed_in(order@, s) {
                            let k = choose|k: int|
                                0 <= k < order@.len() && #[trigger] order@[k] == s;
                            assert(before[k] == s);
                        }
                    }
                }
                assert forall|k: int| 0 <= k < order@.len() implies first_ready(
                    rows(deps@),
                    #[trigger] order@.take(k),
                    order@[k] as int,
                ) by {
                    assert(order@.take(k) =~= before.take(k));
                    if k == before.len() {
                        assert(before.take(k) =~= before);
                    }
                }
            }
        } else {
            searching = false;
        }
    }
    let solved: usize = order.len();
    let ghost done = order@;
    let mut slot: usize = 0;
    while slot < count
        invariant
            slot <= count,
            count == deps@.len(),
            count <= u32::MAX,
            placed@.len() == count,
            solved == done.len(),
            solved <= order@.len(),
            order@.take(solved as int) == done,
            forall|s: int| 0 <= s < count ==> #[trigger] placed@[s] == placed_in(done, s),
            leftover(slot as int, done, order@.skip(solved as int)),
        decreases count - slot,
    {
        let ghost before = order@;
        let ghost rest = order@.skip(solved as int);
        if !placed[slot] {
            order.push(slot as u32);
            proof {
                let more = order@.skip(solved as int);
                assert(more =~= rest.push(slot as u32));
                assert(order@.take(solved as int) =~= done);
                assert(more[rest.len() as int] == slot);
                assert forall|s: int|
                    0 <= s < slot + 1 && !#[trigger] placed_in(done, s) implies placed_in(
                    more,
                    s,
                ) by {
                    if s < slot {
                        let k = choose|k: int| 0 <= k < rest.len() && #[trigger] rest[k] == s;
                        assert(more[k] == s);
                    }
                }
            }
        }
        slot += 1;
    }
    ConstantOrder { order, placed: solved }
}

/// The first slot in declaration order that `at` needs and `placed` lacks.
pub open spec fn next_unplaced(
    deps: Seq<Seq<bool>>,
    placed: Seq<bool>,
    at: int,
    next: Option<u32>,
) -> bool {
    match next {
        Some(slot) => depends(deps, at, slot as int) && !placed[slot as int] && forall|d: int|
            0 <= d < slot && #[trigger] depends(deps, at, d) ==> placed[d],
        None => forall|d: int| #[trigger] depends(deps, at, d) ==> placed[d],
    }
}

/// `walk` starts at `start` and goes on to the first unplaced need each time,
/// never meeting a slot twice.
pub open spec fn unplaced_walk(
    deps: Seq<Seq<bool>>,
    placed: Seq<bool>,
    start: u32,
    walk: Seq<u32>,
) -> bool {
    &&& walk.len() > 0
    &&& walk[0] == start
    &&& walk.no_duplicates()
    &&& forall|i: int| 0 < i < walk.len() ==> #[trigger] walk_step(deps, placed, walk, i)
}

/// The walk comes to position `i` by the first unplaced need of the one before.
pub open spec fn walk_step(
    deps: Seq<Seq<bool>>,
    placed: Seq<bool>,
    walk: Seq<u32>,
    i: int,
) -> bool {
    next_unplaced(deps, placed, walk[i - 1] as int, Some(walk[i]))
}

/// Each member of `cycle` needs the next one, and the last needs the first.
pub open spec fn closed_ring(deps: Seq<Seq<bool>>, cycle: Seq<u32>) -> bool {
    &&& cycle.len() > 0
    &&& forall|i: int| 0 < i < cycle.len() ==> #[trigger] ring_step(deps, cycle, i)
    &&& depends(deps, cycle.last() as int, cycle[0] as int)
}

/// The member before position `i` needs the one at `i`.
pub open spec fn ring_step(deps: Seq<Seq<bool>>, cycle: Seq<u32>, i: int) -> bool {
    depends(deps, cycle[i - 1] as int, cycle[i] as int)
}

/// `cycle` is where the walk from `start` first comes back to itself, or the
/// whole walk where it comes to an end.
pub open spec fn walked_cycle(
    deps: Seq<Seq<bool>>,
    placed: Seq<bool>,
    start: u32,
    cycle: Seq<u32>,
) -> bool {
    cycle.len() > 0 && exists|lead: Seq<u32>|
        {
            &&& #[trigger] unplaced_walk(deps, placed, start, lead + cycle)
            &&& next_unplaced(deps, placed, cycle.last() as int, Some(cycle[0])) || (lead.len() == 0
                && next_unplaced(deps, placed, cycle.last() as int, None))
        }
}

fn find_unplaced(deps: &Vec<Vec<bool>>, placed: &Vec<bool>, at: u32) -> (next: Option<u32>)
    requires
        square(rows(deps@)),
        deps@.len() <= u32::MAX,
        placed@.len() == deps@.len(),
        at < deps@.len(),
    ensures
        next_unplaced(rows(deps@), placed@, at as int, next),
{
    let mut d: usize = 0;
    while d < deps.len()
        invariant
            square(rows(deps@)),
            deps@.len() <= u32::MAX,
            placed@.len() == deps@.len(),
            at < deps@.len(),
            d <= deps@.len(),
            forall|e: int| 0 <= e < d && #[trigger] depends(rows(deps@), at as int, e) ==> placed@[e],
        decreases deps@.len() - d,
    {
        assert(rows(deps@)[at as int] == deps@[at as int]@);
        if deps[at as usize][d] && !placed[d] {
            assert(depends(rows(deps@), at as int, d as int));
            return Some(d as u32);
        }
        d += 1;
    }
    None
}

/// The members of one evaluation cycle, in walk order.
pub fn evaluation_cycle(deps: &Vec<Vec<bool>>, placed: &Vec<bool>, start: u32) -> (cycle: Vec<u32>)
    requires
        square(rows(deps@)),
        deps@.len() <= u32::MAX,
        placed@.len() == deps@.len(),
        start < deps@.len(),
    ensures
        walked_cycle(rows(deps@), placed@, start, cycle@),
        forall|k: int| 0 <= k < cycle@.len() ==> #[trigger] cycle@[k] < deps@.len(),
{
    let mut path: Vec<u32> = Vec::new();
    path.push(start);
    let mut at: u32 = start;
    loop
        invariant
            square(rows(deps@)),
            deps@.len() <= u32::MAX,
            placed@.len() == deps@.len(),
            at < deps@.len(),
            unplaced_walk(rows(deps@), placed@, start, path@),
            at == path@.last(),
            forall|k: int| 0 <= k < path@.len() ==> #[trigger] path@[k] < deps@.len(),
        decreases deps@.len() - path@.len(),
    {
        match find_unplaced(deps, placed, at) {
            None => {
                assert(Seq::<u32>::empty() + path@ =~= path@);
                assert(unplaced_walk(rows(deps@), placed@, start, Seq::<u32>::empty() + path@));
                return path;
            },
            Some(next) => {
                match position(&path, next) {
                    Some(first) => {
                        let cycle = tail_from(&path, first);
                        proof {
                            let lead = path@.take(first as int);
                            assert(lead + cycle@ =~= path@);
                            assert(unplaced_walk(rows(deps@), placed@, start, lead + cycle@));
                        }
                        return cycle;
                    },
                    None => {
                        let ghost before = path@;
                        path.push(next);
                        at = next;
                        proof {
                            assert(path@.no_duplicates());
                            let nodes = path@.map_values(|slot: u32| slot as int);
                            assert forall|i: int, j: int|
                                0 <= i < nodes.len() && 0 <= j < nodes.len() && i
                                    != j implies nodes[i] != nodes[j] by {
                                assert(path@[i] != path@[j]);
                            }
                            lemma_distinct_below(nodes, deps@.len() as int);
                            assert forall|i: int| 0 < i < path@.len() implies #[trigger] walk_step(
                                rows(deps@),
                                placed@,
                                path@,
                                i,
                            ) by {
                                if i < before.len() {
                                    assert(walk_step(rows(deps@), placed@, before, i));
                                }
                            }
                        }
                    },
                }
            },
        }
    }
}

/// Where `slot` first sits in `path`.
fn position(path: &Vec<u32>, slot: u32) -> (found: Option<usize>)
    ensures
        match found {
            Some(i) => i < path@.len() && path@[i as int] == slot,
            None => forall|i: int| 0 <= i < path@.len() ==> #[trigger] path@[i] != slot,
        },
{
    let mut i: usize = 0;
    while i < path.len()
        invariant
            i <= path@.len(),
            forall|k: int| 0 <= k < i ==> #[trigger] path@[k] != slot,
        decreases path@.len() - i,
    {
        if path[i] == slot {
            return Some(i);
        }
        i += 1;
    }
    None
}

fn tail_from(path: &Vec<u32>, first: usize) -> (tail: Vec<u32>)
    requires
        first <= path@.len(),
    ensures
        tail@ == path@.skip(first as int),
{
    let mut tail: Vec<u32> = Vec::new();
    let mut i: usize = first;
    while i < path.len()
        invariant
            first <= i <= path@.len(),
            tail@ == path@.subrange(first as int, i as int),
        decreases path@.len() - i,
    {
        tail.push(path[i]);
        i += 1;
        assert(path@.subrange(first as int, i as int) =~= path@.subrange(
            first as int,
            i - 1,
        ).push(path@[i - 1]));
    }
    assert(path@.subrange(first as int, i as int) =~= path@.skip(first as int));
    tail
}

/// `order` holds every slot below its length exactly once.
pub open spec fn is_permutation(order: Seq<u32>) -> bool {
    &&& order.no_duplicates()
    &&& forall|k: int| 0 <= k < order.len() ==> #[trigger] order[k] < order.len()
    &&& forall|s: int| 0 <= s < order.len() ==> #[trigger] placed_in(order, s)
}

/// An evaluation order holds every slot exactly once.
pub proof fn order_is_a_permutation(deps: Seq<Seq<bool>>, order: Seq<u32>, placed: int)
    requires
        evaluation_order(deps, order, placed),
    ensures
        order.len() == deps.len(),
        is_permutation(order),
{
    let count = deps.len() as int;
    let done = order.take(placed);
    let rest = order.skip(placed);
    assert forall|k: int| 0 <= k < order.len() implies #[trigger] order[k] < count by {
        if k < placed {
            assert(done[k] == order[k]);
            assert(first_ready(deps, done.take(k), done[k] as int));
        } else {
            assert(rest[k - placed] == order[k]);
        }
    }
    assert forall|i: int, j: int| 0 <= i < j < order.len() implies order[i] != order[j] by {
        if j < placed {
            assert(first_ready(deps, done.take(j), done[j] as int));
            assert(done.take(j)[i] == order[i]);
        } else if i < placed {
            assert(rest[j - placed] == order[j]);
            assert(done[i] == order[i]);
        } else {
            assert(rest[i - placed] < rest[j - placed]);
        }
    }
    assert forall|s: int| 0 <= s < count implies #[trigger] placed_in(order, s) by {
        if placed_in(done, s) {
            let k = choose|k: int| 0 <= k < done.len() && #[trigger] done[k] == s;
            assert(order[k] == s);
        } else {
            let k = choose|k: int| 0 <= k < rest.len() && #[trigger] rest[k] == s;
            assert(order[k + placed] == s);
        }
    }
    let nodes = order.map_values(|slot: u32| slot as int);
    assert forall|i: int, j: int| 0 <= i < nodes.len() && 0 <= j < nodes.len() && i != j implies nodes[i]
        != nodes[j] by {
        if i < j {
            assert(order[i] != order[j]);
        } else {
            assert(order[j] != order[i]);
        }
    }
    lemma_distinct_below(nodes, count);
    // Every slot below the count has a position, so there are that many.
    let where_is = Seq::new(
        count as nat,
        |s: int| choose|k: int| 0 <= k < order.len() && #[trigger] order[k] == s,
    );
    assert forall|s: int| 0 <= s < count implies 0 <= #[trigger] where_is[s] < order.len()
        && order[where_is[s]] == s by {
        assert(placed_in(order, s));
    }
    lemma_distinct_below(where_is, order.len() as int);
}

/// A placed slot comes after every slot its value needs.
pub proof fn placed_after_needs(
    deps: Seq<Seq<bool>>,
    order: Seq<u32>,
    placed: int,
    k: int,
    need: int,
)
    requires
        evaluation_order(deps, order, placed),
        0 <= k < placed,
        depends(deps, order[k] as int, need),
    ensures
        exists|j: int| 0 <= j < k && #[trigger] order[j] == need,
{
    let done = order.take(placed);
    assert(done[k] == order[k]);
    assert(first_ready(deps, done.take(k), done[k] as int));
    assert(placed_in(done.take(k), need));
    let j = choose|j: int| 0 <= j < done.take(k).len() && #[trigger] done.take(k)[j] == need;
    assert(order[j] == need);
}

/// Every slot can be placed exactly when no slot needs its own value.
pub proof fn all_placed_without_cycles(deps: Seq<Seq<bool>>, order: Seq<u32>, placed: int)
    requires
        evaluation_order(deps, order, placed),
    ensures
        placed == order.len() <==> forall|s: int| !#[trigger] on_cycle(needs(deps), s),
{
    if placed < order.len() {
        lemma_stuck_on_cycle(deps, order, placed);
    } else {
        assert forall|s: int| !#[trigger] on_cycle(needs(deps), s) by {
            lemma_placed_off_cycle(deps, order, s);
        }
    }
}

proof fn lemma_stuck_on_cycle(deps: Seq<Seq<bool>>, order: Seq<u32>, placed: int)
    requires
        evaluation_order(deps, order, placed),
        placed < order.len(),
    ensures
        exists|s: int| #[trigger] on_cycle(needs(deps), s),
{
    let edge = needs(deps);
    let done = order.take(placed);
    let count = deps.len() as int;
    let stuck = |s: int| 0 <= s < count && !placed_in(done, s);
    let first = order.skip(placed)[0] as int;
    assert(stuck(first));
    assert forall|x: int| #[trigger] stuck(x) implies exists|y: int| #[trigger]
        edge(x, y) && stuck(y) by {
        assert(!ready(deps, done, x));
        let d = choose|d: int| #[trigger] depends(deps, x, d) && !(d != x && placed_in(done, d));
        assert(edge(x, d) && stuck(d));
    }
    lemma_no_exit_cycles(edge, stuck, count, first);
}

proof fn lemma_placed_off_cycle(deps: Seq<Seq<bool>>, order: Seq<u32>, s: int)
    requires
        evaluation_order(deps, order, order.len() as int),
    ensures
        !on_cycle(needs(deps), s),
{
    let edge = needs(deps);
    let count = deps.len() as int;
    let total = order.len() as int;
    order_is_a_permutation(deps, order, total);
    let rank = |s: int| choose|k: int| 0 <= k < order.len() && #[trigger] order[k] == s;
    let inside = |s: int| 0 <= s < count;
    assert forall|x: int, y: int| inside(x) && #[trigger] edge(x, y) implies inside(y) && rank(y)
        < rank(x) by {
        assert(placed_in(order, x));
        assert(placed_in(order, y));
        let k = rank(x);
        placed_after_needs(deps, order, total, k, y);
        let j = choose|j: int| 0 <= j < k && #[trigger] order[j] == y;
        assert(order[rank(y)] == order[j]);
    }
    if on_cycle(edge, s) {
        let path = choose|path: Seq<int>| #[trigger]
            crate::graph::is_path(edge, path) && path.len() >= 2 && path[0] == s && path.last()
                == s;
        assert(crate::graph::steps(edge, path, 0));
        assert(inside(s));
        lemma_reaches_self(edge, s);
        lemma_descending_acyclic(edge, inside, rank, s);
        assert(reaches(edge, s, s) && on_cycle(edge, s));
        assert(reaches_cycle(edge, s));
    }
}

/// What is reported as a cycle is one: each member needs the next, and the last
/// needs the first.
pub proof fn reported_cycle_is_genuine(
    deps: Seq<Seq<bool>>,
    order: Seq<u32>,
    placed: int,
    flags: Seq<bool>,
    cycle: Seq<u32>,
)
    requires
        evaluation_order(deps, order, placed),
        placed < order.len(),
        flags.len() == deps.len(),
        forall|s: int|
            0 <= s < flags.len() ==> #[trigger] flags[s] == placed_in(order.take(placed), s),
        walked_cycle(deps, flags, order[placed], cycle),
    ensures
        closed_ring(deps, cycle),
{
    let done = order.take(placed);
    let lead = choose|lead: Seq<u32>|
        {
            &&& #[trigger] unplaced_walk(deps, flags, order[placed], lead + cycle)
            &&& next_unplaced(deps, flags, cycle.last() as int, Some(cycle[0])) || (lead.len() == 0
                && next_unplaced(deps, flags, cycle.last() as int, None))
        };
    let walk = lead + cycle;
    order_is_a_permutation(deps, order, placed);
    assert(order.skip(placed)[0] == order[placed]);
    // The walk never leaves the unplaced slots, so its end has an unplaced need.
    let last = walk.last() as int;
    assert(last == cycle.last());
    assert(0 <= last < deps.len() && !flags[last]) by {
        if walk.len() > 1 {
            assert(walk_step(deps, flags, walk, walk.len() - 1));
        }
    }
    if next_unplaced(deps, flags, last, None) {
        assert(!ready(deps, done, last));
        let d = choose|d: int| #[trigger]
            depends(deps, last, d) && !(d != last && placed_in(done, d));
        assert(flags[d]);
    }
    assert forall|i: int| 0 < i < cycle.len() implies #[trigger] ring_step(deps, cycle, i) by {
        assert(walk_step(deps, flags, walk, lead.len() + i));
    }
}

/// Every member of a ring of needs needs its own value.
pub proof fn ring_members_need_themselves(deps: Seq<Seq<bool>>, cycle: Seq<u32>, i: int)
    requires
        closed_ring(deps, cycle),
        0 <= i < cycle.len(),
    ensures
        on_cycle(needs(deps), cycle[i] as int),
{
    let edge = needs(deps);
    let ring = cycle.map_values(|slot: u32| slot as int);
    let around = ring.skip(i) + ring.take(i).push(ring[i]);
    let first = ring.len() - i;
    assert forall|k: int| 0 <= k && k + 1 < around.len() implies #[trigger] crate::graph::steps(
        edge,
        around,
        k,
    ) by {
        if k + 1 < first {
            assert(ring_step(deps, cycle, i + k + 1));
        } else if k + 1 > first {
            assert(ring_step(deps, cycle, k - first + 1));
        }
    }
    assert(crate::graph::is_path(edge, around));
}

/// `after` is `deps` with its slots relabelled: slot `k` is what slot `order[k]` was.
pub open spec fn relabelled(
    deps: Seq<Seq<bool>>,
    order: Seq<u32>,
    after: Seq<Seq<bool>>,
) -> bool {
    &&& after.len() == deps.len()
    &&& forall|a: int, b: int|
        0 <= a < deps.len() && 0 <= b < deps.len() ==> (#[trigger] depends(after, a, b) <==> depends(
            deps,
            order[a] as int,
            order[b] as int,
        ))
}

proof fn lemma_placed_need_earlier(
    deps: Seq<Seq<bool>>,
    order: Seq<u32>,
    placed: int,
    after: Seq<Seq<bool>>,
    k: int,
    d: int,
)
    requires
        evaluation_order(deps, order, placed),
        relabelled(deps, order, after),
        0 <= k < placed,
        depends(after, k, d),
    ensures
        d < k,
{
    order_is_a_permutation(deps, order, placed);
    assert(depends(deps, order[k] as int, order[d] as int));
    placed_after_needs(deps, order, placed, k, order[d] as int);
    let j = choose|j: int| 0 <= j < k && #[trigger] order[j] == order[d] as int;
    assert(order[j] == order[d]);
}

proof fn lemma_prefix_again(
    deps: Seq<Seq<bool>>,
    order: Seq<u32>,
    placed: int,
    after: Seq<Seq<bool>>,
    again: Seq<u32>,
    placed_again: int,
    k: int,
)
    requires
        evaluation_order(deps, order, placed),
        relabelled(deps, order, after),
        evaluation_order(after, again, placed_again),
        0 <= k <= placed,
    ensures
        k <= placed_again,
        forall|j: int| 0 <= j < k ==> #[trigger] again[j] == j,
    decreases k,
{
    if k > 0 {
        let at = k - 1;
        lemma_prefix_again(deps, order, placed, after, again, placed_again, at);
        order_is_a_permutation(deps, order, placed);
        order_is_a_permutation(after, again, placed_again);
        let done = again.take(placed_again);
        let before = again.take(at);
        assert(done.take(at) =~= before);
        assert forall|s: int| 0 <= s < at implies placed_in(before, s) by {
            assert(before[s] == s);
        }
        assert(ready(after, before, at)) by {
            if placed_in(before, at) {
                let j = choose|j: int| 0 <= j < before.len() && #[trigger] before[j] == at;
                assert(again[j] == j);
            }
            assert forall|d: int| #[trigger] depends(after, at, d) implies d != at && placed_in(
                before,
                d,
            ) by {
                lemma_placed_need_earlier(deps, order, placed, after, at, d);
            }
        }
        if placed_again == at {
            assert(before =~= done);
            assert(!ready(after, done, at));
        }
        assert(first_ready(after, done.take(at), done[at] as int));
        assert(again[at] == at) by {
            assert(done[at] == again[at]);
            if again[at] < at {
                assert(placed_in(before, again[at] as int));
            }
        }
    }
}

proof fn lemma_stuck_again(
    deps: Seq<Seq<bool>>,
    order: Seq<u32>,
    placed: int,
    after: Seq<Seq<bool>>,
    again: Seq<u32>,
    placed_again: int,
)
    requires
        evaluation_order(deps, order, placed),
        relabelled(deps, order, after),
        evaluation_order(after, again, placed_again),
    ensures
        placed_again == placed,
{
    lemma_prefix_again(deps, order, placed, after, again, placed_again, placed);
    order_is_a_permutation(deps, order, placed);
    order_is_a_permutation(after, again, placed_again);
    if placed_again > placed {
        let done = again.take(placed_again);
        let first = order.take(placed);
        assert(first_ready(after, done.take(placed), done[placed] as int));
        let s = done[placed] as int;
        assert(s >= placed) by {
            if s < placed {
                assert(done.take(placed)[s] == s);
                assert(placed_in(done.take(placed), s));
            }
        }
        assert(ready(deps, first, order[s] as int)) by {
            if placed_in(first, order[s] as int) {
                let j = choose|j: int|
                    0 <= j < first.len() && #[trigger] first[j] == order[s] as int;
                assert(order[j] == order[s]);
            }
            assert forall|e: int| #[trigger] depends(deps, order[s] as int, e) implies e
                != order[s] as int && placed_in(first, e) by {
                assert(placed_in(order, e));
                let d = choose|d: int| 0 <= d < order.len() && #[trigger] order[d] == e;
                assert(depends(after, s, d));
                assert(placed_in(done.take(placed), d));
                let j = choose|j: int|
                    0 <= j < done.take(placed).len() && #[trigger] done.take(placed)[j] == d;
                assert(again[j] == j);
                assert(first[d] == e);
                assert(d != s);
                assert(order[d] != order[s]);
            }
        }
    }
}

proof fn lemma_ascending_fits(rest: Seq<u32>, low: int, i: int)
    requires
        forall|a: int, b: int| 0 <= a < b < rest.len() ==> #[trigger] rest[a] < #[trigger] rest[b],
        forall|k: int| 0 <= k < rest.len() ==> low <= #[trigger] rest[k] < low + rest.len(),
        0 <= i < rest.len(),
    ensures
        rest[i] == low + i,
{
    lemma_at_least(rest, low, i);
    lemma_at_most(rest, low, i);
}

proof fn lemma_at_least(rest: Seq<u32>, low: int, i: int)
    requires
        forall|a: int, b: int| 0 <= a < b < rest.len() ==> #[trigger] rest[a] < #[trigger] rest[b],
        forall|k: int| 0 <= k < rest.len() ==> low <= #[trigger] rest[k],
        0 <= i < rest.len(),
    ensures
        rest[i] >= low + i,
    decreases i,
{
    if i > 0 {
        lemma_at_least(rest, low, i - 1);
        assert(rest[i - 1] < rest[i]);
    }
}

proof fn lemma_at_most(rest: Seq<u32>, low: int, i: int)
    requires
        forall|a: int, b: int| 0 <= a < b < rest.len() ==> #[trigger] rest[a] < #[trigger] rest[b],
        forall|k: int| 0 <= k < rest.len() ==> #[trigger] rest[k] < low + rest.len(),
        0 <= i < rest.len(),
    ensures
        rest[i] <= low + i,
    decreases rest.len() - i,
{
    if i < rest.len() - 1 {
        lemma_at_most(rest, low, i + 1);
        assert(rest[i] < rest[i + 1]);
    }
}

/// What was put in evaluation order stays in it: ordering it again moves no slot.
pub proof fn ordering_again_moves_nothing(
    deps: Seq<Seq<bool>>,
    order: Seq<u32>,
    placed: int,
    after: Seq<Seq<bool>>,
    again: Seq<u32>,
    placed_again: int,
)
    requires
        deps.len() <= u32::MAX,
        evaluation_order(deps, order, placed),
        relabelled(deps, order, after),
        evaluation_order(after, again, placed_again),
    ensures
        placed_again == placed,
        again.len() == deps.len(),
        forall|k: int| 0 <= k < again.len() ==> #[trigger] again[k] == k,
{
    order_is_a_permutation(after, again, placed_again);
    lemma_prefix_again(deps, order, placed, after, again, placed_again, placed);
    lemma_stuck_again(deps, order, placed, after, again, placed_again);
    let done = again.take(placed);
    let rest = again.skip(placed);
    assert forall|k: int| 0 <= k < rest.len() implies placed <= #[trigger] rest[k] < placed
        + rest.len() by {
        if rest[k] < placed {
            assert(done[rest[k] as int] == rest[k]);
            assert(placed_in(done, rest[k] as int));
        }
    }
    assert forall|k: int| 0 <= k < again.len() implies #[trigger] again[k] == k by {
        if k >= placed {
            lemma_ascending_fits(rest, placed, k - placed);
            assert(rest[k - placed] == again[k]);
        }
    }
}

/// Constants that only need earlier ones stay where they were declared.
pub proof fn declaration_order_is_kept(deps: Seq<Seq<bool>>, order: Seq<u32>, placed: int, k: int)
    requires
        deps.len() <= u32::MAX,
        evaluation_order(deps, order, placed),
        forall|a: int, b: int| #[trigger] depends(deps, a, b) ==> b < a,
        0 <= k < order.len(),
    ensures
        order[k] == k,
        placed == order.len(),
{
    order_is_a_permutation(deps, order, placed);
    lemma_kept_below(deps, order, placed, placed);
    let head = order.take(placed);
    if placed < order.len() {
        assert(!placed_in(head, placed)) by {
            if placed_in(head, placed) {
                let j = choose|j: int| 0 <= j < head.len() && #[trigger] head[j] == placed;
                assert(order[j] == j);
            }
        }
        assert(ready(deps, head, placed)) by {
            assert forall|d: int| #[trigger] depends(deps, placed, d) implies d != placed
                && placed_in(head, d) by {
                assert(head[d] == d);
            }
        }
    }
}

proof fn lemma_kept_below(deps: Seq<Seq<bool>>, order: Seq<u32>, placed: int, count: int)
    requires
        deps.len() <= u32::MAX,
        evaluation_order(deps, order, placed),
        forall|a: int, b: int| #[trigger] depends(deps, a, b) ==> b < a,
        0 <= count <= placed,
        order.len() == deps.len(),
    ensures
        forall|k: int| 0 <= k < count ==> #[trigger] order[k] == k,
    decreases count,
{
    if count > 0 {
        lemma_kept_below(deps, order, placed, count - 1);
        let k = count - 1;
        let all = order.take(placed);
        let head = all.take(k);
        assert(first_ready(deps, head, all[k] as int));
        assert forall|j: int| 0 <= j < k implies #[trigger] head[j] == j by {
            assert(order[j] == j);
        }
        assert(!placed_in(head, k));
        assert(ready(deps, head, k)) by {
            assert forall|d: int| #[trigger] depends(deps, k, d) implies d != k && placed_in(
                head,
                d,
            ) by {
                assert(head[d] == d);
            }
        }
        if order[k] < k {
            assert(head[order[k] as int] == order[k]);
        }
    }
}

} // verus!
