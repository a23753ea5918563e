//! The order classes are flattened in: every class after its parents.
//!
//! A cycle has no valid flattening, so every class on one, and every class that
//! inherits from one, is left out.

use vstd::prelude::*;

use crate::classes::ClassDecl;
use crate::diagnostics::{blamed, Diagnostic, Log, Problem};
use crate::graph::flags_down;
use crate::names::Symbol;

verus! {

/// How far the walk has come with one class.
#[derive(Clone, Copy, PartialEq, Eq, Structural, Debug)]
pub enum Colour {
    Unvisited,
    /// On the path being walked.
    OnPath,
    Finished,
}

/// What a depth-first walk over the classes has found so far.
pub struct Walk {
    pub colour: Seq<Colour>,
    /// The classes an edge back to the path was found at.
    pub cyclic: Seq<bool>,
    /// The finished classes that are not cyclic, in finishing order.
    pub order: Seq<int>,
    /// The class each cycle was closed at, in the order the cycles were found.
    pub closed: Seq<int>,
}

/// How many classes the walk has not come to.
pub open spec fn unvisited(colour: Seq<Colour>) -> nat
    decreases colour.len(),
{
    if colour.len() == 0 {
        0
    } else {
        unvisited(colour.drop_last()) + if colour.last() == Colour::Unvisited {
            1nat
        } else {
            0nat
        }
    }
}

/// The last class declared under `name`.
pub open spec fn declared_as(decls: Seq<ClassDecl>, name: Symbol) -> Option<int>
    decreases decls.len(),
{
    if decls.len() == 0 {
        None
    } else if decls.last().name == name {
        Some(decls.len() - 1)
    } else {
        declared_as(decls.drop_last(), name)
    }
}

/// The walk once it has left `n` for good.
pub open spec fn close(n: int, walk: Walk) -> Walk {
    Walk {
        colour: walk.colour.update(n, Colour::Finished),
        order: if walk.cyclic[n] {
            walk.order
        } else {
            walk.order.push(n)
        },
        ..walk
    }
}

/// The walk once it has come to `n`.
pub open spec fn enter(n: int, walk: Walk) -> Walk {
    Walk { colour: walk.colour.update(n, Colour::OnPath), ..walk }
}

/// The walk once a parent of `n` was found on the path.
pub open spec fn flag(n: int, walk: Walk) -> Walk {
    Walk { cyclic: walk.cyclic.update(n, true), closed: walk.closed.push(n), ..walk }
}

/// The walk once it has followed the parents of `n` from the one at `cursor` on,
/// depth first, and left `n`.
pub open spec fn finish(decls: Seq<ClassDecl>, n: int, cursor: int, walk: Walk) -> Walk
    decreases unvisited(walk.colour), decls[n].parents@.len() - cursor,
    via finish_decreases
{
    if cursor < 0 || cursor >= decls[n].parents@.len() {
        close(n, walk)
    } else {
        match declared_as(decls, decls[n].parents@[cursor].name) {
            None => finish(decls, n, cursor + 1, walk),
            Some(next) => if !(0 <= next < walk.colour.len()) {
                finish(decls, n, cursor + 1, walk)
            } else if walk.colour[next] == Colour::Unvisited {
                let inner = finish(decls, next, 0, enter(next, walk));
                if unvisited(inner.colour) < unvisited(walk.colour) {
                    finish(decls, n, cursor + 1, inner)
                } else {
                    inner
                }
            } else if walk.colour[next] == Colour::OnPath {
                finish(decls, n, cursor + 1, flag(n, walk))
            } else {
                finish(decls, n, cursor + 1, walk)
            },
        }
    }
}

#[via_fn]
proof fn finish_decreases(decls: Seq<ClassDecl>, n: int, cursor: int, walk: Walk) {
    if 0 <= cursor < decls[n].parents@.len() {
        match declared_as(decls, decls[n].parents@[cursor].name) {
            Some(next) => {
                if 0 <= next < walk.colour.len() && walk.colour[next] == Colour::Unvisited {
                    lemma_visit(walk.colour, next, Colour::OnPath);
                }
            },
            None => {},
        }
    }
}

/// Coming to a class leaves one fewer unvisited.
pub proof fn lemma_visit(colour: Seq<Colour>, n: int, to: Colour)
    requires
        0 <= n < colour.len(),
        colour[n] == Colour::Unvisited,
        to != Colour::Unvisited,
    ensures
        unvisited(colour.update(n, to)) + 1 == unvisited(colour),
    decreases colour.len(),
{
    let updated = colour.update(n, to);
    if n == colour.len() - 1 {
        assert(updated.drop_last() =~= colour.drop_last());
    } else {
        lemma_visit(colour.drop_last(), n, to);
        assert(updated.drop_last() =~= colour.drop_last().update(n, to));
    }
}

/// Recolouring a visited class leaves as many unvisited.
proof fn lemma_recolour(colour: Seq<Colour>, n: int, to: Colour)
    requires
        0 <= n < colour.len(),
        colour[n] != Colour::Unvisited,
        to != Colour::Unvisited,
    ensures
        unvisited(colour.update(n, to)) == unvisited(colour),
    decreases colour.len(),
{
    let updated = colour.update(n, to);
    if n == colour.len() - 1 {
        assert(updated.drop_last() =~= colour.drop_last());
    } else {
        lemma_recolour(colour.drop_last(), n, to);
        assert(updated.drop_last() =~= colour.drop_last().update(n, to));
    }
}

pub proof fn lemma_declared_as(decls: Seq<ClassDecl>, name: Symbol)
    ensures
        match declared_as(decls, name) {
            Some(i) => 0 <= i < decls.len() && decls[i].name == name && forall|k: int|
                i < k < decls.len() ==> (#[trigger] decls[k]).name != name,
            None => forall|k: int| 0 <= k < decls.len() ==> (#[trigger] decls[k]).name != name,
        },
    decreases decls.len(),
{
    if decls.len() > 0 && decls.last().name != name {
        lemma_declared_as(decls.drop_last(), name);
        match declared_as(decls, name) {
            Some(i) => {
                assert forall|k: int| i < k < decls.len() implies (#[trigger] decls[k]).name
                    != name by {
                    if k < decls.len() - 1 {
                        assert(decls.drop_last()[k] == decls[k]);
                    }
                }
                assert(decls.drop_last()[i] == decls[i]);
            },
            None => {
                assert forall|k: int| 0 <= k < decls.len() implies (#[trigger] decls[k]).name
                    != name by {
                    if k < decls.len() - 1 {
                        assert(decls.drop_last()[k] == decls[k]);
                    }
                }
            },
        }
    }
}

/// The columns of a walk over `count` classes are in step.
pub open spec fn in_step(walk: Walk, count: int) -> bool {
    walk.colour.len() == count && walk.cyclic.len() == count
}

/// Following a class's parents visits more classes and forgets none.
pub proof fn lemma_finish_visits(decls: Seq<ClassDecl>, n: int, cursor: int, walk: Walk)
    requires
        in_step(walk, decls.len() as int),
        0 <= n < decls.len(),
        0 <= cursor <= decls[n].parents@.len(),
        walk.colour[n] == Colour::OnPath,
    ensures
        in_step(finish(decls, n, cursor, walk), decls.len() as int),
        unvisited(finish(decls, n, cursor, walk).colour) <= unvisited(walk.colour),
        finish(decls, n, cursor, walk).colour[n] == Colour::Finished,
        forall|k: int|
            0 <= k < decls.len() && k != n && (#[trigger] walk.colour[k]) != Colour::Unvisited
                ==> finish(decls, n, cursor, walk).colour[k] == walk.colour[k],
    decreases unvisited(walk.colour), decls[n].parents@.len() - cursor,
{
    if cursor >= decls[n].parents@.len() {
        lemma_recolour(walk.colour, n, Colour::Finished);
    } else {
        let name = decls[n].parents@[cursor].name;
        lemma_declared_as(decls, name);
        match declared_as(decls, name) {
            None => lemma_finish_visits(decls, n, cursor + 1, walk),
            Some(next) => {
                if walk.colour[next] == Colour::Unvisited {
                    let entered = enter(next, walk);
                    lemma_visit(walk.colour, next, Colour::OnPath);
                    lemma_finish_visits(decls, next, 0, entered);
                    let inner = finish(decls, next, 0, entered);
                    assert(entered.colour[n] == Colour::OnPath);
                    assert(inner.colour[n] == Colour::OnPath);
                    lemma_finish_visits(decls, n, cursor + 1, inner);
                    assert forall|k: int|
                        0 <= k < decls.len() && k != n && (
                        #[trigger] walk.colour[k]) != Colour::Unvisited implies finish(
                        decls,
                        n,
                        cursor,
                        walk,
                    ).colour[k] == walk.colour[k] by {
                        assert(entered.colour[k] == walk.colour[k]);
                        assert(inner.colour[k] == entered.colour[k]);
                    }
                } else if walk.colour[next] == Colour::OnPath {
                    lemma_finish_visits(decls, n, cursor + 1, flag(n, walk));
                } else {
                    lemma_finish_visits(decls, n, cursor + 1, walk);
                }
            },
        }
    }
}

/// The walk once every class on `stack`, innermost last, each with the parent to
/// follow next, has been left.
pub open spec fn unwind(decls: Seq<ClassDecl>, stack: Seq<(usize, usize)>, walk: Walk) -> Walk
    decreases stack.len(),
{
    if stack.len() == 0 {
        walk
    } else {
        let (n, cursor) = stack.last();
        unwind(decls, stack.drop_last(), finish(decls, n as int, cursor as int, walk))
    }
}

/// The walk over the classes from `root` on, each not yet visited one a new
/// start.
pub open spec fn walk_from(decls: Seq<ClassDecl>, root: int, walk: Walk) -> Walk
    decreases decls.len() - root,
{
    if root < 0 || root >= decls.len() {
        walk
    } else if walk.colour[root] != Colour::Unvisited {
        walk_from(decls, root + 1, walk)
    } else {
        walk_from(decls, root + 1, finish(decls, root, 0, enter(root, walk)))
    }
}

/// A walk that has come nowhere yet.
pub open spec fn unstarted(count: nat) -> Walk {
    Walk {
        colour: Seq::new(count, |i: int| Colour::Unvisited),
        cyclic: Seq::new(count, |i: int| false),
        order: Seq::empty(),
        closed: Seq::empty(),
    }
}

/// The whole walk over the classes.
pub open spec fn class_walk(decls: Seq<ClassDecl>) -> Walk {
    walk_from(decls, 0, unstarted(decls.len()))
}

/// One of the parents of `decl` is among `names`.
pub open spec fn has_parent_in(decl: ClassDecl, names: Set<Symbol>) -> bool {
    exists|p: int| 0 <= p < decl.parents@.len() && names.contains((#[trigger] decl.parents@[p]).name)
}

/// The names of the classes a cycle was closed at.
pub open spec fn cyclic_names(decls: Seq<ClassDecl>, cyclic: Seq<bool>) -> Set<Symbol> {
    Set::new(
        |name: Symbol|
            exists|i: int| 0 <= i < decls.len() && #[trigger] cyclic[i] && decls[i].name == name,
    )
}

/// The first `count` classes of `order` without those that inherit, by name,
/// from one that was left out, and the names left out so far.
pub open spec fn settle(
    decls: Seq<ClassDecl>,
    cyclic: Seq<bool>,
    order: Seq<int>,
    count: int,
) -> (Seq<int>, Set<Symbol>)
    decreases count,
{
    if count <= 0 {
        (Seq::empty(), cyclic_names(decls, cyclic))
    } else {
        let (kept, dropped) = settle(decls, cyclic, order, count - 1);
        let decl = decls[order[count - 1]];
        if has_parent_in(decl, dropped) {
            (kept, dropped.insert(decl.name))
        } else {
            (kept.push(order[count - 1]), dropped)
        }
    }
}

/// The classes that can be flattened, parents first, and the names of those that
/// cannot.
pub open spec fn settled(decls: Seq<ClassDecl>) -> (Seq<int>, Set<Symbol>) {
    let walk = class_walk(decls);
    settle(decls, walk.cyclic, walk.order, walk.order.len() as int)
}

/// One report per cycle, at the class that closes it.
pub open spec fn cycle_reports(decls: Seq<ClassDecl>, closed: Seq<int>) -> Seq<Diagnostic> {
    closed.map_values(
        |n: int|
            blamed(
                decls[n].source,
                decls[n].name_span,
                Problem::InheritsFromItself { class: decls[n].name },
            ),
    )
}

/// The classes in flattening order, and the names left out of it.
#[derive(Debug)]
pub struct ClassOrder {
    pub order: Vec<usize>,
    pub dropped: Vec<Symbol>,
}

fn find_class(decls: &Vec<ClassDecl>, name: Symbol) -> (found: Option<usize>)
    ensures
        match found {
            Some(i) => declared_as(decls@, name) == Some(i as int) && i < decls@.len(),
            None => declared_as(decls@, name) is None,
        },
{
    let mut i: usize = decls.len();
    assert(decls@.take(i as int) =~= decls@);
    while i > 0
        invariant
            i <= decls@.len(),
            declared_as(decls@, name) == declared_as(decls@.take(i as int), name),
        decreases i,
    {
        assert(decls@.take(i as int).drop_last() =~= decls@.take(i - 1));
        i -= 1;
        if decls[i].name == name {
            return Some(i);
        }
    }
    None
}

/// The walk as the vectors hold it.
spec fn held(colour: Seq<Colour>, cyclic: Seq<bool>, order: Seq<usize>, closed: Seq<usize>) -> Walk {
    Walk {
        colour,
        cyclic,
        order: order.map_values(|n: usize| n as int),
        closed: closed.map_values(|n: usize| n as int),
    }
}

fn names_hold(names: &Vec<Symbol>, name: Symbol) -> (res: bool)
    ensures
        res == names@.contains(name),
{
    let mut i: usize = 0;
    while i < names.len()
        invariant
            i <= names@.len(),
            forall|k: int| 0 <= k < i ==> names@[k] != name,
        decreases names@.len() - i,
    {
        if names[i] == name {
            return true;
        }
        i += 1;
    }
    false
}

/// Walks the classes depth first, from every class in turn.
fn walk_classes(decls: &Vec<ClassDecl>) -> (walked: (Vec<bool>, Vec<usize>, Vec<usize>))
    ensures
        class_walk(decls@).cyclic == walked.0@,
        class_walk(decls@).order == walked.1@.map_values(|n: usize| n as int),
        class_walk(decls@).closed == walked.2@.map_values(|n: usize| n as int),
        walked.0@.len() == decls@.len(),
        forall|k: int| 0 <= k < walked.1@.len() ==> #[trigger] walked.1@[k] < decls@.len(),
        forall|k: int| 0 <= k < walked.2@.len() ==> #[trigger] walked.2@[k] < decls@.len(),
{
    let count: usize = decls.len();
    let mut colour: Vec<Colour> = Vec::new();
    let mut i: usize = 0;
    while i < count
        invariant
            i <= count,
            colour@.len() == i,
            forall|k: int| 0 <= k < i ==> colour@[k] == Colour::Unvisited,
        decreases count - i,
    {
        colour.push(Colour::Unvisited);
        i += 1;
    }
    let mut cyclic: Vec<bool> = flags_down(count);
    let mut order: Vec<usize> = Vec::new();
    let mut closed: Vec<usize> = Vec::new();
    proof {
        let start = held(colour@, cyclic@, order@, closed@);
        let wanted = unstarted(decls@.len());
        assert(start.colour =~= wanted.colour);
        assert(start.cyclic =~= wanted.cyclic);
        assert(start.order =~= wanted.order);
        assert(start.closed =~= wanted.closed);
    }
    let mut root: usize = 0;
    while root < count
        invariant
            count == decls@.len(),
            root <= count,
            in_step(held(colour@, cyclic@, order@, closed@), count as int),
            class_walk(decls@) == walk_from(
                decls@,
                root as int,
                held(colour@, cyclic@, order@, closed@),
            ),
            forall|k: int| 0 <= k < order@.len() ==> #[trigger] order@[k] < count,
            forall|k: int| 0 <= k < closed@.len() ==> #[trigger] closed@[k] < count,
        decreases count - root,
    {
        if colour[root] == Colour::Unvisited {
            let ghost before = held(colour@, cyclic@, order@, closed@);
            let ghost goal = finish(decls@, root as int, 0, enter(root as int, before));
            colour[root] = Colour::OnPath;
            let mut stack: Vec<(usize, usize)> = Vec::new();
            stack.push((root, 0));
            proof {
                let now = held(colour@, cyclic@, order@, closed@);
                assert(now == enter(root as int, before));
                assert(stack@.drop_last() =~= Seq::<(usize, usize)>::empty());
                assert(unwind(decls@, stack@, now) == goal) by {
                    reveal_with_fuel(unwind, 2);
                }
            }
            while stack.len() > 0
                invariant
                    count == decls@.len(),
                    in_step(held(colour@, cyclic@, order@, closed@), count as int),
                    unwind(decls@, stack@, held(colour@, cyclic@, order@, closed@)) == goal,
                    forall|k: int| 0 <= k < order@.len() ==> #[trigger] order@[k] < count,
                    forall|k: int| 0 <= k < closed@.len() ==> #[trigger] closed@[k] < count,
                    forall|k: int|
                        0 <= k < stack@.len() ==> (#[trigger] stack@[k]).0 < count && stack@[k].1
                            <= decls@[stack@[k].0 as int].parents@.len() && colour@[stack@[k].0 as int]
                            == Colour::OnPath,
                    forall|j: int, k: int|
                        0 <= j < k < stack@.len() ==> (#[trigger] stack@[j]).0 != (
                        #[trigger] stack@[k]).0,
                decreases
                        unvisited(colour@),
                        stack@.len(),
                        if stack@.len() > 0 {
                            decls@[stack@.last().0 as int].parents@.len() - stack@.last().1
                        } else {
                            0
                        },
            {
                let ghost now = held(colour@, cyclic@, order@, closed@);
                let ghost below = stack@.drop_last();
                let (node, cursor) = stack.pop().unwrap();
                assert(stack@ == below);
                proof {
                    assert(unwind(decls@, below.push((node, cursor)), now) == goal) by {
                        assert(below.push((node, cursor)).drop_last() =~= below);
                    }
                    assert(goal == unwind(
                        decls@,
                        below,
                        finish(decls@, node as int, cursor as int, now),
                    ));
                }
                if cursor == decls[node].parents.len() {
                    proof {
                        lemma_recolour(colour@, node as int, Colour::Finished);
                    }
                    colour[node] = Colour::Finished;
                    if !cyclic[node] {
                        order.push(node);
                    }
                    proof {
                        let after = held(colour@, cyclic@, order@, closed@);
                        assert(after.order =~= close(node as int, now).order);
                        assert(after == close(node as int, now));
                        assert forall|k: int| 0 <= k < stack@.len() implies colour@[(
                        #[trigger] stack@[k]).0 as int] == Colour::OnPath by {
                            assert(now.colour[below[k].0 as int] == Colour::OnPath);
                        }
                    }
                } else {
                    stack.push((node, cursor + 1));
                    proof {
                        assert(stack@.drop_last() =~= below);
                    }
                    let parent = decls[node].parents[cursor].name;
                    if let Some(next) = find_class(decls, parent) {
                        match colour[next] {
                            Colour::Unvisited => {
                                proof {
                                    lemma_visit(colour@, next as int, Colour::OnPath);
                                }
                                colour[next] = Colour::OnPath;
                                stack.push((next, 0));
                                proof {
                                    let entered = held(colour@, cyclic@, order@, closed@);
                                    assert(entered == enter(next as int, now));
                                    lemma_finish_visits(decls@, next as int, 0, entered);
                                    assert(stack@.drop_last() =~= below.push((node, (cursor
                                        + 1) as usize)));
                                    assert(stack@.drop_last().drop_last() =~= below);
                                    assert(unwind(decls@, stack@, entered) == goal) by {
                                        reveal_with_fuel(unwind, 3);
                                    }
                                }
                            },
                            Colour::OnPath => {
                                cyclic[node] = true;
                                closed.push(node);
                                proof {
                                    let after = held(colour@, cyclic@, order@, closed@);
                                    assert(after.closed =~= flag(node as int, now).closed);
                                    assert(after == flag(node as int, now));
                                }
                            },
                            Colour::Finished => {},
                        }
                    }
                }
            }
        }
        root += 1;
    }
    (cyclic, order, closed)
}

/// Orders class declarations so every class follows its parents.
///
/// Reports one problem per cycle, at the class whose parent closes it, and
/// leaves out every class that inherits, however far up, from a class on a
/// cycle.
pub fn class_order(decls: &Vec<ClassDecl>, log: &mut Log) -> (res: ClassOrder)
    ensures
        res.order@.map_values(|n: usize| n as int) == settled(decls@).0,
        res.dropped@.to_set() == settled(decls@).1,
        forall|k: int| 0 <= k < res.order@.len() ==> #[trigger] res.order@[k] < decls@.len(),
        final(log).diagnostics@ == old(log).diagnostics@ + cycle_reports(
            decls@,
            class_walk(decls@).closed,
        ),
        final(log).source == if class_walk(decls@).closed.len() == 0 {
            old(log).source
        } else {
            decls@[class_walk(decls@).closed.last()].source
        },
{
    let (cyclic, walked, closed) = walk_classes(decls);
    let ghost walk = class_walk(decls@);
    let mut i: usize = 0;
    while i < closed.len()
        invariant
            i <= closed@.len(),
            walk.closed == closed@.map_values(|n: usize| n as int),
            forall|k: int| 0 <= k < closed@.len() ==> #[trigger] closed@[k] < decls@.len(),
            log.diagnostics@ == old(log).diagnostics@ + cycle_reports(
                decls@,
                walk.closed.take(i as int),
            ),
            log.source == if i == 0 {
                old(log).source
            } else {
                decls@[walk.closed[i - 1]].source
            },
        decreases closed@.len() - i,
    {
        let n: usize = closed[i];
        log.source = decls[n].source;
        log.emit(decls[n].name_span, Problem::InheritsFromItself { class: decls[n].name });
        i += 1;
        assert(walk.closed.take(i as int) =~= walk.closed.take(i - 1).push(n as int));
        assert(log.diagnostics@ =~= old(log).diagnostics@ + cycle_reports(
            decls@,
            walk.closed.take(i as int),
        ));
    }
    assert(walk.closed.take(i as int) =~= walk.closed);
    let mut dropped: Vec<Symbol> = Vec::new();
    let mut i: usize = 0;
    while i < decls.len()
        invariant
            i <= decls@.len(),
            cyclic@.len() == decls@.len(),
            forall|name: Symbol| #[trigger]
                dropped@.contains(name) <==> exists|k: int|
                    0 <= k < i && #[trigger] cyclic@[k] && decls@[k].name == name,
        decreases decls@.len() - i,
    {
        let ghost before = dropped@;
        if cyclic[i] {
            dropped.push(decls[i].name);
        }
        i += 1;
        assert forall|name: Symbol| #[trigger] dropped@.contains(name) <==> exists|k: int|
            0 <= k < i && #[trigger] cyclic@[k] && decls@[k].name == name by {
            if dropped@.contains(name) {
                let j = choose|j: int| 0 <= j < dropped@.len() && dropped@[j] == name;
                if j < before.len() {
                    assert(before.contains(name)) by {
                        assert(before[j] == name);
                    }
                    let k = choose|k: int|
                        0 <= k < i - 1 && #[trigger] cyclic@[k] && decls@[k].name == name;
                    assert(cyclic@[k]);
                } else {
                    assert(cyclic@[i - 1] && decls@[i - 1].name == name);
                }
            }
            if exists|k: int| 0 <= k < i && #[trigger] cyclic@[k] && decls@[k].name == name {
                let k = choose|k: int|
                    0 <= k < i && #[trigger] cyclic@[k] && decls@[k].name == name;
                if k < i - 1 {
                    assert(before.contains(name));
                    let j = choose|j: int| 0 <= j < before.len() && before[j] == name;
                    assert(dropped@[j] == name);
                } else {
                    assert(dropped@[dropped@.len() - 1] == name);
                }
            }
        }
    }
    let mut order: Vec<usize> = Vec::new();
    let ghost steps = walked@.map_values(|n: usize| n as int);
    assert(dropped@.to_set() =~= settle(decls@, cyclic@, steps, 0).1);
    assert(order@.map_values(|n: usize| n as int) =~= settle(decls@, cyclic@, steps, 0).0);
    let mut i: usize = 0;
    while i < walked.len()
        invariant
            i <= walked@.len(),
            steps == walked@.map_values(|n: usize| n as int),
            forall|k: int| 0 <= k < walked@.len() ==> #[trigger] walked@[k] < decls@.len(),
            forall|k: int| 0 <= k < order@.len() ==> #[trigger] order@[k] < decls@.len(),
            dropped@.to_set() == settle(decls@, cyclic@, steps, i as int).1,
            order@.map_values(|n: usize| n as int) == settle(decls@, cyclic@, steps, i as int).0,
        decreases walked@.len() - i,
    {
        let n: usize = walked[i];
        let mut orphaned: bool = false;
        let mut p: usize = 0;
        while p < decls[n].parents.len()
            invariant
                n < decls@.len(),
                p <= decls@[n as int].parents@.len(),
                orphaned == exists|q: int|
                    0 <= q < p && dropped@.to_set().contains(
                        (#[trigger] decls@[n as int].parents@[q]).name,
                    ),
            decreases decls@[n as int].parents@.len() - p,
        {
            if names_hold(&dropped, decls[n].parents[p].name) {
                orphaned = true;
                assert(dropped@.to_set().contains(decls@[n as int].parents@[p as int].name));
            }
            p += 1;
        }
        let ghost was = dropped@;
        let ghost kept = order@;
        if orphaned {
            dropped.push(decls[n].name);
            assert(dropped@.to_set() =~= was.to_set().insert(decls@[n as int].name)) by {
                assert forall|x: Symbol| #[trigger] dropped@.to_set().contains(x)
                    <==> was.to_set().insert(decls@[n as int].name).contains(x) by {
                    if was.contains(x) {
                        let j = choose|j: int| 0 <= j < was.len() && was[j] == x;
                        assert(dropped@[j] == x);
                    }
                    assert(dropped@[was.len() as int] == decls@[n as int].name);
                }
            }
        } else {
            order.push(n);
            assert(order@.map_values(|n: usize| n as int) =~= kept.map_values(
                |n: usize| n as int,
            ).push(n as int));
        }
        i += 1;
    }
    ClassOrder { order, dropped }
}

} // verus!
