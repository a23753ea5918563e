//! What holds of every class order.

use vstd::prelude::*;

use crate::class_order::{
    class_walk, close, cycle_reports, cyclic_names, declared_as, enter, finish, flag, has_parent_in, in_step,
    lemma_declared_as, lemma_finish_visits, lemma_visit, settle, settled, unstarted, unvisited,
    walk_from, Colour, Walk,
};
use crate::classes::ClassDecl;
use crate::graph::{
    is_path, lemma_closes_cycle, lemma_descending_acyclic, lemma_reaches_cycle_from,
    lemma_reaches_self, on_cycle, reaches, reaches_cycle, steps, Edges,
};
use crate::names::Symbol;

verus! {

/// Class `a` names class `b` as a parent.
pub open spec fn names_parent(decls: Seq<ClassDecl>, a: int, b: int) -> bool {
    0 <= a < decls.len() && exists|p: int|
        0 <= p < decls[a].parents@.len() && declared_as(
            decls,
            (#[trigger] decls[a].parents@[p]).name,
        ) == Some(b)
}

/// From a class to the classes it names as parents.
pub open spec fn inherits(decls: Seq<ClassDecl>) -> Edges {
    |a: int, b: int| names_parent(decls, a, b)
}

/// `b` stands in `order` before position `k`.
pub open spec fn stands_before(order: Seq<int>, k: int, b: int) -> bool {
    exists|j: int| 0 <= j < k && #[trigger] order[j] == b
}

proof fn lemma_parent_in_range(decls: Seq<ClassDecl>, a: int, b: int)
    requires
        names_parent(decls, a, b),
    ensures
        0 <= b < decls.len(),
{
    let p = choose|p: int|
        0 <= p < decls[a].parents@.len() && declared_as(
            decls,
            (#[trigger] decls[a].parents@[p]).name,
        ) == Some(b);
    lemma_declared_as(decls, decls[a].parents@[p].name);
}

/// What holds of a walk whose path is `path`.
spec fn sound(decls: Seq<ClassDecl>, path: Seq<int>, walk: Walk) -> bool {
    &&& in_step(walk, decls.len() as int)
    &&& path.no_duplicates()
    &&& forall|n: int|
        0 <= n < decls.len() ==> ((#[trigger] walk.colour[n]) == Colour::OnPath <==> path.contains(
            n,
        ))
    &&& forall|i: int| 0 <= i < path.len() ==> 0 <= #[trigger] path[i] < decls.len()
    &&& forall|i: int| 0 <= i && i + 1 < path.len() ==> #[trigger] steps(inherits(decls), path, i)
    &&& walk.order.no_duplicates()
    &&& forall|k: int|
        0 <= k < walk.order.len() ==> 0 <= #[trigger] walk.order[k] < decls.len()
            && walk.colour[walk.order[k]] == Colour::Finished && !walk.cyclic[walk.order[k]]
    &&& forall|n: int|
        0 <= n < decls.len() && (#[trigger] walk.colour[n]) == Colour::Finished && !walk.cyclic[n]
            ==> walk.order.contains(n)
    &&& forall|k: int, b: int|
        0 <= k < walk.order.len() && #[trigger] names_parent(decls, walk.order[k], b)
            ==> walk.cyclic[b] || stands_before(walk.order, k, b)
    &&& forall|n: int| 0 <= n < decls.len() && #[trigger] walk.cyclic[n] ==> on_cycle(inherits(decls), n)
    &&& forall|i: int|
        0 <= i < walk.closed.len() ==> 0 <= #[trigger] walk.closed[i] < decls.len()
            && walk.cyclic[walk.closed[i]]
    &&& walk.closed.len() == 0 ==> forall|n: int|
        0 <= n < decls.len() ==> !(#[trigger] walk.cyclic[n])
}

/// The parents of `n` before `cursor` are finished, or `n` closes a cycle.
spec fn processed(decls: Seq<ClassDecl>, n: int, cursor: int, walk: Walk) -> bool {
    forall|p: int|
        0 <= p < cursor ==> match declared_as(decls, (#[trigger] decls[n].parents@[p]).name) {
            Some(b) => walk.cyclic[n] || walk.colour[b] == Colour::Finished,
            None => true,
        }
}

proof fn lemma_path_reaches(edge: Edges, path: Seq<int>, i: int)
    requires
        0 <= i < path.len(),
        forall|k: int| 0 <= k && k + 1 < path.len() ==> #[trigger] steps(edge, path, k),
    ensures
        reaches(edge, path[i], path.last()),
{
    let rest = path.skip(i);
    assert forall|k: int| 0 <= k && k + 1 < rest.len() implies #[trigger] steps(edge, rest, k) by {
        assert(steps(edge, path, k + i));
    }
    assert(is_path(edge, rest));
    assert(rest[0] == path[i] && rest.last() == path.last());
}

proof fn lemma_close_sound(decls: Seq<ClassDecl>, path: Seq<int>, walk: Walk)
    requires
        path.len() > 0,
        sound(decls, path, walk),
        processed(decls, path.last(), decls[path.last()].parents@.len() as int, walk),
    ensures
        sound(decls, path.drop_last(), close(path.last(), walk)),
{
    let n = path.last();
    let after = close(n, walk);
    let rest = path.drop_last();
    assert(0 <= path[path.len() - 1] < decls.len());
    assert(path.contains(n)) by {
        assert(path[path.len() - 1] == n);
    }
    assert forall|m: int| 0 <= m < decls.len() implies ((#[trigger] after.colour[m])
        == Colour::OnPath <==> rest.contains(m)) by {
        if rest.contains(m) {
            let j = choose|j: int| 0 <= j < rest.len() && rest[j] == m;
            assert(path[j] == m);
            assert(path.contains(m));
            assert(m != n);
        }
        if m != n && path.contains(m) {
            let j = choose|j: int| 0 <= j < path.len() && path[j] == m;
            assert(rest[j] == m);
        }
        assert(walk.colour[m] == Colour::OnPath <==> path.contains(m));
    }
    assert forall|i: int| 0 <= i && i + 1 < rest.len() implies #[trigger] steps(
        inherits(decls),
        rest,
        i,
    ) by {
        assert(steps(inherits(decls), path, i));
    }
    assert(walk.colour[n] == Colour::OnPath);
    assert forall|k: int| 0 <= k < walk.order.len() implies #[trigger] walk.order[k] != n by {}
    assert forall|k: int| 0 <= k < after.order.len() implies 0 <= #[trigger] after.order[k]
        < decls.len() && after.colour[after.order[k]] == Colour::Finished
        && !after.cyclic[after.order[k]] by {
        if k < walk.order.len() {
            assert(after.order[k] == walk.order[k]);
        }
    }
    assert forall|m: int|
        0 <= m < decls.len() && (#[trigger] after.colour[m]) == Colour::Finished
            && !after.cyclic[m] implies after.order.contains(m) by {
        if m == n {
            assert(after.order[after.order.len() - 1] == n);
        } else {
            assert(walk.colour[m] == Colour::Finished);
            let j = choose|j: int| 0 <= j < walk.order.len() && walk.order[j] == m;
            assert(after.order[j] == m);
        }
    }
    assert forall|k: int, b: int|
        0 <= k < after.order.len() && #[trigger] names_parent(
            decls,
            after.order[k],
            b,
        ) implies after.cyclic[b] || stands_before(after.order, k, b) by {
        if k < walk.order.len() {
            assert(after.order[k] == walk.order[k]);
            assert(walk.cyclic[b] || stands_before(walk.order, k, b));
            if stands_before(walk.order, k, b) {
                let j = choose|j: int| 0 <= j < k && #[trigger] walk.order[j] == b;
                assert(after.order[j] == b);
            }
        } else {
            let p = choose|p: int|
                0 <= p < decls[n].parents@.len() && declared_as(
                    decls,
                    (#[trigger] decls[n].parents@[p]).name,
                ) == Some(b);
            lemma_declared_as(decls, decls[n].parents@[p].name);
            assert(walk.colour[b] == Colour::Finished);
            if !walk.cyclic[b] {
                let j = choose|j: int| 0 <= j < walk.order.len() && walk.order[j] == b;
                assert(after.order[j] == b);
            }
        }
    }
}

/// Following a class's parents keeps the walk sound.
proof fn lemma_finish_sound(decls: Seq<ClassDecl>, path: Seq<int>, cursor: int, walk: Walk)
    requires
        path.len() > 0,
        sound(decls, path, walk),
        0 <= cursor <= decls[path.last()].parents@.len(),
        processed(decls, path.last(), cursor, walk),
    ensures
        sound(decls, path.drop_last(), finish(decls, path.last(), cursor, walk)),
        forall|k: int|
            0 <= k < decls.len() && #[trigger] walk.cyclic[k] ==> finish(
                decls,
                path.last(),
                cursor,
                walk,
            ).cyclic[k],
    decreases unvisited(walk.colour), decls[path.last()].parents@.len() - cursor,
{
    let n = path.last();
    let edge = inherits(decls);
    assert(0 <= path[path.len() - 1] < decls.len());
    assert(path.contains(n)) by {
        assert(path[path.len() - 1] == n);
    }
    assert(walk.colour[n] == Colour::OnPath);
    if cursor >= decls[n].parents@.len() {
        lemma_close_sound(decls, path, walk);
    } else {
        let name = decls[n].parents@[cursor].name;
        lemma_declared_as(decls, name);
        match declared_as(decls, name) {
            None => lemma_finish_sound(decls, path, cursor + 1, walk),
            Some(next) => {
                assert(names_parent(decls, n, next));
                assert(edge(n, next));
                if walk.colour[next] == Colour::Unvisited {
                    let entered = enter(next, walk);
                    let longer = path.push(next);
                    lemma_visit(walk.colour, next, Colour::OnPath);
                    lemma_enter_sound(decls, path, next, walk);
                    lemma_finish_sound(decls, longer, 0, entered);
                    lemma_finish_visits(decls, next, 0, entered);
                    let inner = finish(decls, next, 0, entered);
                    assert(longer.drop_last() =~= path);
                    assert(processed(decls, n, cursor + 1, inner)) by {
                        assert forall|p: int| 0 <= p < cursor + 1 implies match declared_as(
                            decls,
                            (#[trigger] decls[n].parents@[p]).name,
                        ) {
                            Some(b) => inner.cyclic[n] || inner.colour[b] == Colour::Finished,
                            None => true,
                        } by {
                            if p < cursor {
                                lemma_declared_as(decls, decls[n].parents@[p].name);
                                match declared_as(decls, decls[n].parents@[p].name) {
                                    Some(b) => {
                                        if walk.cyclic[n] {
                                            assert(entered.cyclic[n]);
                                        } else {
                                            assert(walk.colour[b] == Colour::Finished);
                                            assert(entered.colour[b] == Colour::Finished);
                                        }
                                    },
                                    None => {},
                                }
                            }
                        }
                    }
                    lemma_finish_sound(decls, path, cursor + 1, inner);
                    assert forall|k: int|
                        0 <= k < decls.len() && #[trigger] walk.cyclic[k] implies finish(
                        decls,
                        n,
                        cursor,
                        walk,
                    ).cyclic[k] by {
                        assert(entered.cyclic[k]);
                        assert(inner.cyclic[k]);
                    }
                } else if walk.colour[next] == Colour::OnPath {
                    let flagged = flag(n, walk);
                    let j = choose|j: int| 0 <= j < path.len() && path[j] == next;
                    lemma_path_reaches(edge, path, j);
                    lemma_closes_cycle(edge, next, n);
                    assert(sound(decls, path, flagged)) by {
                        assert forall|k: int, b: int|
                            0 <= k < flagged.order.len() && #[trigger] names_parent(
                                decls,
                                flagged.order[k],
                                b,
                            ) implies flagged.cyclic[b] || stands_before(flagged.order, k, b) by {
                            assert(names_parent(decls, walk.order[k], b));
                            lemma_parent_in_range(decls, walk.order[k], b);
                        }
                        assert forall|i: int| 0 <= i < flagged.closed.len() implies 0
                            <= #[trigger] flagged.closed[i] < decls.len()
                            && flagged.cyclic[flagged.closed[i]] by {
                            if i < walk.closed.len() {
                                assert(flagged.closed[i] == walk.closed[i]);
                            }
                        }
                    }
                    lemma_finish_sound(decls, path, cursor + 1, flagged);
                    assert forall|k: int|
                        0 <= k < decls.len() && #[trigger] walk.cyclic[k] implies finish(
                        decls,
                        n,
                        cursor,
                        walk,
                    ).cyclic[k] by {
                        assert(flagged.cyclic[k]);
                    }
                } else {
                    lemma_finish_sound(decls, path, cursor + 1, walk);
                }
            },
        }
    }
}

proof fn lemma_enter_sound(decls: Seq<ClassDecl>, path: Seq<int>, next: int, walk: Walk)
    requires
        sound(decls, path, walk),
        0 <= next < decls.len(),
        walk.colour[next] == Colour::Unvisited,
        path.len() > 0 ==> names_parent(decls, path.last(), next),
    ensures
        sound(decls, path.push(next), enter(next, walk)),
{
    let entered = enter(next, walk);
    let longer = path.push(next);
    assert(!path.contains(next));
    assert forall|m: int| 0 <= m < decls.len() implies ((#[trigger] entered.colour[m])
        == Colour::OnPath <==> longer.contains(m)) by {
        assert(walk.colour[m] == Colour::OnPath <==> path.contains(m));
        if path.contains(m) {
            let j = choose|j: int| 0 <= j < path.len() && path[j] == m;
            assert(longer[j] == m);
        }
        if longer.contains(m) && m != next {
            let j = choose|j: int| 0 <= j < longer.len() && longer[j] == m;
            assert(path[j] == m);
        }
        if m == next {
            assert(longer[path.len() as int] == m);
        }
    }
    assert forall|i: int| 0 <= i && i + 1 < longer.len() implies #[trigger] steps(
        inherits(decls),
        longer,
        i,
    ) by {
        if i + 1 < path.len() {
            assert(steps(inherits(decls), path, i));
        }
    }
    assert forall|k: int| 0 <= k < walk.order.len() implies #[trigger] walk.order[k] != next by {}
    assert forall|k: int, b: int|
        0 <= k < entered.order.len() && #[trigger] names_parent(
            decls,
            entered.order[k],
            b,
        ) implies entered.cyclic[b] || stands_before(entered.order, k, b) by {
        assert(names_parent(decls, walk.order[k], b));
    }
    assert forall|i: int| 0 <= i < longer.len() implies 0 <= #[trigger] longer[i]
        < decls.len() by {
        if i < path.len() {
            assert(longer[i] == path[i]);
        }
    }
}

proof fn lemma_walk_sound(decls: Seq<ClassDecl>, root: int, walk: Walk)
    requires
        0 <= root <= decls.len(),
        sound(decls, Seq::empty(), walk),
        forall|n: int| 0 <= n < root ==> (#[trigger] walk.colour[n]) == Colour::Finished,
    ensures
        sound(decls, Seq::empty(), walk_from(decls, root, walk)),
        forall|n: int|
            0 <= n < decls.len() ==> (#[trigger] walk_from(decls, root, walk).colour[n])
                == Colour::Finished,
    decreases decls.len() - root,
{
    if root < decls.len() {
        let none = Seq::<int>::empty();
        if walk.colour[root] != Colour::Unvisited {
            assert(walk.colour[root] == Colour::Finished) by {
                assert(!none.contains(root));
            }
            lemma_walk_sound(decls, root + 1, walk);
        } else {
            lemma_enter_sound(decls, none, root, walk);
            let path = none.push(root);
            assert(path.last() == root);
            assert(path.drop_last() =~= none);
            lemma_finish_sound(decls, path, 0, enter(root, walk));
            lemma_finish_visits(decls, root, 0, enter(root, walk));
            let after = finish(decls, root, 0, enter(root, walk));
            assert forall|n: int| 0 <= n < root + 1 implies (#[trigger] after.colour[n])
                == Colour::Finished by {
                if n < root {
                    assert(enter(root, walk).colour[n] == Colour::Finished);
                }
            }
            lemma_walk_sound(decls, root + 1, after);
        }
    }
}

proof fn lemma_class_walk(decls: Seq<ClassDecl>)
    ensures
        sound(decls, Seq::empty(), class_walk(decls)),
        forall|n: int|
            0 <= n < decls.len() ==> (#[trigger] class_walk(decls).colour[n]) == Colour::Finished,
{
    let start = unstarted(decls.len());
    assert forall|n: int| 0 <= n < decls.len() implies ((#[trigger] start.colour[n])
        == Colour::OnPath <==> Seq::<int>::empty().contains(n)) by {}
    lemma_walk_sound(decls, 0, start);
}

/// What holds of the classes kept among the first `count` of a walk's order.
spec fn kept_well(decls: Seq<ClassDecl>, walk: Walk, count: int) -> bool {
    let (kept, dropped) = settle(decls, walk.cyclic, walk.order, count);
    &&& kept.no_duplicates()
    &&& forall|i: int|
        0 <= i < kept.len() ==> stands_before(walk.order, count, #[trigger] kept[i])
    &&& forall|k: int|
        0 <= k < count ==> kept.contains(#[trigger] walk.order[k]) || dropped.contains(
            decls[walk.order[k]].name,
        )
    &&& forall|name: Symbol|
        cyclic_names(decls, walk.cyclic).contains(name) ==> #[trigger] dropped.contains(name)
    &&& forall|i: int, b: int|
        0 <= i < kept.len() && #[trigger] names_parent(decls, kept[i], b) ==> stands_before(
            kept,
            i,
            b,
        )
}

proof fn lemma_settle(decls: Seq<ClassDecl>, walk: Walk, count: int)
    requires
        sound(decls, Seq::empty(), walk),
        0 <= count <= walk.order.len(),
    ensures
        kept_well(decls, walk, count),
    decreases count,
{
    if count > 0 {
        lemma_settle(decls, walk, count - 1);
        let (kept, dropped) = settle(decls, walk.cyclic, walk.order, count - 1);
        let (more, left) = settle(decls, walk.cyclic, walk.order, count);
        let n = walk.order[count - 1];
        let decl = decls[n];
        assert forall|i: int| 0 <= i < more.len() implies stands_before(
            walk.order,
            count,
            #[trigger] more[i],
        ) by {
            if i < kept.len() {
                assert(more[i] == kept[i]);
                let j = choose|j: int| 0 <= j < count - 1 && #[trigger] walk.order[j] == kept[i];
                assert(walk.order[j] == more[i]);
            } else {
                assert(walk.order[count - 1] == more[i]);
            }
        }
        assert(!kept.contains(n)) by {
            if kept.contains(n) {
                let i = choose|i: int| 0 <= i < kept.len() && kept[i] == n;
                let j = choose|j: int| 0 <= j < count - 1 && #[trigger] walk.order[j] == kept[i];
                assert(walk.order[j] == walk.order[count - 1]);
            }
        }
        assert forall|k: int| 0 <= k < count implies more.contains(#[trigger] walk.order[k])
            || left.contains(decls[walk.order[k]].name) by {
            if k < count - 1 {
                if kept.contains(walk.order[k]) {
                    let i = choose|i: int| 0 <= i < kept.len() && kept[i] == walk.order[k];
                    assert(more[i] == walk.order[k]);
                }
            } else if !has_parent_in(decl, dropped) {
                assert(more[more.len() - 1] == n);
            }
        }
        assert forall|i: int, b: int|
            0 <= i < more.len() && #[trigger] names_parent(decls, more[i], b) implies stands_before(
            more,
            i,
            b,
        ) by {
            if i < kept.len() {
                assert(more[i] == kept[i]);
                assert(names_parent(decls, kept[i], b));
                let j = choose|j: int| 0 <= j < i && #[trigger] kept[j] == b;
                assert(more[j] == b);
            } else {
                assert(more[i] == n);
                let p = choose|p: int|
                    0 <= p < decl.parents@.len() && declared_as(
                        decls,
                        (#[trigger] decl.parents@[p]).name,
                    ) == Some(b);
                let name = decl.parents@[p].name;
                lemma_declared_as(decls, name);
                assert(!dropped.contains(name));
                assert(!walk.cyclic[b]) by {
                    if walk.cyclic[b] {
                        assert(cyclic_names(decls, walk.cyclic).contains(name));
                    }
                }
                assert(names_parent(decls, walk.order[count - 1], b));
                let j = choose|j: int| 0 <= j < count - 1 && #[trigger] walk.order[j] == b;
                assert(kept.contains(walk.order[j]));
                let m = choose|m: int| 0 <= m < kept.len() && kept[m] == b;
                assert(more[m] == b);
            }
        }
    } else {
        assert(settle(decls, walk.cyclic, walk.order, count).0.len() == 0);
    }
}

/// Every class comes after every class it names as a parent, and none comes
/// twice.
pub proof fn parents_come_first(decls: Seq<ClassDecl>, i: int, parent: int)
    requires
        0 <= i < settled(decls).0.len(),
        names_parent(decls, settled(decls).0[i], parent),
    ensures
        stands_before(settled(decls).0, i, parent),
        settled(decls).0.no_duplicates(),
{
    lemma_class_walk(decls);
    let walk = class_walk(decls);
    lemma_settle(decls, walk, walk.order.len() as int);
}

/// No class in the order inherits from itself, nor from a class that does.
pub proof fn ordered_classes_are_acyclic(decls: Seq<ClassDecl>, i: int)
    requires
        0 <= i < settled(decls).0.len(),
    ensures
        !reaches_cycle(inherits(decls), settled(decls).0[i]),
{
    let kept = settled(decls).0;
    let edge = inherits(decls);
    let inside = |n: int| kept.contains(n);
    let rank = |n: int| choose|k: int| 0 <= k < kept.len() && kept[k] == n;
    lemma_class_walk(decls);
    let walk = class_walk(decls);
    lemma_settle(decls, walk, walk.order.len() as int);
    assert forall|x: int, y: int| inside(x) && #[trigger] edge(x, y) implies inside(y) && rank(y)
        < rank(x) by {
        let k = rank(x);
        assert(kept[k] == x);
        assert(names_parent(decls, kept[k], y));
        let j = choose|j: int| 0 <= j < k && #[trigger] kept[j] == y;
        assert(kept.contains(y));
        assert(kept[rank(y)] == kept[j]);
    }
    assert(inside(kept[i]));
    lemma_descending_acyclic(edge, inside, rank, kept[i]);
}

/// A class reported as inheriting from itself does.
pub proof fn reported_classes_are_cyclic(decls: Seq<ClassDecl>, i: int)
    requires
        0 <= i < class_walk(decls).closed.len(),
    ensures
        on_cycle(inherits(decls), class_walk(decls).closed[i]),
{
    lemma_class_walk(decls);
}

/// No two classes share a name.
pub open spec fn distinct_names(decls: Seq<ClassDecl>) -> bool {
    forall|i: int, j: int|
        0 <= i < j < decls.len() ==> (#[trigger] decls[i]).name != (#[trigger] decls[j]).name
}

/// Every name left out among the first `count` of a walk's order belongs to a
/// class that inherits, however far up, from itself.
proof fn lemma_dropped_cyclic(decls: Seq<ClassDecl>, walk: Walk, count: int, n: int)
    requires
        sound(decls, Seq::empty(), walk),
        distinct_names(decls),
        0 <= count <= walk.order.len(),
        0 <= n < decls.len(),
        settle(decls, walk.cyclic, walk.order, count).1.contains(decls[n].name),
    ensures
        reaches_cycle(inherits(decls), n),
    decreases count,
{
    let edge = inherits(decls);
    if count <= 0 {
        let i = choose|i: int|
            0 <= i < decls.len() && #[trigger] walk.cyclic[i] && decls[i].name == decls[n].name;
        assert(i == n);
        lemma_reaches_self(edge, n);
        assert(reaches(edge, n, n) && on_cycle(edge, n));
    } else {
        let (kept, dropped) = settle(decls, walk.cyclic, walk.order, count - 1);
        if dropped.contains(decls[n].name) {
            lemma_dropped_cyclic(decls, walk, count - 1, n);
        } else {
            let m = walk.order[count - 1];
            assert(decls[m].name == decls[n].name);
            assert(m == n);
            let p = choose|p: int|
                0 <= p < decls[m].parents@.len() && dropped.contains(
                    (#[trigger] decls[m].parents@[p]).name,
                );
            let name = decls[m].parents@[p].name;
            lemma_declared_as(decls, name);
            lemma_dropped_named(decls, walk, count - 1, name);
            let b = declared_as(decls, name)->0;
            lemma_dropped_cyclic(decls, walk, count - 1, b);
            assert(names_parent(decls, n, b));
            lemma_reaches_cycle_from(edge, n, b);
        }
    }
}

/// Every name left out is a class's.
proof fn lemma_dropped_named(decls: Seq<ClassDecl>, walk: Walk, count: int, name: Symbol)
    requires
        sound(decls, Seq::empty(), walk),
        0 <= count <= walk.order.len(),
        settle(decls, walk.cyclic, walk.order, count).1.contains(name),
    ensures
        declared_as(decls, name) is Some,
    decreases count,
{
    lemma_declared_as(decls, name);
    if count <= 0 {
        let i = choose|i: int|
            0 <= i < decls.len() && #[trigger] walk.cyclic[i] && decls[i].name == name;
        assert(decls[i].name == name);
    } else {
        let (kept, dropped) = settle(decls, walk.cyclic, walk.order, count - 1);
        if dropped.contains(name) {
            lemma_dropped_named(decls, walk, count - 1, name);
        } else {
            assert(decls[walk.order[count - 1]].name == name);
        }
    }
}

/// A class is left out only because it inherits, however far up, from itself,
/// where no two classes share a name.
pub proof fn left_out_classes_inherit_a_cycle(decls: Seq<ClassDecl>, n: int)
    requires
        distinct_names(decls),
        0 <= n < decls.len(),
        !settled(decls).0.contains(n),
    ensures
        reaches_cycle(inherits(decls), n),
{
    lemma_class_walk(decls);
    let walk = class_walk(decls);
    let total = walk.order.len() as int;
    lemma_settle(decls, walk, total);
    assert(walk.colour[n] == Colour::Finished);
    if walk.cyclic[n] {
        lemma_reaches_self(inherits(decls), n);
        assert(reaches(inherits(decls), n, n) && on_cycle(inherits(decls), n));
    } else {
        let k = choose|k: int| 0 <= k < walk.order.len() && walk.order[k] == n;
        assert(settle(decls, walk.cyclic, walk.order, total).1.contains(decls[walk.order[k]].name));
        lemma_dropped_cyclic(decls, walk, total, n);
    }
}

/// Class `n` is left out of the first `count` of a walk's order: it closes a cycle, or
/// it stands among them and was not kept.
spec fn left_out(decls: Seq<ClassDecl>, walk: Walk, count: int, n: int) -> bool {
    0 <= n < decls.len() && (walk.cyclic[n] || (stands_before(walk.order, count, n) && !settle(
        decls,
        walk.cyclic,
        walk.order,
        count,
    ).0.contains(n)))
}

proof fn lemma_dropped_left_out(decls: Seq<ClassDecl>, walk: Walk, count: int, name: Symbol) -> (n:
    int)
    requires
        sound(decls, Seq::empty(), walk),
        0 <= count <= walk.order.len(),
        settle(decls, walk.cyclic, walk.order, count).1.contains(name),
    ensures
        left_out(decls, walk, count, n),
        decls[n].name == name,
    decreases count,
{
    if count <= 0 {
        choose|n: int| 0 <= n < decls.len() && #[trigger] walk.cyclic[n] && decls[n].name == name
    } else {
        let (kept, dropped) = settle(decls, walk.cyclic, walk.order, count - 1);
        let (more, _) = settle(decls, walk.cyclic, walk.order, count);
        let last = walk.order[count - 1];
        if dropped.contains(name) {
            let n = lemma_dropped_left_out(decls, walk, count - 1, name);
            if !walk.cyclic[n] {
                let j = choose|j: int| 0 <= j < count - 1 && #[trigger] walk.order[j] == n;
                assert(walk.order[j] == n);
                assert(n != last);
                if more.contains(n) {
                    let m = choose|m: int| 0 <= m < more.len() && more[m] == n;
                    assert(m < kept.len() ==> kept[m] == n);
                }
            }
            n
        } else {
            assert(walk.order[count - 1] == last);
            assert(!more.contains(last)) by {
                lemma_settle(decls, walk, count - 1);
                if kept.contains(last) {
                    let m = choose|m: int| 0 <= m < kept.len() && kept[m] == last;
                    let j = choose|j: int|
                        0 <= j < count - 1 && #[trigger] walk.order[j] == kept[m];
                    assert(walk.order[j] == walk.order[count - 1]);
                }
            }
            last
        }
    }
}

/// The names left out are exactly the names of the classes that the order leaves out.
pub proof fn left_out_names_are_the_left_out_classes(decls: Seq<ClassDecl>, name: Symbol)
    ensures
        settled(decls).1.contains(name) <==> exists|n: int|
            0 <= n < decls.len() && !settled(decls).0.contains(n) && (#[trigger] decls[n]).name
                == name,
{
    lemma_class_walk(decls);
    let walk = class_walk(decls);
    let total = walk.order.len() as int;
    lemma_settle(decls, walk, total);
    let (kept, dropped) = settled(decls);
    if dropped.contains(name) {
        let n = lemma_dropped_left_out(decls, walk, total, name);
        if kept.contains(n) {
            let m = choose|m: int| 0 <= m < kept.len() && kept[m] == n;
            assert(stands_before(walk.order, total, kept[m]));
            let j = choose|j: int| 0 <= j < total && #[trigger] walk.order[j] == n;
            assert(!walk.cyclic[walk.order[j]]);
        }
        assert(decls[n].name == name);
    }
    if exists|n: int|
        0 <= n < decls.len() && !kept.contains(n) && (#[trigger] decls[n]).name == name {
        let n = choose|n: int|
            0 <= n < decls.len() && !kept.contains(n) && (#[trigger] decls[n]).name == name;
        assert(walk.colour[n] == Colour::Finished);
        if walk.cyclic[n] {
            assert(cyclic_names(decls, walk.cyclic).contains(name));
        } else {
            let k = choose|k: int| 0 <= k < walk.order.len() && walk.order[k] == n;
            assert(dropped.contains(decls[walk.order[k]].name));
        }
    }
}

proof fn lemma_settle_keeps_all(decls: Seq<ClassDecl>, walk: Walk, count: int)
    requires
        0 <= count <= walk.order.len(),
        forall|n: int| 0 <= n < decls.len() ==> !(#[trigger] walk.cyclic[n]),
    ensures
        settle(decls, walk.cyclic, walk.order, count).0 =~= walk.order.take(count),
        forall|name: Symbol|
            !#[trigger] settle(decls, walk.cyclic, walk.order, count).1.contains(name),
    decreases count,
{
    if count > 0 {
        lemma_settle_keeps_all(decls, walk, count - 1);
        assert(walk.order.take(count) =~= walk.order.take(count - 1).push(walk.order[count - 1]));
    }
}

/// A class that inherits from itself, however far up, never goes unreported.
pub proof fn a_cycle_of_classes_is_reported(decls: Seq<ClassDecl>, n: int)
    requires
        0 <= n < decls.len(),
        reaches_cycle(inherits(decls), n),
    ensures
        cycle_reports(decls, class_walk(decls).closed).len() > 0,
{
    lemma_class_walk(decls);
    let walk = class_walk(decls);
    if walk.closed.len() == 0 {
        lemma_settle_keeps_all(decls, walk, walk.order.len() as int);
        assert(walk.order.take(walk.order.len() as int) =~= walk.order);
        assert(walk.colour[n] == Colour::Finished && !walk.cyclic[n]);
        assert(walk.order.contains(n));
        let i = choose|i: int| 0 <= i < walk.order.len() && walk.order[i] == n;
        assert(settled(decls).0[i] == n);
        ordered_classes_are_acyclic(decls, i);
    }
}

} // verus!
