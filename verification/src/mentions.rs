//! Which names a function's closures mention, decided before its body is
//! analyzed.
//!
//! A `var` a closure captures has to live in a shared box, and that decision is
//! made where the binding is declared. The answer is by name, not by resolution,
//! and over-approximates on purpose: one extra box costs an allocation, one
//! missing box is a closure and a frame writing different storage.

use vstd::prelude::*;

use crate::graph::{
    flags_down, lemma_closed, lemma_reaches_self, lemma_reaches_step, lemma_unset_raise, reaches,
    unset, Edges,
};
use crate::names::Symbol;
use crate::syntax::{every_part_is_listed, written_in, Expr, ExprId, StmtId, SyntaxTree};

verus! {

/// The number of an expression, inside a closure literal or not.
pub open spec fn expr_node(id: ExprId, inside: bool) -> int {
    2 * id.0 + if inside {
        1int
    } else {
        0int
    }
}

/// The number of a statement, inside a closure literal or not.
pub open spec fn stmt_node(tree: &SyntaxTree, id: StmtId, inside: bool) -> int {
    2 * tree.exprs@.len() + 2 * id.0 + if inside {
        1int
    } else {
        0int
    }
}

/// How many numbers there are.
pub open spec fn node_count(tree: &SyntaxTree) -> int {
    2 * tree.exprs@.len() as int + 2 * tree.stmts@.len() as int
}

/// Whether a number is of something inside a closure literal.
pub open spec fn is_inside(node: int) -> bool {
    node % 2 == 1
}

/// The statements of a closure literal's body, none for anything else.
pub open spec fn closure_body(node: Expr) -> Seq<StmtId> {
    match node {
        Expr::Closure { body } => body@,
        _ => Seq::empty(),
    }
}

/// One step down the tree. A closure literal's body is inside a closure, and
/// everything else is inside one exactly when what holds it is.
pub open spec fn steps_to(tree: &SyntaxTree, from: int, to: int) -> bool {
    if 0 <= from < 2 * tree.exprs@.len() {
        let node = tree.exprs@[from / 2];
        ||| exists|i: int|
            0 <= i < node.parts().len() && to == expr_node(
                #[trigger] node.parts()[i],
                is_inside(from),
            )
        ||| exists|i: int|
            0 <= i < closure_body(node).len() && to == stmt_node(
                tree,
                #[trigger] closure_body(node)[i],
                true,
            )
    } else if from < node_count(tree) {
        let node = tree.stmts@[(from - 2 * tree.exprs@.len()) / 2];
        ||| exists|i: int|
            0 <= i < node.parts().len() && to == expr_node(
                #[trigger] node.parts()[i],
                is_inside(from),
            )
        ||| exists|i: int|
            0 <= i < node.blocks().len() && to == stmt_node(
                tree,
                #[trigger] node.blocks()[i],
                is_inside(from),
            )
    } else {
        false
    }
}

/// Walking down the tree, as a relation.
pub open spec fn descent(tree: &SyntaxTree) -> Edges {
    |a: int, b: int| 0 <= a && steps_to(tree, a, b)
}

/// Every id a node holds names a node.
pub open spec fn tree_wf(tree: &SyntaxTree) -> bool {
    forall|a: int, b: int| 0 <= a && #[trigger] steps_to(tree, a, b) ==> 0 <= b < node_count(tree)
}

/// Whether node `at` writes `name` inside a closure literal.
pub open spec fn writes(tree: &SyntaxTree, at: int, name: Symbol) -> bool {
    0 <= at < 2 * tree.exprs@.len() && is_inside(at) && tree.exprs@[at / 2].written_name() == Some(
        name,
    )
}

/// Whether a closure literal somewhere in `body` mentions `name`, closures nested
/// in closures included.
pub open spec fn mentioned(tree: &SyntaxTree, body: Seq<StmtId>, name: Symbol) -> bool {
    exists|i: int, at: int|
        0 <= i < body.len() && #[trigger] reaches(
            descent(tree),
            stmt_node(tree, #[trigger] body[i], false),
            at,
        ) && writes(tree, at, name)
}

/// The nodes one step down from a node.
fn steps_from(tree: &SyntaxTree, from: usize) -> (next: Vec<usize>)
    requires
        from < node_count(tree),
        node_count(tree) <= usize::MAX,
        tree_wf(tree),
    ensures
        forall|to: int| steps_to(tree, from as int, to) <==> next@.contains(to as usize) && 0 <= to
            <= usize::MAX,
{
    let half: usize = 2 * tree.exprs.len();
    let inside = from % 2 == 1;
    let bit: usize = from % 2;
    let mut next: Vec<usize> = Vec::new();
    let parts: Vec<ExprId>;
    let stmts: Vec<StmtId>;
    let stmt_bit: usize;
    if from < half {
        let node = &tree.exprs[from / 2];
        parts = node.parts_of();
        stmt_bit = 1;
        stmts = match node {
            Expr::Closure { body } => crate::lists::copied(body),
            _ => Vec::new(),
        };
        assert(stmts@ =~= closure_body(tree.exprs@[from as int / 2]));
    } else {
        let node = &tree.stmts[(from - half) / 2];
        parts = node.parts_of();
        stmt_bit = bit;
        stmts = node.blocks_of();
    }
    let ghost stmt_inside = stmt_bit == 1;
    assert forall|i: int| 0 <= i < parts@.len() implies 0 <= expr_node(
        #[trigger] parts@[i],
        inside,
    ) < node_count(tree) by {
        assert(steps_to(tree, from as int, expr_node(parts@[i], inside)));
    }
    assert forall|i: int| 0 <= i < stmts@.len() implies 0 <= stmt_node(
        tree,
        #[trigger] stmts@[i],
        stmt_inside,
    ) < node_count(tree) by {
        assert(steps_to(tree, from as int, stmt_node(tree, stmts@[i], stmt_inside)));
    }
    let mut i: usize = 0;
    while i < parts.len()
        invariant
            i <= parts@.len(),
            node_count(tree) <= usize::MAX,
            bit == if inside {
                1usize
            } else {
                0usize
            },
            forall|k: int|
                0 <= k < parts@.len() ==> 0 <= expr_node(#[trigger] parts@[k], inside)
                    < node_count(tree),
            next@.len() == i,
            forall|k: int|
                0 <= k < i ==> #[trigger] next@[k] == expr_node(parts@[k], inside),
        decreases parts@.len() - i,
    {
        assert(expr_node(parts@[i as int], inside) < node_count(tree));
        next.push(2 * parts[i].0 as usize + bit);
        i += 1;
    }
    let ghost count = parts@.len() as int;
    let mut j: usize = 0;
    while j < stmts.len()
        invariant
            j <= stmts@.len(),
            node_count(tree) <= usize::MAX,
            half == 2 * tree.exprs@.len(),
            stmt_bit == if stmt_inside {
                1usize
            } else {
                0usize
            },
            count == parts@.len(),
            forall|k: int|
                0 <= k < stmts@.len() ==> 0 <= stmt_node(tree, #[trigger] stmts@[k], stmt_inside)
                    < node_count(tree),
            next@.len() == count + j,
            forall|k: int|
                0 <= k < count ==> #[trigger] next@[k] == expr_node(parts@[k], inside),
            forall|k: int|
                0 <= k < j ==> #[trigger] next@[count + k] == stmt_node(
                    tree,
                    stmts@[k],
                    stmt_inside,
                ),
        decreases stmts@.len() - j,
    {
        assert(stmt_node(tree, stmts@[j as int], stmt_inside) < node_count(tree));
        let ghost held = next@;
        next.push(half + 2 * stmts[j].0 as usize + stmt_bit);
        proof {
            assert forall|k: int| 0 <= k < j + 1 implies #[trigger] next@[count + k] == stmt_node(
                tree,
                stmts@[k],
                stmt_inside,
            ) by {
                if k < j {
                    assert(next@[count + k] == held[count + k]);
                }
            }
        }
        j += 1;
    }
    proof {
        assert forall|to: int| steps_to(tree, from as int, to) implies next@.contains(to as usize)
            && 0 <= to <= usize::MAX by {
            if exists|k: int|
                0 <= k < parts@.len() && to == expr_node(#[trigger] parts@[k], inside) {
                let k = choose|k: int|
                    0 <= k < parts@.len() && to == expr_node(#[trigger] parts@[k], inside);
                assert(next@[k] == to as usize);
            } else {
                let k = choose|k: int|
                    0 <= k < stmts@.len() && to == stmt_node(
                        tree,
                        #[trigger] stmts@[k],
                        stmt_inside,
                    );
                assert(next@[count + k] == to as usize);
            }
        }
        assert forall|to: int|
            next@.contains(to as usize) && 0 <= to <= usize::MAX implies steps_to(
            tree,
            from as int,
            to,
        ) by {
            let k = choose|k: int| 0 <= k < next@.len() && next@[k] == to as usize;
            if k < count {
                assert(next@[k] == expr_node(parts@[k], inside));
            } else {
                let m = k - count;
                assert(next@[count + m] == stmt_node(tree, stmts@[m], stmt_inside));
            }
        }
    }
    next
}

fn note(found: &mut Vec<Symbol>, name: Symbol)
    ensures
        forall|other: Symbol|
            final(found)@.contains(other) <==> old(found)@.contains(other) || other == name,
{
    let mut i: usize = 0;
    while i < found.len()
        invariant
            i <= found@.len(),
            found@ == old(found)@,
        decreases found@.len() - i,
    {
        if found[i] == name {
            return;
        }
        i += 1;
    }
    found.push(name);
    proof {
        assert forall|other: Symbol|
            old(found)@.contains(other) || other == name implies found@.contains(other) by {
            if old(found)@.contains(other) {
                let k = choose|k: int| 0 <= k < old(found)@.len() && old(found)@[k] == other;
                assert(found@[k] == other);
            } else {
                assert(found@[found@.len() - 1] == name);
            }
        }
    }
}

/// Whether a node was reached from one of the roots.
pub open spec fn from_roots(tree: &SyntaxTree, body: Seq<StmtId>, at: int) -> bool {
    exists|i: int|
        0 <= i < body.len() && reaches(
            descent(tree),
            stmt_node(tree, #[trigger] body[i], false),
            at,
        )
}

/// Every name written inside a closure literal somewhere in `body`.
pub fn names_closures_mention(tree: &SyntaxTree, body: &Vec<StmtId>) -> (found: Vec<Symbol>)
    requires
        tree_wf(tree),
        node_count(tree) <= usize::MAX,
        forall|i: int| 0 <= i < body@.len() ==> (#[trigger] body@[i]).0 < tree.stmts@.len(),
    ensures
        forall|name: Symbol| found@.contains(name) <==> mentioned(tree, body@, name),
{
    let count: usize = 2 * tree.exprs.len() + 2 * tree.stmts.len();
    let half: usize = 2 * tree.exprs.len();
    let ghost edge = descent(tree);
    let mut seen = flags_down(count);
    let mut stack: Vec<usize> = Vec::new();
    let mut found: Vec<Symbol> = Vec::new();
    let mut i: usize = 0;
    while i < body.len()
        invariant
            i <= body@.len(),
            half == 2 * tree.exprs@.len(),
            node_count(tree) <= usize::MAX,
            forall|k: int| 0 <= k < body@.len() ==> (#[trigger] body@[k]).0 < tree.stmts@.len(),
            stack@.len() == i,
            forall|k: int|
                0 <= k < i ==> #[trigger] stack@[k] == stmt_node(tree, body@[k], false),
        decreases body@.len() - i,
    {
        assert(body@[i as int].0 < tree.stmts@.len());
        stack.push(half + 2 * body[i].0 as usize);
        i += 1;
    }
    proof {
        assert forall|k: int| 0 <= k < stack@.len() implies #[trigger] stack@[k] < count
            && from_roots(tree, body@, stack@[k] as int) by {
            assert(body@[k].0 < tree.stmts@.len());
            lemma_reaches_self(edge, stmt_node(tree, body@[k], false));
        }
        assert forall|k: int| 0 <= k < body@.len() implies pending(
            seen@,
            stack@,
            stmt_node(tree, #[trigger] body@[k], false),
        ) by {
            assert(stack@[k] == stmt_node(tree, body@[k], false));
        }
    }
    while stack.len() > 0
        invariant
            count == node_count(tree),
            count <= usize::MAX,
            half == 2 * tree.exprs@.len(),
            edge == descent(tree),
            tree_wf(tree),
            seen@.len() == count,
            forall|k: int|
                0 <= k < stack@.len() ==> #[trigger] stack@[k] < count && from_roots(
                    tree,
                    body@,
                    stack@[k] as int,
                ),
            forall|k: int|
                0 <= k < body@.len() ==> pending(
                    seen@,
                    stack@,
                    stmt_node(tree, #[trigger] body@[k], false),
                ),
            forall|a: int| 0 <= a < count && #[trigger] seen@[a] ==> from_roots(tree, body@, a),
            forall|a: int, b: int|
                0 <= a < count && seen@[a] && #[trigger] steps_to(tree, a, b) ==> pending(
                    seen@,
                    stack@,
                    b,
                ),
            forall|name: Symbol|
                found@.contains(name) <==> exists|a: int|
                    0 <= a < count && #[trigger] seen@[a] && writes(tree, a, name),
        decreases unset(seen@), stack@.len(),
    {
        let ghost whole = stack@;
        let at: usize = match stack.pop() {
            Some(at) => at,
            None => 0,
        };
        let ghost rest = stack@;
        let ghost flags = seen@;
        assert(whole =~= rest.push(at));
        assert(whole[whole.len() - 1] == at);
        assert(at < count && from_roots(tree, body@, at as int));
        if seen[at] {
            proof {
                assert forall|b: int| pending(flags, rest.push(at), b) implies pending(
                    flags,
                    rest,
                    b,
                ) by {
                    lemma_pending_shrink(flags, rest, at, b);
                }
            }
        } else {
            proof {
                lemma_unset_raise(seen@, at as int);
            }
            seen[at] = true;
            let mut next = steps_from(tree, at);
            let ghost below = next@;
            stack.append(&mut next);
            proof {
                let all = stack@;
                assert(all =~= rest + below);
                assert forall|k: int| 0 <= k < all.len() implies #[trigger] all[k] < count
                    && from_roots(tree, body@, all[k] as int) by {
                    if k < rest.len() {
                        assert(all[k] == rest[k]);
                    } else {
                        assert(below[k - rest.len()] == all[k]);
                        assert(below.contains(all[k]));
                        assert(steps_to(tree, at as int, all[k] as int));
                        let r = choose|r: int|
                            0 <= r < body@.len() && reaches(
                                edge,
                                stmt_node(tree, #[trigger] body@[r], false),
                                at as int,
                            );
                        lemma_reaches_step(
                            edge,
                            stmt_node(tree, body@[r], false),
                            at as int,
                            all[k] as int,
                        );
                    }
                }
                assert forall|b: int| pending(flags, rest.push(at), b) implies pending(
                    seen@,
                    all,
                    b,
                ) by {
                    lemma_pending_grow(flags, seen@, rest, all, at, b);
                }
                assert forall|a: int, b: int|
                    0 <= a < count && seen@[a] && #[trigger] steps_to(tree, a, b) implies pending(
                    seen@,
                    all,
                    b,
                ) by {
                    if a == at {
                        assert(below.contains(b as usize));
                        let k = choose|k: int| 0 <= k < below.len() && below[k] == b as usize;
                        assert(all[rest.len() + k] == b as usize);
                    } else {
                        assert(flags[a]);
                        assert(pending(flags, rest.push(at), b));
                    }
                }
            }
            let ghost named = found@;
            if at < half && at % 2 == 1 {
                if let Some(name) = tree.exprs[at / 2].name() {
                    note(&mut found, name);
                }
            }
            proof {
                assert forall|name: Symbol|
                    found@.contains(name) <==> exists|a: int|
                        0 <= a < count && #[trigger] seen@[a] && writes(tree, a, name) by {
                    assert(found@.contains(name) <==> named.contains(name) || writes(
                        tree,
                        at as int,
                        name,
                    ));
                    if named.contains(name) {
                        let a = choose|a: int|
                            0 <= a < count && #[trigger] flags[a] && writes(tree, a, name);
                        assert(seen@[a]);
                    }
                    if writes(tree, at as int, name) {
                        assert(seen@[at as int]);
                    }
                    if exists|a: int|
                        0 <= a < count && #[trigger] seen@[a] && writes(tree, a, name) {
                        let a = choose|a: int|
                            0 <= a < count && #[trigger] seen@[a] && writes(tree, a, name);
                        if a != at {
                            assert(flags[a]);
                        }
                    }
                }
            }
        }
    }
    proof {
        let flags = seen@;
        assert forall|name: Symbol| found@.contains(name) <==> mentioned(tree, body@, name) by {
            if found@.contains(name) {
                let a = choose|a: int|
                    0 <= a < count && #[trigger] flags[a] && writes(tree, a, name);
                assert(from_roots(tree, body@, a));
                let r = choose|r: int|
                    0 <= r < body@.len() && reaches(
                        edge,
                        stmt_node(tree, #[trigger] body@[r], false),
                        a,
                    );
                assert(reaches(descent(tree), stmt_node(tree, body@[r], false), a));
            }
            if mentioned(tree, body@, name) {
                let (r, a) = choose|r: int, a: int|
                    0 <= r < body@.len() && #[trigger] reaches(
                        descent(tree),
                        stmt_node(tree, #[trigger] body@[r], false),
                        a,
                    ) && writes(tree, a, name);
                let inside = |x: int| 0 <= x < count && flags[x];
                assert(pending(flags, stack@, stmt_node(tree, body@[r], false)));
                assert forall|x: int, y: int| inside(x) && #[trigger] edge(x, y) implies inside(
                    y,
                ) by {
                    assert(steps_to(tree, x, y));
                    assert(pending(flags, stack@, y));
                }
                lemma_closed(edge, inside, stmt_node(tree, body@[r], false), a);
                assert(flags[a]);
            }
        }
    }
    found
}

/// Whether a node was visited or still waits to be.
pub open spec fn pending(seen: Seq<bool>, stack: Seq<usize>, at: int) -> bool {
    0 <= at < seen.len() && (seen[at] || exists|k: int|
        0 <= k < stack.len() && #[trigger] stack[k] == at)
}

proof fn lemma_pending_shrink(seen: Seq<bool>, rest: Seq<usize>, top: usize, at: int)
    requires
        top < seen.len(),
        seen[top as int],
        pending(seen, rest.push(top), at),
    ensures
        pending(seen, rest, at),
{
    if !seen[at] {
        let stack = rest.push(top);
        let k = choose|k: int| 0 <= k < stack.len() && #[trigger] stack[k] == at;
        assert(k < rest.len());
        assert(rest[k] == at);
    }
}

proof fn lemma_pending_grow(
    before: Seq<bool>,
    after: Seq<bool>,
    rest: Seq<usize>,
    all: Seq<usize>,
    top: usize,
    at: int,
)
    requires
        top < before.len(),
        after == before.update(top as int, true),
        rest.len() <= all.len(),
        forall|k: int| 0 <= k < rest.len() ==> all[k] == rest[k],
        pending(before, rest.push(top), at),
    ensures
        pending(after, all, at),
{
    if !after[at] {
        let stack = rest.push(top);
        let k = choose|k: int| 0 <= k < stack.len() && #[trigger] stack[k] == at;
        assert(k < rest.len());
        assert(all[k] == at);
    }
}

/// What any closure of a body mentions, the closures of a longer body mention
/// too: nothing that must be boxed stops having to be.
pub proof fn more_body_mentions_more(
    tree: &SyntaxTree,
    body: Seq<StmtId>,
    more: Seq<StmtId>,
    name: Symbol,
)
    requires
        mentioned(tree, body, name),
    ensures
        mentioned(tree, body + more, name),
{
    let (r, a) = choose|r: int, a: int|
        0 <= r < body.len() && #[trigger] reaches(
            descent(tree),
            stmt_node(tree, #[trigger] body[r], false),
            a,
        ) && writes(tree, a, name);
    let whole = body + more;
    assert(whole[r] == body[r]);
    assert(reaches(descent(tree), stmt_node(tree, whole[r], false), a));
}

/// The walk over a body goes from every expression and statement into everything written
/// directly inside it, keeping whether it is inside a closure literal; from a closure
/// literal it goes into the literal's body, which is inside one. What counts as a mention
/// there, and nowhere else, is a name that is read or called.
pub proof fn the_walk_enters_everything_written(
    tree: &SyntaxTree,
    e: ExprId,
    s: StmtId,
    part: ExprId,
    block: StmtId,
    inside: bool,
    name: Symbol,
)
    requires
        e.0 < tree.exprs@.len(),
        s.0 < tree.stmts@.len(),
    ensures
        written_in(tree.exprs@[e.0 as int], part) ==> descent(tree)(
            expr_node(e, inside),
            expr_node(part, inside),
        ),
        tree.exprs@[e.0 as int] matches Expr::Closure { body } ==> (body@.contains(block)
            ==> descent(tree)(expr_node(e, inside), stmt_node(tree, block, true))),
        tree.stmts@[s.0 as int].parts().contains(part) ==> descent(tree)(
            stmt_node(tree, s, inside),
            expr_node(part, inside),
        ),
        tree.stmts@[s.0 as int].blocks().contains(block) ==> descent(tree)(
            stmt_node(tree, s, inside),
            stmt_node(tree, block, inside),
        ),
        writes(tree, expr_node(e, inside), name) <==> inside && {
            ||| tree.exprs@[e.0 as int] matches Expr::Name { symbol } && symbol == name
            ||| tree.exprs@[e.0 as int] matches Expr::Call { callee, .. } && callee == name
        },
{
    let node = tree.exprs@[e.0 as int];
    let from = expr_node(e, inside);
    assert(from / 2 == e.0);
    assert(is_inside(from) == inside);
    assert(tree.exprs@[from / 2] == node);
    every_part_is_listed(node, part);
    if node.parts().contains(part) {
        let i = choose|i: int| 0 <= i < node.parts().len() && node.parts()[i] == part;
        assert(expr_node(part, inside) == expr_node(node.parts()[i], is_inside(from)));
        assert(steps_to(tree, from, expr_node(part, inside)));
    }
    if let Expr::Closure { body } = node {
        if body@.contains(block) {
            let i = choose|i: int| 0 <= i < body@.len() && body@[i] == block;
            assert(closure_body(node)[i] == block);
            assert(steps_to(tree, from, stmt_node(tree, block, true)));
        }
    }
    let stmt = tree.stmts@[s.0 as int];
    let at = stmt_node(tree, s, inside);
    assert((at - 2 * tree.exprs@.len()) / 2 == s.0);
    assert(is_inside(at) == inside);
    assert(at < node_count(tree));
    if stmt.parts().contains(part) {
        let i = choose|i: int| 0 <= i < stmt.parts().len() && stmt.parts()[i] == part;
        assert(expr_node(part, inside) == expr_node(stmt.parts()[i], is_inside(at)));
        assert(steps_to(tree, at, expr_node(part, inside)));
    }
    if stmt.blocks().contains(block) {
        let i = choose|i: int| 0 <= i < stmt.blocks().len() && stmt.blocks()[i] == block;
        assert(stmt_node(tree, block, inside) == stmt_node(tree, stmt.blocks()[i], is_inside(at)));
        assert(steps_to(tree, at, stmt_node(tree, block, inside)));
    }
}

} // verus!
