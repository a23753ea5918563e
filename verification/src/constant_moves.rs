//! Moving module constants into evaluation order.

use vstd::prelude::*;

use crate::body_refs::{
    all_body_refs, body_reads, call_edges, can_read, children, entered, expr_edges, held_exprs,
    reachable_constants, reads_slot, refs_of_all, resolved, runs, slot_read, stmt_edges,
};
use crate::constant_order::{
    all_placed_without_cycles, closed_ring, depends, evaluation_cycle, evaluation_order,
    is_permutation, needs, order_is_a_permutation, ordering_again_moves_nothing, placed_after_needs,
    placed_in, relabelled,
    reported_cycle_is_genuine, rows, solve_constant_order, square, walked_cycle, ConstantOrder,
};
use crate::constants::{ConstantEntry, ConstantTable};
use crate::diagnostics::{Log, Problem};
use crate::graph::{flags_down, on_cycle, reaches};
use crate::hir::{HirConstant, HirExpr, HirProgram, HirStmtId};
use crate::names::Symbol;

verus! {

/// The position the slot `slot` moved to: the place `order` gives it.
pub open spec fn moved(order: Seq<u32>, slot: u32) -> u32 {
    (choose|k: int| 0 <= k < order.len() && #[trigger] order[k] == slot) as u32
}

/// The expression with its slot moved, when it reads one.
pub open spec fn moved_read(order: Seq<u32>, node: HirExpr) -> HirExpr {
    match node {
        HirExpr::ConstantGet { constant, ty } => HirExpr::ConstantGet {
            constant: moved(order, constant),
            ty,
        },
        _ => node,
    }
}

/// `rows` in the order `order` gives.
pub open spec fn in_order<T>(order: Seq<u32>, rows: Seq<T>) -> Seq<T> {
    Seq::new(order.len(), |k: int| rows[order[k] as int])
}

/// The table's rows and names both follow the slots to where they moved.
pub open spec fn table_moved(order: Seq<u32>, before: &ConstantTable, after: &ConstantTable) -> bool {
    &&& after.entries@ == in_order(order, before.entries@)
    &&& after.index.rows@.len() == before.index.rows@.len()
    &&& forall|i: int|
        0 <= i < before.index.rows@.len() ==> (#[trigger] after.index.rows@[i]) == (
            before.index.rows@[i].0,
            moved(order, before.index.rows@[i].1),
        )
}

/// The program's constants and every read of one follow the slots to where they
/// moved; nothing else changed.
pub open spec fn program_moved(order: Seq<u32>, before: &HirProgram, after: &HirProgram) -> bool {
    &&& after.constants@ == in_order(order, before.constants@)
    &&& after.exprs@.len() == before.exprs@.len()
    &&& forall|e: int|
        0 <= e < before.exprs@.len() ==> (#[trigger] after.exprs@[e]) == moved_read(
            order,
            before.exprs@[e],
        )
    &&& *after == (HirProgram { constants: after.constants, exprs: after.exprs, ..*before })
}

/// A permutation moves each slot to the one place that holds it.
pub proof fn lemma_moved(order: Seq<u32>, k: int)
    requires
        is_permutation(order),
        order.len() <= u32::MAX,
        0 <= k < order.len(),
    ensures
        moved(order, order[k]) == k,
{
    let j = choose|j: int| 0 <= j < order.len() && #[trigger] order[j] == order[k];
    assert(order[k] == order[k]);
    assert(order[j] == order[k]);
}

proof fn lemma_moved_slot(order: Seq<u32>, slot: u32)
    requires
        is_permutation(order),
        order.len() <= u32::MAX,
        slot < order.len(),
    ensures
        moved(order, slot) < order.len(),
        order[moved(order, slot) as int] == slot,
{
    assert(placed_in(order, slot as int));
    let k = choose|k: int| 0 <= k < order.len() && #[trigger] order[k] == slot;
    assert(order[k] == slot);
}

fn is_identity(order: &Vec<u32>) -> (res: bool)
    requires
        order@.len() <= u32::MAX,
    ensures
        res == forall|k: int| 0 <= k < order@.len() ==> #[trigger] order@[k] == k,
{
    let mut k: usize = 0;
    while k < order.len()
        invariant
            order@.len() <= u32::MAX,
            k <= order@.len(),
            forall|j: int| 0 <= j < k ==> #[trigger] order@[j] == j,
        decreases order@.len() - k,
    {
        if order[k] != k as u32 {
            return false;
        }
        k += 1;
    }
    true
}

/// Moves the rows into `order` and rewrites every read to the slot its constant
/// moved to.
pub fn apply_constant_order(
    order: &Vec<u32>,
    program: &mut HirProgram,
    constants: &mut ConstantTable,
)
    requires
        is_permutation(order@),
        order@.len() <= u32::MAX,
        old(program).constants@.len() == order@.len(),
        old(constants).entries@.len() == order@.len(),
        old(constants).wf(),
        forall|e: int|
            0 <= e < old(program).exprs@.len() ==> (#[trigger] slot_read(
                old(program).exprs@[e],
            ) matches Some(slot) ==> slot < order@.len()),
    ensures
        program_moved(order@, old(program), final(program)),
        table_moved(order@, old(constants), final(constants)),
        final(constants).wf(),
{
    let count: usize = order.len();
    if is_identity(order) {
        proof {
            assert forall|s: u32| s < count implies #[trigger] moved(order@, s) == s by {
                lemma_moved(order@, s as int);
            }
            reveal(slot_read);
            assert forall|e: int| 0 <= e < program.exprs@.len() implies (
            #[trigger] program.exprs@[e]) == moved_read(order@, old(program).exprs@[e]) by {
                assert(slot_read(program.exprs@[e]) matches Some(slot) ==> slot < count);
            }
            assert(program.constants@ =~= in_order(order@, old(program).constants@));
            assert(constants.entries@ =~= in_order(order@, old(constants).entries@));
        }
        return;
    }
    let mut moved_to: Vec<u32> = Vec::new();
    let mut k: usize = 0;
    while k < count
        invariant
            k <= count,
            moved_to@.len() == k,
        decreases count - k,
    {
        moved_to.push(0);
        k += 1;
    }
    let mut new: usize = 0;
    while new < count
        invariant
            new <= count,
            count == order@.len(),
            count <= u32::MAX,
            is_permutation(order@),
            moved_to@.len() == count,
            forall|j: int| 0 <= j < new ==> moved_to@[#[trigger] order@[j] as int] == j,
        decreases count - new,
    {
        moved_to[order[new] as usize] = new as u32;
        new += 1;
    }
    proof {
        assert forall|s: u32| s < count implies #[trigger] moved_to@[s as int] == moved(
            order@,
            s,
        ) by {
            lemma_moved_slot(order@, s);
            assert(moved_to@[order@[moved(order@, s) as int] as int] == moved(order@, s));
        }
    }
    let mut rows: Vec<HirConstant> = Vec::new();
    let mut entries: Vec<ConstantEntry> = Vec::new();
    let mut k: usize = 0;
    while k < count
        invariant
            k <= count,
            count == order@.len(),
            is_permutation(order@),
            program.constants@.len() == count,
            constants.entries@.len() == count,
            rows@ == in_order(order@.take(k as int), program.constants@),
            entries@ == in_order(order@.take(k as int), constants.entries@),
        decreases count - k,
    {
        rows.push(program.constants[order[k] as usize]);
        entries.push(constants.entries[order[k] as usize]);
        k += 1;
        assert(order@.take(k as int) =~= order@.take(k - 1).push(order@[k - 1]));
        assert(rows@ =~= in_order(order@.take(k as int), program.constants@));
        assert(entries@ =~= in_order(order@.take(k as int), constants.entries@));
    }
    assert(order@.take(k as int) =~= order@);
    program.constants = rows;
    constants.entries = entries;
    let mut i: usize = 0;
    while i < constants.index.rows.len()
        invariant
            count == order@.len(),
            count <= u32::MAX,
            is_permutation(order@),
            moved_to@.len() == count,
            forall|s: u32| s < count ==> #[trigger] moved_to@[s as int] == moved(order@, s),
            old(constants).wf(),
            old(constants).entries@.len() == count,
            constants.entries@ == in_order(order@, old(constants).entries@),
            i <= constants.index.rows@.len(),
            constants.index.rows@.len() == old(constants).index.rows@.len(),
            forall|j: int|
                0 <= j < i ==> (#[trigger] constants.index.rows@[j]) == (
                    old(constants).index.rows@[j].0,
                    moved(order@, old(constants).index.rows@[j].1),
                ),
            forall|j: int|
                i <= j < constants.index.rows@.len() ==> (#[trigger] constants.index.rows@[j])
                    == old(constants).index.rows@[j],
        decreases constants.index.rows@.len() - i,
    {
        let row: (Symbol, u32) = (constants.index.rows[i].0, constants.index.rows[i].1);
        assert(row == old(constants).index.rows@[i as int]);
        constants.index.rows[i] = (row.0, moved_to[row.1 as usize]);
        i += 1;
    }
    proof {
        assert forall|j: int| 0 <= j < constants.index.rows@.len() implies (
        #[trigger] constants.index.rows@[j]).1 < constants.entries@.len() by {
            assert(old(constants).index.rows@[j].1 < count);
            lemma_moved_slot(order@, old(constants).index.rows@[j].1);
        }
        assert(crate::symbol_map::ordered(constants.index.rows@)) by {
            let was = old(constants).index.rows@;
            assert forall|a: int, b: int| 0 <= a < b < was.len() implies (
            #[trigger] constants.index.rows@[a]).0.0 < (#[trigger] constants.index.rows@[b]).0.0 by {
                assert(was[a].0.0 < was[b].0.0);
            }
        }
    }
    let mut e: usize = 0;
    while e < program.exprs.len()
        invariant
            count == order@.len(),
            moved_to@.len() == count,
            forall|s: u32| s < count ==> #[trigger] moved_to@[s as int] == moved(order@, s),
            forall|x: int|
                0 <= x < old(program).exprs@.len() ==> (#[trigger] slot_read(
                    old(program).exprs@[x],
                ) matches Some(slot) ==> slot < count),
            e <= program.exprs@.len(),
            program.constants@ == in_order(order@, old(program).constants@),
            *program == (HirProgram {
                constants: program.constants,
                exprs: program.exprs,
                ..*old(program)
            }),
            program.exprs@.len() == old(program).exprs@.len(),
            forall|x: int|
                0 <= x < e ==> (#[trigger] program.exprs@[x]) == moved_read(
                    order@,
                    old(program).exprs@[x],
                ),
            forall|x: int|
                e <= x < program.exprs@.len() ==> (#[trigger] program.exprs@[x])
                    == old(program).exprs@[x],
        decreases program.exprs@.len() - e,
    {
        let read = match &program.exprs[e] {
            HirExpr::ConstantGet { constant, ty } => Some((*constant, *ty)),
            _ => None,
        };
        assert(program.exprs@[e as int] == old(program).exprs@[e as int]);
        if let Some((constant, ty)) = read {
            proof {
                reveal(slot_read);
                assert(slot_read(old(program).exprs@[e as int]) == Some(constant));
            }
            program.exprs[e] = HirExpr::ConstantGet { constant: moved_to[constant as usize], ty };
        }
        e += 1;
    }
}

/// Every read names the same row before and after the move.
pub proof fn reads_keep_their_row(
    order: Seq<u32>,
    before: &HirProgram,
    after: &HirProgram,
    e: int,
    slot: u32,
)
    requires
        is_permutation(order),
        order.len() <= u32::MAX,
        before.constants@.len() == order.len(),
        program_moved(order, before, after),
        0 <= e < before.exprs@.len(),
        slot_read(before.exprs@[e]) == Some(slot),
        slot < order.len(),
    ensures
        slot_read(after.exprs@[e]) == Some(moved(order, slot)),
        moved(order, slot) < after.constants@.len(),
        after.constants@[moved(order, slot) as int] == before.constants@[slot as int],
{
    reveal(slot_read);
    lemma_moved_slot(order, slot);
    assert(after.exprs@[e] == moved_read(order, before.exprs@[e]));
}

/// Every name answers with the same entry before and after the move.
pub proof fn names_keep_their_entry(
    order: Seq<u32>,
    before: &ConstantTable,
    after: &ConstantTable,
    i: int,
)
    requires
        is_permutation(order),
        order.len() <= u32::MAX,
        before.entries@.len() == order.len(),
        before.wf(),
        table_moved(order, before, after),
        0 <= i < before.index.rows@.len(),
    ensures
        after.index.rows@[i].0 == before.index.rows@[i].0,
        after.index.rows@[i].1 < after.entries@.len(),
        after.entries@[after.index.rows@[i].1 as int]
            == before.entries@[before.index.rows@[i].1 as int],
{
    lemma_moved_slot(order, before.index.rows@[i].1);
    assert(after.index.rows@[i] == (
        before.index.rows@[i].0,
        moved(order, before.index.rows@[i].1),
    ));
}

/// What a function can read moves with the slots: it can read a slot after the
/// move exactly when it could read the slot that moved there.
pub proof fn moved_reads(
    order: Seq<u32>,
    before: &HirProgram,
    after: &HirProgram,
    entry: crate::hir::FuncId,
    slot: int,
)
    requires
        is_permutation(order),
        order.len() <= u32::MAX,
        before.constants@.len() == order.len(),
        resolved(before),
        program_moved(order, before, after),
        0 <= slot < order.len(),
    ensures
        can_read(after, entry, slot) <==> can_read(before, entry, order[slot] as int),
{
    lemma_same_shape(order, before, after);
    assert forall|f: int| 0 <= f < before.functions@.len() implies (body_reads(
        after,
        #[trigger] before.functions@[f].body@,
        slot,
    ) <==> body_reads(before, before.functions@[f].body@, order[slot] as int)) by {
        lemma_body_reads_moved(order, before, after, before.functions@[f].body@, slot);
    }
    if can_read(after, entry, slot) {
        let f = choose|f: int|
            0 <= f < after.functions@.len() && #[trigger] reaches(
                call_edges(after),
                entry.0 as int,
                f,
            ) && body_reads(after, after.functions@[f].body@, slot);
        assert(reaches(call_edges(before), entry.0 as int, f));
        assert(body_reads(after, before.functions@[f].body@, slot));
    }
    if can_read(before, entry, order[slot] as int) {
        let f = choose|f: int|
            0 <= f < before.functions@.len() && #[trigger] reaches(
                call_edges(before),
                entry.0 as int,
                f,
            ) && body_reads(before, before.functions@[f].body@, order[slot] as int);
        assert(reaches(call_edges(after), entry.0 as int, f));
        assert(body_reads(after, before.functions@[f].body@, slot));
    }
}

/// Moving slots changes neither what nodes are made of nor what they enter.
proof fn lemma_same_shape(order: Seq<u32>, before: &HirProgram, after: &HirProgram)
    requires
        program_moved(order, before, after),
    ensures
        expr_edges(after) == expr_edges(before),
        stmt_edges(after) == stmt_edges(before),
        call_edges(after) == call_edges(before),
        forall|body: Seq<HirStmtId>, e: int| runs(after, body, e) == #[trigger] runs(before, body, e),
{
    reveal(children);
    reveal(entered);
    assert forall|e: int| 0 <= e < before.exprs@.len() implies children(#[trigger] after.exprs@[e])
        == children(before.exprs@[e]) by {
        assert(after.exprs@[e] == moved_read(order, before.exprs@[e]));
    }
    assert forall|e: int| 0 <= e < before.exprs@.len() implies entered(
        after,
        #[trigger] after.exprs@[e],
    ) == entered(before, before.exprs@[e]) by {
        assert(after.exprs@[e] == moved_read(order, before.exprs@[e]));
    }
    assert(expr_edges(after) =~= expr_edges(before));
    assert(stmt_edges(after) =~= stmt_edges(before));
    assert forall|body: Seq<HirStmtId>, s: int| crate::body_refs::has_stmt(after, body, s)
        == #[trigger] crate::body_refs::has_stmt(before, body, s) by {}
    assert forall|body: Seq<HirStmtId>, root: crate::hir::HirExprId|
        crate::body_refs::holds_expr(after, body, root)
            == #[trigger] crate::body_refs::holds_expr(before, body, root) by {
        if crate::body_refs::holds_expr(after, body, root) {
            let s = choose|s: int|
                0 <= s < after.stmts@.len() && #[trigger] crate::body_refs::has_stmt(after, body, s)
                    && held_exprs(after.stmts@[s]).contains(root);
            assert(crate::body_refs::has_stmt(before, body, s));
        }
        if crate::body_refs::holds_expr(before, body, root) {
            let s = choose|s: int|
                0 <= s < before.stmts@.len() && #[trigger] crate::body_refs::has_stmt(
                    before,
                    body,
                    s,
                ) && held_exprs(before.stmts@[s]).contains(root);
            assert(crate::body_refs::has_stmt(after, body, s));
        }
    }
    assert forall|body: Seq<HirStmtId>, e: int| runs(after, body, e) == #[trigger] runs(
        before,
        body,
        e,
    ) by {
        if runs(after, body, e) {
            let root = choose|root: crate::hir::HirExprId| #[trigger]
                crate::body_refs::holds_expr(after, body, root) && reaches(
                    expr_edges(after),
                    root.0 as int,
                    e,
                );
            assert(crate::body_refs::holds_expr(before, body, root));
        }
        if runs(before, body, e) {
            let root = choose|root: crate::hir::HirExprId| #[trigger]
                crate::body_refs::holds_expr(before, body, root) && reaches(
                    expr_edges(before),
                    root.0 as int,
                    e,
                );
            assert(crate::body_refs::holds_expr(after, body, root));
        }
    }
    assert forall|body: Seq<HirStmtId>, f: int| #[trigger]
        crate::body_refs::body_enters(after, body, f) == crate::body_refs::body_enters(
            before,
            body,
            f,
        ) by {
        if crate::body_refs::body_enters(after, body, f) {
            let e = choose|e: int|
                0 <= e < after.exprs@.len() && #[trigger] runs(after, body, e)
                    && crate::body_refs::enters(after, after.exprs@[e], f);
            assert(runs(before, body, e));
        }
        if crate::body_refs::body_enters(before, body, f) {
            let e = choose|e: int|
                0 <= e < before.exprs@.len() && #[trigger] runs(before, body, e)
                    && crate::body_refs::enters(before, before.exprs@[e], f);
            assert(runs(after, body, e));
        }
    }
    assert(call_edges(after) =~= call_edges(before));
}

proof fn lemma_body_reads_moved(
    order: Seq<u32>,
    before: &HirProgram,
    after: &HirProgram,
    body: Seq<HirStmtId>,
    slot: int,
)
    requires
        is_permutation(order),
        order.len() <= u32::MAX,
        before.constants@.len() == order.len(),
        resolved(before),
        program_moved(order, before, after),
        0 <= slot < order.len(),
    ensures
        body_reads(after, body, slot) <==> body_reads(before, body, order[slot] as int),
{
    lemma_same_shape(order, before, after);
    reveal(slot_read);
    if body_reads(after, body, slot) {
        let e = choose|e: int|
            0 <= e < after.exprs@.len() && #[trigger] runs(after, body, e) && reads_slot(
                after.exprs@[e],
                slot,
            );
        assert(runs(before, body, e));
        assert(after.exprs@[e] == moved_read(order, before.exprs@[e]));
        let was = slot_read(before.exprs@[e]).unwrap();
        assert(slot_read(before.exprs@[e]) == Some(was));
        lemma_moved_slot(order, was);
    }
    if body_reads(before, body, order[slot] as int) {
        let e = choose|e: int|
            0 <= e < before.exprs@.len() && #[trigger] runs(before, body, e) && reads_slot(
                before.exprs@[e],
                order[slot] as int,
            );
        assert(runs(after, body, e));
        assert(after.exprs@[e] == moved_read(order, before.exprs@[e]));
        lemma_moved(order, slot);
    }
}

/// Which slots each constant's initializer can read, by slot.
pub open spec fn initializer_reads(program: &HirProgram) -> Seq<Seq<bool>> {
    Seq::new(
        program.constants@.len(),
        |a: int|
            Seq::new(
                program.constants@.len(),
                |b: int| can_read(program, program.constants@[a].init, b),
            ),
    )
}

/// Which slots each constant's initializer can read.
fn initializer_deps(program: &HirProgram) -> (deps: Vec<Vec<bool>>)
    requires
        resolved(program),
    ensures
        rows(deps@) == initializer_reads(program),
{
    let refs = all_body_refs(program);
    let mut deps: Vec<Vec<bool>> = Vec::new();
    let mut slot: usize = 0;
    while slot < program.constants.len()
        invariant
            refs_of_all(program, refs@),
            slot <= program.constants@.len(),
            deps@.len() == slot,
            forall|a: int|
                0 <= a < slot ==> (#[trigger] deps@[a])@ == initializer_reads(program)[a],
        decreases program.constants@.len() - slot,
    {
        let row = reachable_constants(program, program.constants[slot].init, &refs);
        assert(row@ =~= initializer_reads(program)[slot as int]);
        deps.push(row);
        slot += 1;
    }
    assert(rows(deps@) =~= initializer_reads(program));
    deps
}

/// The names of the constants in `slots`, in order.
pub open spec fn names_of(constants: Seq<HirConstant>, slots: Seq<u32>) -> Seq<Symbol> {
    slots.map_values(|slot: u32| constants[slot as int].name)
}

/// The log gained the report of `cycle`, blamed at its first member, whose file
/// is now the current one.
pub open spec fn cycle_reported(
    constants: Seq<HirConstant>,
    entries: Seq<ConstantEntry>,
    cycle: Seq<u32>,
    before: &Log,
    after: &Log,
) -> bool {
    let blame = entries[cycle[0] as int];
    &&& after.source == blame.source
    &&& after.diagnostics@.len() == before.diagnostics@.len() + 1
    &&& after.diagnostics@.drop_last() == before.diagnostics@
    &&& after.diagnostics@.last().at.source == blame.source
    &&& after.diagnostics@.last().at.span == blame.name_span
    &&& (after.diagnostics@.last().problem matches Problem::ConstantCycle { members } && members@
        == names_of(constants, cycle))
}

/// Reports one evaluation cycle, naming its members in walk order.
pub fn report_evaluation_cycle(
    deps: &Vec<Vec<bool>>,
    placed: &Vec<bool>,
    start: u32,
    program: &HirProgram,
    constants: &ConstantTable,
    log: &mut Log,
) -> (cycle: Vec<u32>)
    requires
        square(rows(deps@)),
        deps@.len() <= u32::MAX,
        placed@.len() == deps@.len(),
        start < deps@.len(),
        program.constants@.len() == deps@.len(),
        constants.entries@.len() == deps@.len(),
    ensures
        walked_cycle(rows(deps@), placed@, start, cycle@),
        cycle_reported(
            program.constants@,
            constants.entries@,
            cycle@,
            old(log),
            final(log),
        ),
{
    let cycle = evaluation_cycle(deps, placed, start);
    let members = cycle_names(&program.constants, &cycle);
    let blame = constants.entries[cycle[0] as usize];
    log.source = blame.source;
    log.emit(blame.name_span, Problem::ConstantCycle { members });
    assert(log.diagnostics@.drop_last() =~= old(log).diagnostics@);
    cycle
}

/// The names of the constants in `slots`, in order.
pub fn cycle_names(constants: &Vec<HirConstant>, slots: &Vec<u32>) -> (members: Vec<Symbol>)
    requires
        forall|k: int| 0 <= k < slots@.len() ==> #[trigger] slots@[k] < constants@.len(),
    ensures
        members@ == names_of(constants@, slots@),
{
    let mut members: Vec<Symbol> = Vec::new();
    let mut k: usize = 0;
    while k < slots.len()
        invariant
            forall|k: int| 0 <= k < slots@.len() ==> #[trigger] slots@[k] < constants@.len(),
            k <= slots@.len(),
            members@ == names_of(constants@, slots@.take(k as int)),
        decreases slots@.len() - k,
    {
        members.push(constants[slots[k] as usize].name);
        k += 1;
        assert(slots@.take(k as int) =~= slots@.take(k - 1).push(slots@[k - 1]));
        assert(members@ =~= names_of(constants@, slots@.take(k as int)));
    }
    assert(slots@.take(k as int) =~= slots@);
    members
}

fn placed_flags(order: &Vec<u32>, placed: usize, count: usize) -> (flags: Vec<bool>)
    requires
        placed <= order@.len(),
        forall|k: int| 0 <= k < order@.len() ==> #[trigger] order@[k] < count,
    ensures
        flags@.len() == count,
        forall|s: int|
            0 <= s < count ==> #[trigger] flags@[s] == placed_in(order@.take(placed as int), s),
{
    let mut flags: Vec<bool> = flags_down(count);
    let mut k: usize = 0;
    while k < placed
        invariant
            k <= placed,
            placed <= order@.len(),
            flags@.len() == count,
            forall|k: int| 0 <= k < order@.len() ==> #[trigger] order@[k] < count,
            forall|s: int|
                0 <= s < count ==> #[trigger] flags@[s] == placed_in(order@.take(k as int), s),
        decreases placed - k,
    {
        let ghost was = flags@;
        flags[order[k] as usize] = true;
        k += 1;
        proof {
            let shorter = order@.take(k - 1);
            let longer = order@.take(k as int);
            assert forall|s: int| 0 <= s < count implies #[trigger] flags@[s] == placed_in(
                longer,
                s,
            ) by {
                if placed_in(shorter, s) {
                    let j = choose|j: int| 0 <= j < shorter.len() && #[trigger] shorter[j] == s;
                    assert(longer[j] == s);
                }
                if placed_in(longer, s) {
                    let j = choose|j: int| 0 <= j < longer.len() && #[trigger] longer[j] == s;
                    if j < k - 1 {
                        assert(shorter[j] == s);
                    }
                }
                if s == order@[k - 1] {
                    assert(longer[k - 1] == s);
                }
                assert(was[s] == placed_in(shorter, s));
            }
        }
    }
    flags
}

/// Which of `count` slots are among the first `placed` of `order`.
pub open spec fn placed_slots(order: Seq<u32>, placed: int, count: nat) -> Seq<bool> {
    Seq::new(count, |slot: int| placed_in(order.take(placed), slot))
}

/// What ordering the constants of `before` came to: the order it chose, how much
/// of it could be placed, and the cycle it reported where not all could: the one the
/// walk from the first slot left over runs into, over slots left over alone.
pub open spec fn ordered(
    before: &HirProgram,
    table: &ConstantTable,
    log: &Log,
    order: Seq<u32>,
    placed: int,
    after: &HirProgram,
    table_after: &ConstantTable,
    log_after: &Log,
) -> bool {
    &&& evaluation_order(initializer_reads(before), order, placed)
    &&& program_moved(order, before, after)
    &&& table_moved(order, table, table_after)
    &&& if placed == order.len() {
        log_after.quiet(log)
    } else {
        exists|cycle: Seq<u32>|
            {
                &&& closed_ring(initializer_reads(before), cycle)
                &&& walked_cycle(
                    initializer_reads(before),
                    placed_slots(order, placed, before.constants@.len()),
                    order[placed],
                    cycle,
                )
                &&& #[trigger] cycle_reported(
                    before.constants@,
                    table.entries@,
                    cycle,
                    log,
                    log_after,
                )
            }
    }
}

/// Sorts the program's constants into evaluation order and remaps every read to
/// the moved slots, refusing an initializer that genuinely depends on its own
/// value.
pub fn order_constant_evaluation(
    program: &mut HirProgram,
    constants: &mut ConstantTable,
    log: &mut Log,
) -> (solved: ConstantOrder)
    requires
        resolved(old(program)),
        old(constants).wf(),
        old(constants).entries@.len() == old(program).constants@.len(),
    ensures
        ordered(
            old(program),
            old(constants),
            old(log),
            solved.order@,
            solved.placed as int,
            final(program),
            final(constants),
            final(log),
        ),
        final(constants).wf(),
{
    let deps = initializer_deps(program);
    assert(deps@.len() == rows(deps@).len());
    let solved = solve_constant_order(&deps);
    let ghost reads = initializer_reads(program);
    proof {
        order_is_a_permutation(reads, solved.order@, solved.placed as int);
    }
    if solved.placed < solved.order.len() {
        let flags = placed_flags(&solved.order, solved.placed, deps.len());
        let cycle = report_evaluation_cycle(
            &deps,
            &flags,
            solved.order[solved.placed],
            program,
            constants,
            log,
        );
        proof {
            assert(flags@ =~= placed_slots(
                solved.order@,
                solved.placed as int,
                program.constants@.len(),
            ));
            reported_cycle_is_genuine(
                reads,
                solved.order@,
                solved.placed as int,
                flags@,
                cycle@,
            );
            assert(cycle_reported(
                old(program).constants@,
                old(constants).entries@,
                cycle@,
                old(log),
                log,
            ));
        }
    }
    apply_constant_order(&solved.order, program, constants);
    solved
}

/// Filling the slots front to back initializes every constant after everything
/// its initializer reads, when no initializer depends on its own value.
pub proof fn front_to_back_initializes(
    before: &HirProgram,
    table: &ConstantTable,
    log: &Log,
    order: Seq<u32>,
    placed: int,
    after: &HirProgram,
    table_after: &ConstantTable,
    log_after: &Log,
    slot: int,
    read: int,
)
    requires
        resolved(before),
        table.wf(),
        table.entries@.len() == before.constants@.len(),
        ordered(before, table, log, order, placed, after, table_after, log_after),
        forall|s: int| !#[trigger] on_cycle(needs(initializer_reads(before)), s),
        0 <= slot < after.constants@.len(),
        0 <= read < after.constants@.len(),
        can_read(after, after.constants@[slot].init, read),
    ensures
        read < slot,
{
    let reads = initializer_reads(before);
    order_is_a_permutation(reads, order, placed);
    all_placed_without_cycles(reads, order, placed);
    moved_reads(order, before, after, after.constants@[slot].init, read);
    assert(after.constants@[slot] == before.constants@[order[slot] as int]);
    assert(depends(reads, order[slot] as int, order[read] as int));
    placed_after_needs(reads, order, placed, slot, order[read] as int);
    let j = choose|j: int| 0 <= j < slot && #[trigger] order[j] == order[read] as int;
    assert(order[j] == order[read]);
}

/// A constant cycle is reported exactly when some initializer depends on its own
/// value.
pub proof fn refused_exactly_on_cycles(
    before: &HirProgram,
    table: &ConstantTable,
    log: &Log,
    order: Seq<u32>,
    placed: int,
    after: &HirProgram,
    table_after: &ConstantTable,
    log_after: &Log,
)
    requires
        ordered(before, table, log, order, placed, after, table_after, log_after),
    ensures
        log_after.diagnostics@.len() > log.diagnostics@.len() <==> exists|s: int| #[trigger]
            on_cycle(needs(initializer_reads(before)), s),
{
    all_placed_without_cycles(initializer_reads(before), order, placed);
}

/// Ordering the constants a second time changes nothing: no row, no name and no read
/// moves.
pub proof fn ordering_twice_changes_nothing(
    before: &HirProgram,
    table: &ConstantTable,
    log: &Log,
    order: Seq<u32>,
    placed: int,
    after: &HirProgram,
    table_after: &ConstantTable,
    log_after: &Log,
    again: Seq<u32>,
    placed_again: int,
    last: &HirProgram,
    table_last: &ConstantTable,
    log_last: &Log,
)
    requires
        resolved(before),
        before.constants@.len() <= u32::MAX,
        table.wf(),
        table.entries@.len() == before.constants@.len(),
        ordered(before, table, log, order, placed, after, table_after, log_after),
        ordered(after, table_after, log_after, again, placed_again, last, table_last, log_last),
    ensures
        last.constants@ == after.constants@,
        last.exprs@ == after.exprs@,
        *last == (HirProgram { constants: last.constants, exprs: last.exprs, ..*after }),
        table_last.entries@ == table_after.entries@,
        table_last.index.rows@ == table_after.index.rows@,
{
    let reads = initializer_reads(before);
    let reads_after = initializer_reads(after);
    order_is_a_permutation(reads, order, placed);
    assert(relabelled(reads, order, reads_after)) by {
        assert forall|a: int, b: int| 0 <= a < reads.len() && 0 <= b < reads.len() implies (
        #[trigger] depends(reads_after, a, b) <==> depends(
            reads,
            order[a] as int,
            order[b] as int,
        )) by {
            moved_reads(order, before, after, after.constants@[a].init, b);
            assert(after.constants@[a] == before.constants@[order[a] as int]);
        }
    }
    ordering_again_moves_nothing(reads, order, placed, reads_after, again, placed_again);
    order_is_a_permutation(reads_after, again, placed_again);
    assert(last.constants@ =~= after.constants@);
    assert(table_last.entries@ =~= table_after.entries@);
    assert forall|e: int| 0 <= e < after.exprs@.len() implies #[trigger] last.exprs@[e]
        == after.exprs@[e] by {
        assert(after.exprs@[e] == moved_read(order, before.exprs@[e]));
        if let HirExpr::ConstantGet { constant, .. } = before.exprs@[e] {
            reveal(slot_read);
            assert(slot_read(before.exprs@[e]) == Some(constant));
            lemma_moved_slot(order, constant);
            lemma_moved(again, moved(order, constant) as int);
        }
        assert(last.exprs@[e] == moved_read(again, after.exprs@[e]));
    }
    assert(last.exprs@ =~= after.exprs@);
    assert forall|i: int| 0 <= i < table_after.index.rows@.len() implies (
    #[trigger] table_last.index.rows@[i]) == table_after.index.rows@[i] by {
        let slot = table.index.rows@[i].1;
        assert(slot < table.entries@.len());
        lemma_moved_slot(order, slot);
        assert(table_after.index.rows@[i].1 == moved(order, slot));
        lemma_moved(again, moved(order, slot) as int);
    }
    assert(table_last.index.rows@ =~= table_after.index.rows@);
}

/// A constant is filled after every constant that stands anywhere inside its initializer,
/// or inside anything the initializer enters, where ordering reported nothing.
pub proof fn a_constant_is_filled_after_what_it_reads(
    before: &HirProgram,
    table: &ConstantTable,
    log: &Log,
    order: Seq<u32>,
    placed: int,
    after: &HirProgram,
    table_after: &ConstantTable,
    log_after: &Log,
    slot: int,
    funcs: Seq<crate::hir::FuncId>,
    entering: Seq<(Seq<crate::hir::HirStmtId>, Seq<crate::hir::HirExprId>)>,
    stmts: Seq<crate::hir::HirStmtId>,
    exprs: Seq<crate::hir::HirExprId>,
    read: u32,
    ty: crate::ty::Type,
)
    requires
        ordered(before, table, log, order, placed, after, table_after, log_after),
        log_after.diagnostics@.len() == log.diagnostics@.len(),
        0 <= slot < before.constants@.len() <= u32::MAX,
        read < before.constants@.len(),
        crate::body_refs::calls_along(before, funcs, entering),
        funcs[0] == before.constants@[slot].init,
        crate::body_refs::leads_to(before, before.functions@[funcs.last().0 as int].body@, stmts, exprs),
        before.exprs@[exprs.last().0 as int] == (HirExpr::ConstantGet { constant: read, ty }),
    ensures
        exists|i: int, j: int|
            0 <= i < j < after.constants@.len() && #[trigger] after.constants@[i]
                == before.constants@[read as int] && #[trigger] after.constants@[j]
                == before.constants@[slot],
{
    crate::body_refs::a_read_through_calls_is_found(before, funcs, entering, stmts, exprs, read, ty);
    let deps = initializer_reads(before);
    assert(depends(deps, slot, read as int));
    order_is_a_permutation(deps, order, placed);
    assert(placed == order.len());
    assert(placed_in(order, slot));
    let k = choose|k: int| 0 <= k < order.len() && #[trigger] order[k] == slot;
    placed_after_needs(deps, order, placed, k, read as int);
    let j = choose|j: int| 0 <= j < k && #[trigger] order[j] == read;
    assert(after.constants@[j] == before.constants@[read as int]);
    assert(after.constants@[k] == before.constants@[slot]);
}

/// Ordering the constants moves constants and the reads of them and nothing else: there
/// are as many expressions as before, and one that reads no constant stays as it was.
pub proof fn ordering_moves_only_constants(
    order: Seq<u32>,
    before: &HirProgram,
    after: &HirProgram,
    e: int,
)
    requires
        program_moved(order, before, after),
    ensures
        after.exprs@.len() == before.exprs@.len(),
        0 <= e < before.exprs@.len() && !(before.exprs@[e] is ConstantGet) ==> after.exprs@[e]
            == before.exprs@[e],
        0 <= e < before.exprs@.len() ==> after.exprs@[e].ty() == before.exprs@[e].ty(),
        after.stmts == before.stmts,
        after.functions == before.functions,
        after.types == before.types,
{
    if 0 <= e < before.exprs@.len() {
        assert(after.exprs@[e] == moved_read(order, before.exprs@[e]));
    }
}

} // verus!
