//! Filling a construction's child slots from its content.
//!
//! A slot is filled by the bare trailing block, which belongs to the first slot,
//! or by a fill that names it. A slot nobody filled takes its default, and a list
//! slot without one is empty.

use vstd::prelude::*;

use crate::coercion::admits;
use crate::diagnostics::{blamed, Log, Problem};
use crate::families::ContentSlot;
use crate::family_calls::InitContent;
use crate::hir::{HirExpr, HirExprId, HirPlace, HirProgram, HirStmt, HirStmtId, LocalId};
use crate::lattice::Lattice;
use crate::names::Symbol;
use crate::scope::{
    declared_local, scope_closed, scope_end_forgets, scope_opened, FnCtx, LocalOwnership,
};
use crate::source::Span;
use crate::ty::{interned, row_of, OwnershipMode, StructId, Type, TypeTable};

verus! {

/// Reports trailing children given to a declaration that has no child slot.
pub fn refuse_children(construct: StructId, span: Span, log: &mut Log)
    ensures
        final(log).source == old(log).source,
        final(log).reported(
            old(log),
            old(log).source,
            span,
            (Problem::NoChildSlot { construct }),
        ),
{
    log.emit(span, Problem::NoChildSlot { construct });
}

/// Marks a slot as filled, telling whether this is its first fill. A second one is
/// reported at `span`.
pub fn begin_fill(
    slots: &Vec<ContentSlot>,
    filled: &mut Vec<bool>,
    index: usize,
    construct: StructId,
    span: Span,
    log: &mut Log,
) -> (first: bool)
    requires
        index < slots@.len(),
        old(filled)@.len() == slots@.len(),
    ensures
        first == !old(filled)@[index as int],
        final(filled)@ == old(filled)@.update(index as int, true),
        final(log).source == old(log).source,
        if first {
            final(log).quiet(old(log))
        } else {
            final(log).reported(
                old(log),
                old(log).source,
                span,
                (Problem::SlotFilledTwice { construct, slot: slots@[index as int].name }),
            )
        },
{
    let first = !filled[index];
    if !first {
        log.emit(span, Problem::SlotFilledTwice { construct, slot: slots[index].name });
    }
    filled[index] = true;
    first
}

/// What a run of content items comes to in a slot.
#[derive(Clone, Copy, PartialEq, Eq, Structural, Debug)]
pub enum SlotContent {
    /// A fixed list: the children in order, nothing to run.
    Fixed,
    /// A list built at run time, because a builder is among the items.
    Built,
    /// The one child of a slot that holds exactly one.
    One,
    /// A builder where exactly one child belongs, by its place among the items.
    Builder(usize),
    /// Another number of children where exactly one belongs.
    Count(usize),
}

/// The first builder from `from` on.
pub open spec fn first_builder(builders: Seq<bool>, from: int) -> Option<int>
    decreases builders.len() - from,
{
    if from < 0 || from >= builders.len() {
        None
    } else if builders[from] {
        Some(from)
    } else {
        first_builder(builders, from + 1)
    }
}

/// What content comes to in a slot, by which of its items are builders.
pub open spec fn content_form(list: bool, builders: Seq<bool>) -> SlotContent {
    match (list, first_builder(builders, 0)) {
        (true, Some(_)) => SlotContent::Built,
        (true, None) => SlotContent::Fixed,
        (false, Some(at)) => SlotContent::Builder(at as usize),
        (false, None) => if builders.len() == 1 {
            SlotContent::One
        } else {
            SlotContent::Count(builders.len() as usize)
        },
    }
}

/// Decides what a run of content items comes to in a slot.
pub fn slot_content(list: bool, builders: &Vec<bool>) -> (content: SlotContent)
    ensures
        content == content_form(list, builders@),
{
    let mut found: Option<usize> = None;
    let mut i: usize = 0;
    while i < builders.len() && found.is_none()
        invariant
            i <= builders@.len(),
            match found {
                Some(at) => first_builder(builders@, 0) == Some(at as int),
                None => first_builder(builders@, 0) == first_builder(builders@, i as int),
            },
        decreases builders@.len() - i + if found is None {
            1int
        } else {
            0int
        },
    {
        if builders[i] {
            found = Some(i);
        } else {
            i += 1;
        }
    }
    if list {
        if found.is_some() {
            SlotContent::Built
        } else {
            SlotContent::Fixed
        }
    } else {
        match found {
            Some(at) => SlotContent::Builder(at),
            None => if builders.len() == 1 {
                SlotContent::One
            } else {
                SlotContent::Count(builders.len())
            },
        }
    }
}

/// Reports content a slot that holds exactly one child cannot take, and fills the
/// slot with the error node. A builder is blamed where it stands.
pub fn refuse_content(
    program: &mut HirProgram,
    construct: StructId,
    slot: &ContentSlot,
    content: SlotContent,
    builder_span: Span,
    span: Span,
    initializers: &mut Vec<Option<HirExprId>>,
    log: &mut Log,
)
    requires
        content is Builder || content is Count,
        old(program).exprs@.len() < u32::MAX,
        slot.field_index < old(initializers)@.len(),
    ensures
        final(program).exprs@ == old(program).exprs@.push(HirExpr::Error),
        *final(program) == (HirProgram { exprs: final(program).exprs, ..*old(program) }),
        final(initializers)@ == old(initializers)@.update(
            slot.field_index as int,
            Some(HirExprId(old(program).exprs@.len() as u32)),
        ),
        final(log).source == old(log).source,
        match content {
            SlotContent::Count(found) => final(log).reported(
                old(log),
                old(log).source,
                span,
                (Problem::SlotHoldsOne { construct, slot: slot.name, found }),
            ),
            _ => final(log).reported(
                old(log),
                old(log).source,
                builder_span,
                (Problem::BuilderInSingleSlot { construct, slot: slot.name }),
            ),
        },
{
    match content {
        SlotContent::Count(found) => {
            log.emit(span, Problem::SlotHoldsOne { construct, slot: slot.name, found });
        },
        _ => {
            log.emit(builder_span, Problem::BuilderInSingleSlot { construct, slot: slot.name });
        },
    }
    let error = program.add_expr(HirExpr::Error);
    initializers[slot.field_index as usize] = Some(error);
}

/// Reports a child whose type does not satisfy the slot's element type.
pub fn check_child_type(
    program: &HirProgram,
    lattice: &Lattice,
    construct: StructId,
    slot: &ContentSlot,
    value: HirExprId,
    span: Span,
    log: &mut Log,
)
    requires
        program.has_expr(value),
    ensures
        final(log).source == old(log).source,
        if lattice.admits(program.type_at(value), slot.element_ty) {
            final(log).quiet(old(log))
        } else {
            final(log).reported(
                old(log),
                old(log).source,
                span,
                (Problem::ChildMismatch {
                    construct,
                    slot: slot.name,
                    expected: slot.element_ty,
                    found: program.type_at(value),
                }),
            )
        },
{
    let found = program.type_of(value);
    if !admits(lattice, found, slot.element_ty) {
        log.emit(
            span,
            Problem::ChildMismatch {
                construct,
                slot: slot.name,
                expected: slot.element_ty,
                found,
            },
        );
    }
}

/// Fills a slot that holds exactly one child with it.
pub fn fill_one(
    program: &HirProgram,
    lattice: &Lattice,
    construct: StructId,
    slot: &ContentSlot,
    value: HirExprId,
    span: Span,
    initializers: &mut Vec<Option<HirExprId>>,
    log: &mut Log,
)
    requires
        program.has_expr(value),
        slot.field_index < old(initializers)@.len(),
    ensures
        final(initializers)@ == old(initializers)@.update(slot.field_index as int, Some(value)),
        final(log).source == old(log).source,
        if lattice.admits(program.type_at(value), slot.element_ty) {
            final(log).quiet(old(log))
        } else {
            final(log).reported(
                old(log),
                old(log).source,
                span,
                (Problem::ChildMismatch {
                    construct,
                    slot: slot.name,
                    expected: slot.element_ty,
                    found: program.type_at(value),
                }),
            )
        },
{
    check_child_type(program, lattice, construct, slot, value, span, log);
    initializers[slot.field_index as usize] = Some(value);
}

/// Fills a slot from an ordinary expression, which becomes the slot's value: a
/// list slot filled this way takes a whole array rather than one element.
pub fn fill_slot_from_value(
    program: &HirProgram,
    lattice: &Lattice,
    construct: StructId,
    slot: &ContentSlot,
    value: HirExprId,
    span: Span,
    initializers: &mut Vec<Option<HirExprId>>,
    log: &mut Log,
)
    requires
        program.has_expr(value),
        slot.field_index < old(initializers)@.len(),
    ensures
        final(initializers)@ == old(initializers)@.update(slot.field_index as int, Some(value)),
        final(log).source == old(log).source,
        ({
            let found = program.type_at(value);
            if found == Type::Error || lattice.admits(found, slot.field_ty) {
                final(log).quiet(old(log))
            } else {
                final(log).reported(
                    old(log),
                    old(log).source,
                    span,
                    (Problem::FillMismatch {
                        construct,
                        slot: slot.name,
                        expected: slot.field_ty,
                        found,
                    }),
                )
            }
        }),
{
    let found = program.type_of(value);
    if found != Type::Error && !admits(lattice, found, slot.field_ty) {
        log.emit(
            span,
            Problem::FillMismatch {
                construct,
                slot: slot.name,
                expected: slot.field_ty,
                found,
            },
        );
    }
    initializers[slot.field_index as usize] = Some(value);
}

/// A fixed list of children.
pub fn fixed_list(program: &mut HirProgram, ty: Type, elements: Vec<HirExprId>) -> (array: HirExprId)
    requires
        old(program).exprs@.len() < u32::MAX,
    ensures
        array.0 == old(program).exprs@.len(),
        final(program).exprs@ == old(program).exprs@.push(HirExpr::ArrayNew { ty, elements }),
        *final(program) == (HirProgram { exprs: final(program).exprs, ..*old(program) }),
{
    program.add_expr(HirExpr::ArrayNew { ty, elements })
}

/// `init` starts a list as the empty array, in `local`.
pub open spec fn starts_empty(
    program: &HirProgram,
    stmt: HirStmtId,
    local: LocalId,
    ty: Type,
) -> bool {
    &&& stmt.0 < program.stmts@.len()
    &&& (program.stmts@[stmt.0 as int] matches HirStmt::Let { local: into, init } && into == local
        && program.has_expr(init) && (program.at(init) matches HirExpr::ArrayNew {
        ty: of,
        elements,
    } && of == ty && elements@.len() == 0))
}

/// Starts a list built at run time: a fresh mutable local that begins empty.
pub fn begin_built_list(program: &mut HirProgram, ctx: &mut FnCtx, ty: Type) -> (started: (
    LocalId,
    HirStmtId,
))
    requires
        old(ctx).wf(),
        old(ctx).locals@.len() < u32::MAX,
        old(program).exprs@.len() < u32::MAX,
        old(program).stmts@.len() < u32::MAX,
    ensures
        final(ctx).wf(),
        started.0.0 == old(ctx).locals@.len(),
        final(ctx).grown(
            old(ctx),
            declared_local(None, ty, true, OwnershipMode::Owned),
            LocalOwnership::fresh(OwnershipMode::Owned),
        ),
        final(ctx).scopes == old(ctx).scopes,
        final(program).built_on(old(program)),
        final(program).exprs@.len() == old(program).exprs@.len() + 1,
        final(program).stmts@.len() == old(program).stmts@.len() + 1,
        starts_empty(final(program), started.1, started.0, ty),
{
    let local = ctx.declare_hidden(ty, true);
    let empty = program.add_expr(HirExpr::ArrayNew { ty, elements: Vec::new() });
    let stmt = program.add_stmt(HirStmt::Let { local, init: empty });
    (local, stmt)
}

/// `stmt` appends `value` to the list in `local`.
pub open spec fn appends(
    program: &HirProgram,
    stmt: HirStmtId,
    local: LocalId,
    value: HirExprId,
) -> bool {
    &&& stmt.0 < program.stmts@.len()
    &&& (program.stmts@[stmt.0 as int] matches HirStmt::Expr { expr } && program.has_expr(expr) && (
    program.at(expr) matches HirExpr::ArrayAppend { place, value: appended }
        && crate::hir::whole(place, local) && appended == value))
}

/// Appends a child to a list being built: first what the child's own analysis
/// queued, which belongs here, in the control flow that guards it, and then the
/// append.
pub fn append_child(
    program: &mut HirProgram,
    ctx: &mut FnCtx,
    local: LocalId,
    value: HirExprId,
    out: &mut Vec<HirStmtId>,
)
    requires
        old(program).exprs@.len() < u32::MAX,
        old(program).stmts@.len() < u32::MAX,
    ensures
        final(program).built_on(old(program)),
        final(program).exprs@.len() == old(program).exprs@.len() + 1,
        final(program).stmts@.len() == old(program).stmts@.len() + 1,
        final(ctx).pending_stmts@.len() == 0,
        *final(ctx) == (FnCtx { pending_stmts: final(ctx).pending_stmts, ..*old(ctx) }),
        final(out)@.drop_last() == old(out)@ + old(ctx).pending_stmts@,
        final(out)@.len() == old(out)@.len() + old(ctx).pending_stmts@.len() + 1,
        appends(final(program), final(out)@.last(), local, value),
{
    let pending = ctx.take_pending_stmts();
    crate::lists::extend(out, &pending);
    let ghost before = out@;
    let append = program.add_expr(
        HirExpr::ArrayAppend { place: HirPlace { local, path: Vec::new() }, value },
    );
    let stmt = program.add_stmt(HirStmt::Expr { expr: append });
    out.push(stmt);
    assert(out@.drop_last() =~= before);
}

/// Opens the first arm of conditional content, its condition having just been analyzed:
/// what the condition queued runs before the branch, not inside whichever arm comes
/// next, and the arm has a scope of its own.
pub fn begin_branch(ctx: &mut FnCtx, out: &mut Vec<HirStmtId>)
    requires
        old(ctx).wf(),
    ensures
        final(ctx).wf(),
        final(out)@ == old(out)@ + old(ctx).pending_stmts@,
        final(ctx).pending_stmts@.len() == 0,
        final(ctx).scopes@.last()@ == Map::<Symbol, LocalId>::empty(),
        scope_opened(old(ctx), final(ctx)),
        *final(ctx) == (FnCtx {
            pending_stmts: final(ctx).pending_stmts,
            scopes: final(ctx).scopes,
            ..*old(ctx)
        }),
{
    let pending = ctx.take_pending_stmts();
    crate::lists::extend(out, &pending);
    ctx.push_scope();
}

/// Ends the first arm of conditional content, and with it what the arm declared, and
/// opens the second.
pub fn next_branch(ctx: &mut FnCtx)
    requires
        old(ctx).wf(),
        old(ctx).scopes@.len() > 0,
    ensures
        final(ctx).wf(),
        final(ctx).scopes@.last()@ == Map::<Symbol, LocalId>::empty(),
        exists|between: FnCtx| #[trigger]
            scope_closed(old(ctx), &between) && scope_opened(&between, final(ctx)),
        *final(ctx) == (FnCtx {
            scopes: final(ctx).scopes,
            scope_floor: final(ctx).scope_floor,
            outer_floors: final(ctx).outer_floors,
            ..*old(ctx)
        }),
{
    ctx.pop_scope();
    let ghost between = *ctx;
    assert(scope_closed(old(ctx), &between));
    ctx.push_scope();
    assert(scope_opened(&between, ctx));
}

/// Ends the second arm of conditional content, and appends whichever arm is taken to
/// the list being built.
pub fn finish_branch(
    program: &mut HirProgram,
    ctx: &mut FnCtx,
    cond: HirExprId,
    then_body: Vec<HirStmtId>,
    else_body: Vec<HirStmtId>,
    out: &mut Vec<HirStmtId>,
)
    requires
        old(ctx).wf(),
        old(ctx).scopes@.len() > 0,
        old(program).stmts@.len() < u32::MAX,
    ensures
        final(ctx).wf(),
        scope_closed(old(ctx), final(ctx)),
        *final(ctx) == (FnCtx {
            scopes: final(ctx).scopes,
            scope_floor: final(ctx).scope_floor,
            outer_floors: final(ctx).outer_floors,
            ..*old(ctx)
        }),
        final(program).stmts@ == old(program).stmts@.push(
            HirStmt::If { cond, then_body, else_body },
        ),
        *final(program) == (HirProgram { stmts: final(program).stmts, ..*old(program) }),
        final(out)@ == old(out)@.push(HirStmtId(old(program).stmts@.len() as u32)),
{
    ctx.pop_scope();
    let stmt = program.add_stmt(HirStmt::If { cond, then_body, else_body });
    out.push(stmt);
}

/// Neither arm of conditional content leaves a name behind: once the branch is
/// appended, every name means what it meant when the condition had been analyzed.
pub proof fn branches_leave_no_names(
    before: &FnCtx,
    first: &FnCtx,
    between: &FnCtx,
    second: &FnCtx,
    after: &FnCtx,
)
    requires
        before.scope_floor < before.scopes@.len(),
        scope_opened(before, first),
        scope_closed(first, between),
        scope_opened(between, second),
        scope_closed(second, after),
    ensures
        forall|name: Symbol| #[trigger] between.meaning(name) == before.meaning(name),
        forall|name: Symbol| #[trigger] after.meaning(name) == before.meaning(name),
        after.scopes@ == before.scopes@,
        after.scope_floor == before.scope_floor,
{
    scope_end_forgets(before, first, between);
    scope_end_forgets(between, second, after);
    assert forall|name: Symbol| #[trigger] after.meaning(name) == before.meaning(name) by {
        assert(between.meaning(name) == before.meaning(name));
    }
}

/// Completes a list built at run time: its statements run before the statement
/// whose construction they fill, and the local is what they built.
pub fn finish_built_list(
    program: &mut HirProgram,
    ctx: &mut FnCtx,
    local: LocalId,
    ty: Type,
    stmts: &Vec<HirStmtId>,
) -> (read: HirExprId)
    requires
        old(program).exprs@.len() < u32::MAX,
    ensures
        final(ctx).pending_stmts@ == old(ctx).pending_stmts@ + stmts@,
        *final(ctx) == (FnCtx { pending_stmts: final(ctx).pending_stmts, ..*old(ctx) }),
        read.0 == old(program).exprs@.len(),
        final(program).exprs@ == old(program).exprs@.push(HirExpr::Local { local, ty }),
        *final(program) == (HirProgram { exprs: final(program).exprs, ..*old(program) }),
{
    let mut i: usize = 0;
    assert(ctx.pending_stmts@ =~= old(ctx).pending_stmts@ + stmts@.take(0));
    while i < stmts.len()
        invariant
            i <= stmts@.len(),
            ctx.pending_stmts@ == old(ctx).pending_stmts@ + stmts@.take(i as int),
            *ctx == (FnCtx { pending_stmts: ctx.pending_stmts, ..*old(ctx) }),
        decreases stmts@.len() - i,
    {
        ctx.hoist_stmt(stmts[i]);
        i += 1;
        assert(ctx.pending_stmts@ =~= old(ctx).pending_stmts@ + stmts@.take(i as int));
    }
    assert(stmts@.take(i as int) =~= stmts@);
    program.add_expr(HirExpr::Local { local, ty })
}

/// Whether a slot nobody filled becomes the empty list: a list slot without a
/// default whose field has no value yet.
pub open spec fn left_empty(
    slot: ContentSlot,
    filled: bool,
    initializers: Seq<Option<HirExprId>>,
) -> bool {
    !filled && slot.list && !slot.has_default && initializers[slot.field_index as int] is None
}

/// `value` is the empty list of type `ty`.
pub open spec fn is_empty_list(program: &HirProgram, value: Option<HirExprId>, ty: Type) -> bool {
    value matches Some(id) && program.has_expr(id) && (program.at(id) matches HirExpr::ArrayNew {
        ty: of,
        elements,
    } && of == ty && elements@.len() == 0)
}

/// No two slots store into one field.
pub open spec fn slots_apart(slots: Seq<ContentSlot>) -> bool {
    forall|i: int, j: int|
        0 <= i < j < slots.len() ==> (#[trigger] slots[i]).field_index != (
        #[trigger] slots[j]).field_index
}

/// Makes every list slot that nobody filled, and that has no default, the empty
/// list: a construction that lists no children listed none.
pub fn fill_empty_lists(
    program: &mut HirProgram,
    slots: &Vec<ContentSlot>,
    filled: &Vec<bool>,
    initializers: &mut Vec<Option<HirExprId>>,
)
    requires
        filled@.len() == slots@.len(),
        slots_apart(slots@),
        forall|k: int|
            0 <= k < slots@.len() ==> (#[trigger] slots@[k]).field_index < old(initializers)@.len(),
        old(program).exprs@.len() + slots@.len() <= u32::MAX,
    ensures
        final(program).built_on(old(program)),
        final(program).stmts == old(program).stmts,
        final(program).exprs@.len() <= old(program).exprs@.len() + slots@.len(),
        final(initializers)@.len() == old(initializers)@.len(),
        forall|k: int|
            0 <= k < slots@.len() && left_empty(
                #[trigger] slots@[k],
                filled@[k],
                old(initializers)@,
            ) ==> is_empty_list(
                final(program),
                final(initializers)@[slots@[k].field_index as int],
                slots@[k].field_ty,
            ),
        forall|i: int|
            0 <= i < old(initializers)@.len() && (forall|k: int|
                0 <= k < slots@.len() && (#[trigger] slots@[k]).field_index == i ==> !left_empty(
                    slots@[k],
                    filled@[k],
                    old(initializers)@,
                )) ==> #[trigger] final(initializers)@[i] == old(initializers)@[i],
{
    let ghost start = *program;
    let ghost given = initializers@;
    let mut i: usize = 0;
    while i < slots.len()
        invariant
            i <= slots@.len(),
            start == *old(program),
            given == old(initializers)@,
            filled@.len() == slots@.len(),
            slots_apart(slots@),
            forall|k: int|
                0 <= k < slots@.len() ==> (#[trigger] slots@[k]).field_index < given.len(),
            start.exprs@.len() + slots@.len() <= u32::MAX,
            program.built_on(&start),
            program.stmts == start.stmts,
            program.exprs@.len() <= start.exprs@.len() + i,
            initializers@.len() == given.len(),
            forall|k: int|
                0 <= k < i && left_empty(#[trigger] slots@[k], filled@[k], given) ==> is_empty_list(
                    program,
                    initializers@[slots@[k].field_index as int],
                    slots@[k].field_ty,
                ),
            forall|k: int|
                i <= k < slots@.len() ==> initializers@[(
                #[trigger] slots@[k]).field_index as int] == given[slots@[k].field_index as int],
            forall|f: int|
                0 <= f < given.len() && (forall|k: int|
                    0 <= k < slots@.len() && (#[trigger] slots@[k]).field_index == f
                        ==> !left_empty(slots@[k], filled@[k], given)) ==> #[trigger] initializers@[f]
                    == given[f],
        decreases slots@.len() - i,
    {
        let slot = slots[i];
        let index: usize = slot.field_index as usize;
        assert(slots@[i as int] == slot);
        if !filled[i] && slot.list && !slot.has_default && initializers[index].is_none() {
            let ghost before = *program;
            let ghost held = initializers@;
            let empty = program.add_expr(
                HirExpr::ArrayNew { ty: slot.field_ty, elements: Vec::new() },
            );
            initializers[index] = Some(empty);
            proof {
                assert(left_empty(slots@[i as int], filled@[i as int], given));
                assert forall|k: int|
                    0 <= k < i + 1 && left_empty(
                        #[trigger] slots@[k],
                        filled@[k],
                        given,
                    ) implies is_empty_list(
                    program,
                    initializers@[slots@[k].field_index as int],
                    slots@[k].field_ty,
                ) by {
                    if k < i {
                        assert(slots@[k].field_index != slots@[i as int].field_index);
                        assert(is_empty_list(
                            &before,
                            held[slots@[k].field_index as int],
                            slots@[k].field_ty,
                        ));
                        let id = held[slots@[k].field_index as int]->0;
                        assert(program.at(id) == before.at(id));
                    }
                }
                assert forall|k: int| i + 1 <= k < slots@.len() implies initializers@[(
                #[trigger] slots@[k]).field_index as int] == given[slots@[k].field_index as int] by {
                    assert(slots@[i as int].field_index != slots@[k].field_index);
                }
            }
        }
        i += 1;
    }
}

/// The slot a content parameter fills as: what a construction's block and a
/// parameter's block share.
pub fn content_as_slot(types: &mut TypeTable, content: InitContent, name: Symbol) -> (slot:
    ContentSlot)
    requires
        old(types).arrays@.len() < u32::MAX,
    ensures
        slot.field_index == 0,
        slot.name == name,
        slot.list == content.list,
        slot.element_ty == content.element,
        !slot.has_default,
        *final(types) == (TypeTable { arrays: final(types).arrays, ..*old(types) }),
        if content.list {
            &&& slot.field_ty == Type::Array(row_of(old(types).arrays@, content.element) as u32)
            &&& final(types).arrays@ == interned(old(types).arrays@, content.element)
        } else {
            slot.field_ty == content.element && final(types).arrays == old(types).arrays
        },
{
    let field_ty: Type = if content.list {
        types.array_of(content.element)
    } else {
        content.element
    };
    ContentSlot {
        field_index: 0,
        name,
        list: content.list,
        element_ty: content.element,
        field_ty,
        has_default: false,
    }
}

/// What trailing children come to in a content parameter, by which of them are builders.
/// A parameter that takes one child takes the only one, whatever it is.
pub open spec fn param_form(list: bool, builders: Seq<bool>) -> SlotContent {
    if list {
        content_form(list, builders)
    } else if builders.len() == 1 {
        SlotContent::One
    } else {
        SlotContent::Count(builders.len() as usize)
    }
}

/// Decides what trailing children come to in a content parameter.
pub fn param_content(list: bool, builders: &Vec<bool>) -> (content: SlotContent)
    ensures
        content == param_form(list, builders@),
{
    if list {
        slot_content(list, builders)
    } else if builders.len() == 1 {
        SlotContent::One
    } else {
        SlotContent::Count(builders.len())
    }
}

/// Reports a content parameter that holds exactly one child given another number
/// of them; its value is the error node.
pub fn refuse_content_count(program: &mut HirProgram, found: usize, span: Span, log: &mut Log) -> (id:
    HirExprId)
    requires
        old(program).exprs@.len() < u32::MAX,
    ensures
        id.0 == old(program).exprs@.len(),
        final(program).exprs@ == old(program).exprs@.push(HirExpr::Error),
        *final(program) == (HirProgram { exprs: final(program).exprs, ..*old(program) }),
        final(log).source == old(log).source,
        final(log).reported(
            old(log),
            old(log).source,
            span,
            (Problem::ContentHoldsOne { found }),
        ),
{
    log.emit(span, Problem::ContentHoldsOne { found });
    program.add_expr(HirExpr::Error)
}

/// Content without a builder is never built at run time, and a slot that holds
/// exactly one child takes exactly one that is no builder.
pub proof fn only_builders_run(list: bool, builders: Seq<bool>)
    ensures
        content_form(list, builders) is Built <==> list && builders.contains(true),
        content_form(list, builders) is One <==> !list && builders == seq![false],
{
    lemma_first_builder(builders, 0);
    if builders.contains(true) {
        let k = choose|k: int| 0 <= k < builders.len() && builders[k];
        assert(builders[k]);
    }
    if let Some(at) = first_builder(builders, 0) {
        assert(builders[at]);
    }
    if builders == seq![false] {
        assert(!builders[0]);
        assert(builders.len() == 1);
    } else if builders.len() == 1 && !builders.contains(true) {
        assert(builders =~= seq![false]);
    }
}

proof fn lemma_first_builder(builders: Seq<bool>, from: int)
    requires
        0 <= from,
    ensures
        match first_builder(builders, from) {
            Some(at) => from <= at < builders.len() && builders[at],
            None => forall|k: int| from <= k < builders.len() ==> !builders[k],
        },
    decreases builders.len() - from,
{
    if from < builders.len() && !builders[from] {
        lemma_first_builder(builders, from + 1);
    }
}

proof fn lemma_builder_first(builders: Seq<bool>, from: int)
    requires
        0 <= from <= builders.len(),
    ensures
        match first_builder(builders, from) {
            Some(at) => from <= at < builders.len() && builders[at] && forall|k: int|
                from <= k < at ==> !#[trigger] builders[k],
            None => forall|k: int| from <= k < builders.len() ==> !#[trigger] builders[k],
        },
    decreases builders.len() - from,
{
    if from < builders.len() && !builders[from] {
        lemma_builder_first(builders, from + 1);
    }
}

/// What content comes to in a slot: in a list slot a list built at run time exactly if a
/// builder is among the items, and a fixed one otherwise; in a slot that holds one child
/// that child, where it is alone and no builder. Anything else there is refused: for its
/// first builder, where it has one, and otherwise for how many children there are. A
/// content parameter differs in that its only child may be a builder.
pub proof fn content_comes_to_what_the_slot_takes(builders: Seq<bool>, at: int)
    requires
        builders.len() <= usize::MAX,
    ensures
        (forall|k: int| 0 <= k < builders.len() ==> !#[trigger] builders[k]) ==> {
            &&& content_form(true, builders) == SlotContent::Fixed
            &&& builders.len() == 1 ==> content_form(false, builders) == SlotContent::One
            &&& builders.len() != 1 ==> content_form(false, builders) == SlotContent::Count(
                builders.len() as usize,
            )
        },
        0 <= at < builders.len() && builders[at] && (forall|k: int|
            0 <= k < at ==> !#[trigger] builders[k]) ==> {
            &&& content_form(true, builders) == SlotContent::Built
            &&& content_form(false, builders) == SlotContent::Builder(at as usize)
        },
        param_form(true, builders) == content_form(true, builders),
        builders.len() == 1 ==> param_form(false, builders) == SlotContent::One,
        builders.len() != 1 ==> param_form(false, builders) == SlotContent::Count(
            builders.len() as usize,
        ),
{
    lemma_builder_first(builders, 0);
    if 0 <= at < builders.len() && builders[at] && (forall|k: int|
        0 <= k < at ==> !#[trigger] builders[k]) {
        if let Some(found) = first_builder(builders, 0) {
            if found < at {
                assert(!builders[found]);
            }
        }
    }
}

/// A slot nobody filled becomes the empty list exactly if it takes a list, has no default
/// and its field has no value; a slot that was filled, or that holds one child, never
/// does.
pub proof fn only_an_unfilled_list_is_left_empty(
    slot: ContentSlot,
    filled: bool,
    initializers: Seq<Option<HirExprId>>,
)
    ensures
        left_empty(slot, filled, initializers) ==> slot.list && !filled && !slot.has_default
            && initializers[slot.field_index as int] is None,
        slot.list && !filled && !slot.has_default && initializers[slot.field_index as int] is None
            ==> left_empty(slot, filled, initializers),
{
}

/// A list of children is built in order: it starts as a new, empty array of the slot's
/// type, bound to a local, and every child is appended to that whole local.
pub proof fn a_list_grows_from_nothing(
    program: &HirProgram,
    start: HirStmtId,
    next: HirStmtId,
    local: LocalId,
    ty: Type,
    value: HirExprId,
)
    requires
        starts_empty(program, start, local, ty),
        appends(program, next, local, value),
    ensures
        program.stmts@[start.0 as int] matches HirStmt::Let { local: into, init } && into == local
            && (program.at(init) matches HirExpr::ArrayNew { ty: made, elements } && made == ty
            && elements@.len() == 0),
        program.stmts@[next.0 as int] matches HirStmt::Expr { expr } && (
        program.at(expr) matches HirExpr::ArrayAppend { place, value: appended } && place.local
            == local && place.path@.len() == 0 && appended == value),
{
}

/// An unfilled list slot is left as a new array of its very type that holds nothing.
pub proof fn an_empty_list_holds_nothing(
    program: &HirProgram,
    value: Option<HirExprId>,
    ty: Type,
)
    requires
        is_empty_list(program, value, ty),
    ensures
        value matches Some(id) && (program.at(id) matches HirExpr::ArrayNew { ty: made, elements }
            && made == ty && elements@.len() == 0),
{
}

} // verus!
