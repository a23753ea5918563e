//! Boxing a captured `var`, and reading and writing it afterwards.
//!
//! A closure that captures a mutable binding shares storage with the frame that
//! declared it, so the binding lives in a share-counted cell and every read and
//! write of it goes through the cell from its declaration onward. A write into
//! what the cell holds is a read, a write and a store back, because a cell hands
//! out owned reads.

use vstd::prelude::*;

use crate::hir::{HirExpr, HirExprId, HirPlace, HirProgram, HirStmt, LocalId};
use crate::scope::{declared_local, temp_in, FnCtx, LocalOwnership};
use crate::ty::{interned, row_of, OwnershipMode, Type, TypeTable};

verus! {

/// Whether a cell has somewhere to put a value of `ty`.
///
/// `Void` names no value, a `CString` is borrowed storage, a native-state handle
/// belongs to a host that counts its own holds, and a cell is never held by one.
pub open spec fn holdable(ty: Type) -> bool {
    !(ty == Type::Void || ty == Type::Error || ty == Type::CString || ty is NativeState
        || ty is Cell)
}

/// Whether a capture cell can hold a value of `ty`.
pub fn cell_can_hold(ty: Type) -> (res: bool)
    ensures
        res == holdable(ty),
{
    !matches!(
        ty,
        Type::Void | Type::Error | Type::CString | Type::NativeState(_) | Type::Cell(_)
    )
}

/// The type a cell-backed local holds.
pub open spec fn held_by(types: &TypeTable, ctx: &FnCtx, local: LocalId) -> Option<Type> {
    types.held(ctx.locals@[local.0 as int].ty)
}

/// The type a cell-backed local holds, or `None` when it is not one.
pub fn cell_inner(types: &TypeTable, ctx: &FnCtx, local: LocalId) -> (held: Option<Type>)
    requires
        ctx.wf(),
        ctx.has(local),
    ensures
        held == held_by(types, ctx, local),
{
    types.cell_inner(ctx.local_type(local))
}

/// The node reading `local` is: through the cell where there is one.
pub open spec fn local_read(types: &TypeTable, ctx: &FnCtx, local: LocalId) -> HirExpr {
    match held_by(types, ctx, local) {
        Some(ty) => HirExpr::CellGet { local, ty },
        None => HirExpr::Local { local, ty: ctx.locals@[local.0 as int].ty },
    }
}

/// Reads `local`, going through the cell when it is cell-backed.
pub fn read_local(program: &mut HirProgram, ctx: &FnCtx, local: LocalId) -> (id: HirExprId)
    requires
        ctx.wf(),
        ctx.has(local),
        old(program).exprs@.len() < u32::MAX,
    ensures
        id.0 == old(program).exprs@.len(),
        final(program).exprs@ == old(program).exprs@.push(
            local_read(&old(program).types, ctx, local),
        ),
        *final(program) == (HirProgram { exprs: final(program).exprs, ..*old(program) }),
{
    match cell_inner(&program.types, ctx, local) {
        Some(ty) => program.add_expr(HirExpr::CellGet { local, ty }),
        None => {
            let ty = ctx.local_type(local);
            program.add_expr(HirExpr::Local { local, ty })
        },
    }
}

/// Wraps a binding's initializer in a fresh cell, returning the cell's type.
///
/// One cell per execution of the declaration, so a `var` declared in a loop is a
/// fresh binding each turn.
pub fn box_binding(program: &mut HirProgram, init: HirExprId, held: Type) -> (boxed: (
    HirExprId,
    Type,
))
    requires
        old(program).exprs@.len() < u32::MAX,
        old(program).types.cells@.len() < u32::MAX,
    ensures
        boxed.1 == Type::Cell(row_of(old(program).types.cells@, held) as u32),
        final(program).types.held(boxed.1) == Some(held),
        final(program).types.cells@ == interned(old(program).types.cells@, held),
        final(program).types == (TypeTable {
            cells: final(program).types.cells,
            ..old(program).types
        }),
        boxed.0.0 == old(program).exprs@.len(),
        final(program).exprs@ == old(program).exprs@.push(
            (HirExpr::CellNew { value: init, ty: boxed.1 }),
        ),
        *final(program) == (HirProgram {
            types: final(program).types,
            exprs: final(program).exprs,
            ..*old(program)
        }),
{
    let ty = program.types.cell_of(held);
    let id = program.add_expr(HirExpr::CellNew { value: init, ty });
    (id, ty)
}

/// The program and frame after a temporary was made to stand in for a cell in the
/// statement being analyzed: what the cell holds is read into it ahead of the
/// statement and stored back after it.
pub open spec fn stands_in(
    program: &HirProgram,
    program_after: &HirProgram,
    ctx: &FnCtx,
    ctx_after: &FnCtx,
    cell: LocalId,
    held: Type,
) -> bool {
    let temp = LocalId(ctx.locals@.len() as u32);
    let read = HirExprId(program.exprs@.len() as u32);
    let back = HirExprId((program.exprs@.len() + 1) as u32);
    let prologue = crate::hir::HirStmtId(program.stmts@.len() as u32);
    let epilogue = crate::hir::HirStmtId((program.stmts@.len() + 1) as u32);
    &&& program_after.exprs@ == program.exprs@.push(HirExpr::CellGet { local: cell, ty: held }).push(
        HirExpr::Local { local: temp, ty: held },
    )
    &&& program_after.stmts@ == program.stmts@.push(HirStmt::Let { local: temp, init: read }).push(
        HirStmt::CellSet { local: cell, value: back },
    )
    &&& *program_after == (HirProgram {
        exprs: program_after.exprs,
        stmts: program_after.stmts,
        ..*program
    })
    &&& ctx_after.locals@ == ctx.locals@.push(
        declared_local(None, held, true, OwnershipMode::Owned),
    )
    &&& ctx_after.ownership@ == ctx.ownership@.push(LocalOwnership::fresh(OwnershipMode::Owned))
    &&& ctx_after.binding_spans@ == ctx.binding_spans@.push(None)
    &&& ctx_after.pending_stmts@ == ctx.pending_stmts@.push(prologue)
    &&& ctx_after.deferred_stmts@ == ctx.deferred_stmts@.push(epilogue)
    &&& ctx_after.cell_temps@ == ctx.cell_temps@.push((cell, temp))
    &&& *ctx_after == (FnCtx {
        locals: ctx_after.locals,
        ownership: ctx_after.ownership,
        binding_spans: ctx_after.binding_spans,
        pending_stmts: ctx_after.pending_stmts,
        deferred_stmts: ctx_after.deferred_stmts,
        cell_temps: ctx_after.cell_temps,
        ..*ctx
    })
}

/// Rewrites a place rooted at a cell-backed local into one that can be written
/// through, and says what type it has. `None` means the local is no cell.
///
/// Replacing the binding keeps the cell as the root. Writing into it roots the
/// place at a temporary, one for each cell in a statement: two would make two
/// writes through the same storage look like writes to different storage.
pub fn cell_place(
    program: &mut HirProgram,
    ctx: &mut FnCtx,
    local: LocalId,
    through_path: bool,
    replaces_binding: bool,
) -> (place: Option<(HirPlace, Type)>)
    requires
        old(ctx).wf(),
        old(ctx).has(local),
        old(ctx).locals@.len() < u32::MAX,
        old(program).room(2),
    ensures
        final(ctx).wf(),
        match held_by(&old(program).types, old(ctx), local) {
            None => place is None && *final(program) == *old(program) && *final(ctx) == *old(ctx),
            Some(held) => place matches Some((root, ty)) && ty == held && root.path@.len() == 0
                && if !through_path && replaces_binding {
                root.local == local && *final(program) == *old(program) && *final(ctx) == *old(ctx)
            } else {
                match temp_in(old(ctx).cell_temps@, local) {
                    Some(temp) => root.local == temp && *final(program) == *old(program)
                        && *final(ctx) == *old(ctx),
                    None => root.local.0 == old(ctx).locals@.len() && stands_in(
                        old(program),
                        final(program),
                        old(ctx),
                        final(ctx),
                        local,
                        held,
                    ),
                }
            },
        },
{
    let held = match cell_inner(&program.types, ctx, local) {
        Some(held) => held,
        None => {
            return None;
        },
    };
    if !through_path && replaces_binding {
        return Some((HirPlace { local, path: Vec::new() }, held));
    }
    let temp = match ctx.cell_temp(local) {
        Some(temp) => temp,
        None => {
            let temp = ctx.declare_hidden(held, true);
            let read = program.add_expr(HirExpr::CellGet { local, ty: held });
            let prologue = program.add_stmt(HirStmt::Let { local: temp, init: read });
            ctx.hoist_stmt(prologue);
            let back = program.add_expr(HirExpr::Local { local: temp, ty: held });
            let epilogue = program.add_stmt(HirStmt::CellSet { local, value: back });
            ctx.defer_stmt(epilogue);
            ctx.note_cell_temp(local, temp);
            temp
        },
    };
    Some((HirPlace { local: temp, path: Vec::new() }, held))
}

/// A statement that writes into one cell twice writes both times through the same
/// temporary.
pub proof fn one_temporary_per_cell(
    program: &HirProgram,
    program_after: &HirProgram,
    ctx: &FnCtx,
    ctx_after: &FnCtx,
    cell: LocalId,
    held: Type,
)
    requires
        stands_in(program, program_after, ctx, ctx_after, cell, held),
    ensures
        temp_in(ctx_after.cell_temps@, cell) == Some(LocalId(ctx.locals@.len() as u32)),
{
}

/// A binding that was boxed reads as what was put in the box.
pub proof fn a_boxed_binding_reads_as_its_value(
    types: &TypeTable,
    ctx: &FnCtx,
    local: LocalId,
    held: Type,
)
    requires
        types.held(ctx.locals@[local.0 as int].ty) == Some(held),
    ensures
        local_read(types, ctx, local).ty() == held,
{
}

/// A statement that writes through a cell reads what the cell holds into a temporary
/// before it runs, and afterwards puts the temporary's value back into that same cell.
pub proof fn a_cell_is_read_before_and_written_after(
    program: &HirProgram,
    program_after: &HirProgram,
    ctx: &FnCtx,
    ctx_after: &FnCtx,
    cell: LocalId,
    held: Type,
)
    requires
        stands_in(program, program_after, ctx, ctx_after, cell, held),
        program.stmts@.len() < u32::MAX - 1,
        program.exprs@.len() < u32::MAX - 1,
        ctx.locals@.len() < u32::MAX,
    ensures
        ({
            let first = ctx_after.pending_stmts@.last();
            let last = ctx_after.deferred_stmts@.last();
            &&& ctx_after.pending_stmts@.len() == ctx.pending_stmts@.len() + 1
            &&& ctx_after.deferred_stmts@.len() == ctx.deferred_stmts@.len() + 1
            &&& (program_after.stmts@[first.0 as int] matches HirStmt::Let { local, init } && local.0
                == ctx.locals@.len() && program_after.exprs@[init.0 as int] == (HirExpr::CellGet {
                local: cell,
                ty: held,
            }))
            &&& (program_after.stmts@[last.0 as int] matches HirStmt::CellSet { local, value }
                && local == cell && (program_after.exprs@[value.0 as int] matches HirExpr::Local {
                local: temp,
                ty,
            } && temp.0 == ctx.locals@.len() && ty == held))
        }),
{
}

/// Reading a local reads its cell where it is boxed, and the local itself otherwise.
pub proof fn a_local_is_read_through_its_cell(types: &TypeTable, ctx: &FnCtx, local: LocalId)
    ensures
        types.held(ctx.locals@[local.0 as int].ty) matches Some(held) ==> local_read(
            types,
            ctx,
            local,
        ) == (HirExpr::CellGet { local, ty: held }),
        types.held(ctx.locals@[local.0 as int].ty) is None ==> local_read(types, ctx, local) == (
        HirExpr::Local { local, ty: ctx.locals@[local.0 as int].ty }),
{
}

/// A cell holds anything but nothing, what failed to resolve, a C string, native state,
/// and another cell.
pub proof fn what_a_cell_holds(ty: Type)
    ensures
        holdable(ty) <==> ty != Type::Void && ty != Type::Error && ty != Type::CString && !(ty
            is NativeState) && !(ty is Cell),
{
}

/// The temporary that stands in for a cell is one more local of the frame, of the type the
/// cell holds, which may be written and holds its value; it has no name, and it is known as
/// that cell's from then on.
pub proof fn a_cells_temporary_is_a_new_local(
    program: &HirProgram,
    program_after: &HirProgram,
    ctx: &FnCtx,
    ctx_after: &FnCtx,
    cell: LocalId,
    held: Type,
)
    requires
        stands_in(program, program_after, ctx, ctx_after, cell, held),
    ensures
        ctx_after.locals@.len() == ctx.locals@.len() + 1,
        ctx_after.locals@.last().ty == held,
        ctx_after.locals@.last().mutable,
        ctx_after.locals@.last().name is None,
        ctx_after.ownership@.len() == ctx.ownership@.len() + 1,
        ctx_after.ownership@.last().moved is None,
        ctx_after.ownership@.last().mode == OwnershipMode::Owned,
        ctx_after.binding_spans@.len() == ctx.binding_spans@.len() + 1,
        ctx_after.cell_temps@.last().0 == cell,
        ctx.locals@.len() <= u32::MAX ==> ctx_after.cell_temps@.last().1.0 == ctx.locals@.len(),
        ctx_after.scopes == ctx.scopes,
        program_after.types == program.types,
        program_after.functions == program.functions,
{
}

} // verus!
