//! Lifting closure literals and named functions to function values.
//!
//! A literal becomes a top-level function and a value of its type's
//! representation struct. The value is built with its tag alone and completed
//! once every literal of the type is known, because the struct grows with every
//! capture found.

use vstd::prelude::*;

use crate::captures::captures_bound;
use crate::diagnostics::{Log, Problem};
use crate::fn_types::{
    lemma_row_for, mode_at, mode_of, probed, row_for, shaped, tag_used, tags_differ,
    unique_impl_tag, ClosureImpl, FnTypeInfo, FnTypeTable,
};
use crate::function_values::value_shell;
use crate::hir::{
    FuncId, FunctionName, HirExpr, HirExprId, HirFunction, HirLocal, HirProgram, HirStmt, HirStmtId,
    LocalId,
};
use crate::names::Symbol;
use crate::scope::{declared_local, Capture, ClosureCtx, FnCtx};
use crate::signatures::CallableSignature;
use crate::source::Span;
use crate::synth::SynthTable;
use crate::ty::{Execution, OwnershipMode, StructId, Type};

verus! {

/// A function value's `StructNew`, waiting for the field list to stop growing.
#[derive(Debug)]
pub struct ClosureSite {
    /// The node to complete.
    pub expr: HirExprId,
    pub repr: StructId,
    /// Which implementation of that type this is.
    pub tag: u32,
    /// The field each captured value belongs in.
    pub capture_fields: Vec<u32>,
    /// The captured values, read in the enclosing frame, in step with
    /// `capture_fields`.
    pub capture_values: Vec<HirExprId>,
}

/// How a closure literal begins: with the function type it is checked against,
/// or refused.
#[derive(Clone, Copy, PartialEq, Eq, Structural, Debug)]
pub enum ClosureStart {
    Lift(StructId),
    Refused(HirExprId),
}

/// What a closure literal with `declares` parameters is refused for.
pub open spec fn closure_problem(
    fn_types: &FnTypeTable,
    declares: usize,
    expected: Option<Type>,
) -> Option<Problem> {
    match expected {
        Some(Type::Struct(id)) if fn_types.info(id) is Some => {
            let takes = (fn_types.info(id)->0).params@.len();
            if declares != takes {
                Some(
                    Problem::ClosureArity {
                        expected: Type::Struct(id),
                        takes: takes as usize,
                        declares,
                    },
                )
            } else {
                None
            }
        },
        Some(Type::Error) => None,
        _ => Some(Problem::ClosureNeedsFunctionType { expected }),
    }
}

/// Checks a closure literal against the function type expected here.
///
/// A closure never writes its parameter types, so without an expected function
/// type there is nothing to check the body against. An expectation that already
/// failed says nothing more.
pub fn analyze_closure(
    program: &mut HirProgram,
    fn_types: &FnTypeTable,
    declares: usize,
    span: Span,
    expected: Option<Type>,
    log: &mut Log,
) -> (start: ClosureStart)
    requires
        old(program).exprs@.len() < u32::MAX,
    ensures
        final(log).source == old(log).source,
        match closure_problem(fn_types, declares, expected) {
            Some(problem) => final(log).reported(old(log), old(log).source, span, problem),
            None => final(log).quiet(old(log)),
        },
        match start {
            ClosureStart::Lift(repr) => {
                &&& expected == Some(Type::Struct(repr))
                &&& fn_types.info(repr) matches Some(info) && info.params@.len() == declares
                &&& *final(program) == *old(program)
            },
            ClosureStart::Refused(id) => {
                &&& (closure_problem(fn_types, declares, expected) is Some || expected == Some(
                    Type::Error,
                ))
                &&& id.0 == old(program).exprs@.len()
                &&& final(program).exprs@ == old(program).exprs@.push(HirExpr::Error)
                &&& *final(program) == (HirProgram { exprs: final(program).exprs, ..*old(program) })
            },
        },
{
    if let Some(Type::Struct(id)) = expected {
        if let Some(info) = fn_types.get(id) {
            let takes: usize = info.params.len();
            if takes == declares {
                return ClosureStart::Lift(id);
            }
            log.emit(
                span,
                Problem::ClosureArity { expected: Type::Struct(id), takes, declares },
            );
            return ClosureStart::Refused(program.add_expr(HirExpr::Error));
        }
    }
    if expected != Some(Type::Error) {
        log.emit(span, Problem::ClosureNeedsFunctionType { expected });
    }
    ClosureStart::Refused(program.add_expr(HirExpr::Error))
}

/// A literal whose body is being analyzed.
#[derive(Clone, Copy, PartialEq, Eq, Structural, Debug)]
pub struct Lifting {
    /// The id reserved for the lifted function.
    pub function: FuncId,
    pub repr: StructId,
    /// Which implementation of its type this is, as a value carries it.
    pub tag: u32,
    /// Which implementation of its type this is, as its name counts them.
    pub number: u32,
}

/// The table after row `i` gained an implementation.
pub open spec fn impl_added(
    before: Seq<FnTypeInfo>,
    after: Seq<FnTypeInfo>,
    i: int,
    added: ClosureImpl,
) -> bool {
    &&& after.len() == before.len()
    &&& forall|k: int| 0 <= k < before.len() && k != i ==> #[trigger] after[k] == before[k]
    &&& after[i].impls@ == before[i].impls@.push(added)
    &&& after[i] == (FnTypeInfo { impls: after[i].impls, named: after[i].named, ..before[i] })
}

/// The slots of a lifted literal: the function value, then every parameter under
/// its name and in the mode its type declares.
pub open spec fn literal_locals(
    info: FnTypeInfo,
    names: Seq<Symbol>,
    count: int,
) -> Seq<HirLocal> {
    seq![declared_local(None, Type::Struct(info.repr), false, OwnershipMode::Owned)] + Seq::new(
        count as nat,
        |k: int|
            declared_local(
                Some(names[k]),
                info.params@[k],
                mode_of(info.modes@, k) == OwnershipMode::BorrowMut,
                mode_of(info.modes@, k),
            ),
    )
}

/// What the parameter names mean: the slot each was last declared as.
pub open spec fn literal_scope(names: Seq<Symbol>, count: int) -> Map<Symbol, LocalId>
    decreases count,
{
    if count <= 0 {
        Map::empty()
    } else {
        literal_scope(names, count - 1).insert(names[count - 1], LocalId(count as u32))
    }
}

/// The frame a lifted literal's body begins in: its parameters, a closure with
/// nothing captured yet, and no receiver, because `self` belongs to the
/// enclosing method.
pub open spec fn literal_frame(
    ctx: &FnCtx,
    info: FnTypeInfo,
    names: Seq<Symbol>,
    outer: &FnCtx,
    tag: u32,
) -> bool {
    &&& ctx.locals@ == literal_locals(info, names, names.len() as int)
    &&& ctx.scopes@.len() == 1
    &&& ctx.scopes@[0]@ == literal_scope(names, names.len() as int)
    &&& ctx.scope_floor == 0
    &&& ctx.return_type == info.result
    &&& ctx.receiver is None
    &&& ctx.loop_depth == 0
    &&& (ctx.closure matches Some(closure) && closure.repr == info.repr && closure.tag == tag
        && closure.captures@.len() == 0)
    &&& ctx.pending_stmts@.len() == 0
    &&& ctx.deferred_stmts@.len() == 0
    &&& ctx.closure_mentions@ == outer.closure_mentions@
    &&& ctx.main_thread == outer.main_thread
    &&& ctx.cell_temps@.len() == 0
}

/// Begins lifting one literal: claims its function id and its tag, and opens the
/// frame its body is analyzed in.
///
/// The tag is claimed before the body is analyzed, because a literal nested in
/// this one is lifted meanwhile and must not take the same tag.
pub fn begin_lift(
    synth: &mut SynthTable,
    fn_types: &mut FnTypeTable,
    repr: StructId,
    names: &Vec<Symbol>,
    outer: &FnCtx,
    candidate: u32,
) -> (begun: (Lifting, FnCtx))
    requires
        old(synth).wf(),
        old(synth).base + old(synth).rows@.len() < u32::MAX,
        old(fn_types).wf(),
        old(fn_types).info(repr) matches Some(info) && info.params@.len() == names@.len()
            && info.impls@.len() <= u32::MAX,
        names@.len() < u32::MAX,
    ensures
        final(synth).wf(),
        final(synth).base == old(synth).base,
        final(synth).rows@ == old(synth).rows@.push(None),
        begun.0.function.0 == old(synth).base + old(synth).rows@.len(),
        begun.0.repr == repr,
        ({
            let info = old(fn_types).info(repr)->0;
            let at = row_for(old(fn_types).rows@, repr)->0;
            &&& begun.0.number == info.impls@.len() as u32
            &&& probed(info.impls@, candidate, begun.0.tag)
            &&& !tag_used(info.impls@, candidate) ==> begun.0.tag == candidate
            &&& impl_added(
                old(fn_types).rows@,
                final(fn_types).rows@,
                at,
                (ClosureImpl { tag: begun.0.tag, function: begun.0.function }),
            )
            &&& final(fn_types).rows@[at].named == old(fn_types).rows@[at].named
            &&& literal_frame(&begun.1, info, names@, outer, begun.0.tag)
        }),
        final(fn_types).wf(),
        begun.1.wf(),
        captures_bound(&begun.1),
{
    let function = synth.reserve_synth();
    let at: usize = match fn_types.find(repr) {
        Some(at) => at,
        None => 0,
    };
    let ghost info = fn_types.rows@[at as int];
    let number: u32 = fn_types.rows[at].impls.len() as u32;
    let tag: u32 = unique_impl_tag(&fn_types.rows[at].impls, candidate);
    let added = ClosureImpl { tag, function };
    fn_types.rows[at].impls.push(added);
    proof {
        lemma_impl_added_wf(old(fn_types), fn_types, at as int, added);
    }
    let info_now = &fn_types.rows[at];
    let result = info_now.result;
    let mut ctx = FnCtx::new(result);
    ctx.set_main_thread(outer.main_thread);
    ctx.set_closure_mentions(outer.closure_mentions());
    let _ = ctx.declare_hidden(Type::Struct(repr), false);
    let mut i: usize = 0;
    assert(ctx.locals@ =~= literal_locals(info, names@, 0));
    while i < names.len()
        invariant
            i <= names@.len() < u32::MAX,
            info_now.params@ == info.params@,
            info_now.modes@ == info.modes@,
            names@.len() == info.params@.len(),
            ctx.wf(),
            ctx.locals@ == literal_locals(info, names@, i as int),
            ctx.scopes@.len() == 1,
            ctx.scopes@[0]@ == literal_scope(names@, i as int),
            ctx.scope_floor == 0,
            ctx.return_type == info.result,
            ctx.receiver is None,
            ctx.loop_depth == 0,
            ctx.closure is None,
            ctx.pending_stmts@.len() == 0,
            ctx.deferred_stmts@.len() == 0,
            ctx.closure_mentions@ == outer.closure_mentions@,
            ctx.main_thread == outer.main_thread,
            ctx.cell_temps@.len() == 0,
        decreases names@.len() - i,
    {
        let mode = mode_at(&info_now.modes, i);
        let _ = ctx.declare_param(
            names[i],
            info_now.params[i],
            mode == OwnershipMode::BorrowMut,
            mode,
        );
        i += 1;
        assert(ctx.locals@ =~= literal_locals(info, names@, i as int));
    }
    ctx.closure = Some(ClosureCtx { repr, tag, captures: Vec::new() });
    (Lifting { function, repr, tag, number }, ctx)
}

/// Giving one type an implementation under an unused tag keeps the table whole.
pub proof fn lemma_impl_added_wf(
    before: &FnTypeTable,
    after: &FnTypeTable,
    i: int,
    added: ClosureImpl,
)
    requires
        before.wf(),
        0 <= i < before.rows@.len(),
        impl_added(before.rows@, after.rows@, i, added),
        !tag_used(before.rows@[i].impls@, added.tag),
    ensures
        after.wf(),
        forall|repr: StructId| #[trigger]
            row_for(after.rows@, repr) == row_for(before.rows@, repr),
{
    let rows = after.rows@;
    let old_rows = before.rows@;
    assert forall|k: int| 0 <= k < rows.len() implies (#[trigger] rows[k]).repr
        == old_rows[k].repr && rows[k].params == old_rows[k].params && rows[k].modes
        == old_rows[k].modes && rows[k].result == old_rows[k].result by {}
    assert forall|k: int| 0 <= k < rows.len() implies tags_differ(
        (#[trigger] rows[k]).impls@,
    ) by {
        assert(tags_differ(old_rows[k].impls@));
        if k == i {
            let impls = rows[i].impls@;
            let held = old_rows[i].impls@;
            assert forall|a: int, b: int| 0 <= a < b < impls.len() implies (
            #[trigger] impls[a]).tag != (#[trigger] impls[b]).tag by {
                assert(impls[a] == held[a]);
                if b < held.len() {
                    assert(impls[b] == held[b]);
                }
            }
        }
    }
    assert forall|a: int, b: int| 0 <= a < b < rows.len() implies !shaped(
        #[trigger] rows[a],
        (#[trigger] rows[b]).params@,
        rows[b].modes@,
        rows[b].result,
    ) by {
        assert(!shaped(old_rows[a], old_rows[b].params@, old_rows[b].modes@, old_rows[b].result));
    }
    assert forall|repr: StructId| #[trigger] row_for(rows, repr) == row_for(old_rows, repr) by {
        lemma_row_for(rows, repr);
        lemma_row_for(old_rows, repr);
        match (row_for(rows, repr), row_for(old_rows, repr)) {
            (Some(a), Some(b)) => {
                assert(rows[a].repr == old_rows[a].repr);
                assert(rows[b].repr == old_rows[b].repr);
            },
            (Some(a), None) => {
                assert(rows[a].repr == old_rows[a].repr);
            },
            (None, Some(b)) => {
                assert(rows[b].repr == old_rows[b].repr);
            },
            (None, None) => {},
        }
    }
}

/// `id` reads `capture`, of type `ty`, out of the function value: its field, and
/// where it is boxed the one element of the array there.
pub open spec fn reads_capture(
    program: &HirProgram,
    id: HirExprId,
    repr: StructId,
    capture: Capture,
    ty: Type,
) -> bool {
    program.has_expr(id) && if capture.boxed {
        program.at(id) matches HirExpr::Index { base, index, ty: read } && read == ty
            && program.has_expr(index) && program.at(index) == HirExpr::Int(0)
            && program.types.element(program.type_at(base)) == Some(ty) && reads_value_field(
            program,
            base,
            repr,
            capture.field,
            program.type_at(base),
        )
    } else {
        reads_value_field(program, id, repr, capture.field, ty)
    }
}

/// `id` reads field `index` of the function value in slot 0.
pub open spec fn reads_value_field(
    program: &HirProgram,
    id: HirExprId,
    repr: StructId,
    index: u32,
    ty: Type,
) -> bool {
    program.has_expr(id) && (program.at(id) matches HirExpr::Field { base, index: read, ty: held }
        && read == index && held == ty && program.has_expr(base) && program.at(base) == (
    HirExpr::Local { local: LocalId(0), ty: Type::Struct(repr) }))
}

/// `stmt` binds `capture` at entry.
pub open spec fn binds_capture(
    program: &HirProgram,
    stmt: HirStmtId,
    repr: StructId,
    capture: Capture,
    ty: Type,
) -> bool {
    stmt.0 < program.stmts@.len() && (program.stmts@[stmt.0 as int] matches HirStmt::Let {
        local,
        init,
    } && local == capture.inner && reads_capture(program, init, repr, capture, ty))
}

/// `id` is the value `capture` travels as, read in the enclosing frame: the
/// binding itself, and where it is boxed an array of it alone.
pub open spec fn captures_value(
    program: &HirProgram,
    id: HirExprId,
    capture: Capture,
    ty: Type,
) -> bool {
    program.has_expr(id) && if capture.boxed {
        program.at(id) matches HirExpr::ArrayNew { ty: held, elements } && elements@.len() == 1
            && program.has_expr(elements@[0]) && program.at(elements@[0]) == (HirExpr::Local {
            local: capture.outer,
            ty,
        }) && program.types.element(held) == Some(ty)
    } else {
        program.at(id) == (HirExpr::Local { local: capture.outer, ty })
    }
}

proof fn lemma_reads_value_field_kept(
    before: &HirProgram,
    after: &HirProgram,
    id: HirExprId,
    repr: StructId,
    index: u32,
    ty: Type,
)
    requires
        after.extends(before),
        reads_value_field(before, id, repr, index, ty),
    ensures
        reads_value_field(after, id, repr, index, ty),
{
    assert(after.at(id) == before.at(id));
    let base = before.at(id)->Field_base;
    assert(after.at(base) == before.at(base));
}

/// What binds a capture still does as the program grows.
pub proof fn lemma_binds_capture_kept(
    before: &HirProgram,
    after: &HirProgram,
    stmt: HirStmtId,
    repr: StructId,
    capture: Capture,
    ty: Type,
)
    requires
        after.extends(before),
        binds_capture(before, stmt, repr, capture, ty),
    ensures
        binds_capture(after, stmt, repr, capture, ty),
{
    assert(after.stmts@[stmt.0 as int] == before.stmts@[stmt.0 as int]);
    let init = before.stmts@[stmt.0 as int]->Let_init;
    assert(after.at(init) == before.at(init));
    if capture.boxed {
        let base = before.at(init)->Index_base;
        let index = before.at(init)->Index_index;
        assert(after.at(index) == before.at(index));
        lemma_reads_value_field_kept(
            before,
            after,
            base,
            repr,
            capture.field,
            before.type_at(base),
        );
    } else {
        lemma_reads_value_field_kept(before, after, init, repr, capture.field, ty);
    }
}

/// What a capture travels as stays so as the program grows.
pub proof fn lemma_captures_value_kept(
    before: &HirProgram,
    after: &HirProgram,
    id: HirExprId,
    capture: Capture,
    ty: Type,
)
    requires
        after.extends(before),
        captures_value(before, id, capture, ty),
    ensures
        captures_value(after, id, capture, ty),
{
    assert(after.at(id) == before.at(id));
    if capture.boxed {
        let elements = before.at(id)->ArrayNew_elements;
        assert(after.at(elements@[0]) == before.at(elements@[0]));
    }
}

/// The array type of `element`, minted on first mention.
fn array_type(program: &mut HirProgram, element: Type) -> (ty: Type)
    requires
        old(program).types.arrays@.len() < u32::MAX,
    ensures
        final(program).extends(old(program)),
        final(program).exprs == old(program).exprs,
        final(program).stmts == old(program).stmts,
        final(program).types.arrays@.len() <= old(program).types.arrays@.len() + 1,
        final(program).types.element(ty) == Some(element),
{
    program.types.array_of(element)
}

/// Room for the reads and values of `count` captures and a value built from them.
pub open spec fn lift_room(program: &HirProgram, count: int) -> bool {
    program.room(8 * count + 2) && program.types.arrays@.len() + 2 * count <= u32::MAX
}

fn bind_capture(
    program: &mut HirProgram,
    repr: StructId,
    capture: Capture,
    ty: Type,
) -> (stmt: HirStmtId)
    requires
        old(program).room(4),
        old(program).types.arrays@.len() < u32::MAX,
    ensures
        final(program).extends(old(program)),
        final(program).exprs@.len() <= old(program).exprs@.len() + 4,
        final(program).stmts@.len() == old(program).stmts@.len() + 1,
        final(program).types.arrays@.len() <= old(program).types.arrays@.len() + 1,
        binds_capture(final(program), stmt, repr, capture, ty),
{
    let base = program.add_expr(HirExpr::Local { local: LocalId(0), ty: Type::Struct(repr) });
    let init = if capture.boxed {
        let field_ty = array_type(program, ty);
        let read = program.add_expr(HirExpr::Field { base, index: capture.field, ty: field_ty });
        let zero = program.add_expr(HirExpr::Int(0));
        program.add_expr(HirExpr::Index { base: read, index: zero, ty })
    } else {
        program.add_expr(HirExpr::Field { base, index: capture.field, ty })
    };
    assert(reads_capture(program, init, repr, capture, ty));
    let ghost before = *program;
    let stmt = program.add_stmt(HirStmt::Let { local: capture.inner, init });
    proof {
        assert(program.extends(&before));
        if capture.boxed {
            let index = before.at(init)->Index_index;
            assert(program.at(index) == before.at(index));
            let read = before.at(init)->Index_base;
            lemma_reads_value_field_kept(
                &before,
                program,
                read,
                repr,
                capture.field,
                before.type_at(read),
            );
        } else {
            lemma_reads_value_field_kept(&before, program, init, repr, capture.field, ty);
        }
    }
    stmt
}

fn capture_value(program: &mut HirProgram, capture: Capture, ty: Type) -> (id: HirExprId)
    requires
        old(program).room(2),
        old(program).types.arrays@.len() < u32::MAX,
    ensures
        final(program).extends(old(program)),
        final(program).exprs@.len() <= old(program).exprs@.len() + 2,
        final(program).stmts == old(program).stmts,
        final(program).types.arrays@.len() <= old(program).types.arrays@.len() + 1,
        captures_value(final(program), id, capture, ty),
{
    let value = program.add_expr(HirExpr::Local { local: capture.outer, ty });
    if capture.boxed {
        let array = array_type(program, ty);
        let mut elements: Vec<HirExprId> = Vec::new();
        elements.push(value);
        program.add_expr(HirExpr::ArrayNew { ty: array, elements })
    } else {
        value
    }
}

/// The statements that bind every capture of a lifted literal at entry.
fn capture_prologue(
    program: &mut HirProgram,
    repr: StructId,
    inner: &FnCtx,
    captures: &Vec<Capture>,
) -> (stmts: Vec<HirStmtId>)
    requires
        inner.wf(),
        forall|i: int| 0 <= i < captures@.len() ==> inner.has((#[trigger] captures@[i]).inner),
        old(program).room(4 * captures@.len() as int),
        old(program).types.arrays@.len() + captures@.len() <= u32::MAX,
    ensures
        final(program).extends(old(program)),
        final(program).exprs@.len() <= old(program).exprs@.len() + 4 * captures@.len(),
        final(program).stmts@.len() <= old(program).stmts@.len() + captures@.len(),
        final(program).types.arrays@.len() <= old(program).types.arrays@.len() + captures@.len(),
        stmts@.len() == captures@.len(),
        forall|i: int|
            0 <= i < captures@.len() ==> binds_capture(
                final(program),
                #[trigger] stmts@[i],
                repr,
                captures@[i],
                inner.locals@[captures@[i].inner.0 as int].ty,
            ),
{
    let mut stmts: Vec<HirStmtId> = Vec::new();
    let mut i: usize = 0;
    while i < captures.len()
        invariant
            i <= captures@.len(),
            inner.wf(),
            forall|k: int|
                0 <= k < captures@.len() ==> inner.has((#[trigger] captures@[k]).inner),
            old(program).room(4 * captures@.len() as int),
            old(program).types.arrays@.len() + captures@.len() <= u32::MAX,
            program.extends(old(program)),
            program.exprs@.len() <= old(program).exprs@.len() + 4 * i,
            program.stmts@.len() <= old(program).stmts@.len() + i,
            program.types.arrays@.len() <= old(program).types.arrays@.len() + i,
            stmts@.len() == i,
            forall|k: int|
                0 <= k < i ==> binds_capture(
                    program,
                    #[trigger] stmts@[k],
                    repr,
                    captures@[k],
                    inner.locals@[captures@[k].inner.0 as int].ty,
                ),
        decreases captures@.len() - i,
    {
        let capture = captures[i];
        let ty = inner.local_type(capture.inner);
        let ghost before = *program;
        let ghost held = stmts@;
        let stmt = bind_capture(program, repr, capture, ty);
        stmts.push(stmt);
        proof {
            assert forall|k: int| 0 <= k < i + 1 implies binds_capture(
                program,
                #[trigger] stmts@[k],
                repr,
                captures@[k],
                inner.locals@[captures@[k].inner.0 as int].ty,
            ) by {
                if k < i {
                    assert(stmts@[k] == held[k]);
                    lemma_binds_capture_kept(
                        &before,
                        program,
                        held[k],
                        repr,
                        captures@[k],
                        inner.locals@[captures@[k].inner.0 as int].ty,
                    );
                }
            }
        }
        i += 1;
    }
    stmts
}

/// The values every capture of a literal travels as, read in the frame that
/// creates the function value.
fn captured_values(program: &mut HirProgram, outer: &FnCtx, captures: &Vec<Capture>) -> (values:
    Vec<HirExprId>)
    requires
        outer.wf(),
        forall|i: int| 0 <= i < captures@.len() ==> outer.has((#[trigger] captures@[i]).outer),
        old(program).room(2 * captures@.len() as int),
        old(program).types.arrays@.len() + captures@.len() <= u32::MAX,
    ensures
        final(program).extends(old(program)),
        final(program).exprs@.len() <= old(program).exprs@.len() + 2 * captures@.len(),
        final(program).stmts == old(program).stmts,
        values@.len() == captures@.len(),
        forall|i: int|
            0 <= i < captures@.len() ==> captures_value(
                final(program),
                #[trigger] values@[i],
                captures@[i],
                outer.locals@[captures@[i].outer.0 as int].ty,
            ),
{
    let mut values: Vec<HirExprId> = Vec::new();
    let mut i: usize = 0;
    while i < captures.len()
        invariant
            i <= captures@.len(),
            outer.wf(),
            forall|k: int|
                0 <= k < captures@.len() ==> outer.has((#[trigger] captures@[k]).outer),
            old(program).room(2 * captures@.len() as int),
            old(program).types.arrays@.len() + captures@.len() <= u32::MAX,
            program.extends(old(program)),
            program.exprs@.len() <= old(program).exprs@.len() + 2 * i,
            program.stmts == old(program).stmts,
            program.types.arrays@.len() <= old(program).types.arrays@.len() + i,
            values@.len() == i,
            forall|k: int|
                0 <= k < i ==> captures_value(
                    program,
                    #[trigger] values@[k],
                    captures@[k],
                    outer.locals@[captures@[k].outer.0 as int].ty,
                ),
        decreases captures@.len() - i,
    {
        let capture = captures[i];
        let ty = outer.local_type(capture.outer);
        let ghost before = *program;
        let ghost held = values@;
        let value = capture_value(program, capture, ty);
        values.push(value);
        proof {
            assert forall|k: int| 0 <= k < i + 1 implies captures_value(
                program,
                #[trigger] values@[k],
                captures@[k],
                outer.locals@[captures@[k].outer.0 as int].ty,
            ) by {
                if k < i {
                    assert(values@[k] == held[k]);
                    lemma_captures_value_kept(
                        &before,
                        program,
                        held[k],
                        captures@[k],
                        outer.locals@[captures@[k].outer.0 as int].ty,
                    );
                }
            }
        }
        i += 1;
    }
    values
}

/// `id` is a function value with its tag alone.
pub open spec fn tag_value(program: &HirProgram, id: HirExprId, repr: StructId, tag: u32) -> bool {
    program.has_expr(id) && (program.at(id) matches HirExpr::StructNew { struct_id, fields }
        && struct_id == repr && fields@.len() == 1 && program.has_expr(fields@[0]) && program.at(
        fields@[0],
    ) == HirExpr::Int(tag as i64))
}

pub fn emit_tag_value(program: &mut HirProgram, repr: StructId, tag: u32) -> (id: HirExprId)
    requires
        old(program).room(2),
    ensures
        final(program).built_on(old(program)),
        final(program).exprs@.len() == old(program).exprs@.len() + 2,
        final(program).stmts == old(program).stmts,
        tag_value(final(program), id, repr, tag),
{
    let mut fields: Vec<HirExprId> = Vec::new();
    fields.push(program.add_expr(HirExpr::Int(tag as i64)));
    program.add_expr(HirExpr::StructNew { struct_id: repr, fields })
}

/// `function` is a lifted literal: its frame's slots, the captures bound at
/// entry, then the body that was analyzed.
pub open spec fn is_lifted(
    program: &HirProgram,
    function: HirFunction,
    lifting: Lifting,
    inner: &FnCtx,
    params: int,
    analyzed: Seq<HirStmtId>,
    span: Span,
    execution: Execution,
) -> bool {
    let captures = captures_of(inner);
    &&& value_shell(
        function,
        FunctionName::Closure { repr: lifting.repr, number: lifting.number },
        params,
        inner.return_type,
        execution,
        span,
    )
    &&& function.locals@ == inner.locals@
    &&& function.body@.len() == captures.len() + analyzed.len()
    &&& function.body@.skip(captures.len() as int) == analyzed
    &&& forall|i: int|
        0 <= i < captures.len() ==> binds_capture(
            program,
            #[trigger] function.body@[i],
            lifting.repr,
            captures[i],
            inner.locals@[captures[i].inner.0 as int].ty,
        )
}

/// The captures of a frame; none where the frame is no closure's.
pub open spec fn captures_of(ctx: &FnCtx) -> Seq<Capture> {
    match ctx.closure {
        Some(closure) => closure.captures@,
        None => Seq::empty(),
    }
}

/// What a literal that can finish without returning is refused for.
pub open spec fn unreturned(result: Type, complete: bool) -> Option<Problem> {
    if result != Type::Void && result != Type::Error && !complete {
        Some(Problem::ClosureMayNotReturn { ty: result })
    } else {
        None
    }
}

/// Finishes lifting one literal once its body is analyzed: records the function
/// and builds the value that stands for it.
///
/// `complete` says whether the body returns on every path, which a literal owes
/// exactly as a function does.
pub fn finish_lift(
    program: &mut HirProgram,
    synth: &mut SynthTable,
    sites: &mut Vec<ClosureSite>,
    outer: &FnCtx,
    inner: FnCtx,
    lifting: Lifting,
    params: u32,
    analyzed: Vec<HirStmtId>,
    complete: bool,
    span: Span,
    execution: Execution,
    log: &mut Log,
) -> (id: HirExprId)
    requires
        outer.wf(),
        inner.wf(),
        captures_bound(&inner),
        forall|i: int|
            0 <= i < captures_of(&inner).len() ==> outer.has(
                (#[trigger] captures_of(&inner)[i]).outer,
            ),
        lift_room(old(program), captures_of(&inner).len() as int),
        params < u32::MAX,
        old(synth).reserved(lifting.function),
    ensures
        final(program).extends(old(program)),
        final(log).source == old(log).source,
        match unreturned(inner.return_type, complete) {
            Some(problem) => final(log).reported(old(log), old(log).source, span, problem),
            None => final(log).quiet(old(log)),
        },
        final(synth).base == old(synth).base,
        final(synth).rows@.len() == old(synth).rows@.len(),
        forall|i: int|
            0 <= i < old(synth).rows@.len() && i != lifting.function.0 - old(synth).base ==> (
            #[trigger] final(synth).rows@[i]) == old(synth).rows@[i],
        final(synth).filled(lifting.function),
        is_lifted(
            final(program),
            final(synth).row(lifting.function)->0,
            lifting,
            &inner,
            params as int,
            analyzed@,
            span,
            execution,
        ),
        tag_value(final(program), id, lifting.repr, lifting.tag),
        ({
            let captures = captures_of(&inner);
            let site = final(sites)@.last();
            &&& final(sites)@.len() == old(sites)@.len() + 1
            &&& final(sites)@.drop_last() == old(sites)@
            &&& site.expr == id
            &&& site.repr == lifting.repr
            &&& site.tag == lifting.tag
            &&& site.capture_fields@ == captures.map_values(|capture: Capture| capture.field)
            &&& site.capture_values@.len() == captures.len()
            &&& forall|i: int|
                0 <= i < captures.len() ==> captures_value(
                    final(program),
                    #[trigger] site.capture_values@[i],
                    captures[i],
                    outer.locals@[captures[i].outer.0 as int].ty,
                )
        }),
{
    let result = inner.return_type;
    if result != Type::Void && result != Type::Error && !complete {
        log.emit(span, Problem::ClosureMayNotReturn { ty: result });
    }
    let captures: Vec<Capture> = match &inner.closure {
        Some(closure) => crate::lists::copied(&closure.captures),
        None => Vec::new(),
    };
    assert(captures@ =~= captures_of(&inner));
    let mut body = capture_prologue(program, lifting.repr, &inner, &captures);
    let ghost prologue = body@;
    let ghost bound = *program;
    crate::lists::extend(&mut body, &analyzed);
    assert(body@.skip(captures@.len() as int) =~= analyzed@);
    let function = HirFunction {
        name: FunctionName::Closure { repr: lifting.repr, number: lifting.number },
        param_count: 1 + params,
        return_type: result,
        locals: crate::lists::copied(&inner.locals),
        body,
        is_main: false,
        is_main_thread: false,
        is_async: false,
        execution,
        mutates_self: false,
        name_span: span,
        signature: CallableSignature::synthesized(result),
    };
    let ghost lifted = function;
    synth.fill_synth(lifting.function, function);
    let capture_fields = fields_of_captures(&captures);
    let capture_values = captured_values(program, outer, &captures);
    let ghost valued = *program;
    let ghost values = capture_values@;
    let expr = emit_tag_value(program, lifting.repr, lifting.tag);
    proof {
        assert(valued.extends(&bound));
        assert(program.extends(&valued));
        assert forall|i: int| 0 <= i < captures@.len() implies binds_capture(
            program,
            #[trigger] lifted.body@[i],
            lifting.repr,
            captures@[i],
            inner.locals@[captures@[i].inner.0 as int].ty,
        ) by {
            assert(lifted.body@[i] == prologue[i]);
            let ty = inner.locals@[captures@[i].inner.0 as int].ty;
            lemma_binds_capture_kept(
                &bound,
                &valued,
                prologue[i],
                lifting.repr,
                captures@[i],
                ty,
            );
            lemma_binds_capture_kept(
                &valued,
                program,
                prologue[i],
                lifting.repr,
                captures@[i],
                ty,
            );
        }
        assert forall|i: int| 0 <= i < captures@.len() implies captures_value(
            program,
            #[trigger] values[i],
            captures@[i],
            outer.locals@[captures@[i].outer.0 as int].ty,
        ) by {
            lemma_captures_value_kept(
                &valued,
                program,
                values[i],
                captures@[i],
                outer.locals@[captures@[i].outer.0 as int].ty,
            );
        }
    }
    sites.push(
        ClosureSite { expr, repr: lifting.repr, tag: lifting.tag, capture_fields, capture_values },
    );
    assert(sites@.drop_last() =~= old(sites)@);
    expr
}

fn fields_of_captures(captures: &Vec<Capture>) -> (fields: Vec<u32>)
    ensures
        fields@ == captures@.map_values(|capture: Capture| capture.field),
{
    let mut fields: Vec<u32> = Vec::new();
    let mut i: usize = 0;
    while i < captures.len()
        invariant
            i <= captures@.len(),
            fields@ == captures@.take(i as int).map_values(|capture: Capture| capture.field),
        decreases captures@.len() - i,
    {
        fields.push(captures[i].field);
        i += 1;
        assert(fields@ =~= captures@.take(i as int).map_values(|capture: Capture| capture.field));
    }
    assert(captures@.take(i as int) =~= captures@);
    fields
}

/// A closure literal is lifted exactly where a function type of as many parameters is
/// expected; where something else is, or nothing, it is refused, and where what is
/// expected failed to resolve it is refused without another word.
pub proof fn a_literal_matches_its_function_type(
    fn_types: &FnTypeTable,
    declares: usize,
    expected: Option<Type>,
)
    ensures
        expected matches Some(Type::Struct(id)) ==> (fn_types.info(id) matches Some(info) ==> (
        closure_problem(fn_types, declares, expected) is None <==> declares == info.params@.len())),
        expected matches Some(Type::Struct(id)) ==> (fn_types.info(id) is None ==> closure_problem(
            fn_types,
            declares,
            expected,
        ) is Some),
        expected is None ==> closure_problem(fn_types, declares, expected) is Some,
        expected == Some(Type::Error) ==> closure_problem(fn_types, declares, expected) is None,
        expected matches Some(ty) ==> (!(ty is Struct) && ty != Type::Error ==> closure_problem(
            fn_types,
            declares,
            expected,
        ) is Some),
{
}

proof fn lemma_literal_scope(names: Seq<Symbol>, count: int, k: int)
    requires
        0 <= k < count <= names.len() < u32::MAX,
        forall|j: int| k < j < count ==> (#[trigger] names[j]) != names[k],
    ensures
        literal_scope(names, count).contains_key(names[k]),
        literal_scope(names, count)[names[k]] == LocalId((k + 1) as u32),
    decreases count,
{
    if k < count - 1 {
        lemma_literal_scope(names, count - 1, k);
        assert(names[count - 1] != names[k]);
    }
}

/// Inside a literal's body each parameter name means the slot of that parameter, the last
/// of a repeated name; slot `k + 1` holds parameter `k`, of its declared type and mode,
/// behind the function value in slot 0. What the body returns is the type's result.
pub proof fn a_literals_parameters_have_their_slots(
    ctx: &FnCtx,
    info: FnTypeInfo,
    names: Seq<Symbol>,
    outer: &FnCtx,
    tag: u32,
    k: int,
)
    requires
        literal_frame(ctx, info, names, outer, tag),
        0 <= k < names.len() < u32::MAX,
        forall|j: int| k < j < names.len() ==> (#[trigger] names[j]) != names[k],
    ensures
        ctx.scopes@[0]@.contains_key(names[k]),
        ctx.scopes@[0]@[names[k]].0 == k + 1,
        ctx.locals@.len() == names.len() + 1,
        ctx.locals@[0].ty == Type::Struct(info.repr),
        ctx.locals@[k + 1].ty == info.params@[k],
        k < info.modes@.len() ==> ctx.locals@[k + 1].ownership == info.modes@[k],
        k >= info.modes@.len() ==> ctx.locals@[k + 1].ownership == OwnershipMode::Owned,
        ctx.locals@[k + 1].mutable <==> k < info.modes@.len() && info.modes@[k]
            == OwnershipMode::BorrowMut,
        ctx.return_type == info.result,
        ctx.receiver is None,
{
    lemma_literal_scope(names, names.len() as int, k);
}

/// A lifted literal binds every capture before its body runs: the captured slot is let
/// from the field of the function value the capture travels in, through the box where it
/// is boxed, and the analyzed statements follow as they are.
pub proof fn a_lifted_body_binds_its_captures_first(
    program: &HirProgram,
    function: HirFunction,
    lifting: Lifting,
    inner: &FnCtx,
    params: int,
    analyzed: Seq<HirStmtId>,
    span: Span,
    execution: Execution,
    i: int,
)
    requires
        is_lifted(program, function, lifting, inner, params, analyzed, span, execution),
        inner.closure is Some,
    ensures
        ({
            let captures = inner.closure->0.captures@;
            let body = function.body@;
            &&& body.len() == captures.len() + analyzed.len()
            &&& 0 <= i < analyzed.len() ==> body[captures.len() + i] == analyzed[i]
            &&& 0 <= i < captures.len() ==> (program.stmts@[body[i].0 as int] matches HirStmt::Let {
                local,
                init,
            } && local == captures[i].inner && {
                let field = if captures[i].boxed {
                    program.at(init)->Index_base
                } else {
                    init
                };
                &&& captures[i].boxed ==> program.at(init) is Index && program.at(
                    program.at(init)->Index_index,
                ) == HirExpr::Int(0)
                &&& (program.at(field) matches HirExpr::Field { base, index, .. } && index
                    == captures[i].field && program.at(base) == (HirExpr::Local {
                    local: LocalId(0),
                    ty: Type::Struct(lifting.repr),
                }))
            })
            &&& function.param_count == 1 + params
            &&& function.return_type == inner.return_type
        }),
{
    let captures = inner.closure->0.captures@;
    if 0 <= i < analyzed.len() {
        assert(function.body@.skip(captures.len() as int)[i] == function.body@[captures.len() + i]);
    }
    if 0 <= i < captures.len() {
        assert(binds_capture(
            program,
            function.body@[i],
            lifting.repr,
            captures[i],
            inner.locals@[captures[i].inner.0 as int].ty,
        ));
    }
}

/// A literal is refused for not returning exactly if its type gives something back, that
/// resolved, and its body can finish without doing so.
pub proof fn a_literal_returns_what_it_promises(result: Type, complete: bool)
    ensures
        unreturned(result, complete) is Some <==> !complete && result != Type::Void && result
            != Type::Error,
{
}

/// A captured binding is read from the enclosing frame's own slot, at its type; one that
/// travels boxed is the one element of an array of that type.
pub proof fn a_capture_is_read_from_its_slot(
    program: &HirProgram,
    id: HirExprId,
    capture: Capture,
    ty: Type,
)
    requires
        captures_value(program, id, capture, ty),
    ensures
        !capture.boxed ==> program.at(id) == (HirExpr::Local { local: capture.outer, ty }),
        capture.boxed ==> (program.at(id) matches HirExpr::ArrayNew { ty: held, elements }
            && elements@.len() == 1 && program.types.element(held) == Some(ty) && program.at(
            elements@[0],
        ) == (HirExpr::Local { local: capture.outer, ty })),
{
}

/// Recording an implementation adds it behind those of its own function type and changes
/// no other, and a bare function value holds its tag and nothing else.
pub proof fn an_implementation_joins_its_type(
    before: Seq<FnTypeInfo>,
    after: Seq<FnTypeInfo>,
    i: int,
    added: ClosureImpl,
    k: int,
    program: &HirProgram,
    id: HirExprId,
    repr: StructId,
    tag: u32,
)
    requires
        0 <= i < before.len(),
        0 <= k < before.len(),
    ensures
        impl_added(before, after, i, added) ==> after.len() == before.len()
            && after[i].impls@.len() == before[i].impls@.len() + 1 && after[i].impls@.last()
            == added && after[i].repr == before[i].repr && after[i].params == before[i].params
            && after[i].result == before[i].result && (k != i ==> after[k] == before[k]),
        tag_value(program, id, repr, tag) ==> (program.at(id) matches HirExpr::StructNew {
            struct_id,
            fields,
        } && struct_id == repr && fields@.len() == 1 && program.at(fields@[0]) == HirExpr::Int(
            tag as i64,
        )),
{
}

/// A lifted body reads a capture out of the function value it was called with: from the
/// capture's own field, and where it travels boxed from the one element of the array that
/// field holds.
pub proof fn a_lifted_body_reads_its_captures_field(
    program: &HirProgram,
    id: HirExprId,
    repr: StructId,
    capture: Capture,
    ty: Type,
)
    requires
        reads_capture(program, id, repr, capture, ty),
    ensures
        !capture.boxed ==> (program.at(id) matches HirExpr::Field { base, index, ty: held } && index
            == capture.field && held == ty && program.at(base) == (HirExpr::Local {
            local: LocalId(0),
            ty: Type::Struct(repr),
        })),
        capture.boxed ==> (program.at(id) matches HirExpr::Index { base, index, ty: read } && read
            == ty && program.at(index) == HirExpr::Int(0) && program.types.element(
            program.type_at(base),
        ) == Some(ty) && (program.at(base) matches HirExpr::Field { base: value, index: at, .. }
            && at == capture.field && program.at(value) == (HirExpr::Local {
            local: LocalId(0),
            ty: Type::Struct(repr),
        }))),
{
}

/// A closure's body is analyzed in a frame of its own: it starts with the function value
/// and the literal's parameters, returns what its type does, has no receiver and no loop
/// around it, has captured nothing yet, and runs on the thread the frame around it does.
pub proof fn a_literal_gets_a_frame_of_its_own(
    ctx: &FnCtx,
    info: FnTypeInfo,
    names: Seq<Symbol>,
    outer: &FnCtx,
    tag: u32,
)
    requires
        literal_frame(ctx, info, names, outer, tag),
    ensures
        ctx.scopes@.len() == 1,
        ctx.scope_floor == 0,
        ctx.return_type == info.result,
        ctx.receiver is None,
        ctx.loop_depth == 0,
        ctx.closure matches Some(closure) && closure.repr == info.repr && closure.tag == tag
            && closure.captures@.len() == 0,
        ctx.pending_stmts@.len() == 0,
        ctx.deferred_stmts@.len() == 0,
        ctx.cell_temps@.len() == 0,
        ctx.main_thread == outer.main_thread,
        ctx.closure_mentions@ == outer.closure_mentions@,
{
}

/// A lifted closure is known by its type's struct and its number, takes the function value
/// before its parameters, gives what its frame returns, and has the frame's own slots.
pub proof fn a_lifted_closure_has_its_frames_slots(
    program: &HirProgram,
    function: HirFunction,
    lifting: Lifting,
    inner: &FnCtx,
    params: int,
    analyzed: Seq<HirStmtId>,
    span: Span,
    execution: Execution,
)
    requires
        is_lifted(program, function, lifting, inner, params, analyzed, span, execution),
    ensures
        function.name == (FunctionName::Closure { repr: lifting.repr, number: lifting.number }),
        function.param_count == params + 1,
        function.return_type == inner.return_type,
        function.locals@ == inner.locals@,
        function.execution == execution,
        function.name_span == span,
        !function.is_main,
        !function.mutates_self,
{
}

} // verus!
