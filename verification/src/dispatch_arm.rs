//! Concrete payload arms for dynamic construct dispatch.
//!
//! A mutating arm owns a temporary concrete payload, calls the selected
//! implementation through its ordinary mutable-receiver convention, and rebuilds
//! the erased enum with the updated payload.

use vstd::prelude::*;

use crate::coercion::{coerce_into, crossing};
use crate::dispatch_tree::{
    dispatch_frame, dispatch_locals, dispatch_shell, forward_args, forwarded_args, reads_local,
    ConstructVariant, DispatchMethod,
};
use crate::families::tag_in;
use crate::family_calls::{coerce_construct_value, family_crossing};
use crate::hir::{
    receiver_writeback, whole, Callee, FuncId, FunctionName, HirExpr, HirExprId, HirFunction,
    HirLocal, HirPlace, HirProgram, HirStmt, HirStmtId, HirWriteback, LocalId,
};
use crate::scope::declared_local;
use crate::signatures::CallableSignature;
use crate::source::Span;
use crate::ty::{EnumId, Execution, OwnershipMode, StructId, Type};
use crate::value_members::ReadTables;

verus! {

/// One arm: the variant it is for, and the concrete method it calls.
#[derive(Clone, Copy, PartialEq, Eq, Structural, Debug)]
pub struct ArmTarget {
    pub variant: ConstructVariant,
    pub target: FuncId,
    /// What the concrete method returns, which a child family may have made more
    /// specific than the dispatcher's own result.
    pub result: Type,
}

/// The slot a mutating arm holds the concrete payload in.
pub open spec fn concrete_local(dispatch: &DispatchMethod) -> LocalId {
    LocalId((1 + dispatch.params@.len()) as u32)
}

/// The slot an arm holds its result in.
pub open spec fn result_local(dispatch: &DispatchMethod) -> LocalId {
    LocalId(
        (1 + dispatch.params@.len() + if dispatch.mutates_self {
            1int
        } else {
            0int
        }) as u32,
    )
}

/// The slots of an arm: what it is called with, the concrete payload where the
/// method mutates it, and the result where there is one.
pub open spec fn arm_locals(dispatch: &DispatchMethod, arm: ArmTarget) -> Seq<HirLocal> {
    dispatch_locals(dispatch) + (if dispatch.mutates_self {
        seq![declared_local(None, arm.variant.ty, true, OwnershipMode::Owned)]
    } else {
        Seq::empty()
    }) + (if dispatch.result != Type::Void {
        seq![declared_local(None, dispatch.result, false, OwnershipMode::Owned)]
    } else {
        Seq::empty()
    })
}

/// `id` reads the concrete payload out of the family value.
pub open spec fn reads_payload(
    program: &HirProgram,
    id: HirExprId,
    dispatch: &DispatchMethod,
    arm: ArmTarget,
) -> bool {
    program.has_expr(id) && match program.at(id) {
        HirExpr::EnumPayload { value, ty } => ty == arm.variant.ty && reads_local(
            program,
            value,
            LocalId(0),
            Type::Enum(dispatch.family_id),
        ),
        _ => false,
    }
}

/// `id` calls the concrete method: on the payload itself, or on the slot holding
/// it where the method mutates, carrying the slot back.
pub open spec fn concrete_call(
    program: &HirProgram,
    id: HirExprId,
    dispatch: &DispatchMethod,
    arm: ArmTarget,
) -> bool {
    program.has_expr(id) && match program.at(id) {
        HirExpr::Call { callee: Callee::User(target), args, ty, writebacks } => {
            &&& target == arm.target
            &&& ty == arm.result
            &&& args@.len() > 0
            &&& if dispatch.mutates_self {
                reads_local(program, args@[0], concrete_local(dispatch), arm.variant.ty)
            } else {
                reads_payload(program, args@[0], dispatch, arm)
            }
            &&& forwarded_args(program, args@.skip(1), dispatch.params@)
            &&& receiver_writeback(writebacks@, dispatch.mutates_self, concrete_local(dispatch))
        },
        _ => false,
    }
}

/// `id` is the expression `inner` carried up to `expected`: wrapped where it is a
/// declaration of the family that `expected` stands for.
pub open spec fn carries_into(
    program: &HirProgram,
    tables: &ReadTables,
    inner: HirExprId,
    expected: Type,
    id: HirExprId,
) -> bool {
    match family_crossing(
        tables.families,
        tables.constructs,
        inner,
        program.at(inner),
        Some(expected),
    ) {
        Some(node) => program.has_expr(id) && program.at(id) == node,
        None => match crossing(tables.lattice, inner, program.at(inner), expected) {
            Some(node) => program.has_expr(id) && program.at(id) == node,
            None => id == inner,
        },
    }
}

/// `id` is the concrete call carried into the dispatcher's result.
pub open spec fn arm_value(
    program: &HirProgram,
    tables: &ReadTables,
    id: HirExprId,
    dispatch: &DispatchMethod,
    arm: ArmTarget,
) -> bool {
    exists|call: HirExprId| #[trigger]
        concrete_call(program, call, dispatch, arm) && carries_into(
            program,
            tables,
            call,
            dispatch.result,
            id,
        )
}

/// `stmt` binds the concrete payload to its slot.
pub open spec fn binds_payload(
    program: &HirProgram,
    stmt: HirStmtId,
    dispatch: &DispatchMethod,
    arm: ArmTarget,
) -> bool {
    stmt.0 < program.stmts@.len() && match program.stmts@[stmt.0 as int] {
        HirStmt::Let { local, init } => local == concrete_local(dispatch) && reads_payload(
            program,
            init,
            dispatch,
            arm,
        ),
        _ => false,
    }
}

/// `stmt` rebuilds the family value from the payload slot.
pub open spec fn rebuilds_value(
    program: &HirProgram,
    stmt: HirStmtId,
    dispatch: &DispatchMethod,
    arm: ArmTarget,
) -> bool {
    stmt.0 < program.stmts@.len() && match program.stmts@[stmt.0 as int] {
        HirStmt::Assign { place, value } => {
            &&& whole(place, LocalId(0))
            &&& program.has_expr(value)
            &&& match program.at(value) {
                HirExpr::EnumNew { enum_id, tag, payload: Some(payload) } => {
                    &&& enum_id == dispatch.family_id
                    &&& tag == arm.variant.tag
                    &&& reads_local(program, payload, concrete_local(dispatch), arm.variant.ty)
                },
                _ => false,
            }
        },
        _ => false,
    }
}

/// `stmt` runs the call: for its effect where the result is `Void`, and into the
/// result slot otherwise.
pub open spec fn runs_call(
    program: &HirProgram,
    tables: &ReadTables,
    stmt: HirStmtId,
    dispatch: &DispatchMethod,
    arm: ArmTarget,
) -> bool {
    stmt.0 < program.stmts@.len() && match program.stmts@[stmt.0 as int] {
        HirStmt::Expr { expr } => dispatch.result == Type::Void && arm_value(
            program,
            tables,
            expr,
            dispatch,
            arm,
        ),
        HirStmt::Let { local, init } => dispatch.result != Type::Void && local == result_local(
            dispatch,
        ) && arm_value(program, tables, init, dispatch, arm),
        _ => false,
    }
}

/// `stmt` returns: nothing where the result is `Void`, and the result slot
/// otherwise.
pub open spec fn returns_result(
    program: &HirProgram,
    stmt: HirStmtId,
    dispatch: &DispatchMethod,
) -> bool {
    stmt.0 < program.stmts@.len() && match program.stmts@[stmt.0 as int] {
        HirStmt::Return { value: None } => dispatch.result == Type::Void,
        HirStmt::Return { value: Some(value) } => dispatch.result != Type::Void && reads_local(
            program,
            value,
            result_local(dispatch),
            dispatch.result,
        ),
        _ => false,
    }
}

/// The statements of an arm, in order: where the method mutates, bind the
/// payload, call, rebuild the family value, return; otherwise call and return.
pub open spec fn arm_body(
    program: &HirProgram,
    tables: &ReadTables,
    body: Seq<HirStmtId>,
    dispatch: &DispatchMethod,
    arm: ArmTarget,
) -> bool {
    if dispatch.mutates_self {
        &&& body.len() == 4
        &&& binds_payload(program, body[0], dispatch, arm)
        &&& runs_call(program, tables, body[1], dispatch, arm)
        &&& rebuilds_value(program, body[2], dispatch, arm)
        &&& returns_result(program, body[3], dispatch)
    } else {
        &&& body.len() == 2
        &&& runs_call(program, tables, body[0], dispatch, arm)
        &&& returns_result(program, body[1], dispatch)
    }
}

/// The name of an arm.
pub open spec fn arm_name(dispatch: &DispatchMethod, arm: ArmTarget) -> FunctionName {
    FunctionName::DispatchArm {
        family: dispatch.family,
        method: dispatch.method,
        tag: arm.variant.tag,
    }
}

/// `function` is the arm of one variant.
pub open spec fn is_arm(
    program: &HirProgram,
    tables: &ReadTables,
    function: HirFunction,
    dispatch: &DispatchMethod,
    arm: ArmTarget,
) -> bool {
    &&& dispatch_shell(function, dispatch, arm_name(dispatch, arm))
    &&& function.locals@ == arm_locals(dispatch, arm)
    &&& arm_body(program, tables, function.body@, dispatch, arm)
}

/// The nodes of an arm stay what they are as the program grows.
pub proof fn lemma_arm_kept(
    before: &HirProgram,
    after: &HirProgram,
    tables: &ReadTables,
    function: HirFunction,
    dispatch: &DispatchMethod,
    arm: ArmTarget,
)
    requires
        after.built_on(before),
        is_arm(before, tables, function, dispatch, arm),
    ensures
        is_arm(after, tables, function, dispatch, arm),
{
    let body = function.body@;
    if dispatch.mutates_self {
        lemma_payload_kept(before, after, body[0], dispatch, arm);
        lemma_call_kept(before, after, tables, body[1], dispatch, arm);
        lemma_rebuild_kept(before, after, body[2], dispatch, arm);
        lemma_return_kept(before, after, body[3], dispatch);
    } else {
        lemma_call_kept(before, after, tables, body[0], dispatch, arm);
        lemma_return_kept(before, after, body[1], dispatch);
    }
}

proof fn lemma_reads_payload_kept(
    before: &HirProgram,
    after: &HirProgram,
    id: HirExprId,
    dispatch: &DispatchMethod,
    arm: ArmTarget,
)
    requires
        after.built_on(before),
        reads_payload(before, id, dispatch, arm),
    ensures
        reads_payload(after, id, dispatch, arm),
{
    assert(after.at(id) == before.at(id));
    let value = before.at(id)->EnumPayload_value;
    assert(after.at(value) == before.at(value));
}

proof fn lemma_payload_kept(
    before: &HirProgram,
    after: &HirProgram,
    stmt: HirStmtId,
    dispatch: &DispatchMethod,
    arm: ArmTarget,
)
    requires
        after.built_on(before),
        binds_payload(before, stmt, dispatch, arm),
    ensures
        binds_payload(after, stmt, dispatch, arm),
{
    assert(after.stmts@[stmt.0 as int] == before.stmts@[stmt.0 as int]);
    let init = before.stmts@[stmt.0 as int]->init;
    lemma_reads_payload_kept(before, after, init, dispatch, arm);
}

proof fn lemma_value_kept(
    before: &HirProgram,
    after: &HirProgram,
    tables: &ReadTables,
    id: HirExprId,
    dispatch: &DispatchMethod,
    arm: ArmTarget,
)
    requires
        after.built_on(before),
        arm_value(before, tables, id, dispatch, arm),
    ensures
        arm_value(after, tables, id, dispatch, arm),
{
    let call = choose|call: HirExprId| #[trigger]
        concrete_call(before, call, dispatch, arm) && carries_into(
            before,
            tables,
            call,
            dispatch.result,
            id,
        );
    lemma_concrete_kept(before, after, call, dispatch, arm);
    assert(after.at(call) == before.at(call));
    if before.has_expr(id) {
        assert(after.at(id) == before.at(id));
    }
}

proof fn lemma_concrete_kept(
    before: &HirProgram,
    after: &HirProgram,
    call: HirExprId,
    dispatch: &DispatchMethod,
    arm: ArmTarget,
)
    requires
        after.built_on(before),
        concrete_call(before, call, dispatch, arm),
    ensures
        concrete_call(after, call, dispatch, arm),
{
    assert(after.at(call) == before.at(call));
    let args = before.at(call)->Call_args@;
    if dispatch.mutates_self {
        assert(after.at(args[0]) == before.at(args[0]));
    } else {
        lemma_reads_payload_kept(before, after, args[0], dispatch, arm);
    }
    assert forall|k: int| 0 <= k < dispatch.params@.len() implies reads_local(
        after,
        #[trigger] args.skip(1)[k],
        LocalId((k + 1) as u32),
        dispatch.params@[k],
    ) by {
        assert(reads_local(
            before,
            args.skip(1)[k],
            LocalId((k + 1) as u32),
            dispatch.params@[k],
        ));
        assert(after.at(args.skip(1)[k]) == before.at(args.skip(1)[k]));
    }
}

proof fn lemma_call_kept(
    before: &HirProgram,
    after: &HirProgram,
    tables: &ReadTables,
    stmt: HirStmtId,
    dispatch: &DispatchMethod,
    arm: ArmTarget,
)
    requires
        after.built_on(before),
        runs_call(before, tables, stmt, dispatch, arm),
    ensures
        runs_call(after, tables, stmt, dispatch, arm),
{
    assert(after.stmts@[stmt.0 as int] == before.stmts@[stmt.0 as int]);
    match before.stmts@[stmt.0 as int] {
        HirStmt::Expr { expr } => lemma_value_kept(before, after, tables, expr, dispatch, arm),
        HirStmt::Let { init, .. } => lemma_value_kept(before, after, tables, init, dispatch, arm),
        _ => {},
    }
}

proof fn lemma_rebuild_kept(
    before: &HirProgram,
    after: &HirProgram,
    stmt: HirStmtId,
    dispatch: &DispatchMethod,
    arm: ArmTarget,
)
    requires
        after.built_on(before),
        rebuilds_value(before, stmt, dispatch, arm),
    ensures
        rebuilds_value(after, stmt, dispatch, arm),
{
    assert(after.stmts@[stmt.0 as int] == before.stmts@[stmt.0 as int]);
    match before.stmts@[stmt.0 as int] {
        HirStmt::Assign { value, .. } => {
            assert(after.at(value) == before.at(value));
            let payload = before.at(value)->payload->0;
            assert(after.at(payload) == before.at(payload));
        },
        _ => {},
    }
}

proof fn lemma_return_kept(
    before: &HirProgram,
    after: &HirProgram,
    stmt: HirStmtId,
    dispatch: &DispatchMethod,
)
    requires
        after.built_on(before),
        returns_result(before, stmt, dispatch),
    ensures
        returns_result(after, stmt, dispatch),
{
    assert(after.stmts@[stmt.0 as int] == before.stmts@[stmt.0 as int]);
    match before.stmts@[stmt.0 as int] {
        HirStmt::Return { value: Some(value) } => {
            assert(after.at(value) == before.at(value));
        },
        _ => {},
    }
}

/// Emits the concrete call of an arm, carried into the dispatcher's result.
fn emit_concrete_call(
    program: &mut HirProgram,
    tables: &ReadTables,
    dispatch: &DispatchMethod,
    arm: ArmTarget,
    concrete: HirExprId,
) -> (value: HirExprId)
    requires
        dispatch.params@.len() < u32::MAX - 8,
        reads_payload(old(program), concrete, dispatch, arm),
        old(program).exprs@.len() + dispatch.params@.len() + 3 <= u32::MAX,
    ensures
        final(program).built_on(old(program)),
        final(program).stmts@ == old(program).stmts@,
        final(program).exprs@.len() <= old(program).exprs@.len() + dispatch.params@.len() + 3,
        arm_value(final(program), tables, value, dispatch, arm),
        final(program).has_expr(value),
{
    let slot = LocalId(1 + dispatch.params.len() as u32);
    let receiver = if dispatch.mutates_self {
        program.add_expr(HirExpr::Local { local: slot, ty: arm.variant.ty })
    } else {
        concrete
    };
    let ghost first = *program;
    let mut args: Vec<HirExprId> = Vec::new();
    args.push(receiver);
    forward_args(program, &dispatch.params, &mut args);
    let ghost second = *program;
    let mut writebacks: Vec<HirWriteback> = Vec::new();
    if dispatch.mutates_self {
        writebacks.push(
            HirWriteback { param: 0, place: HirPlace { local: slot, path: Vec::new() } },
        );
    }
    let ghost given = args@;
    let call = program.add_expr(
        HirExpr::Call { callee: Callee::User(arm.target), args, ty: arm.result, writebacks },
    );
    let ghost third = *program;
    proof {
        if dispatch.mutates_self {
            assert(second.at(receiver) == first.at(receiver));
            assert(third.at(receiver) == second.at(receiver));
        } else {
            lemma_reads_payload_kept(&first, &third, concrete, dispatch, arm);
        }
        assert forall|k: int| 0 <= k < dispatch.params@.len() implies reads_local(
            &third,
            #[trigger] given.skip(1)[k],
            LocalId((k + 1) as u32),
            dispatch.params@[k],
        ) by {
            assert(reads_local(
                &second,
                given.skip(1)[k],
                LocalId((k + 1) as u32),
                dispatch.params@[k],
            ));
            assert(third.at(given.skip(1)[k]) == second.at(given.skip(1)[k]));
        }
        assert(concrete_call(&third, call, dispatch, arm));
    }
    let wrapped = coerce_construct_value(
        program,
        tables.families,
        tables.constructs,
        call,
        Some(dispatch.result),
    );
    let value = if wrapped.0 != call.0 {
        wrapped
    } else {
        coerce_into(program, tables.lattice, call, dispatch.result)
    };
    proof {
        lemma_concrete_kept(&third, program, call, dispatch, arm);
        assert(program.at(call) == third.at(call));
    }
    value
}

/// Builds one concrete implementation arm in its own function.
///
/// The family dispatcher stays a small tag test, while this owns the payload
/// extraction and the call into the concrete implementation.
pub fn construct_dispatch_arm_function(
    program: &mut HirProgram,
    tables: &ReadTables,
    dispatch: &DispatchMethod,
    arm: ArmTarget,
) -> (function: HirFunction)
    requires
        dispatch.params@.len() < u32::MAX - 8,
        old(program).exprs@.len() + dispatch.params@.len() + 8 <= u32::MAX,
        old(program).stmts@.len() + 4 <= u32::MAX,
    ensures
        final(program).built_on(old(program)),
        final(program).exprs@.len() <= old(program).exprs@.len() + dispatch.params@.len() + 8,
        final(program).stmts@.len() <= old(program).stmts@.len() + 4,
        is_arm(final(program), tables, function, dispatch, arm),
{
    let mut ctx = dispatch_frame(dispatch);
    let ghost called = ctx.locals@;
    let family_value = program.add_expr(
        HirExpr::Local { local: LocalId(0), ty: Type::Enum(dispatch.family_id) },
    );
    let concrete = program.add_expr(
        HirExpr::EnumPayload { value: family_value, ty: arm.variant.ty },
    );
    let slot = LocalId(1 + dispatch.params.len() as u32);
    if dispatch.mutates_self {
        let _ = ctx.declare_hidden_as(arm.variant.ty, true, OwnershipMode::Owned);
    }
    let value = emit_concrete_call(program, tables, dispatch, arm, concrete);
    let ghost p1 = *program;
    let mut body: Vec<HirStmtId> = Vec::new();
    if dispatch.mutates_self {
        body.push(program.add_stmt(HirStmt::Let { local: slot, init: concrete }));
    }
    let ghost p2 = *program;
    proof {
        lemma_value_kept(&p1, &p2, tables, value, dispatch, arm);
        if dispatch.mutates_self {
            assert(p2.at(concrete) == (HirExpr::EnumPayload {
                value: family_value,
                ty: arm.variant.ty,
            }));
            assert(binds_payload(&p2, body@[0], dispatch, arm));
        }
    }
    let mut kept: Option<LocalId> = None;
    if dispatch.result == Type::Void {
        body.push(program.add_stmt(HirStmt::Expr { expr: value }));
    } else {
        let local = ctx.declare_hidden_as(dispatch.result, false, OwnershipMode::Owned);
        body.push(program.add_stmt(HirStmt::Let { local, init: value }));
        kept = Some(local);
    }
    let ghost p3 = *program;
    proof {
        lemma_value_kept(&p2, &p3, tables, value, dispatch, arm);
        assert(runs_call(&p3, tables, body@.last(), dispatch, arm));
        assert(ctx.locals@ =~= arm_locals(dispatch, arm));
    }
    if dispatch.mutates_self {
        let updated = program.add_expr(HirExpr::Local { local: slot, ty: arm.variant.ty });
        let replacement = program.add_expr(
            HirExpr::EnumNew {
                enum_id: dispatch.family_id,
                tag: arm.variant.tag,
                payload: Some(updated),
            },
        );
        body.push(
            program.add_stmt(
                HirStmt::Assign {
                    place: HirPlace { local: LocalId(0), path: Vec::new() },
                    value: replacement,
                },
            ),
        );
        assert(rebuilds_value(program, body@.last(), dispatch, arm));
    }
    let ghost p4 = *program;
    let returned = match kept {
        Some(local) => Some(program.add_expr(HirExpr::Local { local, ty: dispatch.result })),
        None => None,
    };
    body.push(program.add_stmt(HirStmt::Return { value: returned }));
    proof {
        assert(returns_result(program, body@.last(), dispatch));
        if dispatch.mutates_self {
            lemma_payload_kept(&p2, program, body@[0], dispatch, arm);
            lemma_call_kept(&p3, program, tables, body@[1], dispatch, arm);
            lemma_rebuild_kept(&p4, program, body@[2], dispatch, arm);
        } else {
            lemma_call_kept(&p3, program, tables, body@[0], dispatch, arm);
        }
    }
    HirFunction {
        name: FunctionName::DispatchArm {
            family: dispatch.family,
            method: dispatch.method,
            tag: arm.variant.tag,
        },
        param_count: 1 + dispatch.params.len() as u32,
        return_type: dispatch.result,
        locals: ctx.locals,
        body,
        is_main: false,
        is_main_thread: false,
        is_async: false,
        execution: Execution::Inherited,
        mutates_self: dispatch.mutates_self,
        name_span: Span::nowhere(),
        signature: CallableSignature::synthesized(dispatch.result),
    }
}

/// An arm whose method answers a declaration of the family that the dispatcher's
/// result stands for answers that family: the declaration, wrapped under its tag.
pub proof fn a_declaration_is_answered_as_its_family(
    program: &HirProgram,
    tables: &ReadTables,
    id: HirExprId,
    dispatch: &DispatchMethod,
    arm: ArmTarget,
    declaration: StructId,
    family: EnumId,
)
    requires
        arm_value(program, tables, id, dispatch, arm),
        arm.result == Type::Struct(declaration),
        dispatch.result == Type::Enum(family),
        tables.families.key_of(family) is Some,
        tables.constructs.info(declaration) is Some,
        tag_in(tables.constructs.info(declaration)->0.families@, family) is Some,
    ensures
        program.has_expr(id),
        program.at(id).ty() == dispatch.result,
        (program.at(id) matches HirExpr::EnumNew { enum_id, tag, payload: Some(call) } && enum_id
            == family && Some(tag) == tag_in(
            tables.constructs.info(declaration)->0.families@,
            family,
        ) && concrete_call(program, call, dispatch, arm)),
{
}

/// A mutating arm carries its update back: it writes the family value whole, with
/// its own tag and the payload the method was called on.
pub proof fn mutation_reaches_the_value(
    program: &HirProgram,
    tables: &ReadTables,
    function: HirFunction,
    dispatch: &DispatchMethod,
    arm: ArmTarget,
)
    requires
        is_arm(program, tables, function, dispatch, arm),
        dispatch.mutates_self,
    ensures
        exists|k: int|
            0 <= k < function.body@.len() && #[trigger] rebuilds_value(
                program,
                function.body@[k],
                dispatch,
                arm,
            ),
{
    assert(rebuilds_value(program, function.body@[2], dispatch, arm));
}

/// The call an arm makes runs the declaration's own method: on the value the family value
/// holds, or on the slot that value was taken into where the method mutates it, with every
/// argument in order, and it carries the slot back exactly where the method mutates.
pub proof fn an_arm_calls_its_declarations_method(
    program: &HirProgram,
    id: HirExprId,
    dispatch: &DispatchMethod,
    arm: ArmTarget,
    k: int,
)
    requires
        concrete_call(program, id, dispatch, arm),
    ensures
        program.at(id) matches HirExpr::Call { callee, args, ty, writebacks } && {
            let held = LocalId((1 + dispatch.params@.len()) as u32);
            &&& callee == Callee::User(arm.target)
            &&& ty == arm.result
            &&& args@.len() == dispatch.params@.len() + 1
            &&& dispatch.mutates_self ==> program.at(args@[0]) == (HirExpr::Local {
                local: held,
                ty: arm.variant.ty,
            })
            &&& !dispatch.mutates_self ==> (program.at(args@[0]) matches HirExpr::EnumPayload {
                value,
                ty: of,
            } && of == arm.variant.ty && program.at(value) == (HirExpr::Local {
                local: LocalId(0),
                ty: Type::Enum(dispatch.family_id),
            }))
            &&& 0 <= k < dispatch.params@.len() ==> program.at(args@[k + 1]) == (HirExpr::Local {
                local: LocalId((k + 1) as u32),
                ty: dispatch.params@[k],
            })
            &&& dispatch.mutates_self ==> writebacks@.len() == 1 && writebacks@[0].param == 0
                && writebacks@[0].place.local == held && writebacks@[0].place.path@.len() == 0
            &&& !dispatch.mutates_self ==> writebacks@.len() == 0
        },
{
    if let HirExpr::Call { args, .. } = program.at(id) {
        if 0 <= k < dispatch.params@.len() {
            assert(args@.skip(1)[k] == args@[k + 1]);
            assert(reads_local(
                program,
                args@.skip(1)[k],
                LocalId((k + 1) as u32),
                dispatch.params@[k],
            ));
        }
    }
}

/// What an arm does, in order. One that mutates takes the held value into a slot of its
/// type, calls, and then writes the family value anew under its own tag from that slot. An
/// arm with a result returns the slot its call was bound to; one without returns nothing.
pub proof fn an_arm_runs_in_order(
    program: &HirProgram,
    tables: &ReadTables,
    function: HirFunction,
    dispatch: &DispatchMethod,
    arm: ArmTarget,
)
    requires
        is_arm(program, tables, function, dispatch, arm),
        dispatch.params@.len() < u32::MAX - 2,
    ensures
        ({
            let count = dispatch.params@.len() as int;
            let held = LocalId((1 + count) as u32);
            let at = if dispatch.mutates_self {
                1int
            } else {
                0int
            };
            let answer = LocalId((1 + count + at) as u32);
            let body = function.body@;
            let call = program.stmts@[body[at].0 as int];
            let end = program.stmts@[body[body.len() - 1].0 as int];
            &&& body.len() == 2 + 2 * at
            &&& dispatch.mutates_self ==> function.locals@[1 + count].ty == arm.variant.ty && (
            program.stmts@[body[0].0 as int] matches HirStmt::Let { local, init } && local == held
                && (program.at(init) matches HirExpr::EnumPayload { value, ty } && ty
                == arm.variant.ty && program.at(value) == (HirExpr::Local {
                local: LocalId(0),
                ty: Type::Enum(dispatch.family_id),
            })))
            &&& dispatch.mutates_self ==> (
            program.stmts@[body[2].0 as int] matches HirStmt::Assign { place, value }
                && place.local == LocalId(0) && place.path@.len() == 0 && (
            program.at(value) matches HirExpr::EnumNew { enum_id, tag, payload: Some(payload) }
                && enum_id == dispatch.family_id && tag == arm.variant.tag && program.at(payload)
                == (HirExpr::Local { local: held, ty: arm.variant.ty })))
            &&& dispatch.result == Type::Void ==> call is Expr && end == (HirStmt::Return {
                value: None,
            })
            &&& dispatch.result != Type::Void ==> function.locals@[1 + count + at].ty
                == dispatch.result && (call matches HirStmt::Let { local, .. } && local == answer)
                && (end matches HirStmt::Return { value: Some(value) } && program.at(value) == (
            HirExpr::Local { local: answer, ty: dispatch.result }))
            &&& function.return_type == dispatch.result
            &&& function.param_count == count + 1
        }),
{
}

} // verus!
