//! What a call through a function value runs: the adapters that carry a named
//! function, and the dispatchers that branch on a value's tag.

use vstd::prelude::*;

use crate::default_values::{default_value, filler, filler_cost, lemma_filler_kept, tagged};
use crate::dispatch_tree::{forwarded_args, reads_local};
use crate::fn_types::{mode_at, mode_of, tags_differ, ClosureImpl, FnTypeInfo};
use crate::hir::{
    grew, whole, Callee, FuncId, FunctionName, HirBinaryOp, HirExpr, HirExprId, HirFunction,
    HirLocal, HirPlace, HirProgram, HirStmt, HirStmtId, HirWriteback, LocalId,
};
use crate::names::Symbol;
use crate::scope::{declared_local, FnCtx};
use crate::signatures::CallableSignature;
use crate::source::Span;
use crate::synth::SynthTable;
use crate::ty::{Execution, OwnershipMode, StructId, Type};

verus! {

/// The slots a lifted function is called with: the function value, then every
/// parameter in the mode its type declares.
pub open spec fn value_locals(
    repr: StructId,
    params: Seq<Type>,
    modes: Seq<OwnershipMode>,
) -> Seq<HirLocal> {
    seq![declared_local(None, Type::Struct(repr), false, OwnershipMode::Owned)] + Seq::new(
        params.len(),
        |k: int|
            declared_local(
                None,
                params[k],
                mode_of(modes, k) == OwnershipMode::BorrowMut,
                mode_of(modes, k),
            ),
    )
}

/// `writebacks` carries each of the first `count` parameters that is lent to be
/// written back into its own slot, parameter `k` being the callee's `k + shift`.
pub open spec fn writes_back(
    writebacks: Seq<HirWriteback>,
    modes: Seq<OwnershipMode>,
    count: int,
    shift: int,
) -> bool
    decreases count,
{
    if count <= 0 {
        writebacks.len() == 0
    } else if mode_of(modes, count - 1) == OwnershipMode::BorrowMut {
        &&& writebacks.len() > 0
        &&& writebacks.last().param == count - 1 + shift
        &&& whole(writebacks.last().place, LocalId(count as u32))
        &&& writes_back(writebacks.drop_last(), modes, count - 1, shift)
    } else {
        writes_back(writebacks, modes, count - 1, shift)
    }
}

/// `id` calls `target` with every parameter of a lifted function, the function
/// value first where `env` names its struct, and writes every lent one back.
pub open spec fn hands_on(
    program: &HirProgram,
    id: HirExprId,
    target: FuncId,
    env: Option<StructId>,
    params: Seq<Type>,
    modes: Seq<OwnershipMode>,
    result: Type,
) -> bool {
    program.has_expr(id) && match program.at(id) {
        HirExpr::Call { callee: Callee::User(callee), args, ty, writebacks } => {
            &&& callee == target
            &&& ty == result
            &&& match env {
                Some(repr) => {
                    &&& args@.len() > 0
                    &&& reads_local(program, args@[0], LocalId(0), Type::Struct(repr))
                    &&& forwarded_args(program, args@.skip(1), params)
                    &&& writes_back(writebacks@, modes, params.len() as int, 1)
                },
                None => {
                    &&& forwarded_args(program, args@, params)
                    &&& writes_back(writebacks@, modes, params.len() as int, 0)
                },
            }
        },
        _ => false,
    }
}

/// `body` hands the call on to `target` and returns what it returns.
pub open spec fn returns_from(
    program: &HirProgram,
    body: Seq<HirStmtId>,
    target: FuncId,
    env: Option<StructId>,
    params: Seq<Type>,
    modes: Seq<OwnershipMode>,
    result: Type,
) -> bool {
    if result == Type::Void {
        &&& body.len() == 2
        &&& body[0].0 < program.stmts@.len()
        &&& body[1].0 < program.stmts@.len()
        &&& (program.stmts@[body[0].0 as int] matches HirStmt::Expr { expr } && hands_on(
            program,
            expr,
            target,
            env,
            params,
            modes,
            result,
        ))
        &&& program.stmts@[body[1].0 as int] == (HirStmt::Return { value: None })
    } else {
        &&& body.len() == 1
        &&& body[0].0 < program.stmts@.len()
        &&& (program.stmts@[body[0].0 as int] matches HirStmt::Return { value: Some(value) }
            && hands_on(program, value, target, env, params, modes, result))
    }
}

proof fn lemma_hands_on_kept(
    before: &HirProgram,
    after: &HirProgram,
    id: HirExprId,
    target: FuncId,
    env: Option<StructId>,
    params: Seq<Type>,
    modes: Seq<OwnershipMode>,
    result: Type,
)
    requires
        grew(before.exprs@, after.exprs@),
        hands_on(before, id, target, env, params, modes, result),
    ensures
        hands_on(after, id, target, env, params, modes, result),
{
    assert(after.at(id) == before.at(id));
    let args = before.at(id)->Call_args@;
    let tail = match env {
        Some(_) => args.skip(1),
        None => args,
    };
    if env is Some {
        assert(after.at(args[0]) == before.at(args[0]));
    }
    assert forall|k: int| 0 <= k < params.len() implies reads_local(
        after,
        #[trigger] tail[k],
        LocalId((k + 1) as u32),
        params[k],
    ) by {
        assert(reads_local(before, tail[k], LocalId((k + 1) as u32), params[k]));
        assert(after.at(tail[k]) == before.at(tail[k]));
    }
}

/// What hands a call on still does once more nodes are added.
pub proof fn lemma_returns_from_kept(
    before: &HirProgram,
    after: &HirProgram,
    body: Seq<HirStmtId>,
    target: FuncId,
    env: Option<StructId>,
    params: Seq<Type>,
    modes: Seq<OwnershipMode>,
    result: Type,
)
    requires
        grew(before.exprs@, after.exprs@),
        grew(before.stmts@, after.stmts@),
        returns_from(before, body, target, env, params, modes, result),
    ensures
        returns_from(after, body, target, env, params, modes, result),
{
    let call = if result == Type::Void {
        before.stmts@[body[0].0 as int]->expr
    } else {
        before.stmts@[body[0].0 as int]->Return_value->0
    };
    lemma_hands_on_kept(before, after, call, target, env, params, modes, result);
    assert(after.stmts@[body[0].0 as int] == before.stmts@[body[0].0 as int]);
    if result == Type::Void {
        assert(after.stmts@[body[1].0 as int] == before.stmts@[body[1].0 as int]);
    }
}

/// Emits the call that hands a lifted function's parameters on to `target`, and
/// the return of what it returns.
pub fn hand_on(
    program: &mut HirProgram,
    target: FuncId,
    env: Option<StructId>,
    params: &Vec<Type>,
    modes: &Vec<OwnershipMode>,
    result: Type,
) -> (body: Vec<HirStmtId>)
    requires
        old(program).room(params@.len() as int + 2),
    ensures
        final(program).built_on(old(program)),
        final(program).exprs@.len() <= old(program).exprs@.len() + params@.len() + 2,
        final(program).stmts@.len() <= old(program).stmts@.len() + 2,
        returns_from(final(program), body@, target, env, params@, modes@, result),
{
    let ghost start = *program;
    let mut args: Vec<HirExprId> = Vec::new();
    let mut writebacks: Vec<HirWriteback> = Vec::new();
    let shift: u32 = if env.is_some() {
        1
    } else {
        0
    };
    if let Some(repr) = env {
        args.push(
            program.add_expr(HirExpr::Local { local: LocalId(0), ty: Type::Struct(repr) }),
        );
    }
    let ghost lead = args@.len() as int;
    let mut i: usize = 0;
    while i < params.len()
        invariant
            i <= params@.len(),
            start.room(params@.len() as int + 2),
            program.built_on(&start),
            program.stmts@ == start.stmts@,
            program.exprs@.len() == start.exprs@.len() + i + lead,
            lead == if env is Some {
                1int
            } else {
                0int
            },
            shift == lead,
            args@.len() == lead + i,
            env matches Some(repr) ==> reads_local(
                program,
                args@[0],
                LocalId(0),
                Type::Struct(repr),
            ),
            forall|k: int|
                0 <= k < i ==> reads_local(
                    program,
                    #[trigger] args@.skip(lead)[k],
                    LocalId((k + 1) as u32),
                    params@[k],
                ),
            writes_back(writebacks@, modes@, i as int, lead),
        decreases params@.len() - i,
    {
        let local = LocalId(i as u32 + 1);
        let ghost before = *program;
        let ghost held = args@;
        let ghost done = writebacks@;
        args.push(program.add_expr(HirExpr::Local { local, ty: params[i] }));
        proof {
            assert forall|k: int| 0 <= k < i + 1 implies reads_local(
                program,
                #[trigger] args@.skip(lead)[k],
                LocalId((k + 1) as u32),
                params@[k],
            ) by {
                if k < i {
                    assert(args@.skip(lead)[k] == held.skip(lead)[k]);
                    assert(program.at(held.skip(lead)[k]) == before.at(held.skip(lead)[k]));
                }
            }
            if env is Some {
                assert(args@[0] == held[0]);
                assert(program.at(held[0]) == before.at(held[0]));
            }
        }
        if mode_at(modes, i) == OwnershipMode::BorrowMut {
            writebacks.push(
                HirWriteback { param: i as u32 + shift, place: HirPlace { local, path: Vec::new() } },
            );
            assert(writebacks@.drop_last() =~= done);
        }
        i += 1;
    }
    let ghost built = *program;
    let ghost given = args@;
    let ghost carried = writebacks@;
    let call = program.add_expr(
        HirExpr::Call { callee: Callee::User(target), args, ty: result, writebacks },
    );
    proof {
        let tail = given.skip(lead);
        if env is None {
            assert(tail =~= given);
        } else {
            assert(program.at(given[0]) == built.at(given[0]));
        }
        assert forall|k: int| 0 <= k < params@.len() implies reads_local(
            program,
            #[trigger] tail[k],
            LocalId((k + 1) as u32),
            params@[k],
        ) by {
            assert(program.at(tail[k]) == built.at(tail[k]));
        }
        assert(hands_on(program, call, target, env, params@, modes@, result));
    }
    let mut body: Vec<HirStmtId> = Vec::new();
    let ghost called = *program;
    if result == Type::Void {
        body.push(program.add_stmt(HirStmt::Expr { expr: call }));
        body.push(program.add_stmt(HirStmt::Return { value: None }));
    } else {
        body.push(program.add_stmt(HirStmt::Return { value: Some(call) }));
    }
    proof {
        lemma_hands_on_kept(
            &called,
            program,
            call,
            target,
            env,
            params@,
            modes@,
            result,
        );
    }
    body
}

/// Everything about a lifted function but its slots and its body.
pub open spec fn value_shell(
    function: HirFunction,
    name: FunctionName,
    params: int,
    result: Type,
    execution: Execution,
    span: Span,
) -> bool {
    &&& function.name == name
    &&& function.param_count == 1 + params
    &&& function.return_type == result
    &&& !function.is_main
    &&& !function.is_main_thread
    &&& !function.is_async
    &&& function.execution == execution
    &&& !function.mutates_self
    &&& function.name_span == span
    &&& function.signature.is_synthesized(function.return_type)
}

/// The slots of a lifted function whose parameters nothing names.
pub fn value_frame(
    repr: StructId,
    params: &Vec<Type>,
    modes: &Vec<OwnershipMode>,
    result: Type,
) -> (locals: Vec<HirLocal>)
    requires
        params@.len() < u32::MAX,
    ensures
        locals@ == value_locals(repr, params@, modes@),
{
    let mut ctx = FnCtx::new(result);
    let _ = ctx.declare_hidden(Type::Struct(repr), false);
    let mut i: usize = 0;
    while i < params.len()
        invariant
            i <= params@.len() < u32::MAX,
            ctx.wf(),
            ctx.locals@ == value_locals(repr, params@.take(i as int), modes@),
        decreases params@.len() - i,
    {
        let mode = mode_at(modes, i);
        let mutable = mode == OwnershipMode::BorrowMut;
        let _ = ctx.declare_hidden_as(params[i], mutable, mode);
        i += 1;
        assert(ctx.locals@ =~= value_locals(repr, params@.take(i as int), modes@));
    }
    assert(params@.take(i as int) =~= params@);
    ctx.locals
}

/// `function` adapts `target` to a function value: it drops the value and hands
/// the rest on.
pub open spec fn is_wrapper(
    program: &HirProgram,
    function: HirFunction,
    info: FnTypeInfo,
    target: FuncId,
    name: Symbol,
    number: u32,
    execution: Execution,
) -> bool {
    &&& value_shell(
        function,
        FunctionName::Reference { name, number },
        info.params@.len() as int,
        info.result,
        execution,
        Span::nowhere(),
    )
    &&& function.locals@ == value_locals(info.repr, info.params@, info.modes@)
    &&& returns_from(
        program,
        function.body@,
        target,
        None,
        info.params@,
        info.modes@,
        info.result,
    )
}

/// The adapter a dispatcher calls for a named function.
///
/// It runs on the engine the reference was written on, as a closure literal does.
pub fn named_function_wrapper(
    program: &mut HirProgram,
    info: &FnTypeInfo,
    target: FuncId,
    name: Symbol,
    number: u32,
    execution: Execution,
) -> (function: HirFunction)
    requires
        info.params@.len() < u32::MAX,
        old(program).room(info.params@.len() as int + 2),
    ensures
        final(program).built_on(old(program)),
        final(program).exprs@.len() <= old(program).exprs@.len() + info.params@.len() + 2,
        final(program).stmts@.len() <= old(program).stmts@.len() + 2,
        is_wrapper(final(program), function, *info, target, name, number, execution),
{
    let locals = value_frame(info.repr, &info.params, &info.modes, info.result);
    let body = hand_on(program, target, None, &info.params, &info.modes, info.result);
    HirFunction {
        name: FunctionName::Reference { name, number },
        param_count: 1 + info.params.len() as u32,
        return_type: info.result,
        locals,
        body,
        is_main: false,
        is_main_thread: false,
        is_async: false,
        execution,
        mutates_self: false,
        name_span: Span::nowhere(),
        signature: CallableSignature::synthesized(info.result),
    }
}

/// `id` asks whether the function value in slot 0 carries `tag`.
pub open spec fn asks_tag(program: &HirProgram, id: HirExprId, repr: StructId, tag: u32) -> bool {
    program.has_expr(id) && match program.at(id) {
        HirExpr::Binary { op, lhs, rhs, ty } => {
            &&& op == HirBinaryOp::EqInt
            &&& ty == Type::Bool
            &&& program.has_expr(lhs)
            &&& program.has_expr(rhs)
            &&& program.at(rhs) == HirExpr::Int(tag as i64)
            &&& (program.at(lhs) matches HirExpr::Field { base, index, ty: read } && index == 0
                && read == Type::plain_int() && reads_local(
                program,
                base,
                LocalId(0),
                Type::Struct(repr),
            ))
        },
        _ => false,
    }
}

/// `stmt` runs `implementation` when the value carries its tag, and nothing
/// otherwise.
pub open spec fn branches(
    program: &HirProgram,
    stmt: HirStmtId,
    info: FnTypeInfo,
    implementation: ClosureImpl,
) -> bool {
    stmt.0 < program.stmts@.len() && match program.stmts@[stmt.0 as int] {
        HirStmt::If { cond, then_body, else_body } => {
            &&& asks_tag(program, cond, info.repr, implementation.tag)
            &&& else_body@.len() == 0
            &&& returns_from(
                program,
                then_body@,
                implementation.function,
                Some(info.repr),
                info.params@,
                info.modes@,
                info.result,
            )
        },
        _ => false,
    }
}

/// `body` branches over every implementation of a function type, the last one
/// taken unasked. Where there is none it returns a value of the result type,
/// because a backend checks even a body nothing reaches.
pub open spec fn dispatches(
    program: &HirProgram,
    types: &crate::ty::TypeTable,
    body: Seq<HirStmtId>,
    info: FnTypeInfo,
) -> bool {
    let count = info.impls@.len() as int;
    if count == 0 {
        &&& body.len() == 1
        &&& body[0].0 < program.stmts@.len()
        &&& match program.stmts@[body[0].0 as int] {
            HirStmt::Return { value: None } => info.result == Type::Void,
            HirStmt::Return { value: Some(value) } => info.result != Type::Void && filler(
                program,
                types,
                value,
                info.result,
                0,
            ),
            _ => false,
        }
    } else {
        &&& body.len() >= count - 1
        &&& forall|i: int|
            0 <= i < count - 1 ==> branches(program, #[trigger] body[i], info, info.impls@[i])
        &&& returns_from(
            program,
            body.skip(count - 1),
            info.impls@[count - 1].function,
            Some(info.repr),
            info.params@,
            info.modes@,
            info.result,
        )
    }
}

proof fn lemma_branches_kept(
    before: &HirProgram,
    after: &HirProgram,
    stmt: HirStmtId,
    info: FnTypeInfo,
    implementation: ClosureImpl,
)
    requires
        grew(before.exprs@, after.exprs@),
        grew(before.stmts@, after.stmts@),
        branches(before, stmt, info, implementation),
    ensures
        branches(after, stmt, info, implementation),
{
    assert(after.stmts@[stmt.0 as int] == before.stmts@[stmt.0 as int]);
    match before.stmts@[stmt.0 as int] {
        HirStmt::If { cond, then_body, else_body } => {
            lemma_returns_from_kept(
                before,
                after,
                then_body@,
                implementation.function,
                Some(info.repr),
                info.params@,
                info.modes@,
                info.result,
            );
            lemma_asks_kept(before, after, cond, info.repr, implementation.tag);
        },
        _ => {},
    }
}

proof fn lemma_asks_kept(
    before: &HirProgram,
    after: &HirProgram,
    id: HirExprId,
    repr: StructId,
    tag: u32,
)
    requires
        grew(before.exprs@, after.exprs@),
        asks_tag(before, id, repr, tag),
    ensures
        asks_tag(after, id, repr, tag),
{
    assert(after.at(id) == before.at(id));
    let lhs = before.at(id)->Binary_lhs;
    let rhs = before.at(id)->rhs;
    assert(after.at(lhs) == before.at(lhs));
    assert(after.at(rhs) == before.at(rhs));
    let base = before.at(lhs)->Field_base;
    assert(after.at(base) == before.at(base));
}

/// A dispatcher stays one as the program grows.
pub proof fn lemma_dispatches_kept(
    before: &HirProgram,
    after: &HirProgram,
    types: &crate::ty::TypeTable,
    body: Seq<HirStmtId>,
    info: FnTypeInfo,
)
    requires
        grew(before.exprs@, after.exprs@),
        grew(before.stmts@, after.stmts@),
        dispatches(before, types, body, info),
    ensures
        dispatches(after, types, body, info),
{
    let count = info.impls@.len() as int;
    if count == 0 {
        assert(after.stmts@[body[0].0 as int] == before.stmts@[body[0].0 as int]);
        if let HirStmt::Return { value: Some(value) } = before.stmts@[body[0].0 as int] {
            lemma_filler_kept(before, after, types, value, info.result, 0, 0);
        }
    } else {
        assert forall|i: int| 0 <= i < count - 1 implies branches(
            after,
            #[trigger] body[i],
            info,
            info.impls@[i],
        ) by {
            lemma_branches_kept(before, after, body[i], info, info.impls@[i]);
        }
        lemma_returns_from_kept(
            before,
            after,
            body.skip(count - 1),
            info.impls@[count - 1].function,
            Some(info.repr),
            info.params@,
            info.modes@,
            info.result,
        );
    }
}

/// How many expressions one branch of a dispatcher takes at most.
pub open spec fn branch_cost(info: FnTypeInfo) -> int {
    info.params@.len() as int + 6
}

/// How many nodes a dispatcher takes at most.
pub open spec fn dispatcher_cost(types: &crate::ty::TypeTable, info: FnTypeInfo) -> int {
    info.impls@.len() * branch_cost(info) + filler_cost(types, info.result) + 1
}

fn emit_branch(
    program: &mut HirProgram,
    info: &FnTypeInfo,
    implementation: ClosureImpl,
) -> (stmt: HirStmtId)
    requires
        old(program).room(branch_cost(*info)),
    ensures
        final(program).built_on(old(program)),
        final(program).exprs@.len() <= old(program).exprs@.len() + branch_cost(*info),
        final(program).stmts@.len() <= old(program).stmts@.len() + 3,
        branches(final(program), stmt, *info, implementation),
{
    let then_body = hand_on(
        program,
        implementation.function,
        Some(info.repr),
        &info.params,
        &info.modes,
        info.result,
    );
    let ghost armed = *program;
    let base = program.add_expr(HirExpr::Local { local: LocalId(0), ty: Type::Struct(info.repr) });
    let lhs = program.add_expr(HirExpr::Field { base, index: 0, ty: Type::plain_int() });
    let rhs = program.add_expr(HirExpr::Int(implementation.tag as i64));
    let cond = program.add_expr(
        HirExpr::Binary { op: HirBinaryOp::EqInt, lhs, rhs, ty: Type::Bool },
    );
    let ghost arm = then_body@;
    let stmt = program.add_stmt(HirStmt::If { cond, then_body, else_body: Vec::new() });
    proof {
        lemma_returns_from_kept(
            &armed,
            program,
            arm,
            implementation.function,
            Some(info.repr),
            info.params@,
            info.modes@,
            info.result,
        );
    }
    stmt
}

/// The engine a function type's dispatcher runs on: native when any body it
/// dispatches to is, because a writeback call cannot cross between engines.
pub open spec fn engine_of(synth: &SynthTable, impls: Seq<ClosureImpl>) -> Execution {
    if exists|i: int|
        0 <= i < impls.len() && runs_native(synth, #[trigger] impls[i].function) {
        Execution::Native
    } else {
        Execution::Inherited
    }
}

/// Whether the synthesized function `id` is built and runs natively.
pub open spec fn runs_native(synth: &SynthTable, id: FuncId) -> bool {
    synth.filled(id) && (synth.row(id)->0).execution == Execution::Native
}

/// The engine a function type's dispatcher runs on.
pub fn dispatcher_execution(synth: &SynthTable, impls: &Vec<ClosureImpl>) -> (engine: Execution)
    requires
        forall|i: int|
            0 <= i < impls@.len() ==> synth.base <= (#[trigger] impls@[i]).function.0,
    ensures
        engine == engine_of(synth, impls@),
{
    let mut i: usize = 0;
    while i < impls.len()
        invariant
            i <= impls@.len(),
            forall|k: int|
                0 <= k < impls@.len() ==> synth.base <= (#[trigger] impls@[k]).function.0,
            forall|k: int|
                0 <= k < i ==> !runs_native(synth, #[trigger] impls@[k].function),
        decreases impls@.len() - i,
    {
        let index: usize = (impls[i].function.0 - synth.base) as usize;
        if index < synth.rows.len() {
            if let Some(function) = &synth.rows[index] {
                if function.execution == Execution::Native {
                    assert(runs_native(synth, impls@[i as int].function));
                    return Execution::Native;
                }
            }
        }
        i += 1;
    }
    Execution::Inherited
}

/// The branches of a dispatcher over the first implementations of a type.
fn emit_branches(program: &mut HirProgram, info: &FnTypeInfo, count: usize) -> (body: Vec<
    HirStmtId,
>)
    requires
        count <= info.impls@.len(),
        old(program).room(count * branch_cost(*info)),
    ensures
        final(program).built_on(old(program)),
        final(program).exprs@.len() <= old(program).exprs@.len() + count * branch_cost(*info),
        final(program).stmts@.len() <= old(program).stmts@.len() + count * branch_cost(*info),
        body@.len() == count,
        forall|i: int|
            0 <= i < count ==> branches(final(program), #[trigger] body@[i], *info, info.impls@[i]),
{
    let mut body: Vec<HirStmtId> = Vec::new();
    let mut i: usize = 0;
    let ghost cost = branch_cost(*info);
    assert(0 * cost == 0) by (nonlinear_arith);
    while i < count
        invariant
            i <= count <= info.impls@.len(),
            cost == branch_cost(*info),
            old(program).room(count * cost),
            program.built_on(old(program)),
            program.exprs@.len() <= old(program).exprs@.len() + i * cost,
            program.stmts@.len() <= old(program).stmts@.len() + i * cost,
            body@.len() == i,
            forall|k: int|
                0 <= k < i ==> branches(program, #[trigger] body@[k], *info, info.impls@[k]),
        decreases count - i,
    {
        proof {
            assert(i * cost + cost == (i + 1) * cost) by (nonlinear_arith);
            assert((i + 1) * cost <= count * cost) by (nonlinear_arith)
                requires
                    i + 1 <= count,
                    cost >= 0,
            ;
        }
        let ghost before = *program;
        let ghost held = body@;
        let stmt = emit_branch(program, info, info.impls[i]);
        body.push(stmt);
        proof {
            assert forall|k: int| 0 <= k < i + 1 implies branches(
                program,
                #[trigger] body@[k],
                *info,
                info.impls@[k],
            ) by {
                if k < i {
                    assert(body@[k] == held[k]);
                    lemma_branches_kept(&before, program, held[k], *info, info.impls@[k]);
                }
            }
        }
        i += 1;
    }
    body
}

/// The dispatcher of one function type: a branch per implementation.
///
/// The last implementation is the unconditional tail, because a tested last
/// branch would leave a fall-through with no value to return.
pub fn dispatcher_body(
    program: &mut HirProgram,
    synth: &SynthTable,
    info: &FnTypeInfo,
) -> (function: HirFunction)
    requires
        tagged(&old(program).types),
        info.params@.len() < u32::MAX,
        old(program).room(dispatcher_cost(&old(program).types, *info)),
        forall|i: int|
            0 <= i < info.impls@.len() ==> synth.base <= (#[trigger] info.impls@[i]).function.0,
    ensures
        final(program).built_on(old(program)),
        final(program).exprs@.len() <= old(program).exprs@.len() + dispatcher_cost(
            &old(program).types,
            *info,
        ),
        final(program).stmts@.len() <= old(program).stmts@.len() + dispatcher_cost(
            &old(program).types,
            *info,
        ),
        value_shell(
            function,
            FunctionName::ClosureCall(info.repr),
            info.params@.len() as int,
            info.result,
            engine_of(synth, info.impls@),
            Span::nowhere(),
        ),
        function.locals@ == value_locals(info.repr, info.params@, info.modes@),
        dispatches(final(program), &old(program).types, function.body@, *info),
{
    let execution = dispatcher_execution(synth, &info.impls);
    let locals = value_frame(info.repr, &info.params, &info.modes, info.result);
    let count: usize = info.impls.len();
    let ghost cost = branch_cost(*info);
    let mut body: Vec<HirStmtId> = Vec::new();
    if count == 0 {
        assert(0 * cost == 0) by (nonlinear_arith);
        if info.result == Type::Void {
            body.push(program.add_stmt(HirStmt::Return { value: None }));
        } else {
            let value = default_value(program, info.result);
            let ghost valued = *program;
            body.push(program.add_stmt(HirStmt::Return { value: Some(value) }));
            proof {
                lemma_filler_kept(
                    &valued,
                    program,
                    &old(program).types,
                    value,
                    info.result,
                    old(program).exprs@.len() as int,
                    0,
                );
            }
        }
    } else {
        proof {
            assert((count - 1) * cost + cost == count * cost) by (nonlinear_arith);
            assert((count - 1) * cost >= 0) by (nonlinear_arith)
                requires
                    count >= 1,
                    cost >= 0,
            ;
        }
        body = emit_branches(program, info, count - 1);
        let ghost branched = *program;
        let ghost held = body@;
        let mut tail = hand_on(
            program,
            info.impls[count - 1].function,
            Some(info.repr),
            &info.params,
            &info.modes,
            info.result,
        );
        let ghost last = tail@;
        body.append(&mut tail);
        proof {
            assert(body@.skip(count - 1) =~= last);
            assert forall|i: int| 0 <= i < count - 1 implies branches(
                program,
                #[trigger] body@[i],
                *info,
                info.impls@[i],
            ) by {
                assert(body@[i] == held[i]);
                lemma_branches_kept(&branched, program, held[i], *info, info.impls@[i]);
            }
        }
    }
    HirFunction {
        name: FunctionName::ClosureCall(info.repr),
        param_count: 1 + info.params.len() as u32,
        return_type: info.result,
        locals,
        body,
        is_main: false,
        is_main_thread: false,
        is_async: false,
        execution,
        mutates_self: false,
        name_span: Span::nowhere(),
        signature: CallableSignature::synthesized(info.result),
    }
}

/// What a dispatcher runs for a value carrying `tag`: the branch that asks for
/// it, and where none does, what comes after every branch.
pub open spec fn taken(program: &HirProgram, body: Seq<HirStmtId>, tag: int) -> Seq<HirStmtId>
    decreases body.len(),
{
    if body.len() == 0 {
        body
    } else {
        match program.stmts@[body[0].0 as int] {
            HirStmt::If { cond, then_body, .. } => if program.at(
                program.at(cond)->rhs,
            ) == HirExpr::Int(tag as i64) {
                then_body@
            } else {
                taken(program, body.drop_first(), tag)
            },
            _ => body,
        }
    }
}

/// A call through a function value runs exactly the implementation whose tag the
/// value carries, however many share its type.
pub proof fn a_value_runs_its_own_implementation(
    program: &HirProgram,
    types: &crate::ty::TypeTable,
    body: Seq<HirStmtId>,
    info: FnTypeInfo,
    i: int,
)
    requires
        0 <= i < info.impls@.len(),
        tags_differ(info.impls@),
        dispatches(program, types, body, info),
    ensures
        returns_from(
            program,
            taken(program, body, info.impls@[i].tag as int),
            info.impls@[i].function,
            Some(info.repr),
            info.params@,
            info.modes@,
            info.result,
        ),
{
    lemma_taken(program, types, body, info, i, 0);
    assert(body.skip(0) =~= body);
}

proof fn lemma_taken(
    program: &HirProgram,
    types: &crate::ty::TypeTable,
    body: Seq<HirStmtId>,
    info: FnTypeInfo,
    i: int,
    from: int,
)
    requires
        0 <= from <= i < info.impls@.len(),
        tags_differ(info.impls@),
        dispatches(program, types, body, info),
    ensures
        returns_from(
            program,
            taken(program, body.skip(from), info.impls@[i].tag as int),
            info.impls@[i].function,
            Some(info.repr),
            info.params@,
            info.modes@,
            info.result,
        ),
    decreases info.impls@.len() - from,
{
    let count = info.impls@.len() as int;
    let rest = body.skip(from);
    if from == count - 1 {
        assert(rest == body.skip(count - 1));
        assert(!(program.stmts@[rest[0].0 as int] is If));
    } else {
        assert(rest[0] == body[from]);
        assert(branches(program, body[from], info, info.impls@[from]));
        if from < i {
            assert(info.impls@[from].tag != info.impls@[i].tag);
            assert(rest.drop_first() =~= body.skip(from + 1));
            lemma_taken(program, types, body, info, i, from + 1);
        }
    }
}

proof fn lemma_writes_back(
    writebacks: Seq<HirWriteback>,
    modes: Seq<OwnershipMode>,
    count: int,
    shift: int,
    k: int,
)
    requires
        writes_back(writebacks, modes, count, shift),
        0 <= k < count < u32::MAX,
    ensures
        k < modes.len() && modes[k] == OwnershipMode::BorrowMut ==> exists|w: int|
            0 <= w < writebacks.len() && (#[trigger] writebacks[w]).param == k + shift
                && writebacks[w].place.local.0 == k + 1 && writebacks[w].place.path@.len() == 0,
        k >= modes.len() || modes[k] != OwnershipMode::BorrowMut ==> forall|w: int|
            0 <= w < writebacks.len() ==> (#[trigger] writebacks[w]).param != k + shift,
    decreases count,
{
    if mode_of(modes, count - 1) == OwnershipMode::BorrowMut {
        let rest = writebacks.drop_last();
        if k < count - 1 {
            lemma_writes_back(rest, modes, count - 1, shift, k);
            if k < modes.len() && modes[k] == OwnershipMode::BorrowMut {
                let w = choose|w: int|
                    0 <= w < rest.len() && (#[trigger] rest[w]).param == k + shift
                        && rest[w].place.local.0 == k + 1 && rest[w].place.path@.len() == 0;
                assert(writebacks[w] == rest[w]);
            } else {
                assert forall|w: int| 0 <= w < writebacks.len() implies (
                #[trigger] writebacks[w]).param != k + shift by {
                    if w < rest.len() {
                        assert(rest[w] == writebacks[w]);
                    }
                }
            }
        } else {
            assert(writebacks[writebacks.len() - 1].param == k + shift);
        }
    } else if k < count - 1 {
        lemma_writes_back(writebacks, modes, count - 1, shift, k);
    } else {
        lemma_writes_below(writebacks, modes, count - 1, shift);
    }
}

proof fn lemma_writes_below(
    writebacks: Seq<HirWriteback>,
    modes: Seq<OwnershipMode>,
    count: int,
    shift: int,
)
    requires
        writes_back(writebacks, modes, count, shift),
        0 <= count,
    ensures
        forall|w: int|
            0 <= w < writebacks.len() ==> (#[trigger] writebacks[w]).param < count + shift,
    decreases count,
{
    if count > 0 {
        if mode_of(modes, count - 1) == OwnershipMode::BorrowMut {
            let rest = writebacks.drop_last();
            lemma_writes_below(rest, modes, count - 1, shift);
            assert forall|w: int| 0 <= w < writebacks.len() implies (#[trigger] writebacks[w]).param
                < count + shift by {
                if w < rest.len() {
                    assert(rest[w] == writebacks[w]);
                }
            }
        } else {
            lemma_writes_below(writebacks, modes, count - 1, shift);
        }
    }
}

/// A call that a lifted function hands on passes everything it was called with: the
/// function value first where the target takes it, then every parameter, in order, read
/// from its own slot. Exactly the parameters lent to be written are written back, each
/// into its own slot.
pub proof fn a_handed_on_call_passes_everything(
    program: &HirProgram,
    id: HirExprId,
    target: FuncId,
    env: Option<StructId>,
    params: Seq<Type>,
    modes: Seq<OwnershipMode>,
    result: Type,
    k: int,
)
    requires
        hands_on(program, id, target, env, params, modes, result),
        params.len() < u32::MAX,
        0 <= k < params.len(),
    ensures
        program.at(id) matches HirExpr::Call { callee, args, ty, writebacks } && {
            let shift = if env is Some {
                1int
            } else {
                0int
            };
            &&& callee == Callee::User(target)
            &&& ty == result
            &&& args@.len() == params.len() + shift
            &&& program.at(args@[k + shift]) == (HirExpr::Local {
                local: LocalId((k + 1) as u32),
                ty: params[k],
            })
            &&& env matches Some(repr) ==> program.at(args@[0]) == (HirExpr::Local {
                local: LocalId(0),
                ty: Type::Struct(repr),
            })
            &&& k < modes.len() && modes[k] == OwnershipMode::BorrowMut ==> exists|w: int|
                0 <= w < writebacks@.len() && (#[trigger] writebacks@[w]).param == k + shift
                    && writebacks@[w].place.local.0 == k + 1 && writebacks@[w].place.path@.len()
                    == 0
            &&& k >= modes.len() || modes[k] != OwnershipMode::BorrowMut ==> forall|w: int|
                0 <= w < writebacks@.len() ==> (#[trigger] writebacks@[w]).param != k + shift
        },
{
    if let HirExpr::Call { args, writebacks, .. } = program.at(id) {
        match env {
            Some(_) => {
                lemma_writes_back(writebacks@, modes, params.len() as int, 1, k);
                assert(args@.skip(1).len() == args@.len() - 1);
                assert(args@.skip(1)[k] == args@[k + 1]);
                assert(reads_local(
                    program,
                    args@.skip(1)[k],
                    LocalId((k + 1) as u32),
                    params[k],
                ));
            },
            None => {
                lemma_writes_back(writebacks@, modes, params.len() as int, 0, k);
                assert(reads_local(program, args@[k], LocalId((k + 1) as u32), params[k]));
            },
        }
        if k < modes.len() {
            assert(modes[k] == modes[k]);
        }
    }
}

/// A dispatcher's branch runs for exactly its own tag: it compares the first field of the
/// function value it was called with against the implementation's tag, and hands the call
/// on with the value where they are equal.
pub proof fn a_branch_asks_for_its_own_tag(
    program: &HirProgram,
    types: &crate::ty::TypeTable,
    body: Seq<HirStmtId>,
    info: FnTypeInfo,
    i: int,
)
    requires
        dispatches(program, types, body, info),
        0 <= i < info.impls@.len() - 1,
    ensures
        program.stmts@[body[i].0 as int] matches HirStmt::If { cond, then_body, else_body } && {
            &&& else_body@.len() == 0
            &&& (program.at(cond) matches HirExpr::Binary { op, lhs, rhs, .. } && op
                == HirBinaryOp::EqInt && program.at(rhs) == HirExpr::Int(
                info.impls@[i].tag as i64,
            ) && (program.at(lhs) matches HirExpr::Field { base, index, .. } && index == 0
                && program.at(base) == (HirExpr::Local {
                local: LocalId(0),
                ty: Type::Struct(info.repr),
            })))
            &&& info.result == Type::Void ==> then_body@.len() == 2 && (
            program.stmts@[then_body@[0].0 as int] matches HirStmt::Expr { expr } && hands_on(
                program,
                expr,
                info.impls@[i].function,
                Some(info.repr),
                info.params@,
                info.modes@,
                info.result,
            )) && program.stmts@[then_body@[1].0 as int] == (HirStmt::Return { value: None })
            &&& info.result != Type::Void ==> then_body@.len() == 1 && (
            program.stmts@[then_body@[0].0 as int] matches HirStmt::Return { value: Some(value) }
                && hands_on(
                program,
                value,
                info.impls@[i].function,
                Some(info.repr),
                info.params@,
                info.modes@,
                info.result,
            ))
        },
{
    assert(branches(program, body[i], info, info.impls@[i]));
}

/// A dispatcher runs natively exactly if one of the functions it dispatches to is built
/// and runs natively.
pub proof fn a_dispatcher_runs_where_its_targets_do(synth: &SynthTable, impls: Seq<ClosureImpl>)
    ensures
        engine_of(synth, impls) == Execution::Native <==> exists|i: int|
            0 <= i < impls.len() && synth.filled((#[trigger] impls[i]).function) && (synth.row(
                impls[i].function,
            )->0).execution == Execution::Native,
{
    if exists|i: int| 0 <= i < impls.len() && runs_native(synth, #[trigger] impls[i].function) {
        let i = choose|i: int|
            0 <= i < impls.len() && runs_native(synth, #[trigger] impls[i].function);
        assert(synth.filled(impls[i].function));
    }
    if exists|i: int|
        0 <= i < impls.len() && synth.filled((#[trigger] impls[i]).function) && (synth.row(
            impls[i].function,
        )->0).execution == Execution::Native {
        let i = choose|i: int|
            0 <= i < impls.len() && synth.filled((#[trigger] impls[i]).function) && (synth.row(
                impls[i].function,
            )->0).execution == Execution::Native;
        assert(runs_native(synth, impls[i].function));
    }
}

/// A function that adapts a named one is called with a function value and then exactly
/// what the named one takes, gives what that gives, and hands every argument on to it.
pub proof fn a_wrapper_hands_its_arguments_on(
    program: &HirProgram,
    function: HirFunction,
    info: FnTypeInfo,
    target: FuncId,
    name: Symbol,
    number: u32,
    execution: Execution,
    k: int,
)
    requires
        is_wrapper(program, function, info, target, name, number, execution),
    ensures
        function.param_count == info.params@.len() + 1,
        function.return_type == info.result,
        function.execution == execution,
        function.locals@.len() == info.params@.len() + 1,
        function.locals@[0].ty == Type::Struct(info.repr),
        0 <= k < info.params@.len() ==> function.locals@[k + 1].ty == info.params@[k],
        0 <= k < info.params@.len() && k < info.modes@.len() ==> function.locals@[k + 1].ownership
            == info.modes@[k] && (function.locals@[k + 1].mutable <==> info.modes@[k]
            == OwnershipMode::BorrowMut),
        info.result == Type::Void ==> function.body@.len() == 2 && (
        program.stmts@[function.body@[0].0 as int] matches HirStmt::Expr { expr } && (
        program.at(expr) matches HirExpr::Call { callee, args, .. } && callee == Callee::User(
            target,
        ) && args@.len() == info.params@.len())),
        info.result != Type::Void ==> function.body@.len() == 1 && (
        program.stmts@[function.body@[0].0 as int] matches HirStmt::Return { value: Some(value) }
            && (program.at(value) matches HirExpr::Call { callee, args, .. } && callee
            == Callee::User(target) && args@.len() == info.params@.len())),
{
}

} // verus!
