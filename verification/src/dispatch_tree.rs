//! Balanced tag-tree functions for construct-family dispatch.
//!
//! A selector only reads the erased receiver's tag and forwards the same
//! receiver and arguments to a child. Keeping the tree separate from payload
//! arms makes the frame that performs selection independent of the concrete
//! aggregate each variant carries.

use vstd::prelude::*;

use crate::hir::{
    receiver_writeback, Callee, FuncId, FunctionName, HirBinaryOp, HirExpr, HirExprId, HirFunction,
    HirLocal, HirPlace, HirProgram, HirStmt, HirStmtId, HirWriteback, LocalId,
};
use crate::lists::copied;
use crate::names::Symbol;
use crate::scope::{declared_local, FnCtx};
use crate::signatures::CallableSignature;
use crate::source::Span;
use crate::synth::SynthTable;
use crate::ty::{EnumId, Execution, OwnershipMode, Type};

verus! {

/// One concrete declaration a family value can hold.
#[derive(Clone, Copy, PartialEq, Eq, Structural, Debug)]
pub struct ConstructVariant {
    pub tag: u32,
    pub ty: Type,
    /// How the declaration's type is spelled where it owns a member.
    pub name: Symbol,
}

/// One family method being given its dispatcher.
#[derive(Debug)]
pub struct DispatchMethod {
    pub family: Symbol,
    pub method: Symbol,
    /// The synthesized enum a family value is.
    pub family_id: EnumId,
    pub params: Vec<Type>,
    pub result: Type,
    pub mutates_self: bool,
}

/// The slot a family value arrives in.
pub open spec fn receiver_local(dispatch: &DispatchMethod) -> HirLocal {
    declared_local(
        None,
        Type::Enum(dispatch.family_id),
        dispatch.mutates_self,
        if dispatch.mutates_self {
            OwnershipMode::BorrowMut
        } else {
            OwnershipMode::BorrowRead
        },
    )
}

/// The slots a dispatcher is called with: the family value, lent, and every
/// argument, lent.
pub open spec fn dispatch_locals(dispatch: &DispatchMethod) -> Seq<HirLocal> {
    seq![receiver_local(dispatch)] + dispatch.params@.map_values(
        |ty: Type| declared_local(None, ty, false, OwnershipMode::BorrowRead),
    )
}

/// Everything about a dispatch function but its body and its extra locals.
pub open spec fn dispatch_shell(
    function: HirFunction,
    dispatch: &DispatchMethod,
    name: FunctionName,
) -> bool {
    &&& function.name == name
    &&& function.param_count == 1 + dispatch.params@.len()
    &&& function.return_type == dispatch.result
    &&& !function.is_main
    &&& !function.is_main_thread
    &&& !function.is_async
    &&& function.execution == Execution::Inherited
    &&& function.mutates_self == dispatch.mutates_self
    &&& function.name_span == Span::nowhere()
    &&& function.signature.is_synthesized(function.return_type)
}

/// `id` reads `local`.
pub open spec fn reads_local(program: &HirProgram, id: HirExprId, local: LocalId, ty: Type) -> bool {
    program.has_expr(id) && program.at(id) == (HirExpr::Local { local, ty })
}

/// `args` are the parameters of a dispatcher from `first` on, in order.
pub open spec fn forwarded_args(
    program: &HirProgram,
    args: Seq<HirExprId>,
    params: Seq<Type>,
) -> bool {
    args.len() == params.len() && forall|k: int|
        0 <= k < params.len() ==> reads_local(
            program,
            #[trigger] args[k],
            LocalId((k + 1) as u32),
            params[k],
        )
}

/// `id` calls `callee` with the receiver and every argument a dispatcher was
/// given, and carries the receiver back where the method mutates it.
pub open spec fn forwarding_call(
    program: &HirProgram,
    id: HirExprId,
    dispatch: &DispatchMethod,
    callee: FuncId,
) -> bool {
    program.has_expr(id) && match program.at(id) {
        HirExpr::Call { callee: Callee::User(target), args, ty, writebacks } => {
            &&& target == callee
            &&& ty == dispatch.result
            &&& args@.len() > 0
            &&& reads_local(program, args@[0], LocalId(0), Type::Enum(dispatch.family_id))
            &&& forwarded_args(program, args@.skip(1), dispatch.params@)
            &&& receiver_writeback(writebacks@, dispatch.mutates_self, LocalId(0))
        },
        _ => false,
    }
}

/// `body` hands the call on to `callee` and returns what it returns.
pub open spec fn forwards(
    program: &HirProgram,
    body: Seq<HirStmtId>,
    dispatch: &DispatchMethod,
    callee: FuncId,
) -> bool {
    if dispatch.result == Type::Void {
        &&& body.len() == 2
        &&& body[0].0 < program.stmts@.len()
        &&& body[1].0 < program.stmts@.len()
        &&& program.stmts@[body[1].0 as int] == (HirStmt::Return { value: None })
        &&& (program.stmts@[body[0].0 as int] matches HirStmt::Expr { expr } && forwarding_call(
            program,
            expr,
            dispatch,
            callee,
        ))
    } else {
        &&& body.len() == 1
        &&& body[0].0 < program.stmts@.len()
        &&& (program.stmts@[body[0].0 as int] matches HirStmt::Return { value: Some(value) }
            && forwarding_call(program, value, dispatch, callee))
    }
}

/// `id` compares the receiver's tag to `wanted` by `op`.
pub open spec fn tag_test(
    program: &HirProgram,
    id: HirExprId,
    dispatch: &DispatchMethod,
    op: HirBinaryOp,
    wanted: u32,
) -> bool {
    program.has_expr(id) && match program.at(id) {
        HirExpr::Binary { op: found, lhs, rhs, ty } => {
            &&& found == op
            &&& ty == Type::Bool
            &&& program.has_expr(lhs)
            &&& program.has_expr(rhs)
            &&& program.at(rhs) == HirExpr::Int(wanted as i64)
            &&& (program.at(lhs) matches HirExpr::EnumTag { value } && reads_local(
                program,
                value,
                LocalId(0),
                Type::Enum(dispatch.family_id),
            ))
        },
        _ => false,
    }
}

/// `function` is one selector node: it tests the tag and forwards to `yes` or to
/// `no`.
pub open spec fn selector(
    program: &HirProgram,
    function: HirFunction,
    dispatch: &DispatchMethod,
    op: HirBinaryOp,
    wanted: u32,
    yes: FuncId,
    no: FuncId,
) -> bool {
    &&& function.locals@ == dispatch_locals(dispatch)
    &&& function.body@.len() == 1
    &&& function.body@[0].0 < program.stmts@.len()
    &&& match program.stmts@[function.body@[0].0 as int] {
        HirStmt::If { cond, then_body, else_body } => {
            &&& tag_test(program, cond, dispatch, op, wanted)
            &&& forwards(program, then_body@, dispatch, yes)
            &&& forwards(program, else_body@, dispatch, no)
        },
        _ => false,
    }
}

/// `function` is the root of a balanced selector over `arms`, its nodes numbered
/// from `number`.
pub open spec fn selects(
    program: &HirProgram,
    synth: &SynthTable,
    function: HirFunction,
    dispatch: &DispatchMethod,
    arms: Seq<(ConstructVariant, FuncId)>,
    fallback: FuncId,
    name: FunctionName,
    number: int,
) -> bool
    decreases arms.len(),
{
    dispatch_shell(function, dispatch, name) && if arms.len() <= 1 {
        arms.len() == 1 && selector(
            program,
            function,
            dispatch,
            HirBinaryOp::EqInt,
            arms[0].0.tag,
            arms[0].1,
            fallback,
        )
    } else {
        let middle = (arms.len() / 2) as int;
        exists|left: FuncId, right: FuncId|
            {
                &&& #[trigger] selector(
                    program,
                    function,
                    dispatch,
                    HirBinaryOp::LtInt,
                    arms[middle].0.tag,
                    left,
                    right,
                )
                &&& synth.filled(left)
                &&& synth.filled(right)
                &&& selects(
                    program,
                    synth,
                    synth.row(left)->0,
                    dispatch,
                    arms.take(middle),
                    fallback,
                    tree_name(dispatch, number),
                    number + 1,
                )
                &&& selects(
                    program,
                    synth,
                    synth.row(right)->0,
                    dispatch,
                    arms.skip(middle),
                    fallback,
                    tree_name(dispatch, number + 2 * middle - 1),
                    number + 2 * middle,
                )
            }
    }
}

/// The name of tree node `number`.
pub open spec fn tree_name(dispatch: &DispatchMethod, number: int) -> FunctionName {
    FunctionName::DispatchTree {
        family: dispatch.family,
        method: dispatch.method,
        number: number as u32,
    }
}

/// How many expressions one node takes at most.
pub open spec fn node_cost(dispatch: &DispatchMethod) -> int {
    2 * dispatch.params@.len() as int + 8
}

/// How many expressions and statements a tree over `arms` arms takes at most.
pub open spec fn tree_cost(dispatch: &DispatchMethod, arms: int) -> int {
    (2 * arms - 1) * node_cost(dispatch)
}

/// What was forwarded, tested or selected by nodes of `before` still is, once
/// more nodes are added.
proof fn lemma_forwards_kept(
    before: &HirProgram,
    after: &HirProgram,
    body: Seq<HirStmtId>,
    dispatch: &DispatchMethod,
    callee: FuncId,
)
    requires
        after.built_on(before),
        forwards(before, body, dispatch, callee),
    ensures
        forwards(after, body, dispatch, callee),
{
    let call = if dispatch.result == Type::Void {
        before.stmts@[body[0].0 as int]->expr
    } else {
        before.stmts@[body[0].0 as int]->Return_value->0
    };
    assert(after.at(call) == before.at(call));
    let args = before.at(call)->Call_args@;
    assert(after.at(args[0]) == before.at(args[0]));
    assert forall|k: int| 0 <= k < dispatch.params@.len() implies reads_local(
        after,
        #[trigger] args.skip(1)[k],
        LocalId((k + 1) as u32),
        dispatch.params@[k],
    ) by {
        assert(reads_local(
            before,
            args.skip(1)[k],
            LocalId((k + 1) as u32),
            dispatch.params@[k],
        ));
        assert(after.at(args.skip(1)[k]) == before.at(args.skip(1)[k]));
    }
    assert(after.stmts@[body[0].0 as int] == before.stmts@[body[0].0 as int]);
    if dispatch.result == Type::Void {
        assert(after.stmts@[body[1].0 as int] == before.stmts@[body[1].0 as int]);
    }
}

proof fn lemma_selector_kept(
    before: &HirProgram,
    after: &HirProgram,
    function: HirFunction,
    dispatch: &DispatchMethod,
    op: HirBinaryOp,
    wanted: u32,
    yes: FuncId,
    no: FuncId,
)
    requires
        after.built_on(before),
        selector(before, function, dispatch, op, wanted, yes, no),
    ensures
        selector(after, function, dispatch, op, wanted, yes, no),
{
    let at = function.body@[0].0 as int;
    assert(after.stmts@[at] == before.stmts@[at]);
    match before.stmts@[at] {
        HirStmt::If { cond, then_body, else_body } => {
            lemma_forwards_kept(before, after, then_body@, dispatch, yes);
            lemma_forwards_kept(before, after, else_body@, dispatch, no);
            assert(after.at(cond) == before.at(cond));
            let lhs = before.at(cond)->Binary_lhs;
            let rhs = before.at(cond)->rhs;
            assert(after.at(lhs) == before.at(lhs));
            assert(after.at(rhs) == before.at(rhs));
            let value = before.at(lhs)->EnumTag_value;
            assert(after.at(value) == before.at(value));
        },
        _ => {},
    }
}

/// A finished selector tree stays one as the program and the table grow.
pub proof fn lemma_selects_kept(
    before: &HirProgram,
    after: &HirProgram,
    synth: &SynthTable,
    grown: &SynthTable,
    function: HirFunction,
    dispatch: &DispatchMethod,
    arms: Seq<(ConstructVariant, FuncId)>,
    fallback: FuncId,
    name: FunctionName,
    number: int,
)
    requires
        after.built_on(before),
        grown.base == synth.base,
        grown.rows@.len() >= synth.rows@.len(),
        forall|i: int|
            0 <= i < synth.rows@.len() && (#[trigger] synth.rows@[i]) is Some ==> grown.rows@[i]
                == synth.rows@[i],
        selects(before, synth, function, dispatch, arms, fallback, name, number),
    ensures
        selects(after, grown, function, dispatch, arms, fallback, name, number),
    decreases arms.len(),
{
    if arms.len() <= 1 {
        lemma_selector_kept(
            before,
            after,
            function,
            dispatch,
            HirBinaryOp::EqInt,
            arms[0].0.tag,
            arms[0].1,
            fallback,
        );
    } else {
        let middle = (arms.len() / 2) as int;
        let (left, right) = choose|left: FuncId, right: FuncId|
            {
                &&& #[trigger] selector(
                    before,
                    function,
                    dispatch,
                    HirBinaryOp::LtInt,
                    arms[middle].0.tag,
                    left,
                    right,
                )
                &&& synth.filled(left)
                &&& synth.filled(right)
                &&& selects(
                    before,
                    synth,
                    synth.row(left)->0,
                    dispatch,
                    arms.take(middle),
                    fallback,
                    tree_name(dispatch, number),
                    number + 1,
                )
                &&& selects(
                    before,
                    synth,
                    synth.row(right)->0,
                    dispatch,
                    arms.skip(middle),
                    fallback,
                    tree_name(dispatch, number + 2 * middle - 1),
                    number + 2 * middle,
                )
            };
        lemma_selector_kept(
            before,
            after,
            function,
            dispatch,
            HirBinaryOp::LtInt,
            arms[middle].0.tag,
            left,
            right,
        );
        assert(grown.rows@[left.0 - synth.base] == synth.rows@[left.0 - synth.base]);
        assert(grown.rows@[right.0 - synth.base] == synth.rows@[right.0 - synth.base]);
        lemma_selects_kept(
            before,
            after,
            synth,
            grown,
            synth.row(left)->0,
            dispatch,
            arms.take(middle),
            fallback,
            tree_name(dispatch, number),
            number + 1,
        );
        lemma_selects_kept(
            before,
            after,
            synth,
            grown,
            synth.row(right)->0,
            dispatch,
            arms.skip(middle),
            fallback,
            tree_name(dispatch, number + 2 * middle - 1),
            number + 2 * middle,
        );
    }
}

/// Declares the slots a dispatcher is called with.
pub fn dispatch_frame(dispatch: &DispatchMethod) -> (ctx: FnCtx)
    requires
        dispatch.params@.len() < u32::MAX - 8,
    ensures
        ctx.wf(),
        ctx.locals@ == dispatch_locals(dispatch),
{
    let mut ctx = FnCtx::new(dispatch.result);
    let mode = if dispatch.mutates_self {
        OwnershipMode::BorrowMut
    } else {
        OwnershipMode::BorrowRead
    };
    let _ = ctx.declare_hidden_as(Type::Enum(dispatch.family_id), dispatch.mutates_self, mode);
    let mut k: usize = 0;
    assert(ctx.locals@ =~= dispatch_locals(dispatch).take(1));
    while k < dispatch.params.len()
        invariant
            dispatch.params@.len() < u32::MAX - 8,
            k <= dispatch.params@.len(),
            ctx.wf(),
            ctx.locals@ == dispatch_locals(dispatch).take(k + 1),
        decreases dispatch.params@.len() - k,
    {
        let _ = ctx.declare_hidden_as(dispatch.params[k], false, OwnershipMode::BorrowRead);
        k += 1;
        assert(ctx.locals@ =~= dispatch_locals(dispatch).take(k + 1));
    }
    assert(dispatch_locals(dispatch).take(k + 1) =~= dispatch_locals(dispatch));
    ctx
}

/// Reads every argument a dispatcher was given, in order, onto the end of
/// `args`.
pub fn forward_args(program: &mut HirProgram, params: &Vec<Type>, args: &mut Vec<HirExprId>)
    requires
        old(program).exprs@.len() + params@.len() <= u32::MAX,
        params@.len() < u32::MAX,
        old(args)@.len() == 1,
    ensures
        final(program).built_on(old(program)),
        final(program).stmts@ == old(program).stmts@,
        final(program).exprs@.len() == old(program).exprs@.len() + params@.len(),
        final(args)@.len() == 1 + params@.len(),
        final(args)@[0] == old(args)@[0],
        forwarded_args(final(program), final(args)@.skip(1), params@),
{
    let mut k: usize = 0;
    while k < params.len()
        invariant
            k <= params@.len(),
            params@.len() < u32::MAX,
            old(program).exprs@.len() + params@.len() <= u32::MAX,
            program.built_on(old(program)),
            program.stmts@ == old(program).stmts@,
            program.exprs@.len() == old(program).exprs@.len() + k,
            args@.len() == 1 + k,
            args@[0] == old(args)@[0],
            forall|j: int|
                0 <= j < k ==> reads_local(
                    program,
                    #[trigger] args@[j + 1],
                    LocalId((j + 1) as u32),
                    params@[j],
                ),
        decreases params@.len() - k,
    {
        let ghost before = args@;
        let read = program.add_expr(
            HirExpr::Local { local: LocalId((k + 1) as u32), ty: params[k] },
        );
        args.push(read);
        k += 1;
        assert forall|j: int| 0 <= j < k implies reads_local(
            program,
            #[trigger] args@[j + 1],
            LocalId((j + 1) as u32),
            params@[j],
        ) by {
            if j < k - 1 {
                assert(args@[j + 1] == before[j + 1]);
            }
        }
    }
    assert forall|j: int| 0 <= j < params@.len() implies reads_local(
        program,
        #[trigger] args@.skip(1)[j],
        LocalId((j + 1) as u32),
        params@[j],
    ) by {
        assert(args@.skip(1)[j] == args@[j + 1]);
    }
}

/// Emits the small call and return body for one dispatcher branch.
pub fn construct_dispatch_function_call(
    program: &mut HirProgram,
    dispatch: &DispatchMethod,
    callee: FuncId,
) -> (body: Vec<HirStmtId>)
    requires
        dispatch.params@.len() < u32::MAX,
        old(program).exprs@.len() + dispatch.params@.len() + 2 <= u32::MAX,
        old(program).stmts@.len() + 2 <= u32::MAX,
    ensures
        final(program).built_on(old(program)),
        final(program).exprs@.len() == old(program).exprs@.len() + dispatch.params@.len() + 2,
        final(program).stmts@.len() <= old(program).stmts@.len() + 2,
        forwards(final(program), body@, dispatch, callee),
{
    let receiver = program.add_expr(
        HirExpr::Local { local: LocalId(0), ty: Type::Enum(dispatch.family_id) },
    );
    let mut args: Vec<HirExprId> = Vec::new();
    args.push(receiver);
    let ghost first = *program;
    forward_args(program, &dispatch.params, &mut args);
    let ghost second = *program;
    assert(second.at(receiver) == first.at(receiver));
    let mut writebacks: Vec<HirWriteback> = Vec::new();
    if dispatch.mutates_self {
        writebacks.push(
            HirWriteback { param: 0, place: HirPlace { local: LocalId(0), path: Vec::new() } },
        );
    }
    let ghost given = args@;
    let call = program.add_expr(
        HirExpr::Call { callee: Callee::User(callee), args, ty: dispatch.result, writebacks },
    );
    proof {
        assert forall|k: int| 0 <= k < dispatch.params@.len() implies reads_local(
            program,
            #[trigger] given.skip(1)[k],
            LocalId((k + 1) as u32),
            dispatch.params@[k],
        ) by {
            assert(reads_local(
                &second,
                given.skip(1)[k],
                LocalId((k + 1) as u32),
                dispatch.params@[k],
            ));
        }
        assert(program.at(receiver) == second.at(receiver));
        assert(forwarding_call(program, call, dispatch, callee));
    }
    let ghost third = *program;
    let mut body: Vec<HirStmtId> = Vec::new();
    if dispatch.result == Type::Void {
        body.push(program.add_stmt(HirStmt::Expr { expr: call }));
        body.push(program.add_stmt(HirStmt::Return { value: None }));
    } else {
        body.push(program.add_stmt(HirStmt::Return { value: Some(call) }));
    }
    proof {
        assert(program.exprs == third.exprs);
        assert(forwarding_call(program, call, dispatch, callee));
    }
    body
}

/// Emits the test of the receiver's tag against `wanted`.
fn emit_tag_test(
    program: &mut HirProgram,
    dispatch: &DispatchMethod,
    op: HirBinaryOp,
    wanted: u32,
) -> (cond: HirExprId)
    requires
        old(program).exprs@.len() + 4 <= u32::MAX,
    ensures
        final(program).built_on(old(program)),
        final(program).exprs@.len() == old(program).exprs@.len() + 4,
        final(program).stmts@ == old(program).stmts@,
        tag_test(final(program), cond, dispatch, op, wanted),
{
    let value = program.add_expr(
        HirExpr::Local { local: LocalId(0), ty: Type::Enum(dispatch.family_id) },
    );
    let tag = program.add_expr(HirExpr::EnumTag { value });
    let constant = program.add_expr(HirExpr::Int(wanted as i64));
    program.add_expr(HirExpr::Binary { op, lhs: tag, rhs: constant, ty: Type::Bool })
}

/// Emits one selector node's test and two branches, as one statement.
fn emit_selector(
    program: &mut HirProgram,
    dispatch: &DispatchMethod,
    op: HirBinaryOp,
    wanted: u32,
    yes: FuncId,
    no: FuncId,
    name: FunctionName,
) -> (function: HirFunction)
    requires
        dispatch.params@.len() < u32::MAX - 8,
        old(program).exprs@.len() + node_cost(dispatch) <= u32::MAX,
        old(program).stmts@.len() + 5 <= u32::MAX,
    ensures
        final(program).built_on(old(program)),
        final(program).exprs@.len() <= old(program).exprs@.len() + node_cost(dispatch),
        final(program).stmts@.len() <= old(program).stmts@.len() + 5,
        dispatch_shell(function, dispatch, name),
        selector(final(program), function, dispatch, op, wanted, yes, no),
{
    let ctx = dispatch_frame(dispatch);
    let cond = emit_tag_test(program, dispatch, op, wanted);
    let ghost first = *program;
    let then_body = construct_dispatch_function_call(program, dispatch, yes);
    let ghost second = *program;
    let else_body = if yes == no {
        copied(&then_body)
    } else {
        construct_dispatch_function_call(program, dispatch, no)
    };
    let ghost third = *program;
    proof {
        lemma_forwards_kept(&second, &third, then_body@, dispatch, yes);
    }
    let mut body: Vec<HirStmtId> = Vec::new();
    let ghost taken = then_body@;
    let ghost refused = else_body@;
    body.push(program.add_stmt(HirStmt::If { cond, then_body, else_body }));
    let function = HirFunction {
        name,
        param_count: 1 + dispatch.params.len() as u32,
        return_type: dispatch.result,
        locals: ctx.locals,
        body,
        is_main: false,
        is_main_thread: false,
        is_async: false,
        execution: Execution::Inherited,
        mutates_self: dispatch.mutates_self,
        name_span: Span::nowhere(),
        signature: CallableSignature::synthesized(dispatch.result),
    };
    proof {
        lemma_forwards_kept(&third, program, taken, dispatch, yes);
        lemma_forwards_kept(&third, program, refused, dispatch, no);
        let lhs = first.at(cond)->Binary_lhs;
        let rhs = first.at(cond)->rhs;
        let value = first.at(lhs)->EnumTag_value;
        assert(program.at(cond) == first.at(cond));
        assert(program.at(lhs) == first.at(lhs));
        assert(program.at(rhs) == first.at(rhs));
        assert(program.at(value) == first.at(value));
    }
    function
}

proof fn lemma_tree_cost(dispatch: &DispatchMethod, arms: int, middle: int)
    requires
        0 < middle < arms,
    ensures
        tree_cost(dispatch, middle) + tree_cost(dispatch, arms - middle) + node_cost(dispatch)
            == tree_cost(dispatch, arms),
        tree_cost(dispatch, middle) >= node_cost(dispatch),
        tree_cost(dispatch, arms - middle) >= node_cost(dispatch),
        tree_cost(dispatch, 1) == node_cost(dispatch),
{
    let cost = node_cost(dispatch);
    assert((2 * middle - 1) * cost + (2 * (arms - middle) - 1) * cost + cost == (2 * arms - 1)
        * cost) by (nonlinear_arith);
    assert((2 * middle - 1) * cost >= cost) by (nonlinear_arith)
        requires
            middle > 0,
            cost >= 0,
    ;
    assert((2 * (arms - middle) - 1) * cost >= cost) by (nonlinear_arith)
        requires
            arms - middle > 0,
            cost >= 0,
    ;
    assert((2 * 1 - 1) * cost == cost) by (nonlinear_arith);
}

/// Builds one node in a balanced tag selector tree over the arms from `low` up
/// to `high`.
#[verifier::rlimit(60)]
#[verifier::spinoff_prover]
pub fn construct_dispatch_tree_function(
    program: &mut HirProgram,
    synth: &mut SynthTable,
    dispatch: &DispatchMethod,
    arms: &Vec<(ConstructVariant, FuncId)>,
    low: usize,
    high: usize,
    fallback: FuncId,
    name: FunctionName,
    tree_number: &mut u32,
) -> (function: HirFunction)
    requires
        low < high <= arms@.len(),
        dispatch.params@.len() < u32::MAX - 8,
        old(program).exprs@.len() + tree_cost(dispatch, high - low) <= u32::MAX,
        old(program).stmts@.len() + 5 * (2 * (high - low) - 1) <= u32::MAX,
        old(synth).wf(),
        old(synth).base + old(synth).rows@.len() + 2 * (high - low) - 2 <= u32::MAX,
        *old(tree_number) + 2 * (high - low) - 2 <= u32::MAX,
    ensures
        final(program).built_on(old(program)),
        final(program).exprs@.len() <= old(program).exprs@.len() + tree_cost(dispatch, high - low),
        final(program).stmts@.len() <= old(program).stmts@.len() + 5 * (2 * (high - low) - 1),
        final(synth).wf(),
        final(synth).built_on(old(synth)),
        final(synth).rows@.len() == old(synth).rows@.len() + 2 * (high - low) - 2,
        *final(tree_number) == *old(tree_number) + 2 * (high - low) - 2,
        selects(
            final(program),
            final(synth),
            function,
            dispatch,
            arms@.subrange(low as int, high as int),
            fallback,
            name,
            *old(tree_number) as int,
        ),
    decreases high - low,
{
    let ghost mine = arms@.subrange(low as int, high as int);
    if high - low == 1 {
        let (variant, arm) = arms[low];
        proof {
            assert(tree_cost(dispatch, 1) == node_cost(dispatch)) by {
                lemma_tree_cost(dispatch, 2, 1);
            }
        }
        assert(mine[0] == arms@[low as int]);
        emit_selector(program, dispatch, HirBinaryOp::EqInt, variant.tag, arm, fallback, name)
    } else {
        let count: usize = high - low;
        let middle: usize = count / 2;
        let split: usize = low + middle;
        let pivot = arms[split].0.tag;
        proof {
            lemma_tree_cost(dispatch, count as int, middle as int);
        }
        let number: u32 = *tree_number;
        let ghost start = *synth;
        let left_id = synth.reserve_synth();
        *tree_number = *tree_number + 1;
        let ghost reserved_left = *synth;
        let left_name = FunctionName::DispatchTree {
            family: dispatch.family,
            method: dispatch.method,
            number,
        };
        let left = construct_dispatch_tree_function(
            program,
            synth,
            dispatch,
            arms,
            low,
            split,
            fallback,
            left_name,
            tree_number,
        );
        let ghost program_left = *program;
        let ghost built_left = *synth;
        let ghost left_function = left;
        assert(built_left.rows@[left_id.0 - start.base] is None);
        synth.fill_synth(left_id, left);
        let ghost filled_left = *synth;
        proof {
            lemma_selects_kept(
                &program_left,
                &program_left,
                &built_left,
                &filled_left,
                left_function,
                dispatch,
                arms@.subrange(low as int, split as int),
                fallback,
                left_name,
                number + 1,
            );
        }
        let right_id = synth.reserve_synth();
        let ghost reserved_right = *synth;
        let right_number: u32 = *tree_number;
        *tree_number = *tree_number + 1;
        let right_name = FunctionName::DispatchTree {
            family: dispatch.family,
            method: dispatch.method,
            number: right_number,
        };
        let right = construct_dispatch_tree_function(
            program,
            synth,
            dispatch,
            arms,
            split,
            high,
            fallback,
            right_name,
            tree_number,
        );
        let ghost program_right = *program;
        let ghost built_right = *synth;
        let ghost right_function = right;
        assert(built_right.rows@[right_id.0 - start.base] is None);
        assert(built_right.rows@[left_id.0 - start.base] == Some(left_function));
        synth.fill_synth(right_id, right);
        let ghost done = *synth;
        assert(done.row(left_id) == Some(left_function));
        assert(done.row(right_id) == Some(right_function));
        let function = emit_selector(
            program,
            dispatch,
            HirBinaryOp::LtInt,
            pivot,
            left_id,
            right_id,
            name,
        );
        proof {
            assert forall|i: int|
                0 <= i < filled_left.rows@.len() && (
                #[trigger] filled_left.rows@[i]) is Some implies done.rows@[i]
                == filled_left.rows@[i] by {
                assert(reserved_right.rows@[i] == filled_left.rows@[i]);
                assert(built_right.rows@[i] == reserved_right.rows@[i]);
            }
            lemma_selects_kept(
                &program_left,
                program,
                &filled_left,
                &done,
                left_function,
                dispatch,
                arms@.subrange(low as int, split as int),
                fallback,
                left_name,
                number + 1,
            );
            lemma_selects_kept(
                &program_right,
                program,
                &built_right,
                &done,
                right_function,
                dispatch,
                arms@.subrange(split as int, high as int),
                fallback,
                right_name,
                right_number + 1,
            );
            assert(mine.take(middle as int) =~= arms@.subrange(low as int, split as int));
            assert(mine.skip(middle as int) =~= arms@.subrange(split as int, high as int));
            assert(mine[middle as int] == arms@[split as int]);
            assert(selector(
                program,
                function,
                dispatch,
                HirBinaryOp::LtInt,
                mine[middle as int].0.tag,
                left_id,
                right_id,
            ));
            assert(done.built_on(&start)) by {
                assert forall|i: int| 0 <= i < start.rows@.len() implies #[trigger] done.rows@[i]
                    == start.rows@[i] by {
                    assert(reserved_left.rows@[i] == start.rows@[i]);
                    assert(built_left.rows@[i] == reserved_left.rows@[i]);
                    assert(reserved_right.rows@[i] == filled_left.rows@[i]);
                    assert(built_right.rows@[i] == reserved_right.rows@[i]);
                }
                assert forall|i: int|
                    start.rows@.len() <= i < done.rows@.len() implies (
                #[trigger] done.rows@[i]) is Some by {
                    if i < filled_left.rows@.len() {
                        if i != left_id.0 - start.base {
                            assert(built_left.rows@[i] is Some);
                        }
                        assert(filled_left.rows@[i] is Some);
                        assert(reserved_right.rows@[i] == filled_left.rows@[i]);
                        assert(built_right.rows@[i] == reserved_right.rows@[i]);
                    }
                }
            }
        }
        function
    }
}

/// Where a selector node sends a value tagged `tag`: the tag test decides
/// between the two branches, each of which calls one function.
pub open spec fn branch(program: &HirProgram, function: HirFunction, tag: u32) -> FuncId {
    match program.stmts@[function.body@[0].0 as int] {
        HirStmt::If { cond, then_body, else_body } => if test_holds(program, cond, tag) {
            callee_of(program, then_body@)
        } else {
            callee_of(program, else_body@)
        },
        _ => FuncId(0),
    }
}

/// What a tag test comes to for a value tagged `tag`.
pub open spec fn test_holds(program: &HirProgram, cond: HirExprId, tag: u32) -> bool {
    match program.at(cond) {
        HirExpr::Binary { op, rhs, .. } => match (op, program.at(rhs)) {
            (HirBinaryOp::EqInt, HirExpr::Int(wanted)) => tag == wanted,
            (HirBinaryOp::LtInt, HirExpr::Int(wanted)) => tag < wanted,
            _ => false,
        },
        _ => false,
    }
}

/// The function a branch's one call goes to.
pub open spec fn callee_of(program: &HirProgram, body: Seq<HirStmtId>) -> FuncId {
    let call = match program.stmts@[body[0].0 as int] {
        HirStmt::Expr { expr } => expr,
        HirStmt::Return { value: Some(value) } => value,
        _ => HirExprId(0),
    };
    match program.at(call) {
        HirExpr::Call { callee: Callee::User(target), .. } => target,
        _ => FuncId(0),
    }
}

/// The function a value tagged `tag` is finally handed to by the selector tree
/// of `count` arms rooted at `function`.
pub open spec fn route(
    program: &HirProgram,
    synth: &SynthTable,
    function: HirFunction,
    count: int,
    tag: u32,
) -> FuncId
    decreases count,
{
    let next = branch(program, function, tag);
    if count <= 1 {
        next
    } else {
        let middle = count / 2;
        let goes_left = match program.stmts@[function.body@[0].0 as int] {
            HirStmt::If { cond, .. } => test_holds(program, cond, tag),
            _ => false,
        };
        route(
            program,
            synth,
            synth.row(next)->0,
            if goes_left {
                middle
            } else {
                count - middle
            },
            tag,
        )
    }
}

/// The arm for `tag`, or the fallback where no arm is for it.
pub open spec fn arm_for(
    arms: Seq<(ConstructVariant, FuncId)>,
    fallback: FuncId,
    tag: u32,
    target: FuncId,
) -> bool {
    ||| exists|k: int| 0 <= k < arms.len() && (#[trigger] arms[k]).0.tag == tag && arms[k].1 == target
    ||| target == fallback && forall|k: int|
        0 <= k < arms.len() ==> (#[trigger] arms[k]).0.tag != tag
}

/// Arms in strictly ascending tag order.
pub open spec fn tags_ascend(arms: Seq<(ConstructVariant, FuncId)>) -> bool {
    forall|i: int, j: int|
        0 <= i < j < arms.len() ==> (#[trigger] arms[i]).0.tag < (#[trigger] arms[j]).0.tag
}

proof fn lemma_forwards_callee(
    program: &HirProgram,
    body: Seq<HirStmtId>,
    dispatch: &DispatchMethod,
    callee: FuncId,
)
    requires
        forwards(program, body, dispatch, callee),
    ensures
        callee_of(program, body) == callee,
{
}

/// Dispatch reaches the right arm: over arms in tag order, a value is handed to
/// the arm for its tag, and to the fallback exactly when no arm is for it.
pub proof fn dispatch_reaches_its_arm(
    program: &HirProgram,
    synth: &SynthTable,
    function: HirFunction,
    dispatch: &DispatchMethod,
    arms: Seq<(ConstructVariant, FuncId)>,
    fallback: FuncId,
    name: FunctionName,
    number: int,
    tag: u32,
)
    requires
        selects(program, synth, function, dispatch, arms, fallback, name, number),
        tags_ascend(arms),
    ensures
        arm_for(arms, fallback, tag, route(program, synth, function, arms.len() as int, tag)),
    decreases arms.len(),
{
    let at = function.body@[0].0 as int;
    if arms.len() <= 1 {
        match program.stmts@[at] {
            HirStmt::If { cond, then_body, else_body } => {
                lemma_forwards_callee(program, then_body@, dispatch, arms[0].1);
                lemma_forwards_callee(program, else_body@, dispatch, fallback);
                assert(arms[0].0.tag == arms[0].0.tag);
            },
            _ => {},
        }
    } else {
        let middle = (arms.len() / 2) as int;
        let (left, right) = choose|left: FuncId, right: FuncId|
            {
                &&& #[trigger] selector(
                    program,
                    function,
                    dispatch,
                    HirBinaryOp::LtInt,
                    arms[middle].0.tag,
                    left,
                    right,
                )
                &&& synth.filled(left)
                &&& synth.filled(right)
                &&& selects(
                    program,
                    synth,
                    synth.row(left)->0,
                    dispatch,
                    arms.take(middle),
                    fallback,
                    tree_name(dispatch, number),
                    number + 1,
                )
                &&& selects(
                    program,
                    synth,
                    synth.row(right)->0,
                    dispatch,
                    arms.skip(middle),
                    fallback,
                    tree_name(dispatch, number + 2 * middle - 1),
                    number + 2 * middle,
                )
            };
        match program.stmts@[at] {
            HirStmt::If { cond, then_body, else_body } => {
                lemma_forwards_callee(program, then_body@, dispatch, left);
                lemma_forwards_callee(program, else_body@, dispatch, right);
            },
            _ => {},
        }
        let lefts = arms.take(middle);
        let rights = arms.skip(middle);
        assert(tags_ascend(lefts));
        assert(tags_ascend(rights)) by {
            assert forall|i: int, j: int| 0 <= i < j < rights.len() implies (
            #[trigger] rights[i]).0.tag < (#[trigger] rights[j]).0.tag by {
                assert(arms[i + middle].0.tag < arms[j + middle].0.tag);
            }
        }
        let target = route(program, synth, function, arms.len() as int, tag);
        if tag < arms[middle].0.tag {
            dispatch_reaches_its_arm(
                program,
                synth,
                synth.row(left)->0,
                dispatch,
                lefts,
                fallback,
                tree_name(dispatch, number),
                number + 1,
                tag,
            );
            if exists|k: int|
                0 <= k < lefts.len() && (#[trigger] lefts[k]).0.tag == tag && lefts[k].1 == target {
                let k = choose|k: int|
                    0 <= k < lefts.len() && (#[trigger] lefts[k]).0.tag == tag && lefts[k].1
                        == target;
                assert(arms[k].0.tag == tag);
            } else {
                assert forall|k: int| 0 <= k < arms.len() implies (#[trigger] arms[k]).0.tag
                    != tag by {
                    if k < middle {
                        assert(lefts[k].0.tag != tag);
                    } else if k > middle {
                        assert(arms[middle].0.tag < arms[k].0.tag);
                    }
                }
            }
        } else {
            dispatch_reaches_its_arm(
                program,
                synth,
                synth.row(right)->0,
                dispatch,
                rights,
                fallback,
                tree_name(dispatch, number + 2 * middle - 1),
                number + 2 * middle,
                tag,
            );
            if exists|k: int|
                0 <= k < rights.len() && (#[trigger] rights[k]).0.tag == tag && rights[k].1
                    == target {
                let k = choose|k: int|
                    0 <= k < rights.len() && (#[trigger] rights[k]).0.tag == tag && rights[k].1
                        == target;
                assert(arms[k + middle].0.tag == tag);
            } else {
                assert forall|k: int| 0 <= k < arms.len() implies (#[trigger] arms[k]).0.tag
                    != tag by {
                    if k >= middle {
                        assert(rights[k - middle].0.tag != tag);
                    } else {
                        assert(arms[k].0.tag < arms[middle].0.tag);
                    }
                }
            }
        }
    }
}

/// How many selectors run before a value tagged `tag` reaches the function the tree of
/// `count` arms rooted at `function` hands it to.
pub open spec fn selectors_run(
    program: &HirProgram,
    synth: &SynthTable,
    function: HirFunction,
    count: int,
    tag: u32,
) -> int
    decreases count,
{
    if count <= 1 {
        1
    } else {
        let middle = count / 2;
        let goes_left = match program.stmts@[function.body@[0].0 as int] {
            HirStmt::If { cond, .. } => test_holds(program, cond, tag),
            _ => false,
        };
        1 + selectors_run(
            program,
            synth,
            synth.row(branch(program, function, tag))->0,
            if goes_left {
                middle
            } else {
                count - middle
            },
            tag,
        )
    }
}

/// Two, `levels` times over.
pub open spec fn doubled(levels: nat) -> int
    decreases levels,
{
    if levels == 0 {
        1
    } else {
        2 * doubled((levels - 1) as nat)
    }
}

/// The tree is balanced: a value passes at most one selector more than its arms can be
/// halved.
pub proof fn selection_is_shallow(
    program: &HirProgram,
    synth: &SynthTable,
    function: HirFunction,
    count: int,
    tag: u32,
    levels: nat,
)
    requires
        count <= doubled(levels),
    ensures
        1 <= selectors_run(program, synth, function, count, tag) <= 1 + levels,
    decreases count,
{
    if count > 1 {
        let middle = count / 2;
        let next = synth.row(branch(program, function, tag))->0;
        assert(levels > 0);
        selection_is_shallow(program, synth, next, middle, tag, (levels - 1) as nat);
        selection_is_shallow(program, synth, next, count - middle, tag, (levels - 1) as nat);
    }
}

/// A call a dispatcher hands on passes the family value first and then every argument, in
/// order, each read from its own slot, and carries the family value back exactly where the
/// method mutates it.
pub proof fn a_forwarded_call_passes_everything(
    program: &HirProgram,
    id: HirExprId,
    dispatch: &DispatchMethod,
    callee: FuncId,
    k: int,
)
    requires
        forwarding_call(program, id, dispatch, callee),
    ensures
        program.at(id) matches HirExpr::Call { callee: called, args, ty, writebacks } && {
            &&& called == Callee::User(callee)
            &&& ty == dispatch.result
            &&& args@.len() == dispatch.params@.len() + 1
            &&& program.at(args@[0]) == (HirExpr::Local {
                local: LocalId(0),
                ty: Type::Enum(dispatch.family_id),
            })
            &&& 0 <= k < dispatch.params@.len() ==> program.at(args@[k + 1]) == (HirExpr::Local {
                local: LocalId((k + 1) as u32),
                ty: dispatch.params@[k],
            })
            &&& dispatch.mutates_self ==> writebacks@.len() == 1 && writebacks@[0].param == 0
                && writebacks@[0].place.local == LocalId(0) && writebacks@[0].place.path@.len() == 0
            &&& !dispatch.mutates_self ==> writebacks@.len() == 0
        },
{
    if let HirExpr::Call { args, .. } = program.at(id) {
        if 0 <= k < dispatch.params@.len() {
            assert(args@.skip(1)[k] == args@[k + 1]);
            assert(reads_local(
                program,
                args@.skip(1)[k],
                LocalId((k + 1) as u32),
                dispatch.params@[k],
            ));
        }
    }
}

/// A selector compares the tag of the family value it was called with, and no other
/// number, and hands the call on whichever way the test goes.
pub proof fn a_selector_tests_the_values_own_tag(
    program: &HirProgram,
    function: HirFunction,
    dispatch: &DispatchMethod,
    op: HirBinaryOp,
    wanted: u32,
    yes: FuncId,
    no: FuncId,
)
    requires
        selector(program, function, dispatch, op, wanted, yes, no),
    ensures
        program.stmts@[function.body@[0].0 as int] matches HirStmt::If { cond, then_body, else_body }
            && {
            &&& (program.at(cond) matches HirExpr::Binary { op: found, lhs, rhs, .. } && found == op
                && program.at(rhs) == HirExpr::Int(wanted as i64) && (
            program.at(lhs) matches HirExpr::EnumTag { value } && program.at(value) == (
            HirExpr::Local { local: LocalId(0), ty: Type::Enum(dispatch.family_id) })))
            &&& callee_of(program, then_body@) == yes
            &&& callee_of(program, else_body@) == no
            &&& dispatch.result == Type::Void ==> then_body@.len() == 2 && else_body@.len() == 2
            &&& dispatch.result != Type::Void ==> then_body@.len() == 1 && (
            program.stmts@[then_body@[0].0 as int] matches HirStmt::Return { value: Some(_) })
                && else_body@.len() == 1 && (
            program.stmts@[else_body@[0].0 as int] matches HirStmt::Return { value: Some(_) })
        },
{
}

/// A dispatcher is called with the family value, lent as the method mutates it or not, and
/// every argument, and returns what the method does.
pub proof fn a_dispatcher_takes_what_its_method_does(
    function: HirFunction,
    dispatch: &DispatchMethod,
    name: FunctionName,
    k: int,
)
    requires
        dispatch_shell(function, dispatch, name),
        function.locals@ == dispatch_locals(dispatch),
    ensures
        function.param_count == dispatch.params@.len() + 1,
        function.return_type == dispatch.result,
        function.mutates_self == dispatch.mutates_self,
        function.locals@.len() == dispatch.params@.len() + 1,
        function.locals@[0].ty == Type::Enum(dispatch.family_id),
        function.locals@[0].mutable == dispatch.mutates_self,
        0 <= k < dispatch.params@.len() ==> function.locals@[k + 1].ty == dispatch.params@[k],
{
}

/// A dispatcher is lent the family value: to be written exactly where the method mutates
/// it, and to be read otherwise.
pub proof fn a_dispatcher_is_lent_the_family_value(dispatch: &DispatchMethod)
    ensures
        dispatch_locals(dispatch)[0].ownership == OwnershipMode::BorrowMut
            <==> dispatch.mutates_self,
        dispatch_locals(dispatch)[0].ownership == OwnershipMode::BorrowRead
            <==> !dispatch.mutates_self,
        dispatch_locals(dispatch)[0].name is None,
{
}

} // verus!
