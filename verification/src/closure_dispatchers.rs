//! Building every function type's dispatcher, and giving the synthesized
//! functions their final places.

use vstd::prelude::*;

use crate::closure_finish::{finalize_closure_values, sites_cost, sites_ready, values_completed};
use crate::default_values::tagged;
use crate::fn_types::{FnTypeInfo, FnTypeTable};
use crate::function_values::{
    dispatcher_body, dispatcher_cost, dispatches, engine_of, lemma_dispatches_kept, runs_native,
    value_locals, value_shell,
};
use crate::graph::{flags_down, lemma_unset_raise, unset};
use crate::hir::{
    Callee, FuncId, FunctionName, HirConstant, HirExpr, HirFunction, HirProgram, TaskTarget,
};
use crate::lift::ClosureSite;
use crate::signatures::CallableSignature;
use crate::source::Span;
use crate::synth::SynthTable;
use crate::ty::{Execution, Type, TypeTable};

verus! {

/// `function` dispatches calls through values of the type `info` describes.
pub open spec fn is_dispatcher(
    program: &HirProgram,
    types: &TypeTable,
    synth: &SynthTable,
    info: FnTypeInfo,
    function: HirFunction,
) -> bool {
    &&& value_shell(
        function,
        FunctionName::ClosureCall(info.repr),
        info.params@.len() as int,
        info.result,
        engine_of(synth, info.impls@),
        Span::nowhere(),
    )
    &&& function.locals@ == value_locals(info.repr, info.params@, info.modes@)
    &&& dispatches(program, types, function.body@, info)
}

/// What one row's dispatcher may take.
pub open spec fn row_cost(types: &TypeTable, info: FnTypeInfo) -> int {
    if info.dispatcher is Some {
        dispatcher_cost(types, info)
    } else {
        0
    }
}

/// What the dispatchers not built yet may take.
pub open spec fn cost_left(types: &TypeTable, rows: Seq<FnTypeInfo>, done: Seq<bool>) -> int
    decreases rows.len(),
{
    if rows.len() == 0 {
        0
    } else {
        cost_left(types, rows.drop_last(), done) + if done[rows.len() - 1] {
            0
        } else {
            row_cost(types, rows.last())
        }
    }
}

proof fn lemma_row_cost(types: &TypeTable, info: FnTypeInfo)
    ensures
        row_cost(types, info) >= 0,
{
    if info.dispatcher is Some {
        let cost = crate::function_values::branch_cost(info);
        assert(info.impls@.len() * cost >= 0) by (nonlinear_arith)
            requires
                cost >= 0,
        ;
    }
}

proof fn lemma_cost_left(types: &TypeTable, rows: Seq<FnTypeInfo>, done: Seq<bool>)
    ensures
        cost_left(types, rows, done) >= 0,
    decreases rows.len(),
{
    if rows.len() > 0 {
        lemma_cost_left(types, rows.drop_last(), done);
        lemma_row_cost(types, rows.last());
    }
}

proof fn lemma_cost_raise(types: &TypeTable, rows: Seq<FnTypeInfo>, done: Seq<bool>, i: int)
    requires
        0 <= i < rows.len() <= done.len(),
        !done[i],
    ensures
        cost_left(types, rows, done.update(i, true)) + row_cost(types, rows[i]) == cost_left(
            types,
            rows,
            done,
        ),
    decreases rows.len(),
{
    if i == rows.len() - 1 {
        lemma_cost_same(types, rows.drop_last(), done, done.update(i, true));
    } else {
        lemma_cost_raise(types, rows.drop_last(), done, i);
    }
}

proof fn lemma_cost_same(types: &TypeTable, rows: Seq<FnTypeInfo>, a: Seq<bool>, b: Seq<bool>)
    requires
        forall|k: int| 0 <= k < rows.len() ==> a[k] == b[k],
    ensures
        cost_left(types, rows, a) == cost_left(types, rows, b),
    decreases rows.len(),
{
    if rows.len() > 0 {
        lemma_cost_same(types, rows.drop_last(), a, b);
    }
}

/// Whether row `i` still needs its dispatcher built.
pub open spec fn waiting(rows: Seq<FnTypeInfo>, done: Seq<bool>, i: int) -> bool {
    0 <= i < rows.len() && !done[i] && rows[i].dispatcher is Some
}

/// The waiting row whose dispatcher has the least id.
fn next_dispatcher(rows: &Vec<FnTypeInfo>, done: &Vec<bool>) -> (next: Option<(usize, FuncId)>)
    requires
        done@.len() == rows@.len(),
    ensures
        match next {
            Some((i, id)) => waiting(rows@, done@, i as int) && rows@[i as int].dispatcher == Some(
                id,
            ) && forall|k: int| #[trigger]
                waiting(rows@, done@, k) ==> id.0 <= (rows@[k].dispatcher->0).0,
            None => forall|k: int| !#[trigger] waiting(rows@, done@, k),
        },
{
    let mut next: Option<(usize, FuncId)> = None;
    let mut i: usize = 0;
    while i < rows.len()
        invariant
            i <= rows@.len(),
            done@.len() == rows@.len(),
            match next {
                Some((at, id)) => at < i && waiting(rows@, done@, at as int)
                    && rows@[at as int].dispatcher == Some(id) && forall|k: int|
                    k < i && #[trigger] waiting(rows@, done@, k) ==> id.0 <= (
                    rows@[k].dispatcher->0).0,
                None => forall|k: int| k < i ==> !#[trigger] waiting(rows@, done@, k),
            },
        decreases rows@.len() - i,
    {
        if !done[i] {
            if let Some(id) = rows[i].dispatcher {
                assert(waiting(rows@, done@, i as int));
                match next {
                    Some((_, least)) => {
                        if id.0 < least.0 {
                            next = Some((i, id));
                        }
                    },
                    None => {
                        next = Some((i, id));
                    },
                }
            }
        }
        i += 1;
    }
    next
}

/// Every dispatcher is reserved, waiting for its body and no other's, and every
/// implementation is built.
pub open spec fn dispatchers_ready(synth: &SynthTable, rows: Seq<FnTypeInfo>) -> bool {
    &&& forall|i: int|
        0 <= i < rows.len() && (#[trigger] rows[i]).dispatcher is Some ==> synth.reserved(
            rows[i].dispatcher->0,
        ) && synth.row(rows[i].dispatcher->0) is None
    &&& forall|i: int, j: int|
        0 <= i < j < rows.len() && (#[trigger] rows[i]).dispatcher is Some ==> rows[i].dispatcher
            != (#[trigger] rows[j]).dispatcher
    &&& forall|i: int, k: int|
        0 <= i < rows.len() && 0 <= k < rows[i].impls@.len() ==> synth.filled(
            (#[trigger] rows[i].impls@[k]).function,
        )
    &&& forall|i: int| 0 <= i < rows.len() ==> (#[trigger] rows[i]).params@.len() < u32::MAX
}

/// Whether `id` is the dispatcher of one of `rows`.
pub open spec fn dispatches_for(rows: Seq<FnTypeInfo>, id: FuncId) -> bool {
    exists|i: int| 0 <= i < rows.len() && (#[trigger] rows[i]).dispatcher == Some(id)
}

/// Filling dispatchers changes no implementation's engine.
proof fn lemma_engine_kept(
    before: &SynthTable,
    after: &SynthTable,
    rows: Seq<FnTypeInfo>,
    i: int,
)
    requires
        0 <= i < rows.len(),
        dispatchers_ready(before, rows),
        after.base == before.base,
        after.rows@.len() == before.rows@.len(),
        forall|id: FuncId|
            before.reserved(id) && !dispatches_for(rows, id) ==> #[trigger] after.row(id)
                == before.row(id),
    ensures
        engine_of(after, rows[i].impls@) == engine_of(before, rows[i].impls@),
{
    let impls = rows[i].impls@;
    assert forall|k: int| 0 <= k < impls.len() implies runs_native(
        after,
        #[trigger] impls[k].function,
    ) == runs_native(before, impls[k].function) by {
        let id = rows[i].impls@[k].function;
        assert(before.filled(id));
        if dispatches_for(rows, id) {
            let j = choose|j: int|
                0 <= j < rows.len() && (#[trigger] rows[j]).dispatcher == Some(id);
            assert(before.row(id) is None);
        }
        assert(after.row(id) == before.row(id));
    }
}

/// Builds the body of every dispatcher a call reserved, in the order of their
/// ids.
pub fn build_dispatchers(program: &mut HirProgram, synth: &mut SynthTable, fn_types: &FnTypeTable)
    requires
        tagged(&old(program).types),
        dispatchers_ready(old(synth), fn_types.rows@),
        old(program).room(
            cost_left(
                &old(program).types,
                fn_types.rows@,
                Seq::new(fn_types.rows@.len(), |i: int| false),
            ),
        ),
    ensures
        final(program).built_on(old(program)),
        final(synth).base == old(synth).base,
        final(synth).rows@.len() == old(synth).rows@.len(),
        forall|id: FuncId|
            old(synth).reserved(id) && !dispatches_for(fn_types.rows@, id)
                ==> #[trigger] final(synth).row(id) == old(synth).row(id),
        forall|i: int|
            0 <= i < fn_types.rows@.len() && (#[trigger] fn_types.rows@[i]).dispatcher is Some ==> {
                let id = fn_types.rows@[i].dispatcher->0;
                &&& final(synth).filled(id)
                &&& is_dispatcher(
                    final(program),
                    &old(program).types,
                    old(synth),
                    fn_types.rows@[i],
                    final(synth).row(id)->0,
                )
            },
{
    let ghost types = program.types;
    let ghost rows = fn_types.rows@;
    let mut done = flags_down(fn_types.rows.len());
    assert(done@ =~= Seq::new(rows.len(), |i: int| false));
    loop
        invariant
            types == old(program).types,
            rows == fn_types.rows@,
            tagged(&types),
            dispatchers_ready(old(synth), rows),
            done@.len() == rows.len(),
            program.built_on(old(program)),
            program.exprs@.len() + cost_left(&types, rows, done@) <= u32::MAX,
            program.stmts@.len() + cost_left(&types, rows, done@) <= u32::MAX,
            synth.base == old(synth).base,
            synth.rows@.len() == old(synth).rows@.len(),
            forall|id: FuncId|
                old(synth).reserved(id) && !dispatches_for(rows, id) ==> #[trigger] synth.row(id)
                    == old(synth).row(id),
            forall|i: int|
                0 <= i < rows.len() && (#[trigger] rows[i]).dispatcher is Some && done@[i] ==> {
                    let id = rows[i].dispatcher->0;
                    &&& synth.filled(id)
                    &&& is_dispatcher(program, &types, old(synth), rows[i], synth.row(id)->0)
                },
        decreases unset(done@),
    {
        match next_dispatcher(&fn_types.rows, &done) {
            None => {
                assert forall|i: int|
                    0 <= i < rows.len() && (#[trigger] rows[i]).dispatcher is Some implies done@[i] by {
                    assert(!waiting(rows, done@, i));
                }
                return;
            },
            Some((at, id)) => {
                let ghost before = *program;
                let ghost synth_before = *synth;
                let ghost info = rows[at as int];
                proof {
                    lemma_cost_raise(&types, rows, done@, at as int);
                    lemma_cost_left(&types, rows, done@.update(at as int, true));
                    lemma_engine_kept(old(synth), synth, rows, at as int);
                    lemma_unset_raise(done@, at as int);
                    assert forall|k: int| 0 <= k < info.impls@.len() implies synth.base <= (
                    #[trigger] info.impls@[k]).function.0 by {
                        assert(old(synth).filled(rows[at as int].impls@[k].function));
                    }
                }
                let function = dispatcher_body(program, synth, &fn_types.rows[at]);
                let ghost made = function;
                synth.fill_synth(id, function);
                done[at] = true;
                proof {
                    assert(synth.row(id) == Some(made));
                    assert forall|other: FuncId|
                        old(synth).reserved(other) && !dispatches_for(
                            rows,
                            other,
                        ) implies #[trigger] synth.row(other) == old(synth).row(other) by {
                        assert(rows[at as int].dispatcher == Some(id));
                        assert(dispatches_for(rows, id));
                        assert(synth_before.row(other) == old(synth).row(other));
                    }
                    assert forall|i: int|
                        0 <= i < rows.len() && (#[trigger] rows[i]).dispatcher is Some
                            && done@[i] implies ({
                        let other = rows[i].dispatcher->0;
                        &&& synth.filled(other)
                        &&& is_dispatcher(
                            program,
                            &types,
                            old(synth),
                            rows[i],
                            synth.row(other)->0,
                        )
                    }) by {
                        let other = rows[i].dispatcher->0;
                        if i != at {
                            assert(other != id) by {
                                if i < at {
                                    assert(rows[i].dispatcher != rows[at as int].dispatcher);
                                } else {
                                    assert(rows[at as int].dispatcher != rows[i].dispatcher);
                                }
                            }
                            assert(synth_before.filled(other));
                            assert(synth.row(other) == synth_before.row(other));
                            lemma_dispatches_kept(
                                &before,
                                program,
                                &types,
                                (synth.row(other)->0).body@,
                                rows[i],
                            );
                        }
                    }
                }
            },
        }
    }
}

/// Where a temporary synthesized id ends up: after every ordinary function.
pub open spec fn placed(id: FuncId, base: u32, count: int, final_base: int) -> FuncId {
    if base <= id.0 < base + count {
        FuncId((final_base + (id.0 - base)) as u32)
    } else {
        id
    }
}

/// Where a temporary synthesized id ends up.
pub fn remap_synth_id(id: FuncId, base: u32, count: u32, final_base: u32) -> (moved: FuncId)
    requires
        final_base + count <= u32::MAX,
    ensures
        moved == placed(id, base, count as int, final_base as int),
{
    if id.0 >= base && id.0 - base < count {
        FuncId(final_base + (id.0 - base))
    } else {
        id
    }
}

/// `after` is `before` with what it calls or spawns in its final place.
pub open spec fn recalled(
    before: HirExpr,
    after: HirExpr,
    base: u32,
    count: int,
    final_base: int,
) -> bool {
    match before {
        HirExpr::Call { callee: Callee::User(id), args, ty, writebacks } => after == (
        HirExpr::Call {
            callee: Callee::User(placed(id, base, count, final_base)),
            args,
            ty,
            writebacks,
        }),
        HirExpr::TaskSpawn { target: TaskTarget::Call(id), args, ty } => after == (
        HirExpr::TaskSpawn {
            target: TaskTarget::Call(placed(id, base, count, final_base)),
            args,
            ty,
        }),
        HirExpr::MainThreadCall { function, args, ty } => after == (HirExpr::MainThreadCall {
            function: placed(function, base, count, final_base),
            args,
            ty,
        }),
        _ => after == before,
    }
}

fn recall(node: &mut HirExpr, base: u32, count: u32, final_base: u32)
    requires
        final_base + count <= u32::MAX,
    ensures
        recalled(*old(node), *final(node), base, count as int, final_base as int),
{
    match node {
        HirExpr::Call { callee, .. } => {
            if let Callee::User(id) = *callee {
                *callee = Callee::User(remap_synth_id(id, base, count, final_base));
            }
        },
        HirExpr::TaskSpawn { target, .. } => {
            if let TaskTarget::Call(id) = *target {
                *target = TaskTarget::Call(remap_synth_id(id, base, count, final_base));
            }
        },
        HirExpr::MainThreadCall { function, .. } => {
            *function = remap_synth_id(*function, base, count, final_base);
        },
        _ => {},
    }
}

/// Replaces temporary synthesized ids with their final places, in every
/// expression.
pub fn remap_synth_calls(program: &mut HirProgram, base: u32, count: u32, final_base: u32)
    requires
        final_base + count <= u32::MAX,
    ensures
        final(program).exprs@.len() == old(program).exprs@.len(),
        forall|i: int|
            0 <= i < old(program).exprs@.len() ==> recalled(
                old(program).exprs@[i],
                #[trigger] final(program).exprs@[i],
                base,
                count as int,
                final_base as int,
            ),
        *final(program) == (HirProgram { exprs: final(program).exprs, ..*old(program) }),
{
    let mut i: usize = 0;
    while i < program.exprs.len()
        invariant
            i <= program.exprs@.len(),
            final_base + count <= u32::MAX,
            program.exprs@.len() == old(program).exprs@.len(),
            forall|k: int|
                0 <= k < i ==> recalled(
                    old(program).exprs@[k],
                    #[trigger] program.exprs@[k],
                    base,
                    count as int,
                    final_base as int,
                ),
            forall|k: int|
                i <= k < old(program).exprs@.len() ==> #[trigger] program.exprs@[k]
                    == old(program).exprs@[k],
            *program == (HirProgram { exprs: program.exprs, ..*old(program) }),
        decreases program.exprs@.len() - i,
    {
        recall(&mut program.exprs[i], base, count, final_base);
        i += 1;
    }
}

/// What stands in for a reserved function that was never filled, so that no later
/// id shifts.
pub open spec fn is_unreachable(function: HirFunction) -> bool {
    &&& function.name == FunctionName::Unreachable
    &&& function.param_count == 0
    &&& function.return_type == Type::Void
    &&& function.locals@.len() == 0
    &&& function.body@.len() == 0
    &&& !function.is_main
    &&& !function.is_main_thread
    &&& !function.is_async
    &&& function.execution == Execution::Inherited
    &&& !function.mutates_self
    &&& function.name_span == Span::nowhere()
    &&& function.signature.is_synthesized(Type::Void)
}

/// The program after the synthesized functions were placed after every ordinary
/// one, each where every call of it now points.
pub open spec fn synth_placed(before: &HirProgram, after: &HirProgram, synth: &SynthTable) -> bool {
    let first = before.functions@.len() as int;
    let count = synth.rows@.len() as int;
    &&& after.functions@.len() == first + count
    &&& forall|i: int| 0 <= i < first ==> #[trigger] after.functions@[i] == before.functions@[i]
    &&& forall|k: int|
        0 <= k < count ==> match #[trigger] synth.rows@[k] {
            Some(function) => after.functions@[first + k] == function,
            None => is_unreachable(after.functions@[first + k]),
        }
    &&& after.exprs@.len() == before.exprs@.len()
    &&& forall|i: int|
        0 <= i < before.exprs@.len() ==> recalled(
            before.exprs@[i],
            #[trigger] after.exprs@[i],
            synth.base,
            count,
            first,
        )
    &&& after.constants@.len() == before.constants@.len()
    &&& forall|i: int|
        0 <= i < before.constants@.len() ==> #[trigger] after.constants@[i] == (HirConstant {
            init: placed(before.constants@[i].init, synth.base, count, first),
            ..before.constants@[i]
        })
    &&& *after == (HirProgram {
        exprs: after.exprs,
        constants: after.constants,
        functions: after.functions,
        ..*before
    })
}

/// Places the synthesized functions after every ordinary one and points every
/// call, spawn and constant at the places.
pub fn place_synth(program: &mut HirProgram, synth: SynthTable)
    requires
        synth.wf(),
        old(program).functions@.len() + synth.rows@.len() <= u32::MAX,
    ensures
        synth_placed(old(program), final(program), &synth),
{
    let base: u32 = synth.base;
    let count: u32 = synth.rows.len() as u32;
    let first: u32 = program.functions.len() as u32;
    remap_synth_calls(program, base, count, first);
    let ghost recalled_program = *program;
    let mut i: usize = 0;
    while i < program.constants.len()
        invariant
            i <= program.constants@.len(),
            first + count <= u32::MAX,
            program.constants@.len() == recalled_program.constants@.len(),
            forall|k: int|
                0 <= k < i ==> #[trigger] program.constants@[k] == (HirConstant {
                    init: placed(
                        recalled_program.constants@[k].init,
                        base,
                        count as int,
                        first as int,
                    ),
                    ..recalled_program.constants@[k]
                }),
            forall|k: int|
                i <= k < program.constants@.len() ==> #[trigger] program.constants@[k]
                    == recalled_program.constants@[k],
            *program == (HirProgram { constants: program.constants, ..recalled_program }),
        decreases program.constants@.len() - i,
    {
        let mut constant = program.constants[i];
        constant.init = remap_synth_id(constant.init, base, count, first);
        program.constants[i] = constant;
        i += 1;
    }
    let ghost remapped = *program;
    let ghost all = synth.rows@;
    let mut rows = synth.rows;
    place_rows(program, &mut rows);
    proof {
        assert(forall|k: int| 0 <= k < all.len() ==> synth.rows@[k] == all[k]);
    }
}

fn place_rows(program: &mut HirProgram, rows: &mut Vec<Option<HirFunction>>)
    ensures
        final(program).functions@.len() == old(program).functions@.len() + old(rows)@.len(),
        forall|i: int|
            0 <= i < old(program).functions@.len() ==> #[trigger] final(program).functions@[i]
                == old(program).functions@[i],
        forall|k: int|
            0 <= k < old(rows)@.len() ==> match #[trigger] old(rows)@[k] {
                Some(function) => final(program).functions@[old(program).functions@.len() + k]
                    == function,
                None => is_unreachable(final(program).functions@[old(program).functions@.len() + k]),
            },
        *final(program) == (HirProgram { functions: final(program).functions, ..*old(program) }),
{
    let ghost all = rows@;
    let ghost first = program.functions@.len() as int;
    let mut backwards: Vec<Option<HirFunction>> = Vec::new();
    while rows.len() > 0
        invariant
            rows@.len() + backwards@.len() == all.len(),
            rows@ == all.take(rows@.len() as int),
            forall|k: int|
                0 <= k < backwards@.len() ==> #[trigger] backwards@[k] == all[all.len() - 1 - k],
        decreases rows@.len(),
    {
        if let Some(row) = rows.pop() {
            assert(rows@ =~= all.take(rows@.len() as int));
            backwards.push(row);
        }
    }
    while backwards.len() > 0
        invariant
            all == old(rows)@,
            first == old(program).functions@.len(),
            backwards@.len() <= all.len(),
            forall|k: int|
                0 <= k < backwards@.len() ==> #[trigger] backwards@[k] == all[all.len() - 1 - k],
            program.functions@.len() == first + all.len() - backwards@.len(),
            forall|i: int|
                0 <= i < first ==> #[trigger] program.functions@[i] == old(program).functions@[i],
            forall|k: int|
                0 <= k < all.len() - backwards@.len() ==> match #[trigger] all[k] {
                    Some(function) => program.functions@[first + k] == function,
                    None => is_unreachable(program.functions@[first + k]),
                },
            *program == (HirProgram { functions: program.functions, ..*old(program) }),
        decreases backwards@.len(),
    {
        let row: Option<HirFunction> = match backwards.pop() {
            Some(row) => row,
            None => None,
        };
        let ghost before = *program;
        let ghost placed_now = all.len() - backwards@.len() - 1;
        assert(row == all[placed_now]);
        let function = match row {
            Some(function) => function,
            None => HirFunction {
                name: FunctionName::Unreachable,
                param_count: 0,
                return_type: Type::Void,
                locals: Vec::new(),
                body: Vec::new(),
                is_main: false,
                is_main_thread: false,
                is_async: false,
                execution: Execution::Inherited,
                mutates_self: false,
                name_span: Span::nowhere(),
                signature: CallableSignature::synthesized(Type::Void),
            },
        };
        program.functions.push(function);
        proof {
            assert forall|k: int| 0 <= k < all.len() - backwards@.len() implies match #[trigger] all[k] {
                Some(function) => program.functions@[first + k] == function,
                None => is_unreachable(program.functions@[first + k]),
            } by {
                if k < placed_now {
                    assert(program.functions@[first + k] == before.functions@[first + k]);
                }
            }
        }
    }
}

/// Finishing the function values of a program, stage by stage: the values are
/// completed, then the dispatchers built, then everything placed.
pub open spec fn closures_finished(
    before: &HirProgram,
    valued: &HirProgram,
    dispatched: &HirProgram,
    after: &HirProgram,
    synth: &SynthTable,
    filled: &SynthTable,
    fn_types: &FnTypeTable,
    sites: Seq<ClosureSite>,
) -> bool {
    &&& values_completed(before, valued, sites, sites.len() as int)
    &&& dispatched.built_on(valued)
    &&& filled.base == synth.base
    &&& filled.rows@.len() == synth.rows@.len()
    &&& forall|id: FuncId|
        synth.reserved(id) && !dispatches_for(fn_types.rows@, id) ==> #[trigger] filled.row(id)
            == synth.row(id)
    &&& forall|i: int|
        0 <= i < fn_types.rows@.len() && (#[trigger] fn_types.rows@[i]).dispatcher is Some ==> {
            let id = fn_types.rows@[i].dispatcher->0;
            &&& filled.filled(id)
            &&& is_dispatcher(
                dispatched,
                &before.types,
                synth,
                fn_types.rows@[i],
                filled.row(id)->0,
            )
        }
    &&& synth_placed(dispatched, after, filled)
}

/// Finishes the function values of a program: completes every value, builds every
/// dispatcher, and places the synthesized functions.
pub fn finalize_closures(
    program: &mut HirProgram,
    synth: SynthTable,
    fn_types: &FnTypeTable,
    sites: &Vec<ClosureSite>,
)
    requires
        synth.wf(),
        tagged(&old(program).types),
        sites_ready(old(program), sites@),
        dispatchers_ready(&synth, fn_types.rows@),
        old(program).functions@.len() + synth.rows@.len() <= u32::MAX,
        old(program).room(
            sites_cost(&old(program).types, sites@, sites@.len() as int) + cost_left(
                &old(program).types,
                fn_types.rows@,
                Seq::new(fn_types.rows@.len(), |i: int| false),
            ),
        ),
    ensures
        exists|valued: HirProgram, dispatched: HirProgram, filled: SynthTable| #[trigger]
            closures_finished(
                old(program),
                &valued,
                &dispatched,
                final(program),
                &synth,
                &filled,
                fn_types,
                sites@,
            ),
{
    let ghost before = *program;
    let ghost start = synth;
    let mut synth = synth;
    proof {
        lemma_cost_left(
            &before.types,
            fn_types.rows@,
            Seq::new(fn_types.rows@.len(), |i: int| false),
        );
    }
    finalize_closure_values(program, sites);
    let ghost valued = *program;
    build_dispatchers(program, &mut synth, fn_types);
    let ghost dispatched = *program;
    let ghost filled = synth;
    place_synth(program, synth);
    assert(closures_finished(
        &before,
        &valued,
        &dispatched,
        program,
        &start,
        &filled,
        fn_types,
        sites@,
    ));
}

/// A call of a synthesized function reaches that function's body in the finished
/// program, and a call of an ordinary one still reaches it.
pub proof fn a_placed_call_reaches_its_body(
    before: &HirProgram,
    after: &HirProgram,
    synth: &SynthTable,
    id: FuncId,
)
    requires
        synth_placed(before, after, synth),
        before.functions@.len() + synth.rows@.len() <= u32::MAX,
    ensures
        synth.filled(id) ==> after.functions@[placed(
            id,
            synth.base,
            synth.rows@.len() as int,
            before.functions@.len() as int,
        ).0 as int] == synth.row(id)->0,
        !synth.reserved(id) && id.0 < before.functions@.len() ==> after.functions@[placed(
            id,
            synth.base,
            synth.rows@.len() as int,
            before.functions@.len() as int,
        ).0 as int] == before.functions@[id.0 as int],
{
    if synth.filled(id) {
        let k = id.0 - synth.base;
        assert(synth.rows@[k] == synth.row(id));
    }
}

/// No two synthesized functions end up in the same place.
pub proof fn places_differ(a: FuncId, b: FuncId, base: u32, count: int, final_base: int)
    requires
        base <= a.0 < base + count,
        base <= b.0 < base + count,
        0 <= final_base,
        final_base + count <= u32::MAX,
        a != b,
    ensures
        placed(a, base, count, final_base) != placed(b, base, count, final_base),
{
}

/// Placing the synthesized functions points everything that enters one at its new place,
/// and changes nothing else of any expression: a call, a task or a main-thread dispatch of
/// a synthesized function enters it where it now is, one of an ordinary function enters
/// what it did, and a constant's initializer is found likewise.
pub proof fn placing_redirects_every_entry(
    before: &HirProgram,
    after: &HirProgram,
    synth: &SynthTable,
    e: int,
    c: int,
)
    requires
        synth_placed(before, after, synth),
        0 <= e < before.exprs@.len(),
        before.functions@.len() + synth.rows@.len() <= u32::MAX,
    ensures
        ({
            let first = before.functions@.len();
            let count = synth.rows@.len();
            let moved = |id: FuncId|
                if synth.base <= id.0 < synth.base + count {
                    first + (id.0 - synth.base)
                } else {
                    id.0 as int
                };
            &&& before.exprs@[e] matches HirExpr::Call { callee, args, ty, writebacks } ==> (
            after.exprs@[e] matches HirExpr::Call {
                callee: to,
                args: given,
                ty: of,
                writebacks: back,
            } && given == args && of == ty && back == writebacks && match callee {
                Callee::User(id) => to matches Callee::User(now) && now.0 == moved(id),
                _ => to == callee,
            })
            &&& before.exprs@[e] matches HirExpr::TaskSpawn { target: TaskTarget::Call(id), args, .. }
                ==> (after.exprs@[e] matches HirExpr::TaskSpawn {
                target: TaskTarget::Call(now),
                args: given,
                ..
            } && now.0 == moved(id) && given == args)
            &&& before.exprs@[e] matches HirExpr::MainThreadCall { function, args, .. } ==> (
            after.exprs@[e] matches HirExpr::MainThreadCall { function: now, args: given, .. }
                && now.0 == moved(function) && given == args)
            &&& !(before.exprs@[e] is Call) && !(before.exprs@[e] is TaskSpawn) && !(before.exprs@[e]
                is MainThreadCall) ==> after.exprs@[e] == before.exprs@[e]
            &&& 0 <= c < before.constants@.len() ==> after.constants@[c].init.0 == moved(
                before.constants@[c].init,
            ) && after.constants@[c].name == before.constants@[c].name && after.constants@[c].ty
                == before.constants@[c].ty
        }),
{
    assert(recalled(
        before.exprs@[e],
        after.exprs@[e],
        synth.base,
        synth.rows@.len() as int,
        before.functions@.len() as int,
    ));
    if 0 <= c < before.constants@.len() {
        assert(after.constants@[c] == after.constants@[c]);
    }
}

/// Once the closures are finished, every function type that was called has its dispatcher
/// built: it is called with the function value and then every parameter of the type, and
/// gives the type's result. Every other reserved function is left alone.
pub proof fn every_called_type_has_its_dispatcher(
    before: &HirProgram,
    valued: &HirProgram,
    dispatched: &HirProgram,
    after: &HirProgram,
    synth: &SynthTable,
    filled: &SynthTable,
    fn_types: &FnTypeTable,
    sites: Seq<ClosureSite>,
    i: int,
    k: int,
    id: FuncId,
)
    requires
        closures_finished(
            before,
            valued,
            dispatched,
            after,
            synth,
            filled,
            fn_types,
            sites,
        ),
        0 <= i < fn_types.rows@.len(),
    ensures
        fn_types.rows@[i].dispatcher == Some(id) ==> {
            let info = fn_types.rows@[i];
            let function = filled.row(id)->0;
            &&& filled.filled(id)
            &&& function.name == FunctionName::ClosureCall(info.repr)
            &&& function.param_count == info.params@.len() + 1
            &&& function.return_type == info.result
            &&& function.locals@.len() == info.params@.len() + 1
            &&& function.locals@[0].ty == Type::Struct(info.repr)
            &&& 0 <= k < info.params@.len() ==> function.locals@[k + 1].ty == info.params@[k]
            &&& 0 <= k < info.params@.len() && k < info.modes@.len() ==> (
            function.locals@[k + 1].mutable <==> info.modes@[k] == crate::ty::OwnershipMode::BorrowMut)
        },
        synth.reserved(id) && (forall|j: int|
            0 <= j < fn_types.rows@.len() ==> (#[trigger] fn_types.rows@[j]).dispatcher != Some(id))
            ==> filled.row(id) == synth.row(id),
{
    if fn_types.rows@[i].dispatcher == Some(id) {
        assert(fn_types.rows@[i].dispatcher is Some);
    }
    if synth.reserved(id) && (forall|j: int|
        0 <= j < fn_types.rows@.len() ==> (#[trigger] fn_types.rows@[j]).dispatcher != Some(id)) {
        assert(!dispatches_for(fn_types.rows@, id));
        assert(filled.row(id) == synth.row(id));
    }
}

/// Placing the synthesized functions appends them, in the order they were reserved, behind
/// the declared ones, which stay where they were; one that was never built takes nothing,
/// gives nothing and does nothing.
pub proof fn synthesized_functions_stand_behind_the_declared(
    before: &HirProgram,
    after: &HirProgram,
    synth: &SynthTable,
    k: int,
)
    requires
        synth_placed(before, after, synth),
    ensures
        after.functions@.len() == before.functions@.len() + synth.rows@.len(),
        0 <= k < before.functions@.len() ==> after.functions@[k] == before.functions@[k],
        0 <= k < synth.rows@.len() ==> match synth.rows@[k] {
            Some(function) => after.functions@[before.functions@.len() + k] == function,
            None => after.functions@[before.functions@.len() + k].param_count == 0
                && after.functions@[before.functions@.len() + k].body@.len() == 0
                && after.functions@[before.functions@.len() + k].return_type
                == crate::ty::Type::Void && after.functions@[before.functions@.len() + k].name
                == FunctionName::Unreachable,
        },
        after.stmts == before.stmts,
        after.types == before.types,
        after.constants@.len() == before.constants@.len(),
        0 <= k < before.constants@.len() ==> after.constants@[k].name == before.constants@[k].name
            && after.constants@[k].ty == before.constants@[k].ty,
{
    if 0 <= k < synth.rows@.len() {
        assert(synth.rows@[k] is Some || synth.rows@[k] is None);
    }
}

} // verus!
