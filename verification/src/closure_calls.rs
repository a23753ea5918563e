//! Calling a function value.
//!
//! The value becomes the dispatcher's first argument, exactly as a method's
//! receiver becomes its function's first parameter.

use vstd::prelude::*;

use crate::arguments::{all_carried, carry_arguments, mismatches, paired};
use crate::captures::{
    capture_room, captures_bound, frame_room, resolve_capturing, resolved_in, Captured, Threads,
};
use crate::diagnostics::{noted, CalleeName, Log, Problem};
use crate::fn_types::{lemma_row_for, row_for, FnTypeInfo, FnTypeTable};
use crate::hir::{
    Callee, FuncId, HirExpr, HirExprId, HirProgram, HirWriteback, LocalId,
};
use crate::lattice::Lattice;
use crate::names::Symbol;
use crate::scope::FnCtx;
use crate::source::Span;
use crate::synth::SynthTable;
use crate::ty::{FieldDef, FieldName, StructId, Type, TypeTable};

verus! {

/// What is called where a call names a binding.
#[derive(Clone, Copy, PartialEq, Eq, Structural, Debug)]
pub enum ValueCallee {
    /// The name is no function value, so the call is something else.
    NotOne,
    /// The binding was moved away, which the move checker reports.
    Moved { frame: usize, local: LocalId },
    /// The call was refused, which was reported.
    Refused(HirExprId),
    /// This value, of the function type with this struct.
    Value { callee: HirExprId, repr: StructId },
}

/// What calling the binding a name resolved to calls.
pub open spec fn called(
    before: &HirProgram,
    after: &HirProgram,
    fn_types: &FnTypeTable,
    frame: &FnCtx,
    at: usize,
    captured: Captured,
    found: ValueCallee,
) -> bool {
    match captured {
        Captured::Absent => found == ValueCallee::NotOne && *after == *before,
        Captured::Moved { frame, local } => found == (ValueCallee::Moved { frame, local })
            && *after == *before,
        Captured::Refused => {
            &&& found == ValueCallee::Refused(HirExprId(before.exprs@.len() as u32))
            &&& after.exprs@ == before.exprs@.push(HirExpr::Error)
            &&& *after == (HirProgram { exprs: after.exprs, ..*before })
        },
        Captured::Local(local) => {
            let ty = frame.locals@[local.0 as int].ty;
            match fn_types.function_repr(ty) {
                None => found == ValueCallee::NotOne && *after == *before,
                Some(repr) => if !frame.ownership@[local.0 as int].is_live() {
                    found == (ValueCallee::Moved { frame: at, local }) && *after == *before
                } else {
                    &&& found == (ValueCallee::Value {
                        callee: HirExprId(before.exprs@.len() as u32),
                        repr,
                    })
                    &&& after.exprs@ == before.exprs@.push(HirExpr::Local { local, ty })
                    &&& *after == (HirProgram { exprs: after.exprs, ..*before })
                },
            }
        },
    }
}

/// Reads the binding a called name resolved to, when it holds a function value.
pub fn local_callee(
    program: &mut HirProgram,
    fn_types: &FnTypeTable,
    frame: &FnCtx,
    at: usize,
    captured: Captured,
) -> (found: ValueCallee)
    requires
        old(program).exprs@.len() < u32::MAX,
        frame.wf(),
        captured matches Captured::Local(local) ==> frame.has(local),
    ensures
        called(old(program), final(program), fn_types, frame, at, captured, found),
{
    match captured {
        Captured::Absent => ValueCallee::NotOne,
        Captured::Moved { frame, local } => ValueCallee::Moved { frame, local },
        Captured::Refused => ValueCallee::Refused(program.add_expr(HirExpr::Error)),
        Captured::Local(local) => {
            let ty = frame.local_type(local);
            match fn_types.as_function_type(ty) {
                None => ValueCallee::NotOne,
                Some(repr) => {
                    if !frame.ownership_of(local).is_live() {
                        return ValueCallee::Moved { frame: at, local };
                    }
                    let callee = program.add_expr(HirExpr::Local { local, ty });
                    ValueCallee::Value { callee, repr }
                },
            }
        },
    }
}

/// Finds what `name(..)` calls when `name` is a binding of frame `at`, capturing
/// it out of an enclosing frame where that is where it lives.
pub fn analyze_local_closure_call(
    program: &mut HirProgram,
    fn_types: &FnTypeTable,
    lattice: &Lattice,
    frames: &mut Vec<FnCtx>,
    at: usize,
    name: Symbol,
    span: Span,
    log: &mut Log,
) -> (found: ValueCallee)
    requires
        old(program).exprs@.len() < u32::MAX,
        at < old(frames)@.len(),
        forall|i: int| 0 <= i < old(frames)@.len() ==> frame_room(#[trigger] &old(frames)@[i]),
        capture_room(&old(program).types, at as int),
    ensures
        exists|captured: Captured|
            {
                &&& #[trigger] resolved_in(
                    fn_types,
                    lattice,
                    old(log).source,
                    (Threads {
                        types: old(program).types,
                        frames: old(frames)@,
                        said: old(log).diagnostics@,
                    }),
                    (Threads {
                        types: final(program).types,
                        frames: final(frames)@,
                        said: final(log).diagnostics@,
                    }),
                    at as int,
                    name,
                    span,
                    captured,
                )
                &&& called(
                    &(HirProgram { types: final(program).types, ..*old(program) }),
                    final(program),
                    fn_types,
                    &final(frames)@[at as int],
                    at,
                    captured,
                    found,
                )
            },
        final(log).source == old(log).source,
        final(frames)@.len() == old(frames)@.len(),
        forall|i: int|
            0 <= i <= at ==> (#[trigger] final(frames)@[i]).wf() && captures_bound(
                &final(frames)@[i],
            ),
{
    let captured = resolve_capturing(
        &mut program.types,
        fn_types,
        lattice,
        frames,
        at,
        name,
        span,
        log,
    );
    assert(frames@[at as int].wf());
    local_callee(program, fn_types, &frames[at], at, captured)
}

/// The first field stored under `name`.
pub open spec fn field_named(fields: Seq<FieldDef>, name: FieldName) -> Option<int>
    decreases fields.len(),
{
    if fields.len() == 0 {
        None
    } else if fields[0].name == name {
        Some(0)
    } else {
        match field_named(fields.drop_first(), name) {
            Some(i) => Some(i + 1),
            None => None,
        }
    }
}

/// The first field stored under `name`.
pub fn find_field(fields: &Vec<FieldDef>, name: FieldName) -> (found: Option<usize>)
    ensures
        match found {
            Some(i) => field_named(fields@, name) == Some(i as int) && i < fields@.len()
                && fields@[i as int].name == name,
            None => field_named(fields@, name) is None,
        },
{
    let mut i: usize = 0;
    assert(fields@.skip(0) =~= fields@);
    while i < fields.len()
        invariant
            i <= fields@.len(),
            field_named(fields@, name) == match field_named(fields@.skip(i as int), name) {
                Some(k) => Some(k + i),
                None => None,
            },
        decreases fields@.len() - i,
    {
        assert(fields@.skip(i as int).drop_first() =~= fields@.skip(i + 1));
        if fields[i].name == name {
            return Some(i);
        }
        i += 1;
    }
    None
}

/// The field of function type `receiver.name(..)` calls through, and its type's
/// struct.
pub open spec fn function_field(
    types: &TypeTable,
    fn_types: &FnTypeTable,
    receiver: Type,
    name: Symbol,
) -> Option<(int, StructId)> {
    match receiver {
        Type::Struct(owner) => match field_named(types.fields(owner), FieldName::Plain(name)) {
            Some(index) => match fn_types.function_repr(types.fields(owner)[index].ty) {
                Some(repr) => Some((index, repr)),
                None => None,
            },
            None => None,
        },
        _ => None,
    }
}

/// Finds what `receiver.name(..)` calls when `name` is a field of function type
/// rather than a method.
pub fn analyze_field_closure_call(
    program: &mut HirProgram,
    fn_types: &FnTypeTable,
    receiver: HirExprId,
    receiver_ty: Type,
    name: Symbol,
) -> (found: Option<(HirExprId, StructId)>)
    requires
        old(program).exprs@.len() < u32::MAX,
        receiver_ty matches Type::Struct(owner) ==> old(program).types.fields(owner).len()
            <= u32::MAX,
    ensures
        match function_field(&old(program).types, fn_types, receiver_ty, name) {
            Some((index, repr)) => {
                &&& found matches Some((callee, struct_id)) && struct_id == repr && callee.0
                    == old(program).exprs@.len()
                &&& final(program).exprs@ == old(program).exprs@.push(
                    (HirExpr::Field {
                        base: receiver,
                        index: index as u32,
                        ty: old(program).types.fields(receiver_ty->Struct_0)[index].ty,
                    }),
                )
                &&& *final(program) == (HirProgram { exprs: final(program).exprs, ..*old(program) })
            },
            None => found is None && *final(program) == *old(program),
        },
{
    let owner = match receiver_ty {
        Type::Struct(owner) => owner,
        _ => {
            return None;
        },
    };
    if (owner.0 as usize) >= program.types.structs.len() {
        return None;
    }
    let index: usize = match find_field(
        &program.types.structs[owner.0 as usize].fields,
        FieldName::Plain(name),
    ) {
        Some(index) => index,
        None => {
            return None;
        },
    };
    let ty = program.types.structs[owner.0 as usize].fields[index].ty;
    match fn_types.as_function_type(ty) {
        Some(repr) => Some(
            (program.add_expr(HirExpr::Field { base: receiver, index: index as u32, ty }), repr),
        ),
        None => None,
    }
}

/// The tables after the dispatcher of the type with struct `repr` was asked for:
/// its id, reserved on first need.
pub open spec fn dispatcher_known(
    synth: &SynthTable,
    synth_after: &SynthTable,
    rows: Seq<FnTypeInfo>,
    rows_after: Seq<FnTypeInfo>,
    at: int,
    id: FuncId,
) -> bool {
    match rows[at].dispatcher {
        Some(known) => id == known && *synth_after == *synth && rows_after == rows,
        None => {
            &&& id.0 == synth.base + synth.rows@.len()
            &&& synth_after.base == synth.base
            &&& synth_after.rows@ == synth.rows@.push(None)
            &&& rows_after.len() == rows.len()
            &&& forall|k: int|
                0 <= k < rows.len() && k != at ==> #[trigger] rows_after[k] == rows[k]
            &&& rows_after[at] == (FnTypeInfo { dispatcher: Some(id), ..rows[at] })
        },
    }
}

/// The dispatcher of a function type, reserving its id on first need.
pub fn dispatcher_for(synth: &mut SynthTable, fn_types: &mut FnTypeTable, repr: StructId) -> (id:
    FuncId)
    requires
        old(synth).wf(),
        old(synth).base + old(synth).rows@.len() < u32::MAX,
        old(fn_types).wf(),
        old(fn_types).info(repr) is Some,
    ensures
        final(synth).wf(),
        final(fn_types).wf(),
        dispatcher_known(
            old(synth),
            final(synth),
            old(fn_types).rows@,
            final(fn_types).rows@,
            row_for(old(fn_types).rows@, repr)->0,
            id,
        ),
        final(fn_types).info(repr) == Some(
            (FnTypeInfo { dispatcher: Some(id), ..old(fn_types).info(repr)->0 }),
        ),
{
    let at: usize = match fn_types.find(repr) {
        Some(at) => at,
        None => 0,
    };
    if let Some(known) = fn_types.rows[at].dispatcher {
        return known;
    }
    let id = synth.reserve_synth();
    fn_types.rows[at].dispatcher = Some(id);
    proof {
        let rows = fn_types.rows@;
        let before = old(fn_types).rows@;
        assert forall|k: int| 0 <= k < rows.len() implies (#[trigger] rows[k]).repr
            == before[k].repr && rows[k].params == before[k].params && rows[k].modes
            == before[k].modes && rows[k].result == before[k].result && rows[k].impls
            == before[k].impls by {}
        lemma_row_for(rows, repr);
        lemma_row_for(before, repr);
        let j = row_for(rows, repr)->0;
        assert(rows[at as int].repr == repr);
        assert(before[j].repr == rows[j].repr);
        assert forall|a: int, b: int| 0 <= a < b < rows.len() implies !crate::fn_types::shaped(
            #[trigger] rows[a],
            (#[trigger] rows[b]).params@,
            rows[b].modes@,
            rows[b].result,
        ) by {
            assert(!crate::fn_types::shaped(
                before[a],
                before[b].params@,
                before[b].modes@,
                before[b].result,
            ));
        }
    }
    id
}

/// Reports a call through a function value with the wrong number of arguments.
pub fn check_value_arity(info: &FnTypeInfo, found: usize, span: Span, log: &mut Log)
    ensures
        final(log).source == old(log).source,
        if found != info.params@.len() {
            final(log).reported(
                old(log),
                old(log).source,
                span,
                (Problem::CallArity {
                    callee: CalleeName::Value(Type::Struct(info.repr)),
                    takes: info.params@.len() as usize,
                    found,
                }),
            )
        } else {
            final(log).quiet(old(log))
        },
{
    let takes: usize = info.params.len();
    if found != takes {
        log.emit(
            span,
            Problem::CallArity {
                callee: CalleeName::Value(Type::Struct(info.repr)),
                takes,
                found,
            },
        );
    }
}

/// Builds the call through a function value once its arguments are analyzed.
///
/// `values` are the arguments as analyzed and `writebacks` says where each one
/// lent to be written lands. An argument beyond the parameters is kept: the call
/// was already refused for it.
pub fn finish_closure_call(
    program: &mut HirProgram,
    lattice: &Lattice,
    info: &FnTypeInfo,
    dispatcher: FuncId,
    callee: HirExprId,
    values: &Vec<HirExprId>,
    writebacks: Vec<HirWriteback>,
    span: Span,
    log: &mut Log,
) -> (id: HirExprId)
    requires
        forall|k: int| 0 <= k < values@.len() ==> old(program).has_expr(#[trigger] values@[k]),
        old(program).exprs@.len() + values@.len() < u32::MAX,
    ensures
        final(program).built_on(old(program)),
        final(program).has_expr(id),
        final(program).at(id) matches HirExpr::Call { callee: target, args, ty, writebacks: carried }
            && target == Callee::User(dispatcher) && ty == info.result && carried == writebacks
            && args@.len() == values@.len() + 1 && args@[0] == callee && all_carried(
            old(program),
            final(program),
            lattice,
            values@,
            info.params@,
            args@.skip(1),
        ),
        final(log).source == old(log).source,
        final(log).diagnostics@ == old(log).diagnostics@ + noted(
            old(log).source,
            mismatches(
                old(program),
                lattice,
                values@,
                info.params@,
                CalleeName::Value(Type::Struct(info.repr)),
                span,
                paired(values@.len() as int, info.params@.len() as int),
            ),
        ),
{
    let mut args: Vec<HirExprId> = Vec::new();
    args.push(callee);
    let mut results = carry_arguments(
        program,
        lattice,
        values,
        &info.params,
        CalleeName::Value(Type::Struct(info.repr)),
        span,
        log,
    );
    let ghost carried = results@;
    let ghost before = *program;
    args.append(&mut results);
    assert(args@.skip(1) =~= carried);
    let id = program.add_expr(
        HirExpr::Call { callee: Callee::User(dispatcher), args, ty: info.result, writebacks },
    );
    proof {
        assert forall|k: int| 0 <= k < values@.len() implies if k < info.params@.len() {
            crate::arguments::carried(
                old(program),
                program,
                lattice,
                values@[k],
                info.params@[k],
                #[trigger] carried[k],
            )
        } else {
            carried[k] == values@[k]
        } by {
            assert(before.has_expr(carried[k]));
            assert(program.at(carried[k]) == before.at(carried[k]));
        }
    }
    id
}

/// A call through a value of one type always reaches the same dispatcher.
pub proof fn one_dispatcher_per_type(
    synth: &SynthTable,
    once: &SynthTable,
    twice: &SynthTable,
    rows: Seq<FnTypeInfo>,
    rows_once: Seq<FnTypeInfo>,
    rows_twice: Seq<FnTypeInfo>,
    at: int,
    first: FuncId,
    second: FuncId,
)
    requires
        0 <= at < rows.len(),
        dispatcher_known(synth, once, rows, rows_once, at, first),
        dispatcher_known(once, twice, rows_once, rows_twice, at, second),
    ensures
        second == first,
        *twice == *once,
        rows_twice == rows_once,
{
}

proof fn lemma_field_first(fields: Seq<FieldDef>, name: FieldName)
    ensures
        match field_named(fields, name) {
            Some(i) => 0 <= i < fields.len() && fields[i].name == name && forall|k: int|
                0 <= k < i ==> (#[trigger] fields[k]).name != name,
            None => forall|k: int| 0 <= k < fields.len() ==> (#[trigger] fields[k]).name != name,
        },
    decreases fields.len(),
{
    if fields.len() > 0 && fields[0].name != name {
        let rest = fields.drop_first();
        lemma_field_first(rest, name);
        match field_named(rest, name) {
            Some(i) => {
                assert(fields[i + 1] == rest[i]);
                assert forall|k: int| 0 <= k < i + 1 implies (#[trigger] fields[k]).name != name by {
                    if k > 0 {
                        assert(fields[k] == rest[k - 1]);
                    }
                }
            },
            None => {
                assert forall|k: int| 0 <= k < fields.len() implies (#[trigger] fields[k]).name
                    != name by {
                    if k > 0 {
                        assert(fields[k] == rest[k - 1]);
                    }
                }
            },
        }
    }
}

/// A call through a field goes to the first field stored under the name, exactly if that
/// field is of a function type; a receiver that is no struct, and a name no field has,
/// call nothing.
pub proof fn a_field_call_reaches_the_named_field(
    types: &TypeTable,
    fn_types: &FnTypeTable,
    owner: StructId,
    name: Symbol,
    k: int,
)
    requires
        0 <= k < types.fields(owner).len(),
        types.fields(owner)[k].name == FieldName::Plain(name),
        forall|j: int|
            0 <= j < k ==> (#[trigger] types.fields(owner)[j]).name != FieldName::Plain(name),
    ensures
        ({
            let found = function_field(types, fn_types, Type::Struct(owner), name);
            let held = types.fields(owner)[k].ty;
            &&& held matches Type::Struct(repr) ==> (fn_types.info(repr) is Some ==> found == Some(
                (k, repr),
            ))
            &&& !(held matches Type::Struct(repr) && fn_types.info(repr) is Some) ==> found is None
        }),
{
    lemma_field_first(types.fields(owner), FieldName::Plain(name));
    if let Some(i) = field_named(types.fields(owner), FieldName::Plain(name)) {
        if i < k {
            assert(types.fields(owner)[i].name != FieldName::Plain(name));
        }
        if k < i {
            assert(types.fields(owner)[k].name != FieldName::Plain(name));
        }
    }
}

/// A call of a name goes through the value the name is bound to exactly if the binding is
/// of a function type and was not moved away: the callee is a read of that slot.
pub proof fn a_named_call_reads_its_binding(
    before: &HirProgram,
    after: &HirProgram,
    fn_types: &FnTypeTable,
    frame: &FnCtx,
    at: usize,
    local: LocalId,
    found: ValueCallee,
)
    requires
        called(before, after, fn_types, frame, at, Captured::Local(local), found),
        before.exprs@.len() < u32::MAX,
    ensures
        ({
            let ty = frame.locals@[local.0 as int].ty;
            let function = ty matches Type::Struct(repr) && fn_types.info(repr) is Some;
            &&& !function ==> found == ValueCallee::NotOne
            &&& function && !frame.ownership@[local.0 as int].is_live() ==> found == (
            ValueCallee::Moved { frame: at, local })
            &&& function && frame.ownership@[local.0 as int].is_live() ==> (
            found matches ValueCallee::Value { callee, repr } && ty == Type::Struct(repr)
                && after.at(callee) == (HirExpr::Local { local, ty }))
        }),
{
}

/// A call through a function value goes to its type's one dispatcher, however often it is
/// asked for: the first time reserves it, for that type alone, and later times change
/// nothing.
pub proof fn a_types_dispatcher_is_reserved_once(
    synth: &SynthTable,
    synth_first: &SynthTable,
    synth_second: &SynthTable,
    rows: Seq<FnTypeInfo>,
    rows_first: Seq<FnTypeInfo>,
    rows_second: Seq<FnTypeInfo>,
    at: int,
    id: FuncId,
    again: FuncId,
    k: int,
)
    requires
        0 <= at < rows.len(),
        dispatcher_known(synth, synth_first, rows, rows_first, at, id),
        dispatcher_known(synth_first, synth_second, rows_first, rows_second, at, again),
    ensures
        again == id,
        *synth_second == *synth_first,
        rows_second == rows_first,
        rows_first.len() == rows.len(),
        rows_first[at].dispatcher == Some(id),
        rows_first[at].repr == rows[at].repr,
        rows_first[at].impls == rows[at].impls,
        rows_first[at].params == rows[at].params,
        0 <= k < rows.len() && k != at ==> rows_first[k] == rows[k],
        rows[at].dispatcher is None ==> id.0 == synth.base + synth.rows@.len()
            && synth_first.rows@.len() == synth.rows@.len() + 1 && synth_first.base == synth.base,
        rows[at].dispatcher is Some ==> *synth_first == *synth && rows_first == rows,
{
}

} // verus!
