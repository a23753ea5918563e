//! The body of a construct family's method dispatcher.

use vstd::prelude::*;

use crate::default_values::{default_value, filler, filler_cost, lemma_filler_kept, tagged};
use crate::dispatch_arm::{construct_dispatch_arm_function, is_arm, lemma_arm_kept, ArmTarget};
use crate::dispatch_tree::{
    construct_dispatch_tree_function, dispatch_frame, dispatch_locals, dispatch_reaches_its_arm,
    dispatch_shell, lemma_selects_kept, route, selects, ConstructVariant, DispatchMethod,
};
use crate::families::{FamilyInfo, FamilyMethod, FamilyTable};
use crate::hir::{FuncId, FunctionName, HirFunction, HirProgram, HirStmt, HirStmtId};
use crate::lists::copied;
use crate::method_lookup::{find_method, method_of};
use crate::names::Symbol;
use crate::signatures::{CallableSignature, FuncSig, SigTable};
use crate::source::Span;
use crate::synth::SynthTable;
use crate::ty::{Execution, Type, TypeTable};
use crate::value_members::ReadTables;

verus! {

/// The arm of one variant, where its declaration has the method.
pub open spec fn arm_of(
    sigs: Seq<FuncSig>,
    variant: ConstructVariant,
    method: Symbol,
) -> Option<ArmTarget> {
    match method_of(sigs, variant.ty, variant.name, method) {
        Some(target) => Some(
            ArmTarget { variant, target, result: sigs[target.0 as int].return_type },
        ),
        None => None,
    }
}

/// The arms of the first `count` variants that have the method, in order.
pub open spec fn arms_of(
    sigs: Seq<FuncSig>,
    variants: Seq<ConstructVariant>,
    method: Symbol,
    count: int,
) -> Seq<ArmTarget>
    decreases count,
{
    if count <= 0 {
        Seq::empty()
    } else {
        let before = arms_of(sigs, variants, method, count - 1);
        match arm_of(sigs, variants[count - 1], method) {
            Some(arm) => before.push(arm),
            None => before,
        }
    }
}

/// Every variant's tag is its place among the family's variants.
pub open spec fn tags_are_places(variants: Seq<ConstructVariant>) -> bool {
    forall|i: int| 0 <= i < variants.len() ==> (#[trigger] variants[i]).tag == i
}

/// The tags of every family's variants are their places.
pub open spec fn families_placed(table: &FamilyTable) -> bool {
    forall|f: int|
        0 <= f < table.families.rows@.len() ==> tags_are_places(
            (#[trigger] table.families.rows@[f]).1.variants@,
        )
}

/// The name of a family method's dispatcher.
pub open spec fn dispatcher_name(dispatch: &DispatchMethod) -> FunctionName {
    FunctionName::Dispatch { family: dispatch.family, method: dispatch.method }
}

/// `body` gives back the default of `result`, or nothing where it is void.
pub open spec fn returns_default(
    program: &HirProgram,
    types: &TypeTable,
    body: Seq<HirStmtId>,
    result: Type,
) -> bool {
    &&& body.len() == 1
    &&& body[0].0 < program.stmts@.len()
    &&& (program.stmts@[body[0].0 as int] matches HirStmt::Return { value } && match value {
        Some(id) => result != Type::Void && filler(program, types, id, result, 0),
        None => result == Type::Void,
    })
}

/// Each of `arms` is the built arm of the target it stands for.
pub open spec fn arms_built(
    program: &HirProgram,
    synth: &SynthTable,
    tables: &ReadTables,
    dispatch: &DispatchMethod,
    targets: Seq<ArmTarget>,
    arms: Seq<(ConstructVariant, FuncId)>,
) -> bool {
    &&& arms.len() == targets.len()
    &&& forall|i: int|
        0 <= i < arms.len() ==> {
            &&& (#[trigger] arms[i]).0 == targets[i].variant
            &&& synth.filled(arms[i].1)
            &&& is_arm(program, tables, synth.row(arms[i].1)->0, dispatch, targets[i])
        }
}

/// `function` selects among the built arms of `targets`, the last of them standing
/// in for a tag that has none.
pub open spec fn selects_arms(
    program: &HirProgram,
    synth: &SynthTable,
    tables: &ReadTables,
    function: HirFunction,
    dispatch: &DispatchMethod,
    targets: Seq<ArmTarget>,
    arms: Seq<(ConstructVariant, FuncId)>,
) -> bool {
    &&& arms.len() > 0
    &&& arms_built(program, synth, tables, dispatch, targets, arms)
    &&& selects(
        program,
        synth,
        function,
        dispatch,
        arms,
        arms.last().1,
        dispatcher_name(dispatch),
        0,
    )
}

/// `function` dispatches one family method over `variants`: through a balanced
/// tag tree over the arms of the declarations that have it, or to the default of
/// its result where none has.
pub open spec fn dispatches_family(
    program: &HirProgram,
    types: &TypeTable,
    synth: &SynthTable,
    tables: &ReadTables,
    sigs: Seq<FuncSig>,
    function: HirFunction,
    dispatch: &DispatchMethod,
    variants: Seq<ConstructVariant>,
) -> bool {
    let targets = arms_of(sigs, variants, dispatch.method, variants.len() as int);
    if targets.len() == 0 {
        &&& dispatch_shell(function, dispatch, dispatcher_name(dispatch))
        &&& function.locals@ == dispatch_locals(dispatch)
        &&& returns_default(program, types, function.body@, dispatch.result)
    } else {
        exists|arms: Seq<(ConstructVariant, FuncId)>| #[trigger]
            selects_arms(program, synth, tables, function, dispatch, targets, arms)
    }
}

/// Rows were added, and no built row changed.
pub open spec fn rows_kept(before: &SynthTable, after: &SynthTable) -> bool {
    &&& after.base == before.base
    &&& after.rows@.len() >= before.rows@.len()
    &&& forall|i: int|
        0 <= i < before.rows@.len() && (#[trigger] before.rows@[i]) is Some ==> after.rows@[i]
            == before.rows@[i]
}

/// A built dispatcher stays one as the program grows.
pub proof fn lemma_dispatches_family_kept(
    before: &HirProgram,
    after: &HirProgram,
    types: &TypeTable,
    synth: &SynthTable,
    grown: &SynthTable,
    tables: &ReadTables,
    sigs: Seq<FuncSig>,
    function: HirFunction,
    dispatch: &DispatchMethod,
    variants: Seq<ConstructVariant>,
)
    requires
        after.built_on(before),
        rows_kept(synth, grown),
        dispatches_family(before, types, synth, tables, sigs, function, dispatch, variants),
    ensures
        dispatches_family(after, types, grown, tables, sigs, function, dispatch, variants),
{
    let targets = arms_of(sigs, variants, dispatch.method, variants.len() as int);
    if targets.len() == 0 {
        let body = function.body@;
        if let HirStmt::Return { value: Some(id) } = before.stmts@[body[0].0 as int] {
            lemma_filler_kept(before, after, types, id, dispatch.result, 0, 0);
        }
        assert(after.stmts@[body[0].0 as int] == before.stmts@[body[0].0 as int]);
    } else {
        let arms = choose|arms: Seq<(ConstructVariant, FuncId)>| #[trigger]
            selects_arms(before, synth, tables, function, dispatch, targets, arms);
        lemma_arms_kept(before, after, synth, grown, tables, dispatch, targets, arms);
        lemma_selects_kept(
            before,
            after,
            synth,
            grown,
            function,
            dispatch,
            arms,
            arms.last().1,
            dispatcher_name(dispatch),
            0,
        );
        assert(selects_arms(after, grown, tables, function, dispatch, targets, arms));
    }
}

proof fn lemma_arms_kept(
    before: &HirProgram,
    after: &HirProgram,
    synth: &SynthTable,
    grown: &SynthTable,
    tables: &ReadTables,
    dispatch: &DispatchMethod,
    targets: Seq<ArmTarget>,
    arms: Seq<(ConstructVariant, FuncId)>,
)
    requires
        after.built_on(before),
        rows_kept(synth, grown),
        arms_built(before, synth, tables, dispatch, targets, arms),
    ensures
        arms_built(after, grown, tables, dispatch, targets, arms),
{
    assert forall|i: int| 0 <= i < arms.len() implies {
        &&& (#[trigger] arms[i]).0 == targets[i].variant
        &&& grown.filled(arms[i].1)
        &&& is_arm(after, tables, grown.row(arms[i].1)->0, dispatch, targets[i])
    } by {
        assert(synth.filled(arms[i].1));
        assert(synth.rows@[arms[i].1.0 - synth.base] is Some);
        lemma_arm_kept(
            before,
            after,
            tables,
            synth.row(arms[i].1)->0,
            dispatch,
            targets[i],
        );
    }
}

/// What a dispatcher over `variants` variants of a method with `params`
/// parameters may take.
pub open spec fn family_dispatch_cost(
    types: &TypeTable,
    params: int,
    result: Type,
    variants: int,
) -> int {
    variants * (5 * params + 24) + filler_cost(types, result) + 4
}

proof fn lemma_arm_step(done: int, params: int)
    ensures
        (done + 1) * (params + 8) == done * (params + 8) + params + 8,
{
    assert((done + 1) * (params + 8) == done * (params + 8) + params + 8) by (nonlinear_arith);
}

proof fn lemma_arm_room(done: int, variants: int, params: int)
    requires
        0 <= done <= variants,
        params >= 0,
    ensures
        done * (params + 8) <= variants * (5 * params + 24),
        done < variants ==> done * (params + 8) + params + 8 <= variants * (5 * params + 24),
        14 * done <= variants * (5 * params + 24),
        done > 0 ==> done * (params + 8) + (2 * done - 1) * (2 * params + 8) <= variants * (5
            * params + 24),
{
    assert(done * (params + 8) <= variants * (5 * params + 24)) by (nonlinear_arith)
        requires
            0 <= done <= variants,
            params >= 0,
    ;
    assert(14 * done <= variants * (5 * params + 24)) by (nonlinear_arith)
        requires
            0 <= done <= variants,
            params >= 0,
    ;
    if done < variants {
        assert((done + 1) * (params + 8) <= variants * (5 * params + 24)) by (nonlinear_arith)
            requires
                0 <= done < variants,
                params >= 0,
        ;
        lemma_arm_step(done, params);
    }
    if done > 0 {
        assert(done * (params + 8) + (2 * done - 1) * (2 * params + 8) == done * (5 * params + 24)
            - (2 * params + 8)) by (nonlinear_arith);
        assert(done * (5 * params + 24) <= variants * (5 * params + 24)) by (nonlinear_arith)
            requires
                0 <= done <= variants,
                params >= 0,
        ;
    }
}

/// The arms of every variant that has the method, built and in tag order.
fn build_arms(
    program: &mut HirProgram,
    synth: &mut SynthTable,
    tables: &ReadTables,
    sigs: &SigTable,
    dispatch: &DispatchMethod,
    variants: &Vec<ConstructVariant>,
) -> (arms: Vec<(ConstructVariant, FuncId)>)
    requires
        sigs.sigs@.len() <= u32::MAX,
        dispatch.params@.len() < u32::MAX - 8,
        old(synth).wf(),
        old(program).exprs@.len() + variants@.len() * (5 * dispatch.params@.len() + 24)
            <= u32::MAX,
        old(program).stmts@.len() + variants@.len() * (5 * dispatch.params@.len() + 24)
            <= u32::MAX,
        old(synth).base + old(synth).rows@.len() + variants@.len() <= u32::MAX,
    ensures
        final(program).built_on(old(program)),
        final(synth).wf(),
        final(synth).built_on(old(synth)),
        arms@.len() <= variants@.len(),
        final(synth).rows@.len() == old(synth).rows@.len() + arms@.len(),
        final(program).exprs@.len() <= old(program).exprs@.len() + arms@.len() * (
        dispatch.params@.len() + 8),
        final(program).stmts@.len() <= old(program).stmts@.len() + 4 * arms@.len(),
        arms_built(
            final(program),
            final(synth),
            tables,
            dispatch,
            arms_of(sigs.sigs@, variants@, dispatch.method, variants@.len() as int),
            arms@,
        ),
{
    let ghost p = dispatch.params@.len() as int;
    let ghost start = *program;
    let ghost synth_start = *synth;
    let mut arms: Vec<(ConstructVariant, FuncId)> = Vec::new();
    let mut i: usize = 0;
    assert(0 * (p + 8) == 0) by (nonlinear_arith);
    while i < variants.len()
        invariant
            i <= variants@.len(),
            p == dispatch.params@.len(),
            p < u32::MAX - 8,
            sigs.sigs@.len() <= u32::MAX,
            start == *old(program),
            synth_start == *old(synth),
            synth.wf(),
            start.exprs@.len() + variants@.len() * (5 * p + 24) <= u32::MAX,
            start.stmts@.len() + variants@.len() * (5 * p + 24) <= u32::MAX,
            synth_start.base + synth_start.rows@.len() + variants@.len() <= u32::MAX,
            program.built_on(&start),
            synth.built_on(&synth_start),
            arms@.len() <= i,
            synth.rows@.len() == synth_start.rows@.len() + arms@.len(),
            program.exprs@.len() <= start.exprs@.len() + arms@.len() * (p + 8),
            program.stmts@.len() <= start.stmts@.len() + 4 * arms@.len(),
            arms_built(
                program,
                synth,
                tables,
                dispatch,
                arms_of(sigs.sigs@, variants@, dispatch.method, i as int),
                arms@,
            ),
        decreases variants@.len() - i,
    {
        let variant = variants[i];
        if let Some(target) = find_method(sigs, variant.ty, variant.name, dispatch.method) {
            let ghost targets = arms_of(sigs.sigs@, variants@, dispatch.method, i as int);
            let ghost before = *program;
            let ghost synth_before = *synth;
            let ghost held = arms@;
            proof {
                lemma_arm_room(arms@.len() as int, variants@.len() as int, p);
                lemma_arm_step(arms@.len() as int, p);
            }
            let arm = ArmTarget {
                variant,
                target,
                result: sigs.sigs[target.0 as usize].return_type,
            };
            let id = synth.reserve_synth();
            let function = construct_dispatch_arm_function(program, tables, dispatch, arm);
            let ghost made = function;
            synth.fill_synth(id, function);
            arms.push((variant, id));
            proof {
                let now = targets.push(arm);
                assert(rows_kept(&synth_before, synth));
                lemma_arms_kept(
                    &before,
                    program,
                    &synth_before,
                    synth,
                    tables,
                    dispatch,
                    targets,
                    held,
                );
                assert forall|k: int| 0 <= k < arms@.len() implies {
                    &&& (#[trigger] arms@[k]).0 == now[k].variant
                    &&& synth.filled(arms@[k].1)
                    &&& is_arm(program, tables, synth.row(arms@[k].1)->0, dispatch, now[k])
                } by {
                    if k < held.len() {
                        assert(arms@[k] == held[k]);
                    } else {
                        assert(synth.row(id) == Some(made));
                    }
                }
            }
        }
        i += 1;
    }
    arms
}

/// Builds the body of one family method's dispatcher.
///
/// Each concrete implementation gets its own body first: keeping the payload
/// extraction and the call out of the selector is what prevents one large
/// function from collecting every arm's spills into one frame.
pub fn construct_dispatcher_body(
    program: &mut HirProgram,
    synth: &mut SynthTable,
    tables: &ReadTables,
    sigs: &SigTable,
    dispatch: &DispatchMethod,
    variants: &Vec<ConstructVariant>,
) -> (function: HirFunction)
    requires
        tags_are_places(variants@),
        tagged(&old(program).types),
        sigs.sigs@.len() <= u32::MAX,
        dispatch.params@.len() < u32::MAX - 8,
        old(synth).wf(),
        old(program).room(
            family_dispatch_cost(
                &old(program).types,
                dispatch.params@.len() as int,
                dispatch.result,
                variants@.len() as int,
            ),
        ),
        old(synth).base + old(synth).rows@.len() + 3 * variants@.len() <= u32::MAX,
    ensures
        final(program).built_on(old(program)),
        final(program).exprs@.len() <= old(program).exprs@.len() + family_dispatch_cost(
            &old(program).types,
            dispatch.params@.len() as int,
            dispatch.result,
            variants@.len() as int,
        ),
        final(program).stmts@.len() <= old(program).stmts@.len() + family_dispatch_cost(
            &old(program).types,
            dispatch.params@.len() as int,
            dispatch.result,
            variants@.len() as int,
        ),
        final(synth).wf(),
        final(synth).built_on(old(synth)),
        final(synth).rows@.len() <= old(synth).rows@.len() + 3 * variants@.len(),
        dispatches_family(
            final(program),
            &old(program).types,
            final(synth),
            tables,
            sigs.sigs@,
            function,
            dispatch,
            variants@,
        ),
{
    let ghost p = dispatch.params@.len() as int;
    let ghost start = *program;
    let ghost targets = arms_of(sigs.sigs@, variants@, dispatch.method, variants@.len() as int);
    let arms = build_arms(program, synth, tables, sigs, dispatch, variants);
    let count: usize = arms.len();
    proof {
        lemma_arm_room(count as int, variants@.len() as int, p);
    }
    if count == 0 {
        let ctx = dispatch_frame(dispatch);
        assert(0 * (p + 8) == 0) by (nonlinear_arith);
        let mut body: Vec<HirStmtId> = Vec::new();
        if dispatch.result == Type::Void {
            body.push(program.add_stmt(HirStmt::Return { value: None }));
        } else {
            let value = default_value(program, dispatch.result);
            let ghost valued = *program;
            body.push(program.add_stmt(HirStmt::Return { value: Some(value) }));
            proof {
                lemma_filler_kept(
                    &valued,
                    program,
                    &start.types,
                    value,
                    dispatch.result,
                    start.exprs@.len() as int,
                    0,
                );
            }
        }
        return HirFunction {
            name: FunctionName::Dispatch { family: dispatch.family, method: dispatch.method },
            param_count: 1 + dispatch.params.len() as u32,
            return_type: dispatch.result,
            locals: ctx.locals,
            body,
            is_main: false,
            is_main_thread: false,
            is_async: false,
            execution: Execution::Inherited,
            mutates_self: dispatch.mutates_self,
            name_span: Span::nowhere(),
            signature: CallableSignature::synthesized(dispatch.result),
        };
    }
    let fallback = arms[count - 1].1;
    let name = FunctionName::Dispatch { family: dispatch.family, method: dispatch.method };
    let mut tree_number: u32 = 0;
    let ghost before = *program;
    let ghost synth_before = *synth;
    let function = construct_dispatch_tree_function(
        program,
        synth,
        dispatch,
        &arms,
        0,
        count,
        fallback,
        name,
        &mut tree_number,
    );
    proof {
        assert(rows_kept(&synth_before, synth));
        lemma_arms_kept(
            &before,
            program,
            &synth_before,
            synth,
            tables,
            dispatch,
            targets,
            arms@,
        );
        assert(arms@.subrange(0, count as int) =~= arms@);
        assert(selects_arms(program, synth, tables, function, dispatch, targets, arms@));
    }
    function
}

/// The arms of a family stand in tag order as they are built, since a variant's tag
/// is its place.
pub proof fn arms_stand_in_tag_order(
    program: &HirProgram,
    synth: &SynthTable,
    tables: &ReadTables,
    sigs: Seq<FuncSig>,
    dispatch: &DispatchMethod,
    variants: Seq<ConstructVariant>,
    arms: Seq<(ConstructVariant, FuncId)>,
)
    requires
        tags_are_places(variants),
        variants.len() <= u32::MAX,
        arms_built(
            program,
            synth,
            tables,
            dispatch,
            arms_of(sigs, variants, dispatch.method, variants.len() as int),
            arms,
        ),
    ensures
        crate::dispatch_tree::tags_ascend(arms),
{
    lemma_tags_ascend(sigs, variants, dispatch.method, variants.len() as int);
}

proof fn lemma_tags_ascend(
    sigs: Seq<FuncSig>,
    variants: Seq<ConstructVariant>,
    method: Symbol,
    count: int,
)
    requires
        tags_are_places(variants),
        0 <= count <= variants.len() <= u32::MAX,
    ensures
        ({
            let arms = arms_of(sigs, variants, method, count);
            &&& forall|i: int, j: int|
                0 <= i < j < arms.len() ==> (#[trigger] arms[i]).variant.tag < (
                #[trigger] arms[j]).variant.tag
            &&& forall|i: int| 0 <= i < arms.len() ==> (#[trigger] arms[i]).variant.tag < count
        }),
    decreases count,
{
    if count > 0 {
        lemma_tags_ascend(sigs, variants, method, count - 1);
    }
}

/// A call through a family value runs the method of the declaration the value
/// holds: a built dispatcher hands a value tagged for a declaration that has the
/// method to that declaration's own arm.
pub proof fn a_family_call_runs_its_declaration(
    program: &HirProgram,
    types: &TypeTable,
    synth: &SynthTable,
    tables: &ReadTables,
    sigs: Seq<FuncSig>,
    function: HirFunction,
    dispatch: &DispatchMethod,
    variants: Seq<ConstructVariant>,
    k: int,
)
    requires
        tags_are_places(variants),
        variants.len() <= u32::MAX,
        dispatches_family(program, types, synth, tables, sigs, function, dispatch, variants),
        0 <= k < variants.len(),
        arm_of(sigs, variants[k], dispatch.method) is Some,
    ensures
        ({
            let targets = arms_of(sigs, variants, dispatch.method, variants.len() as int);
            let reached = route(program, synth, function, targets.len() as int, k as u32);
            &&& synth.filled(reached)
            &&& is_arm(
                program,
                tables,
                synth.row(reached)->0,
                dispatch,
                arm_of(sigs, variants[k], dispatch.method)->0,
            )
        }),
{
    let targets = arms_of(sigs, variants, dispatch.method, variants.len() as int);
    let j = lemma_arm_listed(sigs, variants, dispatch.method, variants.len() as int, k);
    let arms = choose|arms: Seq<(ConstructVariant, FuncId)>| #[trigger]
        selects_arms(program, synth, tables, function, dispatch, targets, arms);
    arms_stand_in_tag_order(program, synth, tables, sigs, dispatch, variants, arms);
    dispatch_reaches_its_arm(
        program,
        synth,
        function,
        dispatch,
        arms,
        arms.last().1,
        dispatcher_name(dispatch),
        0,
        k as u32,
    );
    assert(arms[j].0.tag == k as u32);
    let reached = route(program, synth, function, arms.len() as int, k as u32);
    let i = choose|i: int|
        0 <= i < arms.len() && (#[trigger] arms[i]).0.tag == k as u32 && arms[i].1 == reached;
    if i < j {
        assert(arms[i].0.tag < arms[j].0.tag);
    } else if j < i {
        assert(arms[j].0.tag < arms[i].0.tag);
    }
}

proof fn lemma_arm_listed(
    sigs: Seq<FuncSig>,
    variants: Seq<ConstructVariant>,
    method: Symbol,
    count: int,
    k: int,
) -> (j: int)
    requires
        0 <= k < count <= variants.len(),
        arm_of(sigs, variants[k], method) is Some,
    ensures
        0 <= j < arms_of(sigs, variants, method, count).len(),
        arms_of(sigs, variants, method, count)[j] == arm_of(sigs, variants[k], method)->0,
    decreases count,
{
    if k == count - 1 {
        arms_of(sigs, variants, method, count).len() - 1
    } else {
        lemma_arm_listed(sigs, variants, method, count - 1, k)
    }
}

/// What a dispatcher is built from, of a family's own method.
pub open spec fn describes(
    dispatch: &DispatchMethod,
    key: Symbol,
    info: FamilyInfo,
    name: Symbol,
    method: FamilyMethod,
) -> bool {
    &&& dispatch.family == key
    &&& dispatch.method == name
    &&& dispatch.family_id == info.enum_id
    &&& dispatch.params@ == method.params@
    &&& dispatch.result == method.result
    &&& dispatch.mutates_self == method.mutates_self
}

/// What the dispatcher of a family's method is built from.
pub fn dispatch_of(key: Symbol, info: &FamilyInfo, name: Symbol, method: &FamilyMethod) -> (dispatch:
    DispatchMethod)
    ensures
        describes(&dispatch, key, *info, name, *method),
{
    DispatchMethod {
        family: key,
        method: name,
        family_id: info.enum_id,
        params: copied(&method.params),
        result: method.result,
        mutates_self: method.mutates_self,
    }
}

/// A declaration has an arm in its family's dispatcher exactly if it has the method, and
/// the arm is for that declaration, calls that method and has its result.
pub proof fn a_declaration_with_the_method_has_an_arm(
    sigs: Seq<FuncSig>,
    variants: Seq<ConstructVariant>,
    method: Symbol,
    k: int,
)
    requires
        0 <= k < variants.len(),
    ensures
        match method_of(sigs, variants[k].ty, variants[k].name, method) {
            Some(target) => arms_of(sigs, variants, method, variants.len() as int).contains(
                ArmTarget {
                    variant: variants[k],
                    target,
                    result: sigs[target.0 as int].return_type,
                },
            ),
            None => forall|i: int|
                0 <= i < arms_of(sigs, variants, method, variants.len() as int).len() ==> (
                #[trigger] arms_of(sigs, variants, method, variants.len() as int)[i]).variant
                    != variants[k],
        },
{
    lemma_arms_are_of(sigs, variants, method, variants.len() as int, k);
}

proof fn lemma_arms_are_of(
    sigs: Seq<FuncSig>,
    variants: Seq<ConstructVariant>,
    method: Symbol,
    count: int,
    k: int,
)
    requires
        0 <= count <= variants.len(),
        0 <= k < variants.len(),
    ensures
        k < count ==> (method_of(
            sigs,
            variants[k].ty,
            variants[k].name,
            method,
        ) matches Some(target) ==> arms_of(sigs, variants, method, count).contains(
            ArmTarget {
                variant: variants[k],
                target,
                result: sigs[target.0 as int].return_type,
            },
        )),
        method_of(sigs, variants[k].ty, variants[k].name, method) is None ==> forall|i: int|
            0 <= i < arms_of(sigs, variants, method, count).len() ==> (#[trigger] arms_of(
                sigs,
                variants,
                method,
                count,
            )[i]).variant != variants[k],
    decreases count,
{
    if count > 0 {
        lemma_arms_are_of(sigs, variants, method, count - 1, k);
        let before = arms_of(sigs, variants, method, count - 1);
        let all = arms_of(sigs, variants, method, count);
        if let Some(target) = method_of(sigs, variants[k].ty, variants[k].name, method) {
            let arm = ArmTarget {
                variant: variants[k],
                target,
                result: sigs[target.0 as int].return_type,
            };
            if k < count - 1 {
                let i = choose|i: int| 0 <= i < before.len() && before[i] == arm;
                assert(all[i] == arm);
            } else if k == count - 1 {
                assert(all[all.len() - 1] == arm);
            }
        } else {
            assert forall|i: int| 0 <= i < all.len() implies (#[trigger] all[i]).variant
                != variants[k] by {
                if i < before.len() {
                    assert(all[i] == before[i]);
                }
            }
        }
    }
}

/// A family none of whose declarations has the method still answers a call: with nothing
/// where the method has no result, and with a value of its result otherwise.
pub proof fn a_call_nothing_answers_gives_the_default(
    program: &HirProgram,
    types: &TypeTable,
    synth: &SynthTable,
    tables: &ReadTables,
    sigs: Seq<FuncSig>,
    function: HirFunction,
    dispatch: &DispatchMethod,
    variants: Seq<ConstructVariant>,
)
    requires
        dispatches_family(program, types, synth, tables, sigs, function, dispatch, variants),
        forall|i: int|
            0 <= i < variants.len() ==> method_of(
                sigs,
                (#[trigger] variants[i]).ty,
                variants[i].name,
                dispatch.method,
            ) is None,
    ensures
        function.body@.len() == 1,
        function.return_type == dispatch.result,
        function.param_count == dispatch.params@.len() + 1,
        dispatch.result == Type::Void ==> program.stmts@[function.body@[0].0 as int] == (
        HirStmt::Return { value: None }),
        dispatch.result != Type::Void ==> (
        program.stmts@[function.body@[0].0 as int] matches HirStmt::Return { value: Some(value) }
            && filler(program, types, value, dispatch.result, 0)),
{
    lemma_no_arms(sigs, variants, dispatch.method, variants.len() as int);
}

proof fn lemma_no_arms(
    sigs: Seq<FuncSig>,
    variants: Seq<ConstructVariant>,
    method: Symbol,
    count: int,
)
    requires
        0 <= count <= variants.len(),
        forall|i: int|
            0 <= i < variants.len() ==> method_of(
                sigs,
                (#[trigger] variants[i]).ty,
                variants[i].name,
                method,
            ) is None,
    ensures
        arms_of(sigs, variants, method, count).len() == 0,
    decreases count,
{
    if count > 0 {
        lemma_no_arms(sigs, variants, method, count - 1);
        assert(variants[count - 1] == variants[count - 1]);
    }
}

/// A dispatcher is built for the family's own method: its name, what it takes, what it
/// gives and whether it mutates are the method's, on values of the family's own enum.
pub proof fn a_dispatcher_describes_its_method(
    dispatch: &DispatchMethod,
    key: Symbol,
    info: FamilyInfo,
    name: Symbol,
    method: FamilyMethod,
    k: int,
)
    requires
        describes(dispatch, key, info, name, method),
    ensures
        dispatch.family == key,
        dispatch.method == name,
        dispatch.family_id == info.enum_id,
        dispatch.params@.len() == method.params@.len(),
        0 <= k < method.params@.len() ==> dispatch.params@[k] == method.params@[k],
        dispatch.result == method.result,
        dispatch.mutates_self == method.mutates_self,
{
}

} // verus!
