//! A named function used as a value.

use vstd::prelude::*;

use crate::callables::CallName;
use crate::diagnostics::{Log, Problem};
use crate::fn_types::{
    function_type, lemma_repr_for, lemma_row_for, named_tag, probed, repr_for, row_for, shaped,
    tag_used, unique_impl_tag,
    unresolvable, ClosureImpl, FnTypeInfo, FnTypeTable,
};
use crate::function_values::{is_wrapper, named_function_wrapper};
use crate::hir::{FuncId, HirExpr, HirExprId, HirProgram};
use crate::imports::ImportTable;
use crate::lift::{
    emit_tag_value, impl_added, lemma_impl_added_wf, tag_value, ClosureSite,
};
use crate::names::Symbol;
use crate::sig_lookup::{link_function, lookup_function, reached_by, DefinitionLink};
use crate::signatures::SigTable;
use crate::source::{FileSpan, SourceId, Span};
use crate::syntax::FieldDefault;
use crate::synth::SynthTable;
use crate::ty::{Execution, OwnershipMode, StructId, Type, TypeTable};

verus! {

fn find_named(named: &Vec<(FuncId, u32)>, target: FuncId) -> (tag: Option<u32>)
    ensures
        tag == named_tag(named@, target),
{
    let mut i: usize = 0;
    assert(named@.skip(0) =~= named@);
    while i < named.len()
        invariant
            i <= named@.len(),
            named_tag(named@, target) == named_tag(named@.skip(i as int), target),
        decreases named@.len() - i,
    {
        assert(named@.skip(i as int).drop_first() =~= named@.skip(i + 1));
        let (function, tag): (FuncId, u32) = named[i];
        if function == target {
            return Some(tag);
        }
        i += 1;
    }
    None
}

/// The synthesized functions and function types after `target` was given an
/// adapter in row `at`: one more function, and one more implementation under a
/// tag of its own, remembered for the next mention.
pub open spec fn adapted(
    program: &HirProgram,
    synth: &SynthTable,
    synth_after: &SynthTable,
    rows: Seq<FnTypeInfo>,
    rows_after: Seq<FnTypeInfo>,
    at: int,
    target: FuncId,
    name: Symbol,
    candidate: u32,
    execution: Execution,
    tag: u32,
) -> bool {
    let wrapper = FuncId((synth.base + synth.rows@.len()) as u32);
    &&& synth_after.base == synth.base
    &&& synth_after.rows@.len() == synth.rows@.len() + 1
    &&& synth_after.rows@.drop_last() == synth.rows@
    &&& (synth_after.rows@.last() matches Some(function) && is_wrapper(
        program,
        function,
        rows[at],
        target,
        name,
        rows[at].impls@.len() as u32,
        execution,
    ))
    &&& probed(rows[at].impls@, candidate, tag)
    &&& !tag_used(rows[at].impls@, candidate) ==> tag == candidate
    &&& impl_added(rows, rows_after, at, ClosureImpl { tag, function: wrapper })
    &&& rows_after[at].named@ == rows[at].named@.push((target, tag))
}

/// The value site a named function leaves: nothing captured.
pub open spec fn bare_site(
    before: Seq<ClosureSite>,
    after: Seq<ClosureSite>,
    expr: HirExprId,
    repr: StructId,
    tag: u32,
) -> bool {
    &&& after.len() == before.len() + 1
    &&& after.drop_last() == before
    &&& after.last().expr == expr
    &&& after.last().repr == repr
    &&& after.last().tag == tag
    &&& after.last().capture_fields@.len() == 0
    &&& after.last().capture_values@.len() == 0
}

/// Builds or reuses one named function's tag and returns its function value.
pub fn named_function_value(
    program: &mut HirProgram,
    synth: &mut SynthTable,
    fn_types: &mut FnTypeTable,
    sites: &mut Vec<ClosureSite>,
    repr: StructId,
    target: FuncId,
    name: Symbol,
    candidate: u32,
    execution: Execution,
) -> (id: HirExprId)
    requires
        old(synth).wf(),
        old(synth).base + old(synth).rows@.len() < u32::MAX,
        old(fn_types).wf(),
        old(fn_types).info(repr) matches Some(info) && info.params@.len() < u32::MAX
            && info.impls@.len() <= u32::MAX && old(program).room(info.params@.len() as int + 4),
    ensures
        final(program).built_on(old(program)),
        final(synth).wf(),
        final(fn_types).wf(),
        ({
            let at = row_for(old(fn_types).rows@, repr)->0;
            let known = named_tag(old(fn_types).rows@[at].named@, target);
            let tag = final(sites)@.last().tag;
            &&& tag_value(final(program), id, repr, tag)
            &&& bare_site(old(sites)@, final(sites)@, id, repr, tag)
            &&& match known {
                Some(held) => {
                    &&& tag == held
                    &&& *final(synth) == *old(synth)
                    &&& *final(fn_types) == *old(fn_types)
                },
                None => adapted(
                    final(program),
                    old(synth),
                    final(synth),
                    old(fn_types).rows@,
                    final(fn_types).rows@,
                    at,
                    target,
                    name,
                    candidate,
                    execution,
                    tag,
                ),
            }
        }),
{
    let at: usize = match fn_types.find(repr) {
        Some(at) => at,
        None => 0,
    };
    let ghost row = fn_types.rows@[at as int];
    let ghost mut wrapped = *program;
    let ghost mut made: Option<crate::hir::HirFunction> = None;
    let known = find_named(&fn_types.rows[at].named, target);
    let tag: u32 = match known {
        Some(tag) => tag,
        None => {
            let number: u32 = fn_types.rows[at].impls.len() as u32;
            let tag: u32 = unique_impl_tag(&fn_types.rows[at].impls, candidate);
            let wrapper = synth.reserve_synth();
            let function = named_function_wrapper(
                program,
                &fn_types.rows[at],
                target,
                name,
                number,
                execution,
            );
            proof {
                wrapped = *program;
                made = Some(function);
            }
            synth.fill_synth(wrapper, function);
            assert(synth.rows@.drop_last() =~= old(synth).rows@);
            let added = ClosureImpl { tag, function: wrapper };
            fn_types.rows[at].impls.push(added);
            fn_types.rows[at].named.push((target, tag));
            proof {
                lemma_impl_added_wf(old(fn_types), fn_types, at as int, added);
            }
            tag
        },
    };
    let expr = emit_tag_value(program, repr, tag);
    proof {
        if let Some(function) = made {
            crate::function_values::lemma_returns_from_kept(
                &wrapped,
                program,
                function.body@,
                target,
                None,
                row.params@,
                row.modes@,
                row.result,
            );
        }
    }
    sites.push(
        ClosureSite { expr, repr, tag, capture_fields: Vec::new(), capture_values: Vec::new() },
    );
    assert(sites@.drop_last() =~= old(sites)@);
    expr
}

/// What is decided of a function's name used as a value.
#[derive(Debug)]
pub enum ReferenceType {
    /// The expected function type is the function's own.
    Use(StructId),
    /// Nothing is expected, so the function's own type is its value's.
    Mint,
    /// The expectation already failed.
    Silent,
    Refuse(Problem),
}

/// What is decided of `target` used as a value where `expected` is expected. Its
/// parameter modes are part of its type.
pub open spec fn reference_type(
    fn_types: &FnTypeTable,
    sigs: &SigTable,
    target: FuncId,
    expected: Option<Type>,
) -> ReferenceType {
    let sig = sigs.sigs@[target.0 as int];
    match expected {
        Some(Type::Struct(id)) if fn_types.info(id) is Some => if shaped(
            fn_types.info(id)->0,
            sig.params@,
            sig.param_ownership@,
            sig.return_type,
        ) {
            ReferenceType::Use(id)
        } else {
            ReferenceType::Refuse(
                Problem::FunctionValueMismatch { function: target, expected: Type::Struct(id) },
            )
        },
        Some(Type::Error) => ReferenceType::Silent,
        Some(expected) => ReferenceType::Refuse(
            Problem::FunctionValueUnexpected { function: target, expected },
        ),
        None => ReferenceType::Mint,
    }
}

/// Decides what a function's name used as a value becomes.
pub fn decide_reference(
    fn_types: &FnTypeTable,
    sigs: &SigTable,
    target: FuncId,
    expected: Option<Type>,
) -> (decision: ReferenceType)
    requires
        sigs.has(target),
    ensures
        decision == reference_type(fn_types, sigs, target, expected),
{
    match expected {
        None => ReferenceType::Mint,
        Some(Type::Error) => ReferenceType::Silent,
        Some(expected) => {
            if let Type::Struct(id) = expected {
                if let Some(info) = fn_types.get(id) {
                    let sig = &sigs.sigs[target.0 as usize];
                    if crate::signatures::same_types(&info.params, &sig.params)
                        && crate::fn_types::same_modes(&info.modes, &sig.param_ownership)
                        && info.result == sig.return_type {
                        return ReferenceType::Use(id);
                    }
                    return ReferenceType::Refuse(
                        Problem::FunctionValueMismatch { function: target, expected },
                    );
                }
            }
            ReferenceType::Refuse(Problem::FunctionValueUnexpected { function: target, expected })
        },
    }
}

/// What a bare name used as a value refers to.
#[derive(Clone, Copy, PartialEq, Eq, Structural, Debug)]
pub enum NamedReference {
    /// Nothing visible answers to the name.
    Absent,
    /// A function does, but no value of it fits here.
    Refused(HirExprId),
    /// A value of this function, of the type with this struct.
    Value { target: FuncId, repr: StructId },
}

/// Whether every function type's struct is in the table.
pub open spec fn reprs_declared(fn_types: &FnTypeTable, types: &TypeTable) -> bool {
    forall|i: int|
        0 <= i < fn_types.rows@.len() ==> (#[trigger] fn_types.rows@[i]).repr.0
            < types.structs@.len()
}

/// The type tables after `target`'s own function type was asked for.
pub open spec fn minted(
    types: &TypeTable,
    types_after: &TypeTable,
    fn_types: &FnTypeTable,
    fn_types_after: &FnTypeTable,
    defaults: Seq<Vec<Option<FieldDefault>>>,
    defaults_after: Seq<Vec<Option<FieldDefault>>>,
    params: Seq<Type>,
    modes: Seq<OwnershipMode>,
    result: Type,
    repr: StructId,
) -> bool {
    match repr_for(fn_types.rows@, params, modes, result) {
        Some(known) => {
            &&& repr == known
            &&& *types_after == *types
            &&& *fn_types_after == *fn_types
            &&& defaults_after == defaults
        },
        None => {
            let structs = types_after.structs@;
            let rows = fn_types_after.rows@;
            &&& repr.0 == types.structs@.len()
            &&& structs.len() == types.structs@.len() + 1
            &&& structs.drop_last() == types.structs@
            &&& structs.last().name == crate::ty::StructName::FunctionType
            &&& structs.last().fields@ == seq![crate::fn_types::tag_field()]
            &&& *types_after == (TypeTable { structs: types_after.structs, ..*types })
            &&& rows.len() == fn_types.rows@.len() + 1
            &&& rows.drop_last() == fn_types.rows@
            &&& rows.last().repr == repr
            &&& shaped(rows.last(), params, modes, result)
            &&& rows.last().dispatcher is None
            &&& rows.last().impls@.len() == 0
            &&& rows.last().named@.len() == 0
            &&& defaults_after.len() == defaults.len() + 1
            &&& defaults_after.drop_last() == defaults
            &&& defaults_after.last()@ == seq![None::<FieldDefault>]
        },
    }
}

/// Resolves a bare function name as a function value's function and type, which
/// [`named_function_value`] then builds a value of.
///
/// With an expected function type, the function must match it exactly; without
/// one, its signature supplies the value's type.
pub fn analyze_named_function_reference(
    program: &mut HirProgram,
    fn_types: &mut FnTypeTable,
    defaults: &mut Vec<Vec<Option<FieldDefault>>>,
    sigs: &SigTable,
    imports: &ImportTable,
    name: &CallName,
    span: Span,
    expected: Option<Type>,
    definitions: &mut Vec<DefinitionLink>,
    log: &mut Log,
) -> (found: NamedReference)
    requires
        sigs.sigs@.len() <= u32::MAX,
        old(fn_types).wf(),
        reprs_declared(old(fn_types), &old(program).types),
        old(defaults)@.len() == old(program).types.structs@.len(),
        old(program).types.structs@.len() < u32::MAX,
        old(program).exprs@.len() < u32::MAX,
    ensures
        final(fn_types).wf(),
        final(log).source == old(log).source,
        match found {
            NamedReference::Absent => {
                &&& forall|i: int|
                    0 <= i < sigs.sigs@.len() ==> !reached_by(
                        imports,
                        old(log).source,
                        #[trigger] sigs.sigs@[i],
                        name@,
                    )
                &&& *final(program) == *old(program)
                &&& *final(fn_types) == *old(fn_types)
                &&& final(defaults)@ == old(defaults)@
                &&& final(definitions)@ == old(definitions)@
                &&& final(log).quiet(old(log))
            },
            NamedReference::Refused(id) => {
                &&& id.0 == old(program).exprs@.len()
                &&& final(program).exprs@ == old(program).exprs@.push(HirExpr::Error)
                &&& *final(program) == (HirProgram { exprs: final(program).exprs, ..*old(program) })
                &&& *final(fn_types) == *old(fn_types)
                &&& final(defaults)@ == old(defaults)@
                &&& final(definitions)@ == old(definitions)@
                &&& exists|target: FuncId|
                    {
                        &&& #[trigger] sigs.has(target)
                        &&& first_reached(sigs, imports, old(log).source, name, target)
                        &&& match reference_type(old(fn_types), sigs, target, expected) {
                            ReferenceType::Refuse(problem) => final(log).reported(
                                old(log),
                                old(log).source,
                                span,
                                problem,
                            ),
                            ReferenceType::Silent => final(log).quiet(old(log)),
                            ReferenceType::Mint => final(log).quiet(old(log)) && unresolvable(
                                sigs.sigs@[target.0 as int].params@,
                                sigs.sigs@[target.0 as int].return_type,
                            ),
                            ReferenceType::Use(_) => false,
                        }
                    }
            },
            NamedReference::Value { target, repr } => {
                let sig = sigs.sigs@[target.0 as int];
                &&& sigs.has(target)
                &&& first_reached(sigs, imports, old(log).source, name, target)
                &&& final(log).quiet(old(log))
                &&& final(fn_types).info(repr) matches Some(info) && shaped(
                    info,
                    sig.params@,
                    sig.param_ownership@,
                    sig.return_type,
                )
                &&& match reference_type(old(fn_types), sigs, target, expected) {
                    ReferenceType::Use(id) => {
                        &&& repr == id
                        &&& *final(program) == *old(program)
                        &&& *final(fn_types) == *old(fn_types)
                        &&& final(defaults)@ == old(defaults)@
                    },
                    ReferenceType::Mint => {
                        &&& !unresolvable(sig.params@, sig.return_type)
                        &&& *final(program) == (HirProgram {
                            types: final(program).types,
                            ..*old(program)
                        })
                        &&& minted(
                            &old(program).types,
                            &final(program).types,
                            old(fn_types),
                            final(fn_types),
                            old(defaults)@,
                            final(defaults)@,
                            sig.params@,
                            sig.param_ownership@,
                            sig.return_type,
                            repr,
                        )
                    },
                    _ => false,
                }
                &&& final(definitions)@ == old(definitions)@.push(
                    DefinitionLink {
                        reference: FileSpan { source: old(log).source, span },
                        definition: FileSpan { source: sig.source, span: sig.name_span },
                    },
                )
            },
        },
{
    let target = match lookup_function(sigs, imports, log.source, name) {
        Some(target) => target,
        None => {
            return NamedReference::Absent;
        },
    };
    assert(sigs.has(target) && first_reached(sigs, imports, log.source, name, target));
    let ghost sig = sigs.sigs@[target.0 as int];
    let repr = match decide_reference(fn_types, sigs, target, expected) {
        ReferenceType::Use(id) => id,
        ReferenceType::Silent => {
            return NamedReference::Refused(program.add_expr(HirExpr::Error));
        },
        ReferenceType::Refuse(problem) => {
            log.emit(span, problem);
            return NamedReference::Refused(program.add_expr(HirExpr::Error));
        },
        ReferenceType::Mint => {
            let params = sigs.param_types(target);
            let modes = sigs.param_ownership(target);
            let result = sigs.signature_return_type(target);
            proof {
                lemma_repr_for(fn_types.rows@, params@, modes@, result);
            }
            match function_type(&mut program.types, fn_types, defaults, params, modes, result) {
                Type::Struct(id) => {
                    proof {
                        lemma_row_for(fn_types.rows@, id);
                        let rows = fn_types.rows@;
                        let known = repr_for(
                            old(fn_types).rows@,
                            sig.params@,
                            sig.param_ownership@,
                            sig.return_type,
                        );
                        if known is Some {
                            let i = choose|i: int|
                                0 <= i < rows.len() && #[trigger] rows[i].repr == id && shaped(
                                    rows[i],
                                    sig.params@,
                                    sig.param_ownership@,
                                    sig.return_type,
                                );
                            assert(row_for(rows, id) == Some(i)) by {
                                let j = row_for(rows, id)->0;
                                if j != i {
                                    assert(rows[j].repr == rows[i].repr);
                                }
                            }
                        } else {
                            let last = rows.len() - 1;
                            assert(rows[last] == rows.last());
                            assert(row_for(rows, id) == Some(last)) by {
                                let j = row_for(rows, id)->0;
                                if j != last {
                                    assert(rows[j].repr == rows[last].repr);
                                }
                            }
                        }
                    }
                    id
                },
                _ => {
                    return NamedReference::Refused(program.add_expr(HirExpr::Error));
                },
            }
        },
    };
    link_function(sigs, target, span, log.source, definitions);
    NamedReference::Value { target, repr }
}

/// `target` is the first declaration a call site's name reaches.
pub open spec fn first_reached(
    sigs: &SigTable,
    imports: &ImportTable,
    source: SourceId,
    name: &CallName,
    target: FuncId,
) -> bool {
    &&& reached_by(imports, source, sigs.sigs@[target.0 as int], name@)
    &&& forall|i: int|
        0 <= i < target.0 ==> !reached_by(imports, source, #[trigger] sigs.sigs@[i], name@)
}

/// A function referred to twice under one type is one implementation: the second
/// mention finds the tag the first was given.
pub proof fn one_adapter_per_function(named: Seq<(FuncId, u32)>, target: FuncId, tag: u32)
    requires
        named_tag(named, target) is None,
    ensures
        named_tag(named.push((target, tag)), target) == Some(tag),
    decreases named.len(),
{
    let more = named.push((target, tag));
    if named.len() > 0 {
        assert(more[0] == named[0]);
        assert(more.drop_first() =~= named.drop_first().push((target, tag)));
        one_adapter_per_function(named.drop_first(), target, tag);
    }
}

/// A function's name is a value of the function type expected exactly if that type's
/// parameters, how each is taken, and result are the function's own; it is refused under
/// any other expectation, and takes its own type where nothing is expected.
pub proof fn a_named_value_has_the_functions_shape(
    fn_types: &FnTypeTable,
    sigs: &SigTable,
    target: FuncId,
    expected: Option<Type>,
)
    ensures
        ({
            let sig = sigs.sigs@[target.0 as int];
            let decided = reference_type(fn_types, sigs, target, expected);
            &&& expected is None ==> decided == ReferenceType::Mint
            &&& expected == Some(Type::Error) ==> decided == ReferenceType::Silent
            &&& expected matches Some(Type::Struct(id)) ==> (fn_types.info(id) matches Some(info)
                ==> (decided == ReferenceType::Use(id) <==> info.params@ == sig.params@
                && info.modes@ == sig.param_ownership@ && info.result == sig.return_type) && (
            decided is Use || decided is Refuse))
            &&& expected matches Some(ty) ==> (ty != Type::Error && !(ty matches Type::Struct(id)
                && fn_types.info(id) is Some) ==> decided is Refuse)
        }),
{
}

/// A named function first used as a value gets one adapting function, recorded under a
/// tag no other implementation of its type has; the use is recorded with that tag and no
/// captures.
pub proof fn a_named_function_is_adapted_under_a_free_tag(
    program: &HirProgram,
    synth: &SynthTable,
    synth_after: &SynthTable,
    rows: Seq<FnTypeInfo>,
    rows_after: Seq<FnTypeInfo>,
    at: int,
    target: FuncId,
    name: Symbol,
    candidate: u32,
    execution: Execution,
    tag: u32,
    i: int,
)
    requires
        adapted(
            program,
            synth,
            synth_after,
            rows,
            rows_after,
            at,
            target,
            name,
            candidate,
            execution,
            tag,
        ),
        0 <= at < rows.len(),
    ensures
        synth_after.rows@.len() == synth.rows@.len() + 1,
        rows_after[at].named@.last() == (target, tag),
        rows_after[at].impls@.last().tag == tag,
        0 <= i < rows[at].impls@.len() ==> rows[at].impls@[i].tag != tag,
        synth.base + synth.rows@.len() <= u32::MAX ==> rows_after[at].impls@.last().function.0
            == synth.base + synth.rows@.len(),
        0 <= i < rows.len() && i != at ==> rows_after[i] == rows[i],
{
    crate::fn_types::a_probed_tag_is_free(rows[at].impls@, candidate, tag, i);
}

/// A function type is minted once: one that is known keeps its struct and changes nothing,
/// and a new one gets the next struct, which holds the tag alone.
pub proof fn a_function_type_is_minted_once(
    types: &TypeTable,
    types_after: &TypeTable,
    fn_types: &FnTypeTable,
    fn_types_after: &FnTypeTable,
    defaults: Seq<Vec<Option<FieldDefault>>>,
    defaults_after: Seq<Vec<Option<FieldDefault>>>,
    params: Seq<Type>,
    modes: Seq<OwnershipMode>,
    result: Type,
    repr: StructId,
    k: int,
)
    requires
        minted(
            types,
            types_after,
            fn_types,
            fn_types_after,
            defaults,
            defaults_after,
            params,
            modes,
            result,
            repr,
        ),
    ensures
        repr_for(fn_types.rows@, params, modes, result) is Some ==> *types_after == *types
            && *fn_types_after == *fn_types,
        repr_for(fn_types.rows@, params, modes, result) is None ==> {
            let info = fn_types_after.rows@.last();
            &&& repr.0 == types.structs@.len()
            &&& types_after.structs@.len() == types.structs@.len() + 1
            &&& types_after.structs@.last().fields@.len() == 1
            &&& types_after.structs@.last().fields@[0].name == crate::ty::FieldName::Tag
            &&& info.repr == repr
            &&& info.params@ == params
            &&& info.modes@ == modes
            &&& info.result == result
            &&& info.impls@.len() == 0
            &&& 0 <= k < types.structs@.len() ==> types_after.structs@[k] == types.structs@[k]
            &&& 0 <= k < fn_types.rows@.len() ==> fn_types_after.rows@[k] == fn_types.rows@[k]
        },
{
    if repr_for(fn_types.rows@, params, modes, result) is None {
        if 0 <= k < types.structs@.len() {
            assert(types_after.structs@.drop_last()[k] == types_after.structs@[k]);
        }
        if 0 <= k < fn_types.rows@.len() {
            assert(fn_types_after.rows@.drop_last()[k] == fn_types_after.rows@[k]);
        }
    }
}

/// A named function used as a value is the first declaration its name reaches from there.
pub proof fn a_named_value_is_the_first_of_its_name(
    sigs: &SigTable,
    imports: &ImportTable,
    source: SourceId,
    name: &CallName,
    target: FuncId,
    k: int,
)
    requires
        first_reached(sigs, imports, source, name, target),
    ensures
        sigs.sigs@[target.0 as int].indexed,
        sigs.sigs@[target.0 as int].name@ == name@,
        0 <= k < target.0 && sigs.sigs@[k].indexed && sigs.sigs@[k].name@ == name@
            ==> !imports.seen(source, sigs.sigs@[k].source),
{
    if 0 <= k < target.0 {
        assert(!reached_by(imports, source, sigs.sigs@[k], name@));
    }
}

/// The use of a named function as a value is recorded behind those before it, as a value
/// of its type's struct under its tag, with nothing captured.
pub proof fn a_bare_use_captures_nothing(
    before: Seq<ClosureSite>,
    after: Seq<ClosureSite>,
    expr: HirExprId,
    repr: StructId,
    tag: u32,
    k: int,
)
    requires
        bare_site(before, after, expr, repr, tag),
    ensures
        after.len() == before.len() + 1,
        after.last().expr == expr,
        after.last().repr == repr,
        after.last().tag == tag,
        after.last().capture_fields@.len() == 0,
        after.last().capture_values@.len() == 0,
        0 <= k < before.len() ==> after[k] == before[k],
{
    if 0 <= k < before.len() {
        assert(after.drop_last()[k] == after[k]);
    }
}

/// The function that adapts a named one gives what the function type gives and takes the
/// function value before what the type takes; functions reserved before it stay.
pub proof fn an_adapter_has_the_types_shape(
    program: &HirProgram,
    synth: &SynthTable,
    synth_after: &SynthTable,
    rows: Seq<FnTypeInfo>,
    rows_after: Seq<FnTypeInfo>,
    at: int,
    target: FuncId,
    name: Symbol,
    candidate: u32,
    execution: Execution,
    tag: u32,
    k: int,
)
    requires
        adapted(
            program,
            synth,
            synth_after,
            rows,
            rows_after,
            at,
            target,
            name,
            candidate,
            execution,
            tag,
        ),
    ensures
        synth_after.base == synth.base,
        synth_after.rows@.last() matches Some(function) && function.param_count
            == rows[at].params@.len() + 1 && function.return_type == rows[at].result
            && function.execution == execution && function.locals@.len() == rows[at].params@.len()
            + 1,
        0 <= k < synth.rows@.len() ==> synth_after.rows@[k] == synth.rows@[k],
{
    if 0 <= k < synth.rows@.len() {
        assert(synth_after.rows@.drop_last()[k] == synth_after.rows@[k]);
    }
}

} // verus!
