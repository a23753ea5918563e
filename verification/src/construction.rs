//! Constructing a construct-backed declaration: its fields from a call's
//! arguments, and every field left over from its default.
//!
//! Which input an argument fills is decided before the argument is analyzed, so
//! that it is analyzed against the type that input expects. The argument is then
//! settled, the child slots are filled, and every field is bound in declaration
//! order, each completed field visible to the defaults after it.

use vstd::prelude::*;

use crate::coercion::{admits, coerce_into, coerced};
use crate::diagnostics::{blamed, Diagnostic, Log, Problem};
use crate::families::{ConstructTable, ContentSlot};
use crate::hir::{HirExpr, HirExprId, HirProgram, HirStmt, HirStmtId, LocalId};
use crate::lattice::Lattice;
use crate::names::Symbol;
use crate::scope::{bound, declared_local, FnCtx, LocalOwnership};
use crate::source::{SourceId, Span};
use crate::syntax::FieldDefault;
use crate::ty::{FieldDef, FieldName, OwnershipMode, StructId, Type, TypeTable};

verus! {

/// One value a construction call may supply, by position or by name.
#[derive(Clone, Copy, PartialEq, Eq, Structural, Debug)]
pub struct ConstructInput {
    /// The input's index among the struct's fields.
    pub field_index: u32,
    /// The field's name, which is also the label that fills it.
    pub name: FieldName,
    /// The type the supplied value must satisfy.
    pub ty: Type,
}

/// Whether field `index` is a child slot.
pub open spec fn is_slot(slots: Seq<ContentSlot>, index: int) -> bool {
    exists|k: int| 0 <= k < slots.len() && (#[trigger] slots[k]).field_index == index
}

fn names_slot(slots: &Vec<ContentSlot>, index: u32) -> (res: bool)
    ensures
        res == is_slot(slots@, index as int),
{
    let mut i: usize = 0;
    while i < slots.len()
        invariant
            i <= slots@.len(),
            forall|k: int| 0 <= k < i ==> (#[trigger] slots@[k]).field_index != index,
        decreases slots@.len() - i,
    {
        if slots[i].field_index == index {
            return true;
        }
        i += 1;
    }
    false
}

/// The inputs among the first `count` fields: every one that is no child slot, in
/// declaration order, which is the positional signature.
pub open spec fn inputs_of(
    fields: Seq<FieldDef>,
    slots: Seq<ContentSlot>,
    count: int,
) -> Seq<ConstructInput>
    decreases count,
{
    if count <= 0 {
        Seq::empty()
    } else {
        let before = inputs_of(fields, slots, count - 1);
        if is_slot(slots, count - 1) {
            before
        } else {
            before.push(
                ConstructInput {
                    field_index: (count - 1) as u32,
                    name: fields[count - 1].name,
                    ty: fields[count - 1].ty,
                },
            )
        }
    }
}

/// The inputs of the declaration that became `id`.
pub open spec fn inputs(
    types: &TypeTable,
    constructs: &ConstructTable,
    id: StructId,
) -> Seq<ConstructInput> {
    inputs_of(types.fields(id), constructs.slots_of(id), types.fields(id).len() as int)
}

/// Every field of `id` a construction call may fill, in declaration order.
pub fn construct_input_slots(types: &TypeTable, constructs: &ConstructTable, id: StructId) -> (list:
    Vec<ConstructInput>)
    requires
        types.fields(id).len() <= u32::MAX,
    ensures
        list@ == inputs(types, constructs, id),
{
    let slots = constructs.child_slots(id);
    let mut list: Vec<ConstructInput> = Vec::new();
    if (id.0 as usize) >= types.structs.len() {
        return list;
    }
    let fields = &types.structs[id.0 as usize].fields;
    let mut i: usize = 0;
    while i < fields.len()
        invariant
            i <= fields@.len() <= u32::MAX,
            list@ == inputs_of(fields@, slots@, i as int),
        decreases fields@.len() - i,
    {
        if !names_slot(&slots, i as u32) {
            list.push(
                ConstructInput { field_index: i as u32, name: fields[i].name, ty: fields[i].ty },
            );
        }
        i += 1;
    }
    list
}

/// Where one argument of a construction goes.
#[derive(Clone, Copy, PartialEq, Eq, Structural, Debug)]
pub enum ArgRoute {
    /// It fills a child slot, and is held back with the rest of the content.
    Slot(usize),
    /// It fills an input, and is analyzed against that input's type.
    Input(usize),
    /// Its label names neither.
    NoInput,
    /// Every input is already behind it.
    TooMany,
}

/// The first slot from `from` on that `label` names.
pub open spec fn slot_named(slots: Seq<ContentSlot>, label: Symbol, from: int) -> Option<int>
    decreases slots.len() - from,
{
    if from < 0 || from >= slots.len() {
        None
    } else if slots[from].name == label {
        Some(from)
    } else {
        slot_named(slots, label, from + 1)
    }
}

/// The first input from `from` on that `label` names.
pub open spec fn input_named(list: Seq<ConstructInput>, label: Symbol, from: int) -> Option<int>
    decreases list.len() - from,
{
    if from < 0 || from >= list.len() {
        None
    } else if list[from].name == FieldName::Plain(label) {
        Some(from)
    } else {
        input_named(list, label, from + 1)
    }
}

/// Where an argument goes, `next` positional ones being behind it.
pub open spec fn routed(
    list: Seq<ConstructInput>,
    slots: Seq<ContentSlot>,
    label: Option<Symbol>,
    next: int,
) -> ArgRoute {
    match label {
        Some(label) => match slot_named(slots, label, 0) {
            Some(slot) => ArgRoute::Slot(slot as usize),
            None => match input_named(list, label, 0) {
                Some(input) => ArgRoute::Input(input as usize),
                None => ArgRoute::NoInput,
            },
        },
        None => if next < list.len() {
            ArgRoute::Input(next as usize)
        } else {
            ArgRoute::TooMany
        },
    }
}

/// The first slot a label names.
pub fn find_slot(slots: &Vec<ContentSlot>, label: Symbol) -> (found: Option<usize>)
    ensures
        match found {
            Some(i) => slot_named(slots@, label, 0) == Some(i as int) && i < slots@.len(),
            None => slot_named(slots@, label, 0) is None,
        },
{
    let mut i: usize = 0;
    while i < slots.len()
        invariant
            i <= slots@.len(),
            slot_named(slots@, label, 0) == slot_named(slots@, label, i as int),
        decreases slots@.len() - i,
    {
        if slots[i].name == label {
            return Some(i);
        }
        i += 1;
    }
    None
}

fn find_input(list: &Vec<ConstructInput>, label: Symbol) -> (found: Option<usize>)
    ensures
        match found {
            Some(i) => input_named(list@, label, 0) == Some(i as int) && i < list@.len(),
            None => input_named(list@, label, 0) is None,
        },
{
    let mut i: usize = 0;
    while i < list.len()
        invariant
            i <= list@.len(),
            input_named(list@, label, 0) == input_named(list@, label, i as int),
        decreases list@.len() - i,
    {
        if list[i].name == FieldName::Plain(label) {
            return Some(i);
        }
        i += 1;
    }
    None
}

/// Decides which input or slot an argument fills, before it is analyzed.
pub fn route_argument(
    list: &Vec<ConstructInput>,
    slots: &Vec<ContentSlot>,
    label: Option<Symbol>,
    next_positional: &mut usize,
) -> (route: ArgRoute)
    requires
        *old(next_positional) < usize::MAX,
    ensures
        route == routed(list@, slots@, label, *old(next_positional) as int),
        *final(next_positional) == if label is None {
            *old(next_positional) + 1
        } else {
            *old(next_positional) as int
        },
        route matches ArgRoute::Input(k) ==> k < list@.len(),
        route matches ArgRoute::Slot(k) ==> k < slots@.len(),
{
    match label {
        Some(label) => match find_slot(slots, label) {
            Some(slot) => ArgRoute::Slot(slot),
            None => match find_input(list, label) {
                Some(input) => ArgRoute::Input(input),
                None => ArgRoute::NoInput,
            },
        },
        None => {
            let next: usize = *next_positional;
            *next_positional = next + 1;
            if next < list.len() {
                ArgRoute::Input(next)
            } else {
                ArgRoute::TooMany
            }
        },
    }
}

/// What an argument is refused for by where it goes.
pub open spec fn route_refusal(
    route: ArgRoute,
    construct: StructId,
    label: Option<Symbol>,
    label_span: Option<Span>,
    takes: int,
    span: Span,
) -> Option<(Span, Problem)> {
    match (route, label) {
        (ArgRoute::NoInput, Some(label)) => Some(
            (
                match label_span {
                    Some(at) => at,
                    None => span,
                },
                Problem::NoSuchInput { construct, label },
            ),
        ),
        (ArgRoute::TooMany, _) => Some(
            (span, Problem::TooManyInputs { construct, takes: takes as usize }),
        ),
        _ => None,
    }
}

/// Reports an argument that goes nowhere.
pub fn refuse_argument(
    route: ArgRoute,
    construct: StructId,
    label: Option<Symbol>,
    label_span: Option<Span>,
    takes: usize,
    span: Span,
    log: &mut Log,
)
    ensures
        final(log).source == old(log).source,
        match route_refusal(route, construct, label, label_span, takes as int, span) {
            Some((at, problem)) => final(log).reported(old(log), old(log).source, at, problem),
            None => final(log).quiet(old(log)),
        },
{
    match (route, label) {
        (ArgRoute::NoInput, Some(label)) => {
            let at = match label_span {
                Some(at) => at,
                None => span,
            };
            log.emit(at, Problem::NoSuchInput { construct, label });
        },
        (ArgRoute::TooMany, _) => {
            log.emit(span, Problem::TooManyInputs { construct, takes });
        },
        _ => {},
    }
}

/// What settling an analyzed argument reports: an input that was already given,
/// and a value its type does not admit.
pub open spec fn settling_said(
    source: SourceId,
    construct: StructId,
    input: ConstructInput,
    given: bool,
    admitted: bool,
    found: Type,
    span: Span,
) -> Seq<Diagnostic> {
    (if given {
        seq![
            blamed(source, span, Problem::InputSetTwice { construct, field: input.name }),
        ]
    } else {
        Seq::empty()
    }) + (if admitted {
        Seq::empty()
    } else {
        seq![
            blamed(
                source,
                span,
                Problem::InputMismatch {
                    construct,
                    field: input.name,
                    expected: input.ty,
                    found,
                },
            ),
        ]
    })
}

/// Gives an analyzed argument to the input it fills.
pub fn settle_argument(
    program: &mut HirProgram,
    lattice: &Lattice,
    construct: StructId,
    input: ConstructInput,
    value: HirExprId,
    initializers: &mut Vec<Option<HirExprId>>,
    span: Span,
    log: &mut Log,
)
    requires
        old(program).has_expr(value),
        old(program).exprs@.len() < u32::MAX,
        input.field_index < old(initializers)@.len(),
    ensures
        final(program).built_on(old(program)),
        final(initializers)@.len() == old(initializers)@.len(),
        final(initializers)@ == old(initializers)@.update(
            input.field_index as int,
            final(initializers)@[input.field_index as int],
        ),
        (final(initializers)@[input.field_index as int] matches Some(result) && coerced(
            old(program),
            final(program),
            lattice,
            value,
            input.ty,
            result,
        ) && final(program).has_expr(result)),
        final(log).source == old(log).source,
        final(log).diagnostics@ == old(log).diagnostics@ + settling_said(
            old(log).source,
            construct,
            input,
            old(initializers)@[input.field_index as int] is Some,
            lattice.admits(old(program).type_at(value), input.ty),
            old(program).type_at(value),
            span,
        ),
{
    let ghost said = log.diagnostics@;
    let index: usize = input.field_index as usize;
    if initializers[index].is_some() {
        log.emit(span, Problem::InputSetTwice { construct, field: input.name });
    }
    let found = program.type_of(value);
    if !admits(lattice, found, input.ty) {
        log.emit(
            span,
            Problem::InputMismatch { construct, field: input.name, expected: input.ty, found },
        );
    }
    assert(log.diagnostics@ =~= said + settling_said(
        log.source,
        construct,
        input,
        initializers@[index as int] is Some,
        lattice.admits(found, input.ty),
        found,
        span,
    ));
    let ghost held = initializers@;
    let result = coerce_into(program, lattice, value, input.ty);
    initializers[index] = Some(result);
    assert(initializers@ =~= held.update(index as int, Some(result)));
}

/// How a field left to the default sweep goes on.
#[derive(Clone, Copy, PartialEq, Eq, Structural, Debug)]
pub enum FieldStep {
    /// It has its value.
    Value(HirExprId),
    /// Its default is analyzed, in the file that declares it, against its type.
    Analyze(FieldDefault),
}

/// The step of field `index` of `construct`.
pub open spec fn field_step(
    before: &HirProgram,
    after: &HirProgram,
    construct: StructId,
    index: u32,
    ty: Type,
    given: Option<HirExprId>,
    default: Option<FieldDefault>,
    resolving: Seq<(u32, u32)>,
    step: FieldStep,
) -> bool {
    let refused = step == FieldStep::Value(HirExprId(before.exprs@.len() as u32))
        && after.exprs@ == before.exprs@.push(HirExpr::Error) && *after == (HirProgram {
        exprs: after.exprs,
        ..*before
    });
    match (given, default) {
        (Some(value), _) => step == FieldStep::Value(value) && *after == *before,
        (None, Some(default)) => if ty == Type::Error || resolving.contains((construct.0, index)) {
            refused
        } else {
            step == FieldStep::Analyze(default) && *after == *before
        },
        (None, None) => refused,
    }
}

fn is_resolving(resolving: &Vec<(u32, u32)>, construct: u32, index: u32) -> (res: bool)
    ensures
        res == resolving@.contains((construct, index)),
{
    let mut i: usize = 0;
    while i < resolving.len()
        invariant
            i <= resolving@.len(),
            forall|k: int| 0 <= k < i ==> resolving@[k] != (construct, index),
        decreases resolving@.len() - i,
    {
        let (of, at): (u32, u32) = resolving[i];
        if of == construct && at == index {
            assert(resolving@[i as int] == (construct, index));
            return true;
        }
        i += 1;
    }
    false
}

/// Decides what a field is initialized with: what it was given, its default, or
/// the error node, reported, where its default is already being resolved or it
/// has none.
pub fn begin_field(
    program: &mut HirProgram,
    construct: StructId,
    index: u32,
    field: FieldName,
    ty: Type,
    given: Option<HirExprId>,
    default: Option<FieldDefault>,
    default_span: Span,
    span: Span,
    resolving: &mut Vec<(u32, u32)>,
    log: &mut Log,
) -> (step: FieldStep)
    requires
        old(program).exprs@.len() < u32::MAX,
    ensures
        field_step(
            old(program),
            final(program),
            construct,
            index,
            ty,
            given,
            default,
            old(resolving)@,
            step,
        ),
        final(resolving)@ == if step is Analyze {
            old(resolving)@.push((construct.0, index))
        } else {
            old(resolving)@
        },
        final(log).source == old(log).source,
        match (given, default) {
            (None, Some(default)) => if ty != Type::Error && old(resolving)@.contains(
                (construct.0, index),
            ) {
                final(log).reported(
                    old(log),
                    default.source,
                    default_span,
                    Problem::EndlessMemberDefault,
                )
            } else {
                final(log).quiet(old(log))
            },
            (None, None) => final(log).reported(
                old(log),
                old(log).source,
                span,
                (Problem::MissingInput { construct, field }),
            ),
            _ => final(log).quiet(old(log)),
        },
{
    if let Some(value) = given {
        return FieldStep::Value(value);
    }
    match default {
        Some(default) => {
            if ty == Type::Error {
                return FieldStep::Value(program.add_expr(HirExpr::Error));
            }
            if is_resolving(resolving, construct.0, index) {
                let source = log.source;
                log.source = default.source;
                log.emit(default_span, Problem::EndlessMemberDefault);
                log.source = source;
                return FieldStep::Value(program.add_expr(HirExpr::Error));
            }
            resolving.push((construct.0, index));
            FieldStep::Analyze(default)
        },
        None => {
            log.emit(span, Problem::MissingInput { construct, field });
            FieldStep::Value(program.add_expr(HirExpr::Error))
        },
    }
}

/// Takes the analyzed default of a field, reporting one that does not fit.
pub fn finish_field_default(
    program: &mut HirProgram,
    lattice: &Lattice,
    construct: StructId,
    index: u32,
    field: FieldName,
    ty: Type,
    value: HirExprId,
    default_span: Span,
    resolving: &mut Vec<(u32, u32)>,
    log: &mut Log,
) -> (result: HirExprId)
    requires
        old(program).has_expr(value),
        old(program).exprs@.len() < u32::MAX,
        old(resolving)@.len() > 0,
        old(resolving)@.last() == (construct.0, index),
    ensures
        coerced(old(program), final(program), lattice, value, ty, result),
        final(program).built_on(old(program)),
        final(program).has_expr(result),
        final(resolving)@ == old(resolving)@.drop_last(),
        final(log).source == old(log).source,
        ({
            let found = old(program).type_at(value);
            if found != Type::Error && !lattice.admits(found, ty) {
                final(log).reported(
                    old(log),
                    old(log).source,
                    default_span,
                    (Problem::MemberDefaultMismatch { construct, field, expected: ty, found }),
                )
            } else {
                final(log).quiet(old(log))
            }
        }),
{
    let found = program.type_of(value);
    if found != Type::Error && !admits(lattice, found, ty) {
        log.emit(
            default_span,
            Problem::MemberDefaultMismatch { construct, field, expected: ty, found },
        );
    }
    let _ = resolving.pop();
    assert(resolving@ =~= old(resolving)@.drop_last());
    coerce_into(program, lattice, value, ty)
}

/// A frame gained a named local of type `ty`, in its innermost scope, with `stmt`
/// to run first.
pub open spec fn frame_bound(
    before: &FnCtx,
    after: &FnCtx,
    name: Symbol,
    ty: Type,
    stmt: HirStmtId,
) -> bool {
    &&& after.locals@ == before.locals@.push(
        declared_local(Some(name), ty, false, OwnershipMode::Owned),
    )
    &&& after.ownership@ == before.ownership@.push(LocalOwnership::fresh(OwnershipMode::Owned))
    &&& after.binding_spans@ == before.binding_spans@.push(None)
    &&& after.pending_stmts@ == before.pending_stmts@.push(stmt)
    &&& bound(
        before.scopes@,
        after.scopes@,
        before.scopes@.len() - 1,
        name,
        LocalId(before.locals@.len() as u32),
    )
    &&& *after == (FnCtx {
        locals: after.locals,
        ownership: after.ownership,
        binding_spans: after.binding_spans,
        scopes: after.scopes,
        pending_stmts: after.pending_stmts,
        ..*before
    })
}

/// A field completed with `value` was bound as `name`, and `read` reads it.
pub open spec fn field_bound(
    before: &HirProgram,
    ctx: &FnCtx,
    after: &HirProgram,
    ctx_after: &FnCtx,
    name: Symbol,
    ty: Type,
    value: HirExprId,
    read: HirExprId,
) -> bool {
    let local = LocalId(ctx.locals@.len() as u32);
    &&& frame_bound(ctx, ctx_after, name, ty, HirStmtId(before.stmts@.len() as u32))
    &&& after.stmts@ == before.stmts@.push(HirStmt::Let { local, init: value })
    &&& after.exprs@ == before.exprs@.push(HirExpr::Local { local, ty })
    &&& read.0 == before.exprs@.len()
    &&& after.built_on(before)
}

/// Binds a completed field, so that the defaults after it can name it, and reads
/// it back as the field's initializer.
pub fn bind_field(
    program: &mut HirProgram,
    ctx: &mut FnCtx,
    name: Symbol,
    ty: Type,
    value: HirExprId,
) -> (read: HirExprId)
    requires
        old(ctx).wf(),
        old(ctx).locals@.len() < u32::MAX,
        old(program).exprs@.len() < u32::MAX,
        old(program).stmts@.len() < u32::MAX,
    ensures
        final(ctx).wf(),
        field_bound(old(program), old(ctx), final(program), final(ctx), name, ty, value, read),
{
    let local = ctx.declare(name, ty, false);
    let stmt = program.add_stmt(HirStmt::Let { local, init: value });
    ctx.hoist_stmt(stmt);
    program.add_expr(HirExpr::Local { local, ty })
}

/// Completes a construction from its fields' initializers: the same node a struct
/// literal produces.
pub fn finish_construction(
    program: &mut HirProgram,
    construct: StructId,
    fields: Vec<HirExprId>,
) -> (id: HirExprId)
    requires
        old(program).exprs@.len() < u32::MAX,
    ensures
        id.0 == old(program).exprs@.len(),
        final(program).built_on(old(program)),
        final(program).exprs@.len() == old(program).exprs@.len() + 1,
        final(program).stmts == old(program).stmts,
        (final(program).at(id) matches HirExpr::StructNew { struct_id, fields: given }
            && struct_id == construct && given == fields),
{
    program.add_expr(HirExpr::StructNew { struct_id: construct, fields })
}

/// How many of the first `count` arguments are positional.
pub open spec fn positional_before(labels: Seq<Option<Symbol>>, count: int) -> int
    decreases count,
{
    if count <= 0 {
        0
    } else {
        positional_before(labels, count - 1) + if labels[count - 1] is None {
            1int
        } else {
            0int
        }
    }
}

/// Where every argument of a call goes, from its labels alone.
pub open spec fn routes(
    list: Seq<ConstructInput>,
    slots: Seq<ContentSlot>,
    labels: Seq<Option<Symbol>>,
) -> Seq<ArgRoute> {
    Seq::new(
        labels.len(),
        |i: int| routed(list, slots, labels[i], positional_before(labels, i)),
    )
}

/// Decides where every argument of a construction call goes.
pub fn route_arguments(
    list: &Vec<ConstructInput>,
    slots: &Vec<ContentSlot>,
    labels: &Vec<Option<Symbol>>,
) -> (taken: Vec<ArgRoute>)
    ensures
        taken@ == routes(list@, slots@, labels@),
        forall|i: int|
            0 <= i < taken@.len() ==> match #[trigger] taken@[i] {
                ArgRoute::Input(k) => k < list@.len(),
                ArgRoute::Slot(k) => k < slots@.len(),
                _ => true,
            },
{
    let mut taken: Vec<ArgRoute> = Vec::new();
    let mut next_positional: usize = 0;
    let mut i: usize = 0;
    while i < labels.len()
        invariant
            i <= labels@.len(),
            next_positional <= i,
            next_positional == positional_before(labels@, i as int),
            taken@ == routes(list@, slots@, labels@).take(i as int),
            forall|j: int|
                0 <= j < taken@.len() ==> match #[trigger] taken@[j] {
                    ArgRoute::Input(k) => k < list@.len(),
                    ArgRoute::Slot(k) => k < slots@.len(),
                    _ => true,
                },
        decreases labels@.len() - i,
    {
        let route = route_argument(list, slots, labels[i], &mut next_positional);
        taken.push(route);
        i += 1;
        assert(taken@ =~= routes(list@, slots@, labels@).take(i as int));
    }
    assert(routes(list@, slots@, labels@).take(i as int) =~= routes(list@, slots@, labels@));
    taken
}

/// One argument of a construction call, its value analyzed unless it names a child
/// slot.
#[derive(Clone, Copy, PartialEq, Eq, Structural, Debug)]
pub struct GivenArgument {
    pub label: Option<Symbol>,
    pub label_span: Option<Span>,
    pub value: HirExprId,
}

/// The labels of a call's arguments.
pub open spec fn labels_of(args: Seq<GivenArgument>) -> Seq<Option<Symbol>> {
    args.map_values(|arg: GivenArgument| arg.label)
}

/// Everything settling an argument changes, at one point.
pub struct GivenState {
    pub program: HirProgram,
    pub initializers: Seq<Option<HirExprId>>,
    pub said: Seq<Diagnostic>,
}

/// An argument was settled between two points: it was given to the input it fills,
/// held back for the child slot it names, or refused.
pub open spec fn argument_settled(
    before: GivenState,
    after: GivenState,
    lattice: &Lattice,
    construct: StructId,
    list: Seq<ConstructInput>,
    arg: GivenArgument,
    route: ArgRoute,
    span: Span,
    source: SourceId,
) -> bool {
    match route {
        ArgRoute::Input(k) => {
            let input = list[k as int];
            let index = input.field_index as int;
            let found = before.program.type_at(arg.value);
            &&& after.initializers == before.initializers.update(index, after.initializers[index])
            &&& (after.initializers[index] matches Some(result) && coerced(
                &before.program,
                &after.program,
                lattice,
                arg.value,
                input.ty,
                result,
            ))
            &&& after.said == before.said + settling_said(
                source,
                construct,
                input,
                before.initializers[index] is Some,
                lattice.admits(found, input.ty),
                found,
                span,
            )
        },
        _ => {
            &&& after.program == before.program
            &&& after.initializers == before.initializers
            &&& after.said == match route_refusal(
                route,
                construct,
                arg.label,
                arg.label_span,
                list.len() as int,
                span,
            ) {
                Some((at, problem)) => before.said.push(blamed(source, at, problem)),
                None => before.said,
            }
        },
    }
}

/// The arguments of a call were settled one after the other, each between the two
/// points of its entry in `steps`; what the fields hold changes nowhere else.
pub open spec fn arguments_settled(
    steps: Seq<(GivenState, GivenState)>,
    lattice: &Lattice,
    construct: StructId,
    list: Seq<ConstructInput>,
    slots: Seq<ContentSlot>,
    args: Seq<GivenArgument>,
    span: Span,
    source: SourceId,
) -> bool {
    &&& steps.len() == args.len()
    &&& forall|k: int|
        0 <= k < steps.len() ==> argument_settled(
            (#[trigger] steps[k]).0,
            steps[k].1,
            lattice,
            construct,
            list,
            args[k],
            routes(list, slots, labels_of(args))[k],
            span,
            source,
        )
    &&& forall|k: int|
        0 < k < steps.len() ==> (#[trigger] steps[k]).0.initializers == steps[k - 1].1.initializers
}

/// Whether one of the first `count` arguments fills field `index`.
pub open spec fn fills_field(
    list: Seq<ConstructInput>,
    slots: Seq<ContentSlot>,
    labels: Seq<Option<Symbol>>,
    index: int,
    count: int,
) -> bool {
    exists|i: int|
        0 <= i < count && ((#[trigger] routes(list, slots, labels)[i]) matches ArgRoute::Input(k)
            && list[k as int].field_index == index)
}

/// Settles one argument of a construction call by its route, its value having just been
/// analyzed. One that names a child slot is held back for it.
pub fn settle_routed(
    program: &mut HirProgram,
    lattice: &Lattice,
    construct: StructId,
    list: &Vec<ConstructInput>,
    arg: GivenArgument,
    route: ArgRoute,
    initializers: &mut Vec<Option<HirExprId>>,
    span: Span,
    log: &mut Log,
)
    requires
        route matches ArgRoute::Input(k) ==> k < list@.len() && list@[k as int].field_index < old(
            initializers,
        )@.len() && old(program).has_expr(arg.value) && old(program).exprs@.len() < u32::MAX,
    ensures
        final(program).built_on(old(program)),
        final(initializers)@.len() == old(initializers)@.len(),
        final(log).source == old(log).source,
        argument_settled(
            (GivenState {
                program: *old(program),
                initializers: old(initializers)@,
                said: old(log).diagnostics@,
            }),
            (GivenState {
                program: *final(program),
                initializers: final(initializers)@,
                said: final(log).diagnostics@,
            }),
            lattice,
            construct,
            list@,
            arg,
            route,
            span,
            old(log).source,
        ),
{
    match route {
        ArgRoute::Input(k) => {
            settle_argument(
                program,
                lattice,
                construct,
                list[k],
                arg.value,
                initializers,
                span,
                log,
            );
        },
        _ => {
            refuse_argument(
                route,
                construct,
                arg.label,
                arg.label_span,
                list.len(),
                span,
                log,
            );
        },
    }
}

/// A field holds a value once the arguments are settled exactly where it held one
/// before, or one of them fills it.
pub proof fn arguments_fill_their_fields(
    steps: Seq<(GivenState, GivenState)>,
    lattice: &Lattice,
    construct: StructId,
    list: Seq<ConstructInput>,
    slots: Seq<ContentSlot>,
    args: Seq<GivenArgument>,
    span: Span,
    source: SourceId,
    index: int,
    count: int,
)
    requires
        arguments_settled(steps, lattice, construct, list, slots, args, span, source),
        0 < count <= steps.len(),
        0 <= index < steps[0].0.initializers.len(),
        forall|k: int|
            0 <= k < list.len() ==> (#[trigger] list[k]).field_index
                < steps[0].0.initializers.len(),
        list.len() <= usize::MAX,
    ensures
        steps[count - 1].1.initializers.len() == steps[0].0.initializers.len(),
        steps[count - 1].1.initializers[index] is Some <==> (steps[0].0.initializers[index] is Some
            || fills_field(list, slots, labels_of(args), index, count)),
    decreases count,
{
    let labels = labels_of(args);
    let step = steps[count - 1];
    lemma_fills_one_more(list, slots, labels, index, count - 1);
    if count > 1 {
        arguments_fill_their_fields(
            steps,
            lattice,
            construct,
            list,
            slots,
            args,
            span,
            source,
            index,
            count - 1,
        );
    }
    if let ArgRoute::Input(k) = routes(list, slots, labels)[count - 1] {
        lemma_positional_grows(labels, 0, count - 1);
        lemma_routed(list, slots, labels[count - 1], positional_before(labels, count - 1));
        assert(list[k as int].field_index < steps[0].0.initializers.len());
        let at = list[k as int].field_index as int;
        assert(step.1.initializers[at] is Some);
    }
}

proof fn lemma_routed(
    list: Seq<ConstructInput>,
    slots: Seq<ContentSlot>,
    label: Option<Symbol>,
    next: int,
)
    requires
        0 <= next,
        list.len() <= usize::MAX,
    ensures
        routed(list, slots, label, next) matches ArgRoute::Input(k) ==> k < list.len(),
{
    if let Some(label) = label {
        lemma_input_named(list, label, 0);
    }
}

proof fn lemma_input_named(list: Seq<ConstructInput>, label: Symbol, from: int)
    requires
        0 <= from,
    ensures
        input_named(list, label, from) matches Some(k) ==> from <= k < list.len(),
    decreases list.len() - from,
{
    if from < list.len() && list[from].name != FieldName::Plain(label) {
        lemma_input_named(list, label, from + 1);
    }
}

proof fn lemma_fills_one_more(
    list: Seq<ConstructInput>,
    slots: Seq<ContentSlot>,
    labels: Seq<Option<Symbol>>,
    index: int,
    count: int,
)
    requires
        0 <= count < labels.len(),
    ensures
        fills_field(list, slots, labels, index, count + 1) <==> (fills_field(
            list,
            slots,
            labels,
            index,
            count,
        ) || (routes(list, slots, labels)[count] matches ArgRoute::Input(k)
            && list[k as int].field_index == index)),
{
    let taken = routes(list, slots, labels);
    if fills_field(list, slots, labels, index, count + 1) {
        let i = choose|i: int|
            0 <= i < count + 1 && ((#[trigger] taken[i]) matches ArgRoute::Input(k)
                && list[k as int].field_index == index);
        assert(i < count ==> fills_field(list, slots, labels, index, count));
    }
    if fills_field(list, slots, labels, index, count) {
        let i = choose|i: int|
            0 <= i < count && ((#[trigger] taken[i]) matches ArgRoute::Input(k)
                && list[k as int].field_index == index);
        assert(taken[i] is Input);
    }
}

/// Positional arguments fill the inputs in order, each another one: the k-th of
/// them reaches input k, as long as there is one.
pub proof fn positional_arguments_fill_in_order(
    list: Seq<ConstructInput>,
    slots: Seq<ContentSlot>,
    labels: Seq<Option<Symbol>>,
    i: int,
    j: int,
)
    requires
        0 <= i < j < labels.len(),
        labels[i] is None,
        labels[j] is None,
        list.len() <= usize::MAX,
    ensures
        ({
            let taken = routes(list, slots, labels);
            let at = positional_before(labels, i);
            &&& at < list.len() ==> taken[i] == ArgRoute::Input(at as usize)
            &&& at >= list.len() ==> taken[i] is TooMany
            &&& positional_before(labels, j) > at
            &&& taken[j] is Input ==> taken[i] is Input && taken[i] != taken[j]
        }),
{
    lemma_positional_grows(labels, i, j);
    lemma_positional_grows(labels, 0, i);
}

proof fn lemma_positional_grows(labels: Seq<Option<Symbol>>, i: int, j: int)
    requires
        0 <= i <= j <= labels.len(),
    ensures
        positional_before(labels, i) <= positional_before(labels, j),
        i < j && labels[i] is None ==> positional_before(labels, i) < positional_before(labels, j),
    decreases j - i,
{
    if i < j {
        lemma_positional_grows(labels, i, j - 1);
    }
}

/// No child slot is among the inputs, so none is ever filled by position, and the
/// inputs stand in declaration order.
pub proof fn inputs_leave_slots_out(
    fields: Seq<FieldDef>,
    slots: Seq<ContentSlot>,
    count: int,
    k: int,
)
    requires
        0 <= count <= fields.len() <= u32::MAX,
        0 <= k < inputs_of(fields, slots, count).len(),
    ensures
        ({
            let list = inputs_of(fields, slots, count);
            &&& list[k].field_index < count
            &&& !is_slot(slots, list[k].field_index as int)
            &&& list[k].name == fields[list[k].field_index as int].name
            &&& list[k].ty == fields[list[k].field_index as int].ty
            &&& k > 0 ==> list[k - 1].field_index < list[k].field_index
        }),
    decreases count,
{
    if count > 0 {
        let before = inputs_of(fields, slots, count - 1);
        if k < before.len() {
            inputs_leave_slots_out(fields, slots, count - 1, k);
        } else if k > 0 {
            inputs_leave_slots_out(fields, slots, count - 1, k - 1);
        }
    }
}

/// A label that names a child slot always reaches it, whatever inputs there are;
/// one that names an input reaches that input wherever it is written.
pub proof fn labels_reach_by_name(
    list: Seq<ConstructInput>,
    slots: Seq<ContentSlot>,
    label: Symbol,
    next: int,
    other: int,
)
    ensures
        routed(list, slots, Some(label), next) == routed(list, slots, Some(label), other),
        routed(list, slots, Some(label), next) is Slot <==> exists|k: int|
            0 <= k < slots.len() && (#[trigger] slots[k]).name == label,
{
    lemma_slot_named(slots, label, 0);
}

proof fn lemma_slot_named(slots: Seq<ContentSlot>, label: Symbol, from: int)
    requires
        0 <= from,
    ensures
        match slot_named(slots, label, from) {
            Some(k) => from <= k < slots.len() && slots[k].name == label,
            None => forall|k: int| from <= k < slots.len() ==> (#[trigger] slots[k]).name != label,
        },
    decreases slots.len() - from,
{
    if from < slots.len() && slots[from].name != label {
        lemma_slot_named(slots, label, from + 1);
    }
}

/// A label names the first child slot called so; it names none exactly if no slot is.
pub proof fn a_label_names_its_slot(slots: Seq<ContentSlot>, label: Symbol)
    ensures
        match slot_named(slots, label, 0) {
            Some(s) => 0 <= s < slots.len() && slots[s].name == label && forall|k: int|
                0 <= k < s ==> (#[trigger] slots[k]).name != label,
            None => forall|k: int| 0 <= k < slots.len() ==> (#[trigger] slots[k]).name != label,
        },
{
    lemma_slot_named_first(slots, label, 0);
}

proof fn lemma_slot_named_first(slots: Seq<ContentSlot>, label: Symbol, from: int)
    requires
        0 <= from <= slots.len(),
    ensures
        match slot_named(slots, label, from) {
            Some(s) => from <= s < slots.len() && slots[s].name == label && forall|k: int|
                from <= k < s ==> (#[trigger] slots[k]).name != label,
            None => forall|k: int| from <= k < slots.len() ==> (#[trigger] slots[k]).name != label,
        },
    decreases slots.len() - from,
{
    if from < slots.len() && slots[from].name != label {
        lemma_slot_named_first(slots, label, from + 1);
    }
}

proof fn lemma_input_named_first(list: Seq<ConstructInput>, label: Symbol, from: int)
    requires
        0 <= from <= list.len(),
    ensures
        match input_named(list, label, from) {
            Some(s) => from <= s < list.len() && list[s].name == FieldName::Plain(label) && forall|
                k: int,
            |
                from <= k < s ==> (#[trigger] list[k]).name != FieldName::Plain(label),
            None => forall|k: int|
                from <= k < list.len() ==> (#[trigger] list[k]).name != FieldName::Plain(label),
        },
    decreases list.len() - from,
{
    if from < list.len() && list[from].name != FieldName::Plain(label) {
        lemma_input_named_first(list, label, from + 1);
    }
}

/// An argument without a label goes to the next input by position, and is one too many
/// where none is left. A labelled one goes to the child slot of its label, else to the
/// input of its label, and names nothing where there is neither. Only the last two are
/// refused.
pub proof fn an_argument_goes_where_its_label_says(
    list: Seq<ConstructInput>,
    slots: Seq<ContentSlot>,
    label: Option<Symbol>,
    next: int,
    construct: StructId,
    label_span: Option<Span>,
    takes: int,
    span: Span,
)
    requires
        0 <= next,
        list.len() <= usize::MAX,
        slots.len() <= usize::MAX,
    ensures
        ({
            let route = routed(list, slots, label, next);
            let refusal = route_refusal(route, construct, label, label_span, takes, span);
            let slot = exists|k: int|
                0 <= k < slots.len() && Some((#[trigger] slots[k]).name) == label;
            let input = exists|k: int|
                0 <= k < list.len() && label is Some && (#[trigger] list[k]).name
                    == FieldName::Plain(label->0);
            &&& label is None && next < list.len() ==> route == ArgRoute::Input(next as usize)
            &&& label is None && next >= list.len() ==> route == ArgRoute::TooMany && refusal is Some
            &&& label is Some && slot ==> (route matches ArgRoute::Slot(k) && k < slots.len()
                && Some(slots[k as int].name) == label)
            &&& label is Some && !slot && input ==> (route matches ArgRoute::Input(k) && k
                < list.len() && list[k as int].name == FieldName::Plain(label->0))
            &&& label is Some && !slot && !input ==> route == ArgRoute::NoInput && refusal is Some
            &&& route is Slot || route is Input ==> refusal is None
        }),
{
    if let Some(label) = label {
        lemma_slot_named_first(slots, label, 0);
        lemma_input_named_first(list, label, 0);
    }
}

proof fn lemma_input_for(fields: Seq<FieldDef>, slots: Seq<ContentSlot>, count: int, f: int)
    requires
        0 <= f < count <= fields.len() <= u32::MAX,
        forall|s: int| 0 <= s < slots.len() ==> (#[trigger] slots[s]).field_index != f,
    ensures
        exists|k: int|
            0 <= k < inputs_of(fields, slots, count).len() && (#[trigger] inputs_of(
                fields,
                slots,
                count,
            )[k]).field_index == f,
    decreases count,
{
    let list = inputs_of(fields, slots, count);
    let before = inputs_of(fields, slots, count - 1);
    if f < count - 1 {
        lemma_input_for(fields, slots, count - 1, f);
        let k = choose|k: int| 0 <= k < before.len() && (#[trigger] before[k]).field_index == f;
        assert(list[k] == before[k]);
    } else {
        assert(!is_slot(slots, f));
        assert(list[list.len() - 1].field_index == f);
    }
}

/// Every field of a declaration that is no child slot is an input: one of the inputs is
/// that field, under its name and of its type.
pub proof fn every_plain_field_is_an_input(fields: Seq<FieldDef>, slots: Seq<ContentSlot>, f: int)
    requires
        0 <= f < fields.len() <= u32::MAX,
        forall|s: int| 0 <= s < slots.len() ==> (#[trigger] slots[s]).field_index != f,
    ensures
        exists|k: int|
            #![trigger inputs_of(fields, slots, fields.len() as int)[k]]
            {
                let list = inputs_of(fields, slots, fields.len() as int);
                &&& 0 <= k < list.len()
                &&& list[k].field_index == f
                &&& list[k].name == fields[f].name
                &&& list[k].ty == fields[f].ty
            },
{
    lemma_input_for(fields, slots, fields.len() as int, f);
    let list = inputs_of(fields, slots, fields.len() as int);
    let k = choose|k: int| 0 <= k < list.len() && (#[trigger] list[k]).field_index == f;
    inputs_leave_slots_out(fields, slots, fields.len() as int, k);
}

/// No child slot's field is an input.
pub proof fn no_child_slot_is_an_input(fields: Seq<FieldDef>, slots: Seq<ContentSlot>, k: int, s: int)
    requires
        fields.len() <= u32::MAX,
        0 <= k < inputs_of(fields, slots, fields.len() as int).len(),
        0 <= s < slots.len(),
    ensures
        inputs_of(fields, slots, fields.len() as int)[k].field_index != slots[s].field_index,
{
    inputs_leave_slots_out(fields, slots, fields.len() as int, k);
}

/// A field that was given holds what it was given. One that was not holds its default,
/// analyzed now, unless that very default is being analyzed already or the field's type
/// did not resolve; it holds the error node then, and where it has no default.
pub proof fn a_given_field_is_not_defaulted(
    before: &HirProgram,
    after: &HirProgram,
    construct: StructId,
    index: u32,
    ty: Type,
    given: Option<HirExprId>,
    default: Option<FieldDefault>,
    resolving: Seq<(u32, u32)>,
    step: FieldStep,
)
    requires
        field_step(before, after, construct, index, ty, given, default, resolving, step),
        before.exprs@.len() < u32::MAX,
    ensures
        given is Some ==> step == FieldStep::Value(given->0) && *after == *before,
        given is None && default is Some && ty != Type::Error && !resolving.contains(
            (construct.0, index),
        ) ==> step == FieldStep::Analyze(default->0),
        given is None && (default is None || ty == Type::Error || resolving.contains(
            (construct.0, index),
        )) ==> (step matches FieldStep::Value(value) && after.at(value) == HirExpr::Error),
{
}

/// Settling an argument says nothing exactly if its input was not given before and its
/// value fits the input's type.
pub proof fn a_silent_argument_fits_once(
    source: SourceId,
    construct: StructId,
    input: ConstructInput,
    given: bool,
    admitted: bool,
    found: Type,
    span: Span,
)
    ensures
        settling_said(source, construct, input, given, admitted, found, span).len() == 0 <==> !given
            && admitted,
{
}

/// A completed field is bound to a new local under its own name, at its type, by one
/// statement that runs before the construction; its name then means that local, which is
/// what reads it.
pub proof fn a_completed_field_is_bound_to_its_name(
    before: &HirProgram,
    ctx: &FnCtx,
    after: &HirProgram,
    ctx_after: &FnCtx,
    name: Symbol,
    ty: Type,
    value: HirExprId,
    read: HirExprId,
)
    requires
        field_bound(before, ctx, after, ctx_after, name, ty, value, read),
        ctx.locals@.len() < u32::MAX,
        before.stmts@.len() < u32::MAX,
        ctx.scopes@.len() > 0,
    ensures
        ({
            let local = LocalId(ctx.locals@.len() as u32);
            &&& ctx_after.locals@.len() == ctx.locals@.len() + 1
            &&& ctx_after.locals@.last().name == Some(name)
            &&& ctx_after.locals@.last().ty == ty
            &&& !ctx_after.locals@.last().mutable
            &&& ctx_after.ownership@.last().moved is None
            &&& ctx_after.scopes@.last()@.contains_pair(name, local)
            &&& ctx_after.scopes@.len() == ctx.scopes@.len()
            &&& ctx_after.pending_stmts@.len() == ctx.pending_stmts@.len() + 1
            &&& after.stmts@[ctx_after.pending_stmts@.last().0 as int] == (HirStmt::Let {
                local,
                init: value,
            })
            &&& after.at(read) == (HirExpr::Local { local, ty })
        }),
{
}

/// A settled argument sets the field of its own input and no other, and an argument that
/// goes nowhere sets none and adds nothing to the program.
pub proof fn an_argument_sets_its_own_input(
    before: GivenState,
    after: GivenState,
    lattice: &Lattice,
    construct: StructId,
    list: Seq<ConstructInput>,
    arg: GivenArgument,
    route: ArgRoute,
    span: Span,
    source: SourceId,
    field: int,
)
    requires
        argument_settled(
            before,
            after,
            lattice,
            construct,
            list,
            arg,
            route,
            span,
            source,
        ),
        0 <= field < before.initializers.len(),
        route matches ArgRoute::Input(k) ==> list[k as int].field_index
            < before.initializers.len(),
    ensures
        after.initializers.len() == before.initializers.len(),
        route matches ArgRoute::Input(k) ==> (field == list[k as int].field_index
            ==> after.initializers[field] is Some) && (field != list[k as int].field_index
            ==> after.initializers[field] == before.initializers[field]),
        !(route is Input) ==> after.initializers == before.initializers && after.program
            == before.program,
{
}

} // verus!
