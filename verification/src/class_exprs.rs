//! The three expressions a class adds: construction, parent qualification, and
//! bare access to an inherited member.
//!
//! None of them survive analysis. A constructor call becomes the same node a
//! struct literal does, and qualified and bare member access become an ordinary
//! field read or call.

use vstd::prelude::*;

use crate::callables::{CallName, NameForm};
use crate::class_fields::{bare_field, qualified_field, slots_named};
use crate::class_methods::{bare_means, is_most_derived};
use crate::classes::{ClassInfo, ClassTable, SlotOrigin};
use crate::coercion::{admits, coerce_into, coerced};
use crate::diagnostics::{Diagnostic, Log, Problem};
use crate::drop_reads::{noted_read, DropReads};
use crate::hir::{HirExpr, HirExprId, HirProgram, LocalId};
use crate::imports::ImportTable;
use crate::lattice::Lattice;
use crate::lists::copied;
use crate::names::Symbol;
use crate::scope::{lookup, FnCtx};
use crate::sig_lookup::{lookup_function, reached_by};
use crate::signatures::SigTable;
use crate::source::{FileSpan, SourceId, Span};
use crate::syntax::{Expr, MemberKey};
use crate::ty::{FieldName, StructId, Type, TypeTable};
use crate::visibility::{struct_seen, visible_struct, DeclaredIn};

verus! {

/// The class `name` denotes in `source`, if it denotes one.
pub fn class_named(
    types: &TypeTable,
    imports: &ImportTable,
    declared: &DeclaredIn,
    classes: &ClassTable,
    source: SourceId,
    name: Symbol,
) -> (found: Option<StructId>)
    requires
        types.structs@.len() <= u32::MAX,
    ensures
        found == match struct_seen(types, imports, declared, source, imports.package(source), name) {
            Some(id) if classes.info(id) is Some => Some(id),
            _ => None,
        },
{
    match visible_struct(types, imports, declared, source, name) {
        Some(id) => if classes.is_class(id) {
            Some(id)
        } else {
            None
        },
        None => None,
    }
}

/// The slots a class's constructor fills by position.
pub open spec fn constructor_slots(classes: &ClassTable, class: StructId) -> Seq<u32> {
    match classes.info(class) {
        Some(info) => info.required_slots@,
        None => Seq::empty(),
    }
}

/// The type of a slot.
pub open spec fn slot_type(types: &TypeTable, class: StructId, slot: u32) -> Type {
    if slot < types.fields(class).len() {
        types.fields(class)[slot as int].ty
    } else {
        Type::Error
    }
}

/// A constructor call being analyzed.
#[derive(Debug)]
pub struct ClassBuild {
    pub class: StructId,
    /// The slots the arguments fill, in order.
    pub required: Vec<u32>,
    /// Whether as many arguments were written as there are such slots.
    pub arity_matches: bool,
    /// What each slot was given so far.
    pub initializers: Vec<Option<HirExprId>>,
}

impl ClassBuild {
    /// Every argument has a slot of the class to fill.
    pub open spec fn wf(&self) -> bool {
        forall|k: int|
            0 <= k < self.required@.len() ==> (#[trigger] self.required@[k])
                < self.initializers@.len()
    }
}

/// Begins a constructor call of `count` arguments: they fill the slots whose
/// fields declare no default, in flattened order.
pub fn begin_class_new(
    types: &TypeTable,
    classes: &ClassTable,
    class: StructId,
    count: usize,
    span: Span,
    log: &mut Log,
) -> (build: ClassBuild)
    requires
        forall|k: int|
            0 <= k < constructor_slots(classes, class).len() ==> (#[trigger] constructor_slots(
                classes,
                class,
            )[k]) < types.fields(class).len(),
    ensures
        build.wf(),
        build.class == class,
        build.required@ == constructor_slots(classes, class),
        build.arity_matches == (count == constructor_slots(classes, class).len()),
        build.initializers@ == Seq::new(
            types.fields(class).len(),
            |k: int| None::<HirExprId>,
        ),
        final(log).source == old(log).source,
        if build.arity_matches {
            final(log).quiet(old(log))
        } else {
            final(log).reported(
                old(log),
                old(log).source,
                span,
                (Problem::ConstructorArity {
                    class,
                    takes: constructor_slots(classes, class).len() as usize,
                    found: count,
                }),
            )
        },
{
    let required: Vec<u32> = match classes.find(class) {
        Some(row) => copied(&classes.classes[row].required_slots),
        None => Vec::new(),
    };
    assert(required@ =~= constructor_slots(classes, class));
    let arity_matches = count == required.len();
    if !arity_matches {
        log.emit(
            span,
            Problem::ConstructorArity { class, takes: required.len(), found: count },
        );
    }
    let mut initializers: Vec<Option<HirExprId>> = Vec::new();
    let fields: usize = if (class.0 as usize) < types.structs.len() {
        types.structs[class.0 as usize].fields.len()
    } else {
        0
    };
    let mut i: usize = 0;
    while i < fields
        invariant
            i <= fields,
            initializers@ == Seq::new(i as nat, |k: int| None::<HirExprId>),
        decreases fields - i,
    {
        initializers.push(None);
        i += 1;
        assert(initializers@ =~= Seq::new(i as nat, |k: int| None::<HirExprId>));
    }
    assert forall|k: int| 0 <= k < required@.len() implies (#[trigger] required@[k])
        < initializers@.len() by {
        assert(constructor_slots(classes, class)[k] < types.fields(class).len());
    }
    ClassBuild { class, required, arity_matches, initializers }
}

/// Settles argument `index`, counting from zero, once it is analyzed: checked
/// against its slot's type, carried into it, and put there. An argument past the
/// last slot fills nothing.
pub fn settle_class_argument(
    program: &mut HirProgram,
    lattice: &Lattice,
    build: &mut ClassBuild,
    index: usize,
    value: HirExprId,
    span: Span,
    log: &mut Log,
)
    requires
        old(build).wf(),
        index < usize::MAX,
        old(program).has_expr(value),
        old(program).exprs@.len() < u32::MAX,
    ensures
        final(build).wf(),
        final(build).initializers@.len() == old(build).initializers@.len(),
        *final(build) == (ClassBuild { initializers: final(build).initializers, ..*old(build) }),
        final(program).built_on(old(program)),
        final(log).source == old(log).source,
        if index < old(build).required@.len() {
            let slot = old(build).required@[index as int];
            let expected = slot_type(&old(program).types, old(build).class, slot);
            let found = old(program).type_at(value);
            &&& final(build).initializers@[slot as int] matches Some(result)
            &&& coerced(old(program), final(program), lattice, value, expected, result)
            &&& final(program).has_expr(result)
            &&& final(build).initializers@ == old(build).initializers@.update(
                slot as int,
                Some(result),
            )
            &&& if lattice.admits(found, expected) {
                final(log).quiet(old(log))
            } else {
                final(log).reported(
                    old(log),
                    old(log).source,
                    span,
                    (Problem::ConstructorMismatch {
                        class: old(build).class,
                        place: (index + 1) as usize,
                        expected,
                        found,
                    }),
                )
            }
        } else {
            *final(build) == *old(build) && *final(program) == *old(program) && final(log).quiet(
                old(log),
            )
        },
{
    if index >= build.required.len() {
        return ;
    }
    let slot: u32 = build.required[index];
    let row: usize = build.class.0 as usize;
    let expected: Type = if row < program.types.structs.len() && (slot as usize)
        < program.types.structs[row].fields.len() {
        program.types.structs[row].fields[slot as usize].ty
    } else {
        Type::Error
    };
    let found = program.type_of(value);
    if !admits(lattice, found, expected) {
        log.emit(
            span,
            Problem::ConstructorMismatch {
                class: build.class,
                place: index + 1,
                expected,
                found,
            },
        );
    }
    let result = coerce_into(program, lattice, value, expected);
    assert(build.required@[index as int] < build.initializers@.len());
    build.initializers[slot as usize] = Some(result);
}

/// The first slot from `from` on that nothing was given to.
pub open spec fn first_open(initializers: Seq<Option<HirExprId>>, from: int) -> Option<int>
    decreases initializers.len() - from,
{
    if from < 0 || from >= initializers.len() {
        None
    } else if initializers[from] is None {
        Some(from)
    } else {
        first_open(initializers, from + 1)
    }
}

/// The next slot that takes its declared default: slots are gone through in order.
///
/// A slot left unfilled by a call that already had the wrong number of arguments is
/// that same mistake, not a second one, so none of those takes its default.
pub fn next_open_slot(build: &ClassBuild) -> (slot: Option<u32>)
    requires
        build.initializers@.len() <= u32::MAX,
    ensures
        match slot {
            Some(slot) => build.arity_matches && first_open(build.initializers@, 0) == Some(
                slot as int,
            ) && slot < build.initializers@.len() && build.initializers@[slot as int] is None,
            None => !build.arity_matches || first_open(build.initializers@, 0) is None,
        },
{
    if !build.arity_matches {
        return None;
    }
    let mut i: usize = 0;
    while i < build.initializers.len()
        invariant
            build.arity_matches,
            i <= build.initializers@.len() <= u32::MAX,
            first_open(build.initializers@, 0) == first_open(build.initializers@, i as int),
        decreases build.initializers@.len() - i,
    {
        if build.initializers[i].is_none() {
            return Some(i as u32);
        }
        i += 1;
    }
    None
}

/// Settles a slot the arguments left, its declared default having just been analyzed:
/// the slot takes it, and one that has neither a value nor a default is reported and
/// holds an error.
pub fn class_field_default(
    program: &mut HirProgram,
    build: &mut ClassBuild,
    slot: u32,
    default: Option<HirExprId>,
    span: Span,
    log: &mut Log,
)
    requires
        old(build).wf(),
        slot < old(build).initializers@.len(),
        old(program).exprs@.len() < u32::MAX,
    ensures
        final(build).wf(),
        *final(build) == (ClassBuild { initializers: final(build).initializers, ..*old(build) }),
        final(log).source == old(log).source,
        match default {
            Some(value) => {
                &&& *final(program) == *old(program)
                &&& final(build).initializers@ == old(build).initializers@.update(
                    slot as int,
                    Some(value),
                )
                &&& final(log).quiet(old(log))
            },
            None => {
                &&& final(program).exprs@ == old(program).exprs@.push(HirExpr::Error)
                &&& *final(program) == (HirProgram { exprs: final(program).exprs, ..*old(program) })
                &&& final(build).initializers@ == old(build).initializers@.update(
                    slot as int,
                    Some(HirExprId(old(program).exprs@.len() as u32)),
                )
                &&& final(log).reported(
                    old(log),
                    old(log).source,
                    span,
                    (Problem::SlotHasNoValue { class: old(build).class, slot }),
                )
            },
        },
{
    let filled = match default {
        Some(value) => value,
        None => {
            log.emit(span, Problem::SlotHasNoValue { class: build.class, slot });
            program.add_expr(HirExpr::Error)
        },
    };
    build.initializers[slot as usize] = Some(filled);
}

/// `field` is what a slot given `given` holds: an error where nothing was.
pub open spec fn slot_holds(
    program: &HirProgram,
    given: Option<HirExprId>,
    field: HirExprId,
) -> bool {
    match given {
        Some(value) => field == value,
        None => program.has_expr(field) && program.at(field) is Error,
    }
}

/// Completes a constructor call, every slot that takes its default having done so: the
/// whole becomes what a struct literal does.
pub fn finish_class_new(program: &mut HirProgram, build: ClassBuild) -> (id: HirExprId)
    requires
        old(program).exprs@.len() + build.initializers@.len() < u32::MAX,
    ensures
        final(program).built_on(old(program)),
        final(program).stmts == old(program).stmts,
        final(program).has_expr(id),
        (final(program).at(id) matches HirExpr::StructNew { struct_id, fields } && {
            &&& struct_id == build.class
            &&& fields@.len() == build.initializers@.len()
            &&& forall|slot: int|
                0 <= slot < fields@.len() ==> slot_holds(
                    final(program),
                    build.initializers@[slot],
                    #[trigger] fields@[slot],
                )
        }),
{
    let ghost start = *program;
    let mut fields: Vec<HirExprId> = Vec::new();
    let mut i: usize = 0;
    while i < build.initializers.len()
        invariant
            i <= build.initializers@.len(),
            start.exprs@.len() + build.initializers@.len() < u32::MAX,
            program.built_on(&start),
            program.stmts == start.stmts,
            program.exprs@.len() <= start.exprs@.len() + i,
            fields@.len() == i,
            forall|slot: int|
                0 <= slot < i ==> slot_holds(
                    program,
                    build.initializers@[slot],
                    #[trigger] fields@[slot],
                ),
        decreases build.initializers@.len() - i,
    {
        let ghost before = *program;
        let ghost held = fields@;
        let field = match build.initializers[i] {
            Some(given) => given,
            None => program.add_expr(HirExpr::Error),
        };
        fields.push(field);
        proof {
            assert forall|slot: int| 0 <= slot < i + 1 implies slot_holds(
                program,
                build.initializers@[slot],
                #[trigger] fields@[slot],
            ) by {
                if slot < i {
                    assert(fields@[slot] == held[slot]);
                    assert(slot_holds(&before, build.initializers@[slot], held[slot]));
                }
            }
        }
        i += 1;
    }
    let ghost all = fields@;
    let ghost before = *program;
    let id = program.add_expr(HirExpr::StructNew { struct_id: build.class, fields });
    proof {
        assert forall|slot: int| 0 <= slot < all.len() implies slot_holds(
            program,
            build.initializers@[slot],
            #[trigger] all[slot],
        ) by {
            assert(slot_holds(&before, build.initializers@[slot], all[slot]));
        }
    }
    id
}

/// What the slots of a class hold after the first `count` arguments settled to
/// `results`.
pub open spec fn given_slots(
    required: Seq<u32>,
    slots: nat,
    results: Seq<HirExprId>,
    count: int,
) -> Seq<Option<HirExprId>>
    decreases count,
{
    if count <= 0 {
        Seq::new(slots, |k: int| None)
    } else {
        let before = given_slots(required, slots, results, count - 1);
        if count <= required.len() {
            before.update(required[count - 1] as int, Some(results[count - 1]))
        } else {
            before
        }
    }
}

/// The arguments of a constructor fill the fields without a default in flattened
/// order, each its own, and no other field.
pub proof fn arguments_fill_required_slots(
    required: Seq<u32>,
    slots: nat,
    results: Seq<HirExprId>,
    count: int,
    slot: int,
)
    requires
        0 <= count <= results.len(),
        forall|k: int| 0 <= k < required.len() ==> (#[trigger] required[k]) < slots,
        forall|i: int, j: int|
            0 <= i < j < required.len() ==> #[trigger] required[i] != #[trigger] required[j],
        0 <= slot < slots,
    ensures
        given_slots(required, slots, results, count).len() == slots,
        forall|k: int|
            0 <= k < count && k < required.len() && required[k] == slot ==> given_slots(
                required,
                slots,
                results,
                count,
            )[slot] == Some(#[trigger] results[k]),
        (forall|k: int| 0 <= k < count && k < required.len() ==> #[trigger] required[k] != slot)
            ==> given_slots(required, slots, results, count)[slot] is None,
    decreases count,
{
    if count > 0 {
        arguments_fill_required_slots(required, slots, results, count - 1, slot);
        if count <= required.len() {
            assert(required[count - 1] < slots);
        }
    }
}

/// What a bare type name before a dot is.
#[derive(Clone, Copy, PartialEq, Eq, Structural, Debug)]
pub enum Qualifier {
    /// No type name: an ordinary field read or method call handles it.
    NotAType,
    /// A parent whose member is named.
    Parent(StructId),
    /// A type that qualifies nothing here, already reported.
    Rejected,
}

/// The type `root` names where it may qualify: none where a local of the same name
/// hides it, because a binding the reader can see beats a type they look up.
pub open spec fn qualifier_type(
    types: &TypeTable,
    imports: &ImportTable,
    declared: &DeclaredIn,
    ctx: &FnCtx,
    source: SourceId,
    root: Symbol,
) -> Option<StructId> {
    if lookup(ctx.scopes@, ctx.scope_floor as int, root) is Some {
        None
    } else {
        struct_seen(types, imports, declared, source, imports.package(source), root)
    }
}

/// Whether the body of a method of `receiver` may name members of `parent`.
pub open spec fn may_qualify(classes: &ClassTable, receiver: StructId, parent: StructId) -> bool {
    receiver == parent || classes.ancestors(receiver).contains(parent)
}

/// Resolves `Parent` in `Parent.member`, where it is a type name rather than a
/// value: a parent of the class whose method the body is, or that class itself.
pub fn resolve_parent_qualifier(
    types: &TypeTable,
    imports: &ImportTable,
    declared: &DeclaredIn,
    classes: &ClassTable,
    ctx: &FnCtx,
    root: Symbol,
    span: Span,
    log: &mut Log,
) -> (found: Option<StructId>)
    requires
        types.structs@.len() <= u32::MAX,
        ctx.wf(),
    ensures
        final(log).source == old(log).source,
        match (
            qualifier_type(types, imports, declared, ctx, old(log).source, root),
            ctx.receiver,
        ) {
            (None, _) => found is None && final(log).quiet(old(log)),
            (Some(_), None) => found is None && final(log).reported(
                old(log),
                old(log).source,
                span,
                (Problem::CannotQualifyHere { parent: root }),
            ),
            (Some(parent), Some(receiver)) => if may_qualify(classes, receiver, parent) {
                found == Some(parent) && final(log).quiet(old(log))
            } else {
                found is None && final(log).reported(
                    old(log),
                    old(log).source,
                    span,
                    (Problem::DoesNotInherit { class: receiver, parent: root }),
                )
            },
        },
{
    if ctx.resolve(root).is_some() {
        return None;
    }
    match visible_struct(types, imports, declared, log.source, root) {
        None => None,
        Some(parent) => match ctx.receiver {
            None => {
                log.emit(span, Problem::CannotQualifyHere { parent: root });
                None
            },
            Some(receiver) => {
                if receiver == parent || classes.has_ancestor(receiver, parent) {
                    Some(parent)
                } else {
                    log.emit(span, Problem::DoesNotInherit { class: receiver, parent: root });
                    None
                }
            },
        },
    }
}

/// What `base`, written before a dot, is as a qualifier.
pub fn parent_qualifier_of(
    types: &TypeTable,
    imports: &ImportTable,
    declared: &DeclaredIn,
    classes: &ClassTable,
    ctx: &FnCtx,
    base: &Expr,
    span: Span,
    log: &mut Log,
) -> (qualifier: Qualifier)
    requires
        types.structs@.len() <= u32::MAX,
        ctx.wf(),
    ensures
        final(log).source == old(log).source,
        match base {
            Expr::Name { symbol } => match (
                qualifier_type(types, imports, declared, ctx, old(log).source, *symbol),
                ctx.receiver,
            ) {
                (None, _) => qualifier is NotAType && final(log).quiet(old(log)),
                (Some(_), None) => qualifier is Rejected && final(log).reported(
                    old(log),
                    old(log).source,
                    span,
                    (Problem::CannotQualifyHere { parent: *symbol }),
                ),
                (Some(parent), Some(receiver)) => if may_qualify(classes, receiver, parent) {
                    qualifier == Qualifier::Parent(parent) && final(log).quiet(old(log))
                } else {
                    qualifier is Rejected && final(log).reported(
                        old(log),
                        old(log).source,
                        span,
                        (Problem::DoesNotInherit { class: receiver, parent: *symbol }),
                    )
                },
            },
            _ => qualifier is NotAType && final(log).quiet(old(log)),
        },
{
    match base {
        Expr::Name { symbol } => {
            if ctx.resolve(*symbol).is_some() {
                return Qualifier::NotAType;
            }
            if visible_struct(types, imports, declared, log.source, *symbol).is_none() {
                return Qualifier::NotAType;
            }
            match resolve_parent_qualifier(
                types,
                imports,
                declared,
                classes,
                ctx,
                *symbol,
                span,
                log,
            ) {
                Some(id) => Qualifier::Parent(id),
                None => Qualifier::Rejected,
            }
        },
        _ => Qualifier::NotAType,
    }
}

/// How a call written without a receiver goes on.
#[derive(Clone, Copy, PartialEq, Eq, Structural, Debug)]
pub enum SelfCall {
    /// It is no such call.
    NotOne,
    /// It is refused; the node stands for it.
    Refused(HirExprId),
    /// It runs on this frame's receiver, read by the node, and a mutating callee's
    /// receiver is written back to the slot.
    On { local: LocalId, value: HirExprId },
}

/// Whether `parent` declares some overload of `method` that `receiver` can name.
pub open spec fn declares_method(
    classes: &ClassTable,
    receiver: StructId,
    parent: StructId,
    method: Symbol,
) -> bool {
    match classes.info(receiver) {
        Some(info) => some_overload(info.qualified_methods@, parent, method),
        None => false,
    }
}

/// Whether some nameable method is `parent`'s, of the name `method`.
pub open spec fn some_overload(
    entries: Seq<(StructId, MemberKey)>,
    parent: StructId,
    method: Symbol,
) -> bool {
    exists|i: int|
        0 <= i < entries.len() && #[trigger] names_overload(entries[i], parent, method)
}

/// Whether a nameable method is `parent`'s, of the name `method`.
pub open spec fn names_overload(entry: (StructId, MemberKey), parent: StructId, method: Symbol) -> bool {
    entry.0 == parent && entry.1.name == method
}

fn has_method(classes: &ClassTable, receiver: StructId, parent: StructId, method: Symbol) -> (res:
    bool)
    ensures
        res == declares_method(classes, receiver, parent, method),
{
    match classes.find(receiver) {
        None => false,
        Some(row) => {
            let info = &classes.classes[row];
            let mut i: usize = 0;
            while i < info.qualified_methods.len()
                invariant
                    i <= info.qualified_methods@.len(),
                    classes.info(receiver) == Some(*info),
                    forall|k: int|
                        0 <= k < i ==> !#[trigger] names_overload(
                            info.qualified_methods@[k],
                            parent,
                            method,
                        ),
                decreases info.qualified_methods@.len() - i,
            {
                let (owner, key) = info.qualified_methods[i];
                if owner == parent && key.name == method {
                    assert(names_overload(info.qualified_methods@[i as int], parent, method));
                    assert(some_overload(info.qualified_methods@, parent, method));
                    return true;
                }
                i += 1;
            }
            false
        },
    }
}

/// The receiver of a frame and the slot that holds it, `this` being the name
/// `self`.
pub open spec fn self_of(ctx: &FnCtx, this: Symbol) -> Option<(StructId, LocalId)> {
    match (ctx.receiver, lookup(ctx.scopes@, ctx.scope_floor as int, this)) {
        (Some(receiver), Some(local)) => Some((receiver, local)),
        _ => None,
    }
}

/// One node was added for a self call: the receiver's read, or an error.
pub open spec fn self_call_node(
    before: &HirProgram,
    after: &HirProgram,
    step: SelfCall,
    on: Option<(StructId, LocalId)>,
) -> bool {
    let id = HirExprId(before.exprs@.len() as u32);
    &&& *after == (HirProgram { exprs: after.exprs, ..*before })
    &&& match on {
        Some((receiver, local)) => {
            &&& after.exprs@ == before.exprs@.push(
                HirExpr::Local { local, ty: Type::Struct(receiver) },
            )
            &&& step == (SelfCall::On { local, value: id })
        },
        None => {
            &&& after.exprs@ == before.exprs@.push(HirExpr::Error)
            &&& step == SelfCall::Refused(id)
        },
    }
}

/// Begins `Parent.method(args)` inside a class method: the call still runs on this
/// frame's `self`, which is what makes the parent's body read the overridden
/// defaults.
pub fn begin_parent_call(
    program: &mut HirProgram,
    classes: &ClassTable,
    ctx: &FnCtx,
    parent: StructId,
    method: Symbol,
    this: Symbol,
    span: Span,
    log: &mut Log,
) -> (step: SelfCall)
    requires
        ctx.wf(),
        old(program).exprs@.len() < u32::MAX,
    ensures
        final(log).source == old(log).source,
        match ctx.receiver {
            None => self_call_node(old(program), final(program), step, None) && final(log).quiet(
                old(log),
            ),
            Some(receiver) => if declares_method(classes, receiver, parent, method) {
                self_call_node(old(program), final(program), step, self_of(ctx, this))
                    && final(log).quiet(old(log))
            } else {
                self_call_node(old(program), final(program), step, None) && final(log).reported(
                    old(log),
                    old(log).source,
                    span,
                    (Problem::NoMethodToQualify { parent, method }),
                )
            },
        },
{
    match ctx.receiver {
        None => SelfCall::Refused(program.add_expr(HirExpr::Error)),
        Some(receiver) => {
            if !has_method(classes, receiver, parent, method) {
                log.emit(span, Problem::NoMethodToQualify { parent, method });
                return SelfCall::Refused(program.add_expr(HirExpr::Error));
            }
            match ctx.resolve(this) {
                None => SelfCall::Refused(program.add_expr(HirExpr::Error)),
                Some(local) => {
                    let value = program.add_expr(
                        HirExpr::Local { local, ty: Type::Struct(receiver) },
                    );
                    SelfCall::On { local, value }
                },
            }
        },
    }
}

/// The name one overload of a parent's method is registered under on `receiver`:
/// the plain one for the copy that wins bare lookup, and the qualified one for a
/// copy an override shadows.
pub open spec fn parent_name(
    classes: &ClassTable,
    receiver: StructId,
    parent: StructId,
    key: MemberKey,
    owner: Symbol,
    origin: Symbol,
) -> NameForm {
    if classes.info(receiver) matches Some(info) && bare_means(info.bare_methods@, key, parent) {
        NameForm::Method { owner, name: key.name }
    } else {
        NameForm::Shadowed { owner, origin, name: key.name }
    }
}

/// The names the overloads of `parent`'s `method` among the first `count` nameable
/// methods are registered under, each run of one name once.
pub open spec fn parent_names(
    classes: &ClassTable,
    receiver: StructId,
    parent: StructId,
    method: Symbol,
    owner: Symbol,
    origin: Symbol,
    entries: Seq<(StructId, MemberKey)>,
    count: int,
) -> Seq<NameForm>
    decreases count,
{
    if count <= 0 {
        Seq::empty()
    } else {
        let before = parent_names(
            classes,
            receiver,
            parent,
            method,
            owner,
            origin,
            entries,
            count - 1,
        );
        if names_overload(entries[count - 1], parent, method) {
            let form = parent_name(classes, receiver, parent, entries[count - 1].1, owner, origin);
            if before.len() > 0 && before.last() == form {
                before
            } else {
                before.push(form)
            }
        } else {
            before
        }
    }
}

/// The names a parent-qualified call may mean. An overloaded name can have its
/// overloads under both names: a subclass that overrode one of them shadows that
/// one alone. `owner` and `origin` are how the receiver's type and the parent's
/// are spelled.
pub fn parent_call_names(
    classes: &ClassTable,
    receiver: StructId,
    parent: StructId,
    method: Symbol,
    owner: Symbol,
    origin: Symbol,
) -> (names: Vec<NameForm>)
    ensures
        names@ == match classes.info(receiver) {
            Some(info) => parent_names(
                classes,
                receiver,
                parent,
                method,
                owner,
                origin,
                info.qualified_methods@,
                info.qualified_methods@.len() as int,
            ),
            None => Seq::empty(),
        },
{
    let mut names: Vec<NameForm> = Vec::new();
    if let Some(row) = classes.find(receiver) {
        let info = &classes.classes[row];
        let mut i: usize = 0;
        while i < info.qualified_methods.len()
            invariant
                i <= info.qualified_methods@.len(),
                classes.info(receiver) == Some(*info),
                names@ == parent_names(
                    classes,
                    receiver,
                    parent,
                    method,
                    owner,
                    origin,
                    info.qualified_methods@,
                    i as int,
                ),
            decreases info.qualified_methods@.len() - i,
        {
            let (of, key) = info.qualified_methods[i];
            if of == parent && key.name == method {
                let form = if is_most_derived(classes, receiver, parent, key) {
                    NameForm::Method { owner, name: key.name }
                } else {
                    NameForm::Shadowed { owner, origin, name: key.name }
                };
                if names.len() == 0 || names[names.len() - 1] != form {
                    names.push(form);
                }
            }
            i += 1;
        }
    }
    assert(classes.info(receiver) is None ==> names@ =~= Seq::empty());
    names
}

/// The first of `names` from `from` on whose declarations the arguments fit.
pub open spec fn fitting_from(names: Seq<NameForm>, fits: Seq<bool>, from: int) -> Option<NameForm>
    decreases names.len() - from,
{
    if from < 0 || from >= names.len() {
        None
    } else if fits[from] {
        Some(names[from])
    } else {
        fitting_from(names, fits, from + 1)
    }
}

/// The name a parent-qualified call means among `names`: the only one, and
/// otherwise the first whose declarations the arguments fit, with the plain name
/// where none is.
pub open spec fn parent_target(names: Seq<NameForm>, fits: Seq<bool>, plain: NameForm) -> NameForm {
    if names.len() == 1 {
        names[0]
    } else {
        match fitting_from(names, fits, 0) {
            Some(form) => form,
            None => plain,
        }
    }
}

/// Picks the name a parent-qualified call means, given for each name whether its
/// declarations fit the arguments.
pub fn parent_call_name(names: &Vec<NameForm>, fits: &Vec<bool>, owner: Symbol, method: Symbol) -> (
    target: NameForm)
    requires
        fits@.len() == names@.len(),
    ensures
        target == parent_target(names@, fits@, NameForm::Method { owner, name: method }),
{
    if names.len() == 1 {
        return names[0];
    }
    let mut i: usize = 0;
    while i < names.len()
        invariant
            i <= names@.len(),
            names@.len() != 1,
            fits@.len() == names@.len(),
            fitting_from(names@, fits@, 0) == fitting_from(names@, fits@, i as int),
        decreases names@.len() - i,
    {
        if fits[i] {
            return names[i];
        }
        i += 1;
    }
    NameForm::Method { owner, name: method }
}

/// `slot` is the last slot `parent` declared as `field` in the class `receiver`.
pub open spec fn parent_slot(info: ClassInfo, parent: StructId, field: Symbol, slot: u32) -> bool {
    let wanted = SlotOrigin { owner: parent, plain: FieldName::Plain(field) };
    &&& slot < info.slot_origin@.len()
    &&& info.slot_origin@[slot as int] == wanted
    &&& forall|k: int| slot < k < info.slot_origin@.len() ==> #[trigger] info.slot_origin@[k] != wanted
}

/// Whether the class `receiver` has a slot `parent` declared as `field`.
pub open spec fn has_parent_slot(
    classes: &ClassTable,
    receiver: StructId,
    parent: StructId,
    field: Symbol,
) -> bool {
    classes.info(receiver) matches Some(info) && info.slot_origin@.contains(
        SlotOrigin { owner: parent, plain: FieldName::Plain(field) },
    )
}

/// Reads `Parent.field` inside a class method: the slot the parent declared, of
/// this frame's `self`.
pub fn analyze_parent_field(
    program: &mut HirProgram,
    classes: &ClassTable,
    lattice: &Lattice,
    ctx: &FnCtx,
    parent: StructId,
    field: Symbol,
    this: Symbol,
    span: Span,
    drops: &mut DropReads,
    log: &mut Log,
) -> (id: HirExprId)
    requires
        ctx.wf(),
        old(program).exprs@.len() + 1 < u32::MAX,
        forall|i: int|
            0 <= i < classes.classes@.len() ==> (#[trigger] classes.classes@[i]).slot_origin@.len()
                <= u32::MAX,
    ensures
        final(program).built_on(old(program)),
        final(program).stmts == old(program).stmts,
        final(program).has_expr(id),
        final(log).source == old(log).source,
        match ctx.receiver {
            None => final(program).at(id) is Error && final(log).quiet(old(log))
                && final(drops).waiting@ == old(drops).waiting@,
            Some(receiver) => if !has_parent_slot(classes, receiver, parent, field) {
                final(program).at(id) is Error && final(log).reported(
                    old(log),
                    old(log).source,
                    span,
                    (Problem::NoFieldToQualify { parent, field }),
                ) && final(drops).waiting@ == old(drops).waiting@
            } else {
                &&& final(log).quiet(old(log))
                &&& match self_of(ctx, this) {
                    None => final(program).at(id) is Error && final(drops).waiting@ == old(
                        drops).waiting@,
                    Some((_, local)) => {
                        &&& final(program).at(id) matches HirExpr::Field { base, index, ty }
                        &&& parent_slot(classes.info(receiver)->0, parent, field, index)
                        &&& ty == slot_type(&old(program).types, receiver, index)
                        &&& final(program).has_expr(base)
                        &&& final(program).at(base) == (HirExpr::Local {
                            local,
                            ty: Type::Struct(receiver),
                        })
                        &&& final(drops).waiting@ == noted_read(
                            old(drops).waiting@,
                            final(program),
                            lattice,
                            id,
                            span,
                        )
                    },
                }
            },
        },
{
    match ctx.receiver {
        None => program.add_expr(HirExpr::Error),
        Some(receiver) => {
            let slot: Option<u32> = match classes.find(receiver) {
                Some(row) => {
                    assert(classes.classes@[row as int].slot_origin@.len() <= u32::MAX);
                    qualified_field(&classes.classes[row], parent, FieldName::Plain(field))
                },
                None => None,
            };
            match slot {
                None => {
                    log.emit(span, Problem::NoFieldToQualify { parent, field });
                    program.add_expr(HirExpr::Error)
                },
                Some(index) => match ctx.resolve(this) {
                    None => program.add_expr(HirExpr::Error),
                    Some(local) => {
                        let row: usize = receiver.0 as usize;
                        let ty: Type = if row < program.types.structs.len() && (index as usize)
                            < program.types.structs[row].fields.len() {
                            program.types.structs[row].fields[index as usize].ty
                        } else {
                            Type::Error
                        };
                        let base = program.add_expr(
                            HirExpr::Local { local, ty: Type::Struct(receiver) },
                        );
                        let read = program.add_expr(HirExpr::Field { base, index, ty });
                        drops.note(program, lattice, read, span);
                        read
                    },
                },
            }
        },
    }
}

/// The owners among which the bare method name `name` is ambiguous: those of the
/// first of its overloads that several parents declare.
pub open spec fn ambiguous_from(
    bare: Seq<(MemberKey, Vec<StructId>)>,
    name: Symbol,
    from: int,
) -> Option<Seq<StructId>>
    decreases bare.len() - from,
{
    if from < 0 || from >= bare.len() {
        None
    } else if bare[from].0.name == name && bare[from].1@.len() > 1 {
        Some(bare[from].1@)
    } else {
        ambiguous_from(bare, name, from + 1)
    }
}

/// The owners of the slots a bare field name may mean, in slot order.
pub open spec fn slot_owners(slots: Seq<(StructId, u32)>) -> Seq<StructId> {
    slots.map_values(|entry: (StructId, u32)| entry.0)
}

/// The owners among which a bare member name is ambiguous on the class `owner`.
pub open spec fn ambiguous_owners(
    classes: &ClassTable,
    owner: StructId,
    name: Symbol,
    method: bool,
) -> Option<Seq<StructId>> {
    match classes.info(owner) {
        None => None,
        Some(info) => if method {
            ambiguous_from(info.bare_methods@, name, 0)
        } else {
            let slots = slots_named(
                info.slot_origin@,
                FieldName::Plain(name),
                info.slot_origin@.len() as int,
            );
            if slots.len() > 1 {
                Some(slot_owners(slots))
            } else {
                None
            }
        },
    }
}

/// `entry` says that the bare `name` is inherited from each of `among`.
pub open spec fn says_ambiguous(
    entry: Diagnostic,
    source: SourceId,
    span: Span,
    name: Symbol,
    method: bool,
    among: Seq<StructId>,
) -> bool {
    &&& entry.at == (FileSpan { source, span })
    &&& if method {
        entry.problem matches Problem::AmbiguousMethod { method: said, owners } && said == name
            && owners@ == among
    } else {
        entry.problem matches Problem::AmbiguousField { field: said, owners } && said == name
            && owners@ == among
    }
}

fn find_ambiguous(info: &ClassInfo, name: Symbol) -> (owners: Option<Vec<StructId>>)
    ensures
        match owners {
            Some(list) => ambiguous_from(info.bare_methods@, name, 0) == Some(list@),
            None => ambiguous_from(info.bare_methods@, name, 0) is None,
        },
{
    let mut i: usize = 0;
    while i < info.bare_methods.len()
        invariant
            i <= info.bare_methods@.len(),
            ambiguous_from(info.bare_methods@, name, 0) == ambiguous_from(
                info.bare_methods@,
                name,
                i as int,
            ),
        decreases info.bare_methods@.len() - i,
    {
        if info.bare_methods[i].0.name == name && info.bare_methods[i].1.len() > 1 {
            return Some(copied(&info.bare_methods[i].1));
        }
        i += 1;
    }
    None
}

fn owners_of(slots: &Vec<(StructId, u32)>) -> (owners: Vec<StructId>)
    ensures
        owners@ == slot_owners(slots@),
{
    let mut owners: Vec<StructId> = Vec::new();
    let mut i: usize = 0;
    while i < slots.len()
        invariant
            i <= slots@.len(),
            owners@ == slot_owners(slots@).take(i as int),
        decreases slots@.len() - i,
    {
        owners.push(slots[i].0);
        i += 1;
        assert(owners@ =~= slot_owners(slots@).take(i as int));
    }
    assert(slot_owners(slots@).take(i as int) =~= slot_owners(slots@));
    owners
}

/// Reports a bare member name that several parents declare, and says whether it
/// did.
pub fn report_ambiguous_member(
    classes: &ClassTable,
    owner: StructId,
    name: Symbol,
    span: Span,
    method: bool,
    log: &mut Log,
) -> (reported: bool)
    requires
        forall|i: int|
            0 <= i < classes.classes@.len() ==> (#[trigger] classes.classes@[i]).slot_origin@.len()
                <= u32::MAX,
    ensures
        reported == (ambiguous_owners(classes, owner, name, method) is Some),
        final(log).source == old(log).source,
        match ambiguous_owners(classes, owner, name, method) {
            None => final(log).quiet(old(log)),
            Some(among) => {
                &&& final(log).diagnostics@.len() == old(log).diagnostics@.len() + 1
                &&& final(log).diagnostics@.drop_last() == old(log).diagnostics@
                &&& says_ambiguous(
                    final(log).diagnostics@.last(),
                    old(log).source,
                    span,
                    name,
                    method,
                    among,
                )
            },
        },
{
    match classes.find(owner) {
        None => false,
        Some(row) => {
            let info = &classes.classes[row];
            assert(classes.classes@[row as int].slot_origin@.len() <= u32::MAX);
            if method {
                match find_ambiguous(info, name) {
                    None => false,
                    Some(owners) => {
                        log.emit(span, Problem::AmbiguousMethod { method: name, owners });
                        assert(log.diagnostics@.drop_last() =~= old(log).diagnostics@);
                        true
                    },
                }
            } else {
                let slots = bare_field(info, FieldName::Plain(name));
                if slots.len() <= 1 {
                    return false;
                }
                let owners = owners_of(&slots);
                log.emit(span, Problem::AmbiguousField { field: name, owners });
                assert(log.diagnostics@.drop_last() =~= old(log).diagnostics@);
                true
            }
        },
    }
}

/// Whether some declaration answers to `form`, written in `source`.
pub open spec fn some_function(
    table: &SigTable,
    imports: &ImportTable,
    source: SourceId,
    form: NameForm,
) -> bool {
    exists|i: int|
        0 <= i < table.sigs@.len() && reached_by(
            imports,
            source,
            #[trigger] table.sigs@[i],
            (form, Seq::empty()),
        )
}

fn answers(table: &SigTable, imports: &ImportTable, source: SourceId, form: NameForm) -> (res: bool)
    requires
        table.sigs@.len() <= u32::MAX,
    ensures
        res == some_function(table, imports, source, form),
{
    let name = CallName { form, copies: Vec::new() };
    assert(name@.1 =~= Seq::empty());
    lookup_function(table, imports, source, &name).is_some()
}

/// Begins a bare call inside a method as a call of one of the receiver's own
/// methods: `ping()` there means `self.ping()`.
///
/// A free function of the same name wins, which is what keeps adding a method from
/// capturing an existing call. An ambiguous name is an outcome, not a miss.
/// `owner_name` is how the receiver's type is spelled, and `this` the name `self`.
pub fn begin_implicit_call(
    program: &mut HirProgram,
    table: &SigTable,
    imports: &ImportTable,
    classes: &ClassTable,
    ctx: &FnCtx,
    name: Symbol,
    owner_name: Symbol,
    this: Symbol,
    span: Span,
    log: &mut Log,
) -> (step: SelfCall)
    requires
        ctx.wf(),
        table.sigs@.len() <= u32::MAX,
        old(program).exprs@.len() < u32::MAX,
        forall|i: int|
            0 <= i < classes.classes@.len() ==> (#[trigger] classes.classes@[i]).slot_origin@.len()
                <= u32::MAX,
    ensures
        final(log).source == old(log).source,
        match ctx.receiver {
            None => step is NotOne && *final(program) == *old(program) && final(log).quiet(
                old(log),
            ),
            Some(owner) => {
                let free = some_function(
                    table,
                    imports,
                    old(log).source,
                    NameForm::Free { name },
                );
                let own = some_function(
                    table,
                    imports,
                    old(log).source,
                    NameForm::Method { owner: owner_name, name },
                );
                if free {
                    step is NotOne && *final(program) == *old(program) && final(log).quiet(old(log))
                } else {
                    match ambiguous_owners(classes, owner, name, true) {
                        Some(among) => {
                            &&& self_call_node(old(program), final(program), step, None)
                            &&& final(log).diagnostics@.len() == old(log).diagnostics@.len() + 1
                            &&& final(log).diagnostics@.drop_last() == old(log).diagnostics@
                            &&& says_ambiguous(
                                final(log).diagnostics@.last(),
                                old(log).source,
                                span,
                                name,
                                true,
                                among,
                            )
                        },
                        None => {
                            &&& final(log).quiet(old(log))
                            &&& if own && self_of(ctx, this) is Some {
                                self_call_node(
                                    old(program),
                                    final(program),
                                    step,
                                    self_of(ctx, this),
                                )
                            } else {
                                step is NotOne && *final(program) == *old(program)
                            }
                        },
                    }
                }
            },
        },
{
    match ctx.receiver {
        None => SelfCall::NotOne,
        Some(owner) => {
            if answers(table, imports, log.source, NameForm::Free { name }) {
                return SelfCall::NotOne;
            }
            let source = log.source;
            if report_ambiguous_member(classes, owner, name, span, true, log) {
                return SelfCall::Refused(program.add_expr(HirExpr::Error));
            }
            if !answers(table, imports, source, NameForm::Method { owner: owner_name, name }) {
                return SelfCall::NotOne;
            }
            match ctx.resolve(this) {
                None => SelfCall::NotOne,
                Some(local) => {
                    let value = program.add_expr(
                        HirExpr::Local { local, ty: Type::Struct(owner) },
                    );
                    SelfCall::On { local, value }
                },
            }
        },
    }
}

/// A member one parent declares is never ambiguous: the first and only slot of the
/// name is what it means.
pub proof fn one_declaration_is_not_ambiguous(
    classes: &ClassTable,
    owner: StructId,
    name: Symbol,
)
    requires
        classes.info(owner) matches Some(info) && forall|i: int, j: int|
            0 <= i < j < info.slot_origin@.len() ==> !((#[trigger] info.slot_origin@[i]).plain
                == FieldName::Plain(name) && (#[trigger] info.slot_origin@[j]).plain
                == FieldName::Plain(name)),
    ensures
        ambiguous_owners(classes, owner, name, false) is None,
{
    let info = classes.info(owner)->0;
    lemma_one_slot(info.slot_origin@, name, info.slot_origin@.len() as int);
}

proof fn lemma_one_slot(origins: Seq<SlotOrigin>, name: Symbol, count: int)
    requires
        0 <= count <= origins.len(),
        forall|i: int, j: int|
            0 <= i < j < origins.len() ==> !((#[trigger] origins[i]).plain == FieldName::Plain(name)
                && (#[trigger] origins[j]).plain == FieldName::Plain(name)),
    ensures
        slots_named(origins, FieldName::Plain(name), count).len() <= 1,
        slots_named(origins, FieldName::Plain(name), count).len() == 1 ==> exists|i: int|
            0 <= i < count && (#[trigger] origins[i]).plain == FieldName::Plain(name),
    decreases count,
{
    if count > 0 {
        lemma_one_slot(origins, name, count - 1);
        if origins[count - 1].plain == FieldName::Plain(name) {
            if slots_named(origins, FieldName::Plain(name), count - 1).len() == 1 {
                let i = choose|i: int|
                    0 <= i < count - 1 && (#[trigger] origins[i]).plain == FieldName::Plain(name);
                assert(origins[i].plain == FieldName::Plain(name) && origins[count - 1].plain
                    == FieldName::Plain(name));
            }
        }
    }
}

proof fn lemma_fitting(names: Seq<NameForm>, fits: Seq<bool>, from: int)
    requires
        0 <= from <= names.len(),
        fits.len() == names.len(),
    ensures
        match fitting_from(names, fits, from) {
            Some(form) => exists|i: int|
                from <= i < names.len() && #[trigger] fits[i] && names[i] == form && forall|k: int|
                    from <= k < i ==> !#[trigger] fits[k],
            None => forall|k: int| from <= k < names.len() ==> !#[trigger] fits[k],
        },
    decreases names.len() - from,
{
    if from < names.len() && !fits[from] {
        lemma_fitting(names, fits, from + 1);
        if let Some(form) = fitting_from(names, fits, from) {
            let i = choose|i: int|
                from + 1 <= i < names.len() && #[trigger] fits[i] && names[i] == form && forall|
                    k: int,
                |
                    from + 1 <= k < i ==> !#[trigger] fits[k];
            assert(fits[i] && names[i] == form);
        }
    } else if from < names.len() {
        assert(fits[from]);
    }
}

/// A parent-qualified call means the first of the parent's overloads the arguments fit;
/// where there is only one it means that one, fitting or not, and where none fits the
/// plain method name.
pub proof fn a_parent_call_takes_the_first_fit(
    names: Seq<NameForm>,
    fits: Seq<bool>,
    plain: NameForm,
    k: int,
)
    requires
        fits.len() == names.len(),
    ensures
        names.len() == 1 ==> parent_target(names, fits, plain) == names[0],
        names.len() != 1 && 0 <= k < names.len() && fits[k] && (forall|j: int|
            0 <= j < k ==> !#[trigger] fits[j]) ==> parent_target(names, fits, plain) == names[k],
        names.len() != 1 && (forall|j: int| 0 <= j < names.len() ==> !#[trigger] fits[j])
            ==> parent_target(names, fits, plain) == plain,
{
    lemma_fitting(names, fits, 0);
    if 0 <= k < names.len() && fits[k] && (forall|j: int| 0 <= j < k ==> !#[trigger] fits[j]) {
        if let Some(form) = fitting_from(names, fits, 0) {
            let i = choose|i: int|
                0 <= i < names.len() && #[trigger] fits[i] && names[i] == form && forall|j: int|
                    0 <= j < i ==> !#[trigger] fits[j];
            if i < k {
                assert(!fits[i]);
            }
            if k < i {
                assert(!fits[k]);
            }
        }
    }
}

proof fn lemma_parent_names(
    classes: &ClassTable,
    receiver: StructId,
    parent: StructId,
    method: Symbol,
    owner: Symbol,
    origin: Symbol,
    entries: Seq<(StructId, MemberKey)>,
    count: int,
)
    requires
        0 <= count <= entries.len(),
    ensures
        ({
            let names = parent_names(
                classes,
                receiver,
                parent,
                method,
                owner,
                origin,
                entries,
                count,
            );
            &&& forall|i: int|
                0 <= i < count && (#[trigger] entries[i]).0 == parent && entries[i].1.name == method
                    ==> names.contains(
                    parent_name(classes, receiver, parent, entries[i].1, owner, origin),
                )
            &&& forall|n: int|
                #![trigger names[n]]
                0 <= n < names.len() ==> exists|i: int|
                    0 <= i < count && (#[trigger] entries[i]).0 == parent && entries[i].1.name
                        == method && names[n] == parent_name(
                        classes,
                        receiver,
                        parent,
                        entries[i].1,
                        owner,
                        origin,
                    )
        }),
    decreases count,
{
    if count > 0 {
        lemma_parent_names(
            classes,
            receiver,
            parent,
            method,
            owner,
            origin,
            entries,
            count - 1,
        );
        let before = parent_names(
            classes,
            receiver,
            parent,
            method,
            owner,
            origin,
            entries,
            count - 1,
        );
        let names = parent_names(
            classes,
            receiver,
            parent,
            method,
            owner,
            origin,
            entries,
            count,
        );
        assert forall|i: int|
            0 <= i < count && (#[trigger] entries[i]).0 == parent && entries[i].1.name
                == method implies names.contains(
            parent_name(classes, receiver, parent, entries[i].1, owner, origin),
        ) by {
            let form = parent_name(classes, receiver, parent, entries[i].1, owner, origin);
            if i < count - 1 {
                let n = choose|n: int| 0 <= n < before.len() && before[n] == form;
                assert(names[n] == form);
            } else {
                assert(names[names.len() - 1] == form);
            }
        }
        assert forall|n: int| #![trigger names[n]] 0 <= n < names.len() implies exists|i: int|
            0 <= i < count && (#[trigger] entries[i]).0 == parent && entries[i].1.name == method
                && names[n] == parent_name(
                classes,
                receiver,
                parent,
                entries[i].1,
                owner,
                origin,
            ) by {
            if n < before.len() {
                assert(names[n] == before[n]);
                let i = choose|i: int|
                    0 <= i < count - 1 && (#[trigger] entries[i]).0 == parent && entries[i].1.name
                        == method && before[n] == parent_name(
                        classes,
                        receiver,
                        parent,
                        entries[i].1,
                        owner,
                        origin,
                    );
                assert(entries[i].0 == parent);
            } else {
                assert(entries[count - 1].0 == parent);
            }
        }
    }
}

/// The names a parent-qualified call may mean are those of the parent's overloads of the
/// method that the class can name: the class's plain name for one whose definition wins
/// the bare name, and the name kept aside for one that another definition shadows.
pub proof fn a_parent_call_names_the_parents_overloads(
    classes: &ClassTable,
    receiver: StructId,
    parent: StructId,
    method: Symbol,
    owner: Symbol,
    origin: Symbol,
    key: MemberKey,
)
    requires
        classes.info(receiver) is Some,
        classes.info(receiver)->0.qualified_methods@.contains((parent, key)),
        key.name == method,
    ensures
        ({
            let info = classes.info(receiver)->0;
            let names = parent_names(
                classes,
                receiver,
                parent,
                method,
                owner,
                origin,
                info.qualified_methods@,
                info.qualified_methods@.len() as int,
            );
            let wins = exists|i: int|
                0 <= i < info.bare_methods@.len() && (#[trigger] info.bare_methods@[i]).0 == key
                    && info.bare_methods@[i].1@ == seq![parent];
            &&& wins ==> names.contains(NameForm::Method { owner, name: method })
            &&& !wins ==> names.contains(NameForm::Shadowed { owner, origin, name: method })
            &&& forall|n: int|
                0 <= n < names.len() ==> (#[trigger] names[n]) == (NameForm::Method {
                    owner,
                    name: method,
                }) || names[n] == (NameForm::Shadowed { owner, origin, name: method })
        }),
{
    let info = classes.info(receiver)->0;
    let entries = info.qualified_methods@;
    lemma_parent_names(
        classes,
        receiver,
        parent,
        method,
        owner,
        origin,
        entries,
        entries.len() as int,
    );
    let i = choose|i: int| 0 <= i < entries.len() && entries[i] == (parent, key);
    assert(entries[i].0 == parent && entries[i].1 == key);
    let names = parent_names(
        classes,
        receiver,
        parent,
        method,
        owner,
        origin,
        entries,
        entries.len() as int,
    );
    assert forall|n: int| 0 <= n < names.len() implies (#[trigger] names[n]) == (NameForm::Method {
        owner,
        name: method,
    }) || names[n] == (NameForm::Shadowed { owner, origin, name: method }) by {
        let i = choose|i: int|
            0 <= i < entries.len() && (#[trigger] entries[i]).0 == parent && entries[i].1.name
                == method && names[n] == parent_name(
                classes,
                receiver,
                parent,
                entries[i].1,
                owner,
                origin,
            );
        assert(entries[i].1.name == method);
    }
}

proof fn lemma_ambiguous_from(bare: Seq<(MemberKey, Vec<StructId>)>, name: Symbol, from: int)
    requires
        0 <= from <= bare.len(),
    ensures
        ambiguous_from(bare, name, from) is Some <==> exists|i: int|
            from <= i < bare.len() && (#[trigger] bare[i]).0.name == name && bare[i].1@.len() > 1,
        ambiguous_from(bare, name, from) matches Some(owners) ==> exists|i: int|
            from <= i < bare.len() && (#[trigger] bare[i]).0.name == name && bare[i].1@ == owners
                && owners.len() > 1,
    decreases bare.len() - from,
{
    if from < bare.len() {
        lemma_ambiguous_from(bare, name, from + 1);
        if bare[from].0.name == name && bare[from].1@.len() > 1 {
            assert(bare[from].1@.len() > 1);
        }
    }
}

/// A bare member of a class is ambiguous exactly if more than one definition of it is
/// left: for a method, some overload that several owners' definitions survive for; for a
/// field, two slots of the name. What is reported is the owners among which it is open.
pub proof fn a_bare_member_is_ambiguous_between_its_owners(
    classes: &ClassTable,
    owner: StructId,
    name: Symbol,
)
    requires
        classes.info(owner) is Some,
        classes.info(owner)->0.slot_origin@.len() <= u32::MAX,
    ensures
        ({
            let info = classes.info(owner)->0;
            &&& ambiguous_owners(classes, owner, name, true) is Some <==> exists|i: int|
                0 <= i < info.bare_methods@.len() && (#[trigger] info.bare_methods@[i]).0.name
                    == name && info.bare_methods@[i].1@.len() > 1
            &&& ambiguous_owners(classes, owner, name, true) matches Some(among) ==> exists|i: int|
                0 <= i < info.bare_methods@.len() && (#[trigger] info.bare_methods@[i]).0.name
                    == name && info.bare_methods@[i].1@ == among
            &&& ambiguous_owners(classes, owner, name, false) is Some <==> exists|i: int, j: int|
                0 <= i < j < info.slot_origin@.len() && (#[trigger] info.slot_origin@[i]).plain
                    == FieldName::Plain(name) && (#[trigger] info.slot_origin@[j]).plain
                    == FieldName::Plain(name)
            &&& ambiguous_owners(classes, owner, name, false) matches Some(among) ==> forall|i: int|
                0 <= i < info.slot_origin@.len() && (#[trigger] info.slot_origin@[i]).plain
                    == FieldName::Plain(name) ==> among.contains(info.slot_origin@[i].owner)
        }),
{
    let info = classes.info(owner)->0;
    lemma_ambiguous_from(info.bare_methods@, name, 0);
    let plain = FieldName::Plain(name);
    let origins = info.slot_origin@;
    crate::class_fields::a_bare_name_means_the_slots_written_so(origins, plain);
    let slots = slots_named(origins, plain, origins.len() as int);
    if slots.len() > 1 {
        assert(slots[0].1 < slots[1].1);
        assert(origins[slots[0].1 as int].plain == plain && origins[slots[1].1 as int].plain
            == plain);
    }
    if exists|i: int, j: int|
        0 <= i < j < origins.len() && (#[trigger] origins[i]).plain == plain && (
        #[trigger] origins[j]).plain == plain {
        let (i, j) = choose|i: int, j: int|
            0 <= i < j < origins.len() && (#[trigger] origins[i]).plain == plain && (
            #[trigger] origins[j]).plain == plain;
        assert(slots.contains((origins[i].owner, i as u32)));
        assert(slots.contains((origins[j].owner, j as u32)));
        let a = choose|a: int| 0 <= a < slots.len() && slots[a] == (origins[i].owner, i as u32);
        let b = choose|b: int| 0 <= b < slots.len() && slots[b] == (origins[j].owner, j as u32);
        assert(slots[a].1 != slots[b].1);
        assert(a != b);
    }
    if slots.len() > 1 {
        let among = slot_owners(slots);
        assert forall|i: int|
            0 <= i < origins.len() && (#[trigger] origins[i]).plain == plain implies among.contains(
            origins[i].owner,
        ) by {
            assert(slots.contains((origins[i].owner, i as u32)));
            let a = choose|a: int| 0 <= a < slots.len() && slots[a] == (origins[i].owner, i as u32);
            assert(among[a] == origins[i].owner);
        }
    }
}

/// A parent's member may be named from a method of that type itself or of a class that
/// inherits from it, and from nowhere else; a method of the parent is there to name
/// exactly if the class lists an overload of that name under the parent.
pub proof fn only_an_ancestor_qualifies(
    classes: &ClassTable,
    receiver: StructId,
    parent: StructId,
    method: Symbol,
)
    ensures
        may_qualify(classes, receiver, parent) <==> receiver == parent || classes.ancestors(
            receiver,
        ).contains(parent),
        declares_method(classes, receiver, parent, method) <==> classes.info(receiver) is Some
            && exists|i: int|
            0 <= i < classes.info(receiver)->0.qualified_methods@.len() && (
            #[trigger] classes.info(receiver)->0.qualified_methods@[i]).0 == parent && classes.info(
                receiver,
            )->0.qualified_methods@[i].1.name == method,
{
    if let Some(info) = classes.info(receiver) {
        let entries = info.qualified_methods@;
        if some_overload(entries, parent, method) {
            let i = choose|i: int|
                0 <= i < entries.len() && #[trigger] names_overload(entries[i], parent, method);
            assert(entries[i].0 == parent);
        }
        if exists|i: int|
            0 <= i < entries.len() && (#[trigger] entries[i]).0 == parent && entries[i].1.name
                == method {
            let i = choose|i: int|
                0 <= i < entries.len() && (#[trigger] entries[i]).0 == parent && entries[i].1.name
                    == method;
            assert(names_overload(entries[i], parent, method));
        }
    }
}

proof fn lemma_first_open(initializers: Seq<Option<HirExprId>>, from: int)
    requires
        0 <= from <= initializers.len(),
    ensures
        match first_open(initializers, from) {
            Some(at) => from <= at < initializers.len() && initializers[at] is None && forall|k: int|
                from <= k < at ==> (#[trigger] initializers[k]) is Some,
            None => forall|k: int|
                from <= k < initializers.len() ==> (#[trigger] initializers[k]) is Some,
        },
    decreases initializers.len() - from,
{
    if from < initializers.len() && initializers[from] is Some {
        lemma_first_open(initializers, from + 1);
    }
}

/// A construction's slots are complete exactly if every one was given something, and the
/// one reported open is the first that was not.
pub proof fn the_first_open_slot_is_reported(initializers: Seq<Option<HirExprId>>, k: int)
    ensures
        first_open(initializers, 0) is None <==> forall|i: int|
            0 <= i < initializers.len() ==> (#[trigger] initializers[i]) is Some,
        first_open(initializers, 0) matches Some(at) ==> 0 <= at < initializers.len()
            && initializers[at] is None && (0 <= k < at ==> initializers[k] is Some),
{
    lemma_first_open(initializers, 0);
}

/// A slot holds what it was given, and the error node where it was given nothing; and what
/// a construction of a class takes by place are the slots its record requires.
pub proof fn a_slot_holds_what_it_was_given(
    program: &HirProgram,
    classes: &ClassTable,
    class: StructId,
    given: Option<HirExprId>,
    field: HirExprId,
)
    ensures
        slot_holds(program, given, field) ==> (given matches Some(value) ==> field == value) && (
        given is None ==> program.at(field) is Error),
        classes.info(class) matches Some(info) ==> constructor_slots(classes, class)
            == info.required_slots@,
        classes.info(class) is None ==> constructor_slots(classes, class).len() == 0,
{
}

/// A name qualifies by a type only where it means no local, and `self` is the receiver's
/// local, where there is a receiver and its name means one.
pub proof fn a_local_hides_a_type_of_its_name(
    types: &TypeTable,
    imports: &ImportTable,
    declared: &DeclaredIn,
    ctx: &FnCtx,
    source: SourceId,
    root: Symbol,
)
    ensures
        ctx.meaning(root) is Some ==> qualifier_type(
            types,
            imports,
            declared,
            ctx,
            source,
            root,
        ) is None,
        ctx.meaning(root) is None ==> qualifier_type(types, imports, declared, ctx, source, root)
            == struct_seen(types, imports, declared, source, imports.package(source), root),
        self_of(ctx, root) matches Some((receiver, local)) ==> ctx.receiver == Some(receiver)
            && ctx.meaning(root) == Some(local),
        self_of(ctx, root) is None ==> ctx.receiver is None || ctx.meaning(root) is None,
{
}

/// A call on `self` reads the receiver's own local at the receiver's type, and is refused
/// where there is none.
pub proof fn a_self_call_reads_the_receiver(
    before: &HirProgram,
    after: &HirProgram,
    step: SelfCall,
    on: Option<(StructId, LocalId)>,
)
    requires
        self_call_node(before, after, step, on),
        before.exprs@.len() < u32::MAX,
    ensures
        on matches Some((receiver, local)) ==> (step matches SelfCall::On { local: read, value }
            && read == local && after.at(value) == (HirExpr::Local {
            local,
            ty: Type::Struct(receiver),
        })),
        on is None ==> (step matches SelfCall::Refused(id) && after.at(id) == HirExpr::Error),
{
}

/// A parent-qualified field is a slot that the parent declared under that very name, and
/// the class has one exactly if such a slot is recorded.
pub proof fn a_parents_field_is_its_own_slot(
    classes: &ClassTable,
    receiver: StructId,
    info: ClassInfo,
    parent: StructId,
    field: Symbol,
    slot: u32,
)
    requires
        classes.info(receiver) == Some(info),
    ensures
        parent_slot(info, parent, field, slot) ==> slot < info.slot_origin@.len()
            && info.slot_origin@[slot as int].owner == parent && info.slot_origin@[slot as int].plain
            == FieldName::Plain(field),
        has_parent_slot(classes, receiver, parent, field) <==> exists|k: int|
            0 <= k < info.slot_origin@.len() && (#[trigger] info.slot_origin@[k]).owner == parent
                && info.slot_origin@[k].plain == FieldName::Plain(field),
{
    let wanted = SlotOrigin { owner: parent, plain: FieldName::Plain(field) };
    if exists|k: int|
        0 <= k < info.slot_origin@.len() && (#[trigger] info.slot_origin@[k]).owner == parent
            && info.slot_origin@[k].plain == FieldName::Plain(field) {
        let k = choose|k: int|
            0 <= k < info.slot_origin@.len() && (#[trigger] info.slot_origin@[k]).owner == parent
                && info.slot_origin@[k].plain == FieldName::Plain(field);
        assert(info.slot_origin@[k] == wanted);
    }
    if info.slot_origin@.contains(wanted) {
        let k = choose|k: int| 0 <= k < info.slot_origin@.len() && info.slot_origin@[k] == wanted;
        assert(info.slot_origin@[k].owner == parent);
    }
}

/// An ambiguous bare member is reported where it is written, under its name, with the
/// owners it is ambiguous between, as the method or the field it is.
pub proof fn an_ambiguity_names_its_owners(
    entry: Diagnostic,
    source: SourceId,
    span: Span,
    name: Symbol,
    method: bool,
    among: Seq<StructId>,
)
    requires
        says_ambiguous(entry, source, span, name, method, among),
    ensures
        entry.at.source == source,
        entry.at.span == span,
        method ==> (entry.problem matches Problem::AmbiguousMethod { method: said, owners } && said
            == name && owners@ == among),
        !method ==> (entry.problem matches Problem::AmbiguousField { field: said, owners } && said
            == name && owners@ == among),
{
}

/// A slot of a class has the type of its field, and none that is not there does.
pub proof fn a_slot_has_its_fields_type(types: &TypeTable, class: StructId, slot: u32)
    ensures
        slot < types.fields(class).len() ==> slot_type(types, class, slot) == types.fields(
            class,
        )[slot as int].ty,
        slot >= types.fields(class).len() ==> slot_type(types, class, slot) == Type::Error,
{
}

} // verus!
