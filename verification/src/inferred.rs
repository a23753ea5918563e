//! Inferred stored-member types of construct-backed declarations.
//!
//! A stored member written without a type takes its initializer's. Initializers
//! are analyzed in declaration order, in a scope where the construction inputs and
//! every member before are bound.

use vstd::prelude::*;

use crate::backed::{BackedField, BackedParam};
use crate::coercion::admits;
use crate::diagnostics::{Log, Problem};
use crate::hir::{HirLocal, LocalId};
use crate::lattice::Lattice;
use crate::names::Symbol;
use crate::scope::{
    bound, declared_local, last_named, lookup, names_its_locals, FnCtx, LocalOwnership,
};
use crate::source::Span;
use crate::ty::{FieldDef, OwnershipMode, StructId, Type, TypeTable};

verus! {

/// The type of field `index`, or the error type where there is none.
pub open spec fn field_type(fields: Seq<FieldDef>, index: int) -> Type {
    if 0 <= index < fields.len() {
        fields[index].ty
    } else {
        Type::Error
    }
}

/// The slots the first `count` construction inputs are bound to.
pub open spec fn input_locals(
    fields: Seq<FieldDef>,
    params: Seq<BackedParam>,
    count: int,
) -> Seq<HirLocal> {
    Seq::new(
        count as nat,
        |i: int|
            declared_local(
                Some(params[i].name),
                field_type(fields, i),
                false,
                OwnershipMode::Owned,
            ),
    )
}

/// What the first `count` of `names` mean, each its local, a later one shadowing an
/// earlier one of its name.
pub open spec fn bindings(
    names: Seq<Symbol>,
    locals: Seq<LocalId>,
    count: int,
) -> Map<Symbol, LocalId>
    decreases count,
{
    if count <= 0 {
        Map::empty()
    } else {
        bindings(names, locals, count - 1).insert(names[count - 1], locals[count - 1])
    }
}

/// The names of the first `count` construction inputs.
pub open spec fn input_names(params: Seq<BackedParam>, count: int) -> Seq<Symbol> {
    Seq::new(count as nat, |i: int| params[i].name)
}

/// The first `count` slots of a frame.
pub open spec fn local_ids(count: nat) -> Seq<LocalId> {
    Seq::new(count, |i: int| LocalId(i as u32))
}

/// Naming one more changes nothing about those before.
pub proof fn lemma_bindings_kept(
    names: Seq<Symbol>,
    more_names: Seq<Symbol>,
    locals: Seq<LocalId>,
    more: Seq<LocalId>,
    count: int,
)
    requires
        0 <= count <= names.len() <= more_names.len(),
        count <= locals.len() <= more.len(),
        forall|k: int| 0 <= k < count ==> more_names[k] == names[k],
        forall|k: int| 0 <= k < count ==> more[k] == locals[k],
    ensures
        bindings(names, locals, count) == bindings(more_names, more, count),
    decreases count,
{
    if count > 0 {
        lemma_bindings_kept(names, more_names, locals, more, count - 1);
    }
}

proof fn lemma_isolated_names(before: &FnCtx, after: &FnCtx, name: Symbol, id: LocalId)
    requires
        names_its_locals(before),
        before.scopes@.len() == 2,
        before.scope_floor == 1,
        after.scope_floor == 1,
        before.locals@.len() < u32::MAX,
        id.0 == before.locals@.len(),
        after.locals@.len() == before.locals@.len() + 1,
        after.locals@.drop_last() == before.locals@,
        after.locals@.last().name == Some(name),
        bound(before.scopes@, after.scopes@, 1, name, id),
    ensures
        names_its_locals(after),
{
    assert forall|n: Symbol| #[trigger] lookup(after.scopes@, 1, n) == last_named(
        after.locals@,
        n,
    ) by {
        reveal_with_fuel(lookup, 2);
        assert(lookup(before.scopes@, 1, n) == last_named(before.locals@, n));
    }
}

/// Prepares the scope the initializers of one declaration are analyzed in: nothing
/// of any caller, and the construction inputs, which are initialized first.
pub fn begin_member_types(types: &TypeTable, id: StructId, params: &Vec<BackedParam>) -> (ctx: FnCtx)
    requires
        params@.len() < u32::MAX,
    ensures
        ctx.wf(),
        ctx.locals@ == input_locals(types.fields(id), params@, params@.len() as int),
        ctx.scopes@.len() == 2,
        ctx.scope_floor == 1,
        ctx.outer_floors@ == seq![0usize],
        ctx.return_type == Type::Void,
        ctx.scopes@.last()@ == bindings(
            input_names(params@, params@.len() as int),
            local_ids(params@.len()),
            params@.len() as int,
        ),
        names_its_locals(&ctx),
{
    let mut ctx = FnCtx::new(Type::Void);
    ctx.push_isolated_scope();
    let mut i: usize = 0;
    proof {
        assert(ctx.locals@ =~= input_locals(types.fields(id), params@, 0));
        assert(ctx.outer_floors@ =~= seq![0usize]);
        assert forall|name: Symbol| #[trigger] lookup(ctx.scopes@, 1, name) == last_named(
            ctx.locals@,
            name,
        ) by {
            reveal_with_fuel(lookup, 2);
        }
    }
    while i < params.len()
        invariant
            i <= params@.len() < u32::MAX,
            ctx.wf(),
            ctx.scopes@.len() == 2,
            ctx.scope_floor == 1,
            ctx.outer_floors@ == seq![0usize],
            ctx.return_type == Type::Void,
            ctx.scopes@.last()@ == bindings(
                input_names(params@, i as int),
                local_ids(i as nat),
                i as int,
            ),
            names_its_locals(&ctx),
            ctx.locals@ == input_locals(types.fields(id), params@, i as int),
        decreases params@.len() - i,
    {
        let mut ty = Type::Error;
        if (id.0 as usize) < types.structs.len() {
            if i < types.structs[id.0 as usize].fields.len() {
                ty = types.structs[id.0 as usize].fields[i].ty;
            }
        }
        let ghost before = ctx;
        let ghost ids = local_ids(i as nat);
        let ghost names = input_names(params@, i as int);
        let local = ctx.declare(params[i].name, ty, false);
        proof {
            assert(ctx.locals@.drop_last() =~= before.locals@);
            lemma_isolated_names(&before, &ctx, params@[i as int].name, local);
            lemma_bindings_kept(
                names,
                input_names(params@, i + 1),
                ids,
                local_ids((i + 1) as nat),
                i as int,
            );
            assert(ctx.scopes@.last()@ == before.scopes@.last()@.insert(
                params@[i as int].name,
                local,
            ));
        }
        i += 1;
        assert(ctx.locals@ =~= input_locals(types.fields(id), params@, i as int));
    }
    ctx
}

/// How a member's type is settled.
#[derive(Clone, Copy, PartialEq, Eq, Structural, Debug)]
pub enum MemberStep {
    /// It is what the declaration says.
    Declared,
    /// Its initializer is analyzed, against its type where one was written.
    Analyze(Option<Type>),
}

/// Decides how a member's type is settled. A member with neither a type nor an
/// initializer is reported.
pub fn begin_member(member: &BackedField, declared: Type, log: &mut Log) -> (step: MemberStep)
    ensures
        step == if member.slot || member.default is None {
            MemberStep::Declared
        } else {
            MemberStep::Analyze(
                if member.ty is Some {
                    Some(declared)
                } else {
                    None
                },
            )
        },
        final(log).source == old(log).source,
        if !member.slot && member.default is None && member.ty is None {
            final(log).reported(
                old(log),
                old(log).source,
                member.name_span,
                (Problem::MemberNeedsType { member: member.name }),
            )
        } else {
            final(log).quiet(old(log))
        },
{
    if member.slot {
        return MemberStep::Declared;
    }
    if member.default.is_none() {
        if member.ty.is_none() {
            log.emit(member.name_span, Problem::MemberNeedsType { member: member.name });
        }
        return MemberStep::Declared;
    }
    if member.ty.is_some() {
        MemberStep::Analyze(Some(declared))
    } else {
        MemberStep::Analyze(None)
    }
}

/// The type a member has once its initializer was analyzed to `found`: the
/// initializer's where none was written and it has one.
pub open spec fn settled_type(member: &BackedField, declared: Type, found: Type) -> Type {
    if member.ty is None && found != Type::Error {
        found
    } else {
        declared
    }
}

/// What settling a member's type reports: an initializer that failed in silence, or
/// one the written type does not admit.
pub open spec fn settling_problem(
    lattice: &Lattice,
    member: &BackedField,
    declared: Type,
    found: Type,
    spoke: bool,
    initializer_span: Span,
) -> Option<(Span, Problem)> {
    if member.ty is None && found == Type::Error && !spoke {
        Some((initializer_span, Problem::MemberTypeUnknown { member: member.name }))
    } else if member.ty is Some && found != Type::Error && !lattice.admits(found, declared) {
        Some(
            (
                member.name_span,
                Problem::MemberMismatch { member: member.name, expected: declared, found },
            ),
        )
    } else {
        None
    }
}

/// Settles a member's type from what its initializer was analyzed to.
///
/// A member written without a type takes the initializer's; one whose initializer
/// failed in silence is reported. A written type stays, and an initializer it does
/// not admit is reported. `spoke` says whether analyzing the initializer already
/// reported something.
pub fn finish_member(
    fields: &mut Vec<FieldDef>,
    lattice: &Lattice,
    index: usize,
    member: &BackedField,
    found: Type,
    spoke: bool,
    initializer_span: Span,
    log: &mut Log,
) -> (ty: Type)
    requires
        index < old(fields)@.len(),
    ensures
        ty == settled_type(member, old(fields)@[index as int].ty, found),
        final(fields)@ == old(fields)@.update(
            index as int,
            (FieldDef { ty, ..old(fields)@[index as int] }),
        ),
        final(log).source == old(log).source,
        match settling_problem(
            lattice,
            member,
            old(fields)@[index as int].ty,
            found,
            spoke,
            initializer_span,
        ) {
            Some((at, problem)) => final(log).reported(old(log), old(log).source, at, problem),
            None => final(log).quiet(old(log)),
        },
{
    let declared = fields[index].ty;
    let mut ty = declared;
    if member.ty.is_none() {
        if found == Type::Error {
            if !spoke {
                log.emit(
                    initializer_span,
                    Problem::MemberTypeUnknown { member: member.name },
                );
            }
        } else {
            ty = found;
        }
    } else if found != Type::Error && !admits(lattice, found, declared) {
        log.emit(
            member.name_span,
            Problem::MemberMismatch { member: member.name, expected: declared, found },
        );
    }
    fields[index].ty = ty;
    assert(fields@ =~= old(fields)@.update(
        index as int,
        (FieldDef { ty, ..old(fields)@[index as int] }),
    ));
    ty
}

/// Binds a member for the initializers after it.
pub fn bind_member(ctx: &mut FnCtx, name: Symbol, ty: Type)
    requires
        old(ctx).wf(),
        old(ctx).locals@.len() < u32::MAX,
    ensures
        final(ctx).wf(),
        final(ctx).grown(
            old(ctx),
            declared_local(Some(name), ty, false, OwnershipMode::Owned),
            LocalOwnership::fresh(OwnershipMode::Owned),
        ),
        bound(
            old(ctx).scopes@,
            final(ctx).scopes@,
            old(ctx).scopes@.len() - 1,
            name,
            LocalId(old(ctx).locals@.len() as u32),
        ),
{
    let _ = ctx.declare(name, ty, false);
}

/// What a member's type is settled as: the type written, whatever its initializer came to;
/// without one, what the initializer came to, or what it was where that failed.
pub proof fn a_written_type_stands(member: &BackedField, declared: Type, found: Type)
    ensures
        member.ty is Some ==> settled_type(member, declared, found) == declared,
        member.ty is None && found != Type::Error ==> settled_type(member, declared, found)
            == found,
        found == Type::Error ==> settled_type(member, declared, found) == declared,
{
}

/// Settling is silent exactly where the written type admits the initializer, where nothing
/// was written and the initializer has a type, and where its failure was spoken of already.
pub proof fn a_silent_member_fits(
    lattice: &Lattice,
    member: &BackedField,
    declared: Type,
    found: Type,
    spoke: bool,
    span: Span,
)
    ensures
        settling_problem(lattice, member, declared, found, spoke, span) is None <==> {
            ||| member.ty is Some && (found == Type::Error || lattice.assignable@.contains(
                (found, declared),
            ))
            ||| member.ty is None && (found != Type::Error || spoke)
        },
        settling_problem(lattice, member, declared, found, spoke, span) matches Some((at, problem))
            ==> (member.ty is Some ==> at == member.name_span && problem == (
        Problem::MemberMismatch { member: member.name, expected: declared, found })) && (
        member.ty is None ==> at == span),
{
}

proof fn lemma_later_binding(names: Seq<Symbol>, locals: Seq<LocalId>, count: int, k: int)
    requires
        0 <= k < count <= names.len(),
        forall|j: int| k < j < count ==> (#[trigger] names[j]) != names[k],
    ensures
        bindings(names, locals, count).contains_pair(names[k], locals[k]),
    decreases count,
{
    if k < count - 1 {
        assert(names[count - 1] != names[k]);
        lemma_later_binding(names, locals, count - 1, k);
    }
}

/// A name bound more than once means what it was last bound to.
pub proof fn the_last_of_a_name_is_meant(names: Seq<Symbol>, locals: Seq<LocalId>, k: int)
    requires
        0 <= k < names.len(),
        forall|j: int| k < j < names.len() ==> (#[trigger] names[j]) != names[k],
    ensures
        bindings(names, locals, names.len() as int).contains_pair(names[k], locals[k]),
{
    lemma_later_binding(names, locals, names.len() as int, k);
}

} // verus!
