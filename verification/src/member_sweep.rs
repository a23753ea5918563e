//! Settling the types of a construct-backed declaration's stored members, in
//! declaration order.
//!
//! An initializer is analyzed in a scope that holds the construction inputs and the
//! members before it, and nothing of any caller. The types take effect together,
//! once every member is settled.

use vstd::prelude::*;

use crate::backed::{BackedField, BackedParam};
use crate::diagnostics::{blamed, Diagnostic, Log, Problem};
use crate::hir::LocalId;
use crate::inferred::{
    begin_member, begin_member_types, bind_member, bindings, field_type, finish_member,
    input_names, lemma_bindings_kept, local_ids, settled_type, settling_problem, MemberStep,
};
use crate::lattice::Lattice;
use crate::lists::copied;
use crate::names::Symbol;
use crate::scope::{bound, declared_local, FnCtx, LocalOwnership};
use crate::source::{SourceId, Span};
use crate::syntax::ExprId;
use crate::ty::{FieldDef, OwnershipMode, StructDef, StructId, Type, TypeTable};

verus! {

/// One declaration, the first of its members settled.
#[derive(Debug)]
pub struct MemberSweep {
    pub id: StructId,
    /// The declaration's fields as settled so far.
    pub fields: Vec<FieldDef>,
    /// How many members are behind.
    pub next: usize,
    /// The names bound so far: the construction inputs, and the members behind.
    pub names: Vec<Symbol>,
    /// The local each of them is bound to.
    pub locals: Vec<LocalId>,
}

/// How a sweep over the members goes on.
#[derive(Clone, Copy, PartialEq, Eq, Structural, Debug)]
pub enum MembersStep {
    /// The next member's initializer is analyzed, against its type where one was
    /// written.
    Analyze { initializer: ExprId, expected: Option<Type> },
    /// Every member is settled.
    Done,
}

/// The names bound once the first `count` members are behind.
pub open spec fn reached_names(
    params: Seq<BackedParam>,
    members: Seq<BackedField>,
    fields: int,
    count: int,
) -> Seq<Symbol>
    decreases count,
{
    if count <= 0 {
        input_names(params, params.len() as int)
    } else if params.len() + count - 1 < fields {
        reached_names(params, members, fields, count - 1).push(members[count - 1].name)
    } else {
        reached_names(params, members, fields, count - 1)
    }
}

/// Whether a member's type is left to its initializer.
pub open spec fn inferred_member(member: BackedField) -> bool {
    !member.slot && member.ty is None && member.default is Some
}

/// Whether field `f` may have been settled by one of the first `count` members.
pub open spec fn may_settle(members: Seq<BackedField>, params: int, count: int, f: int) -> bool {
    params <= f < params + count && inferred_member(members[f - params])
}

/// `after` is `before` but for the types the first `count` members were inferred.
pub open spec fn only_inferred(
    before: Seq<FieldDef>,
    after: Seq<FieldDef>,
    members: Seq<BackedField>,
    params: int,
    count: int,
) -> bool {
    &&& after.len() == before.len()
    &&& forall|f: int|
        0 <= f < before.len() ==> {
            &&& (#[trigger] after[f]).name == before[f].name
            &&& after[f].mutable == before[f].mutable
            &&& !may_settle(members, params, count, f) ==> after[f] == before[f]
        }
}

impl MemberSweep {
    /// The sweep stands in its own scope with the names behind bound, and the fields
    /// are settled as far as the first `count` members go.
    pub open spec fn standing(
        &self,
        types: &TypeTable,
        ctx: &FnCtx,
        params: Seq<BackedParam>,
        members: Seq<BackedField>,
        count: int,
    ) -> bool {
        &&& ctx.wf()
        &&& self.id.0 < types.structs@.len()
        &&& self.next <= members.len()
        &&& ctx.scopes@.len() > 0
        &&& ctx.scope_floor == ctx.scopes@.len() - 1
        &&& ctx.outer_floors@.len() > 0
        &&& self.names@ == reached_names(
            params,
            members,
            self.fields@.len() as int,
            self.next as int,
        )
        &&& self.locals@.len() == self.names@.len()
        &&& ctx.scopes@.last()@ == bindings(self.names@, self.locals@, self.names@.len() as int)
        &&& forall|k: int|
            0 <= k < self.locals@.len() ==> (#[trigger] self.locals@[k]).0 < ctx.locals@.len()
                && ctx.locals@[self.locals@[k].0 as int].ty == field_type(self.fields@, k)
        &&& only_inferred(
            types.fields(self.id),
            self.fields@,
            members,
            params.len() as int,
            count,
        )
    }

    /// The sweep stands in its own scope, which binds the construction inputs and the
    /// members behind, each at its type, and nothing else.
    pub open spec fn wf(
        &self,
        types: &TypeTable,
        ctx: &FnCtx,
        params: Seq<BackedParam>,
        members: Seq<BackedField>,
    ) -> bool {
        self.standing(types, ctx, params, members, self.next as int)
    }
}

proof fn lemma_reached_count(
    params: Seq<BackedParam>,
    members: Seq<BackedField>,
    fields: int,
    count: int,
)
    requires
        0 <= count,
    ensures
        reached_names(params, members, fields, count).len() == params.len() + if params.len()
            + count <= fields {
            count
        } else if params.len() <= fields {
            fields - params.len()
        } else {
            0
        },
    decreases count,
{
    if count > 0 {
        lemma_reached_count(params, members, fields, count - 1);
    }
}

/// Starts settling the member types of declaration `id`.
pub fn begin_members(
    types: &TypeTable,
    id: StructId,
    params: &Vec<BackedParam>,
    members: &Vec<BackedField>,
) -> (started: (FnCtx, MemberSweep))
    requires
        id.0 < types.structs@.len(),
        params@.len() < u32::MAX,
    ensures
        started.1.id == id,
        started.1.next == 0,
        started.1.fields@ == types.fields(id),
        started.1.wf(types, &started.0, params@, members@),
        started.0.locals@.len() == params@.len(),
        started.0.scopes@.len() == 2,
        started.0.return_type == Type::Void,
{
    let ctx = begin_member_types(types, id, params);
    let fields = copied(&types.structs[id.0 as usize].fields);
    let mut names: Vec<Symbol> = Vec::new();
    let mut locals: Vec<LocalId> = Vec::new();
    let mut i: usize = 0;
    while i < params.len()
        invariant
            i <= params@.len() < u32::MAX,
            names@ == input_names(params@, i as int),
            locals@ == local_ids(i as nat),
        decreases params@.len() - i,
    {
        names.push(params[i].name);
        locals.push(LocalId(i as u32));
        i += 1;
        assert(names@ =~= input_names(params@, i as int));
        assert(locals@ =~= local_ids(i as nat));
    }
    (ctx, MemberSweep { id, fields, next: 0, names, locals })
}

/// Everything passing a member changes, at one point.
pub struct MemberState {
    pub ctx: FnCtx,
    pub next: int,
    pub names: Seq<Symbol>,
    pub locals: Seq<LocalId>,
    pub said: Seq<Diagnostic>,
}

/// A member was bound as `name`, at type `ty`, between two points.
pub open spec fn member_bound(
    before: MemberState,
    after: MemberState,
    name: Symbol,
    ty: Type,
) -> bool {
    let local = LocalId(before.ctx.locals@.len() as u32);
    &&& after.names == before.names.push(name)
    &&& after.locals == before.locals.push(local)
    &&& after.ctx.grown(
        &before.ctx,
        declared_local(Some(name), ty, false, OwnershipMode::Owned),
        LocalOwnership::fresh(OwnershipMode::Owned),
    )
    &&& bound(
        before.ctx.scopes@,
        after.ctx.scopes@,
        before.ctx.scopes@.len() - 1,
        name,
        local,
    )
}

/// What a member whose type is what the declaration says reports: one with neither a
/// type nor an initializer.
pub open spec fn declared_said(member: BackedField, source: SourceId) -> Seq<Diagnostic> {
    if !member.slot && member.default is None && member.ty is None {
        seq![
            blamed(source, member.name_span, Problem::MemberNeedsType { member: member.name }),
        ]
    } else {
        Seq::empty()
    }
}

/// The next member was passed between two points without analyzing anything: it has
/// no field, or its type is what the declaration says.
pub open spec fn member_passed(
    before: MemberState,
    after: MemberState,
    params: int,
    members: Seq<BackedField>,
    fields: Seq<FieldDef>,
    source: SourceId,
) -> bool {
    let member = members[before.next];
    let index = params + before.next;
    &&& 0 <= before.next < members.len()
    &&& after.next == before.next + 1
    &&& if index >= fields.len() {
        &&& after.ctx == before.ctx
        &&& after.names == before.names
        &&& after.locals == before.locals
        &&& after.said == before.said
    } else {
        &&& member.slot || member.default is None
        &&& member_bound(before, after, member.name, fields[index].ty)
        &&& after.said == before.said + declared_said(member, source)
    }
}

/// The members a sweep passed along `trace`, one step each.
pub open spec fn passed_along(
    trace: Seq<MemberState>,
    params: int,
    members: Seq<BackedField>,
    fields: Seq<FieldDef>,
    source: SourceId,
) -> bool {
    &&& trace.len() > 0
    &&& forall|k: int|
        0 <= k < trace.len() - 1 ==> member_passed(
            #[trigger] trace[k],
            trace[k + 1],
            params,
            members,
            fields,
            source,
        )
}

/// Binds the next member at the type its field has.
fn pass_member(
    types: &TypeTable,
    ctx: &mut FnCtx,
    sweep: &mut MemberSweep,
    params: &Vec<BackedParam>,
    members: &Vec<BackedField>,
)
    requires
        old(sweep).next < members@.len(),
        params@.len() + old(sweep).next < old(sweep).fields@.len(),
        old(ctx).locals@.len() < u32::MAX,
        // Settled but not bound yet: as behind, but for its name.
        old(sweep).standing(
            types,
            old(ctx),
            params@,
            members@,
            old(sweep).next + 1,
        ),
    ensures
        final(sweep).wf(types, final(ctx), params@, members@),
        final(sweep).id == old(sweep).id,
        final(sweep).fields == old(sweep).fields,
        final(sweep).next == old(sweep).next + 1,
        ({
            let at = old(sweep).next as int;
            let local = LocalId(old(ctx).locals@.len() as u32);
            let name = members@[at].name;
            let ty = old(sweep).fields@[params@.len() + at].ty;
            &&& final(sweep).names@ == old(sweep).names@.push(name)
            &&& final(sweep).locals@ == old(sweep).locals@.push(local)
            &&& final(ctx).grown(
                old(ctx),
                declared_local(Some(name), ty, false, OwnershipMode::Owned),
                LocalOwnership::fresh(OwnershipMode::Owned),
            )
            &&& bound(
                old(ctx).scopes@,
                final(ctx).scopes@,
                old(ctx).scopes@.len() - 1,
                name,
                local,
            )
        }),
{
    let ghost frame = *ctx;
    let ghost held = sweep.locals@;
    let ghost known = sweep.names@;
    let ghost count = known.len() as int;
    let at: usize = sweep.next;
    let count_of_fields: usize = sweep.fields.len();
    assert(params@.len() + at < count_of_fields);
    let index: usize = params.len() + at;
    let name = members[at].name;
    let ty = sweep.fields[index].ty;
    let local = LocalId(ctx.locals.len() as u32);
    bind_member(ctx, name, ty);
    sweep.names.push(name);
    sweep.locals.push(local);
    sweep.next = at + 1;
    proof {
        lemma_reached_count(params@, members@, sweep.fields@.len() as int, at as int);
        lemma_bindings_kept(known, sweep.names@, held, sweep.locals@, count);
        assert(ctx.scopes@.last()@ == frame.scopes@.last()@.insert(name, local));
        assert forall|k: int| 0 <= k < sweep.locals@.len() implies (
        #[trigger] sweep.locals@[k]).0 < ctx.locals@.len() && ctx.locals@[sweep.locals@[k].0 as int].ty
            == field_type(sweep.fields@, k) by {
            if k < count {
                assert(held[k].0 < frame.locals@.len());
            }
        }
    }
}

/// Passes members until one needs its initializer analyzed, or until every one is
/// settled.
pub fn sweep_members(
    types: &TypeTable,
    ctx: &mut FnCtx,
    sweep: &mut MemberSweep,
    params: &Vec<BackedParam>,
    members: &Vec<BackedField>,
    source: SourceId,
    log: &mut Log,
) -> (step: MembersStep)
    requires
        old(sweep).wf(types, old(ctx), params@, members@),
        params@.len() + members@.len() <= u32::MAX,
        old(ctx).locals@.len() + members@.len() <= u32::MAX,
    ensures
        final(sweep).wf(types, final(ctx), params@, members@),
        final(sweep).id == old(sweep).id,
        final(sweep).fields == old(sweep).fields,
        final(log).source == old(log).source,
        exists|trace: Seq<MemberState>|
            {
                &&& #[trigger] passed_along(
                    trace,
                    params@.len() as int,
                    members@,
                    old(sweep).fields@,
                    source,
                )
                &&& trace[0] == (MemberState {
                    ctx: *old(ctx),
                    next: old(sweep).next as int,
                    names: old(sweep).names@,
                    locals: old(sweep).locals@,
                    said: old(log).diagnostics@,
                })
                &&& trace.last() == (MemberState {
                    ctx: *final(ctx),
                    next: final(sweep).next as int,
                    names: final(sweep).names@,
                    locals: final(sweep).locals@,
                    said: final(log).diagnostics@,
                })
            },
        match step {
            MembersStep::Analyze { initializer, expected } => {
                let at = final(sweep).next as int;
                &&& at < members@.len()
                &&& params@.len() + at < final(sweep).fields@.len()
                &&& !members@[at].slot
                &&& members@[at].default == Some(initializer)
                &&& expected == if members@[at].ty is Some {
                    Some(final(sweep).fields@[params@.len() + at].ty)
                } else {
                    None
                }
            },
            MembersStep::Done => final(sweep).next == members@.len(),
        },
{
    let ghost start = MemberState {
        ctx: *ctx,
        next: sweep.next as int,
        names: sweep.names@,
        locals: sweep.locals@,
        said: log.diagnostics@,
    };
    let ghost mut trace = seq![start];
    while sweep.next < members.len()
        invariant
            sweep.wf(types, ctx, params@, members@),
            sweep.id == old(sweep).id,
            sweep.fields == old(sweep).fields,
            params@.len() + members@.len() <= u32::MAX,
            ctx.locals@.len() + (members@.len() - sweep.next) <= u32::MAX,
            log.source == old(log).source,
            start == (MemberState {
                ctx: *old(ctx),
                next: old(sweep).next as int,
                names: old(sweep).names@,
                locals: old(sweep).locals@,
                said: old(log).diagnostics@,
            }),
            passed_along(trace, params@.len() as int, members@, sweep.fields@, source),
            trace[0] == start,
            trace.last() == (MemberState {
                ctx: *ctx,
                next: sweep.next as int,
                names: sweep.names@,
                locals: sweep.locals@,
                said: log.diagnostics@,
            }),
        decreases members@.len() - sweep.next,
    {
        let ghost state = trace.last();
        let ghost earlier = trace;
        let at: usize = sweep.next;
        let index: usize = params.len() + at;
        if index < sweep.fields.len() {
            let member = members[at];
            let declared = sweep.fields[index].ty;
            let reading = log.source;
            log.source = source;
            let step = begin_member(&member, declared, log);
            log.source = reading;
            if let MemberStep::Analyze(expected) = step {
                if let Some(initializer) = member.default {
                    return MembersStep::Analyze { initializer, expected };
                }
            }
            assert(log.diagnostics@ =~= state.said + declared_said(member, source));
            pass_member(types, ctx, sweep, params, members);
        } else {
            sweep.next = at + 1;
        }
        proof {
            let now = MemberState {
                ctx: *ctx,
                next: sweep.next as int,
                names: sweep.names@,
                locals: sweep.locals@,
                said: log.diagnostics@,
            };
            assert(member_passed(
                state,
                now,
                params@.len() as int,
                members@,
                sweep.fields@,
                source,
            ));
            trace = earlier.push(now);
            assert forall|k: int| 0 <= k < trace.len() - 1 implies member_passed(
                #[trigger] trace[k],
                trace[k + 1],
                params@.len() as int,
                members@,
                sweep.fields@,
                source,
            ) by {
                if k < earlier.len() - 1 {
                    assert(trace[k] == earlier[k]);
                    assert(trace[k + 1] == earlier[k + 1]);
                }
            }
        }
    }
    MembersStep::Done
}

/// Settles the next member from what its initializer was analyzed to, and binds it.
/// `spoke` says whether analyzing the initializer already reported something.
pub fn resume_members(
    types: &TypeTable,
    ctx: &mut FnCtx,
    lattice: &Lattice,
    sweep: &mut MemberSweep,
    params: &Vec<BackedParam>,
    members: &Vec<BackedField>,
    found: Type,
    spoke: bool,
    initializer_span: Span,
    source: SourceId,
    log: &mut Log,
)
    requires
        old(sweep).wf(types, old(ctx), params@, members@),
        old(sweep).next < members@.len(),
        params@.len() + old(sweep).next < old(sweep).fields@.len(),
        !members@[old(sweep).next as int].slot,
        members@[old(sweep).next as int].default is Some,
        old(ctx).locals@.len() < u32::MAX,
    ensures
        final(sweep).wf(types, final(ctx), params@, members@),
        final(sweep).id == old(sweep).id,
        final(sweep).next == old(sweep).next + 1,
        final(log).source == old(log).source,
        ({
            let at = old(sweep).next as int;
            let index = params@.len() + at;
            let member = members@[at];
            let declared = old(sweep).fields@[index].ty;
            let ty = settled_type(&member, declared, found);
            &&& final(sweep).fields@ == old(sweep).fields@.update(
                index,
                (FieldDef { ty, ..old(sweep).fields@[index] }),
            )
            &&& member_bound(
                (MemberState {
                    ctx: *old(ctx),
                    next: at,
                    names: old(sweep).names@,
                    locals: old(sweep).locals@,
                    said: old(log).diagnostics@,
                }),
                (MemberState {
                    ctx: *final(ctx),
                    next: at + 1,
                    names: final(sweep).names@,
                    locals: final(sweep).locals@,
                    said: final(log).diagnostics@,
                }),
                member.name,
                ty,
            )
            &&& final(log).diagnostics@ == match settling_problem(
                lattice,
                &member,
                declared,
                found,
                spoke,
                initializer_span,
            ) {
                Some((span, problem)) => old(log).diagnostics@.push(
                    blamed(source, span, problem),
                ),
                None => old(log).diagnostics@,
            }
        }),
{
    let ghost settled = sweep.fields@;
    let at: usize = sweep.next;
    let count_of_fields: usize = sweep.fields.len();
    assert(params@.len() + at < count_of_fields);
    let index: usize = params.len() + at;
    let member = members[at];
    let reading = log.source;
    log.source = source;
    let _ = finish_member(
        &mut sweep.fields,
        lattice,
        index,
        &member,
        found,
        spoke,
        initializer_span,
        log,
    );
    log.source = reading;
    proof {
        lemma_reached_count(params@, members@, settled.len() as int, at as int);
        let fields = types.fields(sweep.id);
        assert forall|f: int| 0 <= f < fields.len() implies {
            &&& (#[trigger] sweep.fields@[f]).name == fields[f].name
            &&& sweep.fields@[f].mutable == fields[f].mutable
            &&& !may_settle(members@, params@.len() as int, at + 1, f) ==> sweep.fields@[f]
                == fields[f]
        } by {
            assert(settled[f].name == fields[f].name);
        }
        assert forall|k: int| 0 <= k < sweep.locals@.len() implies (
        #[trigger] sweep.locals@[k]).0 < ctx.locals@.len() && ctx.locals@[sweep.locals@[k].0 as int].ty
            == field_type(sweep.fields@, k) by {
            assert(k < index);
        }
        assert(sweep.standing(types, ctx, params@, members@, at + 1));
    }
    pass_member(types, ctx, sweep, params, members);
}

/// Ends a sweep: the scope is gone, and the declaration has the types its members were
/// settled to.
pub fn finish_members(
    types: &mut TypeTable,
    ctx: &mut FnCtx,
    sweep: MemberSweep,
    params: &Vec<BackedParam>,
    members: &Vec<BackedField>,
)
    requires
        sweep.wf(old(types), old(ctx), params@, members@),
        sweep.next == members@.len(),
    ensures
        final(ctx).wf(),
        final(ctx).scopes@ == old(ctx).scopes@.drop_last(),
        final(ctx).scope_floor == old(ctx).outer_floors@.last(),
        final(ctx).outer_floors@ == old(ctx).outer_floors@.drop_last(),
        final(types).structs@.len() == old(types).structs@.len(),
        forall|k: int|
            0 <= k < old(types).structs@.len() && k != sweep.id.0 ==> #[trigger] final(
                types).structs@[k] == old(types).structs@[k],
        final(types).structs@[sweep.id.0 as int] == (StructDef {
            fields: sweep.fields,
            ..old(types).structs@[sweep.id.0 as int]
        }),
        *final(types) == (TypeTable { structs: final(types).structs, ..*old(types) }),
        only_inferred(
            old(types).fields(sweep.id),
            final(types).fields(sweep.id),
            members@,
            params@.len() as int,
            members@.len() as int,
        ),
{
    ctx.pop_scope();
    let id = sweep.id;
    types.structs[id.0 as usize].fields = sweep.fields;
}

/// While an initializer is analyzed, a name means the construction input or the member
/// before it that has the name, and nothing where none does.
pub proof fn an_initializer_sees_what_is_before_it(
    sweep: MemberSweep,
    types: TypeTable,
    ctx: FnCtx,
    params: Seq<BackedParam>,
    members: Seq<BackedField>,
    name: Symbol,
)
    requires
        sweep.wf(&types, &ctx, params, members),
    ensures
        match ctx.meaning(name) {
            Some(local) => exists|k: int|
                0 <= k < sweep.names@.len() && sweep.names@[k] == name
                    && #[trigger] sweep.locals@[k] == local && ctx.locals@[local.0 as int].ty
                    == field_type(sweep.fields@, k),
            None => !sweep.names@.contains(name),
        },
{
    lemma_binding(sweep.names@, sweep.locals@, sweep.names@.len() as int, name);
    assert(crate::scope::lookup(ctx.scopes@.drop_last(), ctx.scope_floor as int, name) is None);
    if ctx.meaning(name) is Some {
        let local = ctx.meaning(name)->0;
        let k = choose|k: int|
            0 <= k < sweep.names@.len() && sweep.names@[k] == name && #[trigger] sweep.locals@[k]
                == local;
        assert(ctx.locals@[sweep.locals@[k].0 as int].ty == field_type(sweep.fields@, k));
    }
}

proof fn lemma_binding(names: Seq<Symbol>, locals: Seq<LocalId>, count: int, name: Symbol)
    requires
        0 <= count <= names.len(),
        count <= locals.len(),
    ensures
        bindings(names, locals, count).contains_key(name) ==> exists|k: int|
            0 <= k < count && names[k] == name && #[trigger] locals[k] == bindings(
                names,
                locals,
                count,
            )[name],
        !bindings(names, locals, count).contains_key(name) ==> forall|k: int|
            0 <= k < count ==> #[trigger] names[k] != name,
    decreases count,
{
    if count > 0 {
        lemma_binding(names, locals, count - 1, name);
        if names[count - 1] == name {
            assert(locals[count - 1] == bindings(names, locals, count)[name]);
        }
    }
}

/// A member is passed without analyzing anything only where it has no initializer, is a
/// child slot, or has no field; it is then bound under its own name at its field's type,
/// and reported exactly if it has neither a type nor an initializer and is no slot.
pub proof fn a_passed_member_needs_no_initializer(
    before: MemberState,
    after: MemberState,
    params: int,
    members: Seq<BackedField>,
    fields: Seq<FieldDef>,
    source: SourceId,
)
    requires
        member_passed(before, after, params, members, fields, source),
        0 <= params,
        before.ctx.locals@.len() < u32::MAX,
    ensures
        ({
            let member = members[before.next];
            let index = params + before.next;
            &&& after.next == before.next + 1
            &&& index < fields.len() ==> member.slot || member.default is None
            &&& index < fields.len() ==> after.names == before.names.push(member.name)
            &&& index < fields.len() ==> after.ctx.locals@.last().ty == fields[index].ty
            &&& index < fields.len() ==> after.locals.last().0 == before.ctx.locals@.len()
            &&& index < fields.len() && before.ctx.scopes@.len() > 0
                ==> after.ctx.scopes@.last()@.contains_pair(member.name, after.locals.last())
            &&& index < fields.len() ==> (after.said == before.said <==> member.slot
                || member.default is Some || member.ty is Some)
            &&& index >= fields.len() ==> after.said == before.said && after.names == before.names
        }),
{
    let member = members[before.next];
    let index = params + before.next;
    if index < fields.len() {
        assert(after.said.len() == before.said.len() + declared_said(member, source).len());
    }
}

} // verus!
