//! Completing the fields of a construction, in declaration order.
//!
//! A default is an initializer of the instance, not an expression of the
//! surrounding function: it is analyzed in a scope that sees no local of the
//! caller, and each completed field is bound there before the next one is looked
//! at. So a default may name the fields before it and no field after it.

use vstd::prelude::*;

use crate::class_fields::{default_of, field_default};
use crate::construction::{
    begin_field, bind_field, field_bound, finish_construction, finish_field_default,
    frame_bound, FieldStep,
};
use crate::coercion::coerced;
use crate::diagnostics::{blamed, Diagnostic, Log, Problem};
use crate::hir::{HirExpr, HirExprId, HirProgram, HirStmt, HirStmtId, LocalId};
use crate::lattice::Lattice;
use crate::names::Symbol;
use crate::scope::FnCtx;
use crate::source::{SourceId, Span};
use crate::syntax::FieldDefault;
use crate::ty::{FieldDef, FieldName, StructId, Type, TypeTable};

verus! {

/// The fields of one construction, the first of them complete.
#[derive(Debug)]
pub struct FieldSweep {
    pub construct: StructId,
    /// What each field was given, by an argument or by a child slot.
    pub given: Vec<Option<HirExprId>>,
    /// The local each completed field is bound to.
    pub locals: Vec<LocalId>,
    /// What reads each completed field.
    pub reads: Vec<HirExprId>,
}

/// How a sweep goes on.
#[derive(Clone, Copy, PartialEq, Eq, Structural, Debug)]
pub enum SweepStep {
    /// The next field's default is analyzed, in the file that declares it, against
    /// the field's type.
    Analyze { default: FieldDefault, ty: Type },
    /// Every field is complete: the construction.
    Done(HirExprId),
}

/// The name a field is bound as.
pub open spec fn bound_name(field: FieldDef) -> Symbol {
    field.name->Plain_0
}

/// Whether every field is stored under the name it was written with.
pub open spec fn plainly_named(fields: Seq<FieldDef>) -> bool {
    forall|k: int| 0 <= k < fields.len() ==> (#[trigger] fields[k]).name is Plain
}

/// What the names of the first `count` fields mean, a later one shadowing an
/// earlier one of its name.
pub open spec fn names_bound(
    fields: Seq<FieldDef>,
    locals: Seq<LocalId>,
    count: int,
) -> Map<Symbol, LocalId>
    decreases count,
{
    if count <= 0 {
        Map::empty()
    } else {
        names_bound(fields, locals, count - 1).insert(
            bound_name(fields[count - 1]),
            locals[count - 1],
        )
    }
}

impl FieldSweep {
    /// The sweep stands in its own scope, which binds the completed fields and
    /// nothing else, and each of them is read at its type.
    pub open spec fn wf(&self, program: &HirProgram, ctx: &FnCtx) -> bool {
        let fields = program.types.fields(self.construct);
        &&& ctx.wf()
        &&& plainly_named(fields)
        &&& self.given@.len() == fields.len()
        &&& self.reads@.len() <= fields.len()
        &&& self.locals@.len() == self.reads@.len()
        &&& ctx.scopes@.len() > 0
        &&& ctx.scope_floor == ctx.scopes@.len() - 1
        &&& ctx.outer_floors@.len() > 0
        &&& ctx.scopes@.last()@ == names_bound(fields, self.locals@, self.reads@.len() as int)
        &&& forall|k: int|
            0 <= k < self.reads@.len() ==> program.has_expr(#[trigger] self.reads@[k])
                && program.at(self.reads@[k]) == (HirExpr::Local {
                local: self.locals@[k],
                ty: fields[k].ty,
            })
    }
}

/// Everything a sweep changes, at one point.
pub struct SweepState {
    pub program: HirProgram,
    pub ctx: FnCtx,
    pub locals: Seq<LocalId>,
    pub reads: Seq<HirExprId>,
    pub said: Seq<Diagnostic>,
}

/// Whether a field's default is to be analyzed: it was given nothing, has a
/// default and a type, and its default is not being resolved already.
pub open spec fn to_analyze(
    construct: StructId,
    index: int,
    ty: Type,
    given: Option<HirExprId>,
    default: Option<FieldDefault>,
    resolving: Seq<(u32, u32)>,
) -> bool {
    given is None && default is Some && ty != Type::Error && !resolving.contains(
        (construct.0, index as u32),
    )
}

/// What completing a field without analyzing anything reports: a default that is
/// being resolved already, and a field that has none.
pub open spec fn field_said(
    construct: StructId,
    field: FieldDef,
    given: Option<HirExprId>,
    default: Option<FieldDefault>,
    default_span: Span,
    span: Span,
    source: SourceId,
) -> Seq<Diagnostic> {
    match (given, default) {
        (None, Some(default)) => if field.ty == Type::Error {
            Seq::empty()
        } else {
            seq![blamed(default.source, default_span, Problem::EndlessMemberDefault)]
        },
        (None, None) => seq![
            blamed(source, span, Problem::MissingInput { construct, field: field.name }),
        ],
        _ => Seq::empty(),
    }
}

/// The next field was completed between two points without analyzing anything: with
/// what it was given, or with the error node.
pub open spec fn field_swept(
    before: SweepState,
    after: SweepState,
    construct: StructId,
    given: Seq<Option<HirExprId>>,
    defaults: Seq<Vec<Option<FieldDefault>>>,
    default_spans: Seq<Span>,
    span: Span,
    resolving: Seq<(u32, u32)>,
    source: SourceId,
) -> bool {
    let index = before.reads.len() as int;
    let field = before.program.types.fields(construct)[index];
    let default = default_of(defaults, construct, index);
    let value = match given[index] {
        Some(value) => value,
        None => HirExprId(before.program.exprs@.len() as u32),
    };
    let with_value = if given[index] is None {
        before.program.exprs@.push(HirExpr::Error)
    } else {
        before.program.exprs@
    };
    let local = LocalId(before.ctx.locals@.len() as u32);
    &&& index < given.len()
    &&& !to_analyze(construct, index, field.ty, given[index], default, resolving)
    &&& after.program.built_on(&before.program)
    &&& after.program.exprs@ == with_value.push(HirExpr::Local { local, ty: field.ty })
    &&& after.program.stmts@ == before.program.stmts@.push(HirStmt::Let { local, init: value })
    &&& after.reads == before.reads.push(HirExprId(with_value.len() as u32))
    &&& after.locals == before.locals.push(local)
    &&& frame_bound(
        &before.ctx,
        &after.ctx,
        bound_name(field),
        field.ty,
        HirStmtId(before.program.stmts@.len() as u32),
    )
    &&& after.said == before.said + field_said(
        construct,
        field,
        given[index],
        default,
        default_spans[index],
        span,
        source,
    )
}

/// The fields a sweep completed along `trace`, one step each.
pub open spec fn swept_along(
    trace: Seq<SweepState>,
    construct: StructId,
    given: Seq<Option<HirExprId>>,
    defaults: Seq<Vec<Option<FieldDefault>>>,
    default_spans: Seq<Span>,
    span: Span,
    resolving: Seq<(u32, u32)>,
    source: SourceId,
) -> bool {
    &&& trace.len() > 0
    &&& forall|k: int|
        0 <= k < trace.len() - 1 ==> field_swept(
            #[trigger] trace[k],
            trace[k + 1],
            construct,
            given,
            defaults,
            default_spans,
            span,
            resolving,
            source,
        )
}

/// Starts completing the fields of `construct`, in a scope of their own.
pub fn begin_sweep(
    ctx: &mut FnCtx,
    types: &TypeTable,
    construct: StructId,
    given: Vec<Option<HirExprId>>,
) -> (sweep: FieldSweep)
    requires
        old(ctx).wf(),
        given@.len() == types.fields(construct).len(),
    ensures
        sweep.construct == construct,
        sweep.given == given,
        sweep.locals@.len() == 0,
        sweep.reads@.len() == 0,
        final(ctx).wf(),
        final(ctx).scopes@.len() == old(ctx).scopes@.len() + 1,
        final(ctx).scopes@.drop_last() == old(ctx).scopes@,
        final(ctx).scopes@.last()@ == Map::<Symbol, LocalId>::empty(),
        final(ctx).scope_floor == old(ctx).scopes@.len(),
        final(ctx).outer_floors@ == old(ctx).outer_floors@.push(old(ctx).scope_floor),
        *final(ctx) == (FnCtx {
            scopes: final(ctx).scopes,
            scope_floor: final(ctx).scope_floor,
            outer_floors: final(ctx).outer_floors,
            ..*old(ctx)
        }),
        forall|program: HirProgram|
            program.types == types && plainly_named(types.fields(construct)) ==> #[trigger] sweep.wf(
                &program,
                final(ctx),
            ),
{
    ctx.push_isolated_scope();
    FieldSweep { construct, given, locals: Vec::new(), reads: Vec::new() }
}

/// Binds the next field, complete with `value`.
fn complete_field(
    program: &mut HirProgram,
    ctx: &mut FnCtx,
    sweep: &mut FieldSweep,
    name: Symbol,
    ty: Type,
    value: HirExprId,
)
    requires
        old(sweep).wf(old(program), old(ctx)),
        old(sweep).reads@.len() < old(sweep).given@.len(),
        ({
            let field = old(program).types.fields(
                old(sweep).construct,
            )[old(sweep).reads@.len() as int];
            field.name == FieldName::Plain(name) && field.ty == ty
        }),
        old(ctx).locals@.len() < u32::MAX,
        old(program).exprs@.len() < u32::MAX,
        old(program).stmts@.len() < u32::MAX,
    ensures
        final(sweep).wf(final(program), final(ctx)),
        final(sweep).construct == old(sweep).construct,
        final(sweep).given == old(sweep).given,
        final(sweep).locals@ == old(sweep).locals@.push(
            LocalId(old(ctx).locals@.len() as u32),
        ),
        final(sweep).reads@ == old(sweep).reads@.push(
            HirExprId(old(program).exprs@.len() as u32),
        ),
        field_bound(
            old(program),
            old(ctx),
            final(program),
            final(ctx),
            name,
            ty,
            value,
            final(sweep).reads@.last(),
        ),
{
    let ghost before = *program;
    let ghost frame = *ctx;
    let ghost fields = program.types.fields(sweep.construct);
    let ghost count = sweep.reads@.len() as int;
    let ghost held = sweep.locals@;
    let ghost earlier = sweep.reads@;
    let local = LocalId(ctx.locals.len() as u32);
    let read = bind_field(program, ctx, name, ty, value);
    sweep.locals.push(local);
    sweep.reads.push(read);
    proof {
        lemma_names_kept(fields, held, sweep.locals@, count);
        assert(ctx.scopes@.last()@ == frame.scopes@.last()@.insert(name, local));
        assert forall|k: int| 0 <= k < count + 1 implies program.has_expr(
            #[trigger] sweep.reads@[k],
        ) && program.at(sweep.reads@[k]) == (HirExpr::Local {
            local: sweep.locals@[k],
            ty: fields[k].ty,
        }) by {
            if k < count {
                assert(sweep.reads@[k] == earlier[k]);
                assert(program.at(earlier[k]) == before.at(earlier[k]));
            }
        }
    }
}

proof fn lemma_names_kept(
    fields: Seq<FieldDef>,
    locals: Seq<LocalId>,
    more: Seq<LocalId>,
    count: int,
)
    requires
        0 <= count <= locals.len() <= more.len(),
        forall|k: int| 0 <= k < count ==> more[k] == locals[k],
    ensures
        names_bound(fields, locals, count) == names_bound(fields, more, count),
    decreases count,
{
    if count > 0 {
        lemma_names_kept(fields, locals, more, count - 1);
    }
}

/// Completes fields until one needs its default analyzed, or until every one is
/// complete: then the scope ends and the construction is built.
pub fn sweep_fields(
    program: &mut HirProgram,
    ctx: &mut FnCtx,
    sweep: &mut FieldSweep,
    defaults: &Vec<Vec<Option<FieldDefault>>>,
    default_spans: &Vec<Span>,
    span: Span,
    resolving: &mut Vec<(u32, u32)>,
    log: &mut Log,
) -> (step: SweepStep)
    requires
        old(sweep).wf(old(program), old(ctx)),
        old(sweep).given@.len() <= u32::MAX,
        default_spans@.len() == old(sweep).given@.len(),
        old(ctx).locals@.len() + old(sweep).given@.len() <= u32::MAX,
        old(program).exprs@.len() + 2 * old(sweep).given@.len() < u32::MAX,
        old(program).stmts@.len() + old(sweep).given@.len() <= u32::MAX,
    ensures
        final(sweep).construct == old(sweep).construct,
        final(sweep).given == old(sweep).given,
        final(log).source == old(log).source,
        exists|trace: Seq<SweepState>|
            {
                let last = trace.last();
                let count = last.reads.len() as int;
                &&& #[trigger] swept_along(
                    trace,
                    old(sweep).construct,
                    old(sweep).given@,
                    defaults@,
                    default_spans@,
                    span,
                    old(resolving)@,
                    old(log).source,
                )
                &&& trace[0] == (SweepState {
                    program: *old(program),
                    ctx: *old(ctx),
                    locals: old(sweep).locals@,
                    reads: old(sweep).reads@,
                    said: old(log).diagnostics@,
                })
                &&& final(sweep).reads@ == last.reads
                &&& final(sweep).locals@ == last.locals
                &&& final(log).diagnostics@ == last.said
                &&& match step {
                    SweepStep::Analyze { default, ty } => {
                        &&& count < old(sweep).given@.len()
                        &&& ty == last.program.types.fields(old(sweep).construct)[count].ty
                        &&& default_of(defaults@, old(sweep).construct, count) == Some(default)
                        &&& to_analyze(
                            old(sweep).construct,
                            count,
                            ty,
                            old(sweep).given@[count],
                            Some(default),
                            old(resolving)@,
                        )
                        &&& *final(program) == last.program
                        &&& *final(ctx) == last.ctx
                        &&& final(sweep).wf(final(program), final(ctx))
                        &&& final(resolving)@ == old(resolving)@.push(
                            (old(sweep).construct.0, count as u32),
                        )
                    },
                    SweepStep::Done(id) => {
                        &&& count == old(sweep).given@.len()
                        &&& id.0 == last.program.exprs@.len()
                        &&& final(program).built_on(&last.program)
                        &&& final(program).exprs@.len() == last.program.exprs@.len() + 1
                        &&& final(program).stmts == last.program.stmts
                        &&& (final(program).at(id) matches HirExpr::StructNew { struct_id, fields }
                            && struct_id == old(sweep).construct && fields@ == last.reads)
                        &&& final(ctx).wf()
                        &&& final(ctx).scopes@ == last.ctx.scopes@.drop_last()
                        &&& final(ctx).scope_floor == last.ctx.outer_floors@.last()
                        &&& final(ctx).outer_floors@ == last.ctx.outer_floors@.drop_last()
                        &&& *final(ctx) == (FnCtx {
                            scopes: final(ctx).scopes,
                            scope_floor: final(ctx).scope_floor,
                            outer_floors: final(ctx).outer_floors,
                            ..last.ctx
                        })
                        &&& final(resolving)@ == old(resolving)@
                    },
                }
            },
        step matches SweepStep::Done(id) ==> forall|k: int|
            0 <= k < final(sweep).reads@.len() ==> final(program).at(
                #[trigger] final(sweep).reads@[k],
            ) == (HirExpr::Local {
                local: final(sweep).locals@[k],
                ty: old(program).types.fields(old(sweep).construct)[k].ty,
            }),
{
    let ghost start = SweepState {
        program: *program,
        ctx: *ctx,
        locals: sweep.locals@,
        reads: sweep.reads@,
        said: log.diagnostics@,
    };
    let ghost mut trace = seq![start];
    let ghost types = program.types;
    let construct = sweep.construct;
    let count: usize = sweep.given.len();
    let ghost began = sweep.reads@.len() as int;
    while sweep.reads.len() < count
        invariant
            sweep.wf(program, ctx),
            sweep.construct == construct,
            construct == old(sweep).construct,
            sweep.given == old(sweep).given,
            count == sweep.given@.len(),
            count <= u32::MAX,
            default_spans@.len() == count,
            program.types == types,
            began <= sweep.reads@.len() <= count,
            ctx.locals@.len() + (count - sweep.reads@.len()) <= u32::MAX,
            program.exprs@.len() + 2 * (count - sweep.reads@.len()) < u32::MAX,
            program.stmts@.len() + (count - sweep.reads@.len()) <= u32::MAX,
            resolving@ == old(resolving)@,
            log.source == old(log).source,
            swept_along(
                trace,
                construct,
                sweep.given@,
                defaults@,
                default_spans@,
                span,
                resolving@,
                log.source,
            ),
            trace[0] == start,
            trace.last() == (SweepState {
                program: *program,
                ctx: *ctx,
                locals: sweep.locals@,
                reads: sweep.reads@,
                said: log.diagnostics@,
            }),
            start == (SweepState {
                program: *old(program),
                ctx: *old(ctx),
                locals: old(sweep).locals@,
                reads: old(sweep).reads@,
                said: old(log).diagnostics@,
            }),
            types == old(program).types,
        decreases count - sweep.reads@.len(),
    {
        let index: usize = sweep.reads.len();
        let ghost state = trace.last();
        let ghost earlier = trace;
        let ghost waiting = resolving@;
        assert(types.fields(construct).len() == count);
        let field = program.types.structs[construct.0 as usize].fields[index];
        assert(field == types.fields(construct)[index as int]);
        let default = field_default(defaults, construct, index);
        let given = sweep.given[index];
        let step = begin_field(
            program,
            construct,
            index as u32,
            field.name,
            field.ty,
            given,
            default,
            default_spans[index],
            span,
            resolving,
            log,
        );
        match step {
            FieldStep::Analyze(default) => {
                return SweepStep::Analyze { default, ty: field.ty };
            },
            FieldStep::Value(value) => {
                let ghost mid = *program;
                proof {
                    assert(sweep.wf(program, ctx)) by {
                        assert forall|k: int| 0 <= k < sweep.reads@.len() implies program.has_expr(
                            #[trigger] sweep.reads@[k],
                        ) && program.at(sweep.reads@[k]) == (HirExpr::Local {
                            local: sweep.locals@[k],
                            ty: types.fields(construct)[k].ty,
                        }) by {
                            assert(state.program.has_expr(sweep.reads@[k]));
                        }
                    }
                }
                let name = match field.name {
                    FieldName::Plain(name) => name,
                    _ => {
                        assert(false);
                        return SweepStep::Done(value);
                    },
                };
                complete_field(program, ctx, sweep, name, field.ty, value);
                proof {
                    let now = SweepState {
                        program: *program,
                        ctx: *ctx,
                        locals: sweep.locals@,
                        reads: sweep.reads@,
                        said: log.diagnostics@,
                    };
                    assert(log.diagnostics@ =~= state.said + field_said(
                        construct,
                        field,
                        given,
                        default,
                        default_spans@[index as int],
                        span,
                        log.source,
                    ));
                    assert(field_swept(
                        state,
                        now,
                        construct,
                        sweep.given@,
                        defaults@,
                        default_spans@,
                        span,
                        resolving@,
                        log.source,
                    ));
                    trace = earlier.push(now);
                    assert forall|k: int| 0 <= k < trace.len() - 1 implies field_swept(
                        #[trigger] trace[k],
                        trace[k + 1],
                        construct,
                        sweep.given@,
                        defaults@,
                        default_spans@,
                        span,
                        resolving@,
                        log.source,
                    ) by {
                        if k < earlier.len() - 1 {
                            assert(trace[k] == earlier[k]);
                            assert(trace[k + 1] == earlier[k + 1]);
                        }
                    }
                }
            },
        }
    }
    let ghost last = trace.last();
    ctx.pop_scope();
    let mut fields: Vec<HirExprId> = Vec::new();
    let mut i: usize = 0;
    while i < sweep.reads.len()
        invariant
            i <= sweep.reads@.len(),
            fields@ == sweep.reads@.take(i as int),
        decreases sweep.reads@.len() - i,
    {
        fields.push(sweep.reads[i]);
        i += 1;
        assert(fields@ =~= sweep.reads@.take(i as int));
    }
    assert(fields@ =~= sweep.reads@);
    let id = finish_construction(program, construct, fields);
    proof {
        assert forall|k: int| 0 <= k < sweep.reads@.len() implies program.at(
            #[trigger] sweep.reads@[k],
        ) == (HirExpr::Local {
            local: sweep.locals@[k],
            ty: old(program).types.fields(old(sweep).construct)[k].ty,
        }) by {
            assert(last.program.has_expr(sweep.reads@[k]));
        }
    }
    SweepStep::Done(id)
}

/// Takes the analyzed default of the next field and binds the field.
pub fn resume_sweep(
    program: &mut HirProgram,
    ctx: &mut FnCtx,
    lattice: &Lattice,
    sweep: &mut FieldSweep,
    value: HirExprId,
    default_span: Span,
    resolving: &mut Vec<(u32, u32)>,
    log: &mut Log,
)
    requires
        old(sweep).wf(old(program), old(ctx)),
        old(sweep).reads@.len() < old(sweep).given@.len(),
        old(sweep).given@.len() <= u32::MAX,
        old(program).has_expr(value),
        old(ctx).locals@.len() < u32::MAX,
        old(program).exprs@.len() + 1 < u32::MAX,
        old(program).stmts@.len() < u32::MAX,
        old(resolving)@.len() > 0,
        old(resolving)@.last() == (old(sweep).construct.0, old(sweep).reads@.len() as u32),
    ensures
        final(sweep).wf(final(program), final(ctx)),
        final(sweep).construct == old(sweep).construct,
        final(sweep).given == old(sweep).given,
        final(resolving)@ == old(resolving)@.drop_last(),
        final(log).source == old(log).source,
        ({
            let field = old(program).types.fields(
                old(sweep).construct,
            )[old(sweep).reads@.len() as int];
            let found = old(program).type_at(value);
            &&& exists|mid: HirProgram, result: HirExprId|
                {
                    &&& #[trigger] coerced(old(program), &mid, lattice, value, field.ty, result)
                    &&& field_bound(
                        &mid,
                        old(ctx),
                        final(program),
                        final(ctx),
                        bound_name(field),
                        field.ty,
                        result,
                        final(sweep).reads@.last(),
                    )
                }
            &&& if found != Type::Error && !lattice.admits(found, field.ty) {
                final(log).reported(
                    old(log),
                    old(log).source,
                    default_span,
                    (Problem::MemberDefaultMismatch {
                        construct: old(sweep).construct,
                        field: field.name,
                        expected: field.ty,
                        found,
                    }),
                )
            } else {
                final(log).quiet(old(log))
            }
        }),
        final(sweep).locals@ == old(sweep).locals@.push(LocalId(old(ctx).locals@.len() as u32)),
        final(sweep).reads@.drop_last() == old(sweep).reads@,
        final(sweep).reads@.len() == old(sweep).reads@.len() + 1,
{
    let ghost start = *program;
    let index: usize = sweep.reads.len();
    let construct = sweep.construct;
    let field = program.types.structs[construct.0 as usize].fields[index];
    assert(field == start.types.fields(construct)[index as int]);
    let result = finish_field_default(
        program,
        lattice,
        construct,
        index as u32,
        field.name,
        field.ty,
        value,
        default_span,
        resolving,
        log,
    );
    let ghost mid = *program;
    proof {
        assert(sweep.wf(program, ctx)) by {
            assert forall|k: int| 0 <= k < sweep.reads@.len() implies program.has_expr(
                #[trigger] sweep.reads@[k],
            ) && program.at(sweep.reads@[k]) == (HirExpr::Local {
                local: sweep.locals@[k],
                ty: start.types.fields(construct)[k].ty,
            }) by {
                assert(start.has_expr(sweep.reads@[k]));
            }
        }
    }
    let name = match field.name {
        FieldName::Plain(name) => name,
        _ => {
            assert(false);
            return ;
        },
    };
    complete_field(program, ctx, sweep, name, field.ty, result);
    assert(sweep.reads@.drop_last() =~= old(sweep).reads@);
    assert(coerced(&start, &mid, lattice, value, field.ty, result));
}

/// While a default is analyzed, a name means the field before it that has the
/// name, and nothing where no field before it does: neither a field to come nor a
/// local of the caller.
pub proof fn a_default_sees_the_fields_before_it(
    sweep: FieldSweep,
    program: HirProgram,
    ctx: FnCtx,
    name: Symbol,
)
    requires
        sweep.wf(&program, &ctx),
    ensures
        ({
            let fields = program.types.fields(sweep.construct);
            match ctx.meaning(name) {
                Some(local) => exists|k: int|
                    0 <= k < sweep.reads@.len() && fields[k].name == FieldName::Plain(name)
                        && #[trigger] sweep.locals@[k] == local,
                None => forall|k: int|
                    0 <= k < sweep.reads@.len() ==> (#[trigger] fields[k]).name
                        != FieldName::Plain(name),
            }
        }),
{
    let fields = program.types.fields(sweep.construct);
    let scopes = ctx.scopes@;
    lemma_name_bound(fields, sweep.locals@, sweep.reads@.len() as int, name);
    assert(crate::scope::lookup(scopes.drop_last(), ctx.scope_floor as int, name) is None);
}

proof fn lemma_name_bound(
    fields: Seq<FieldDef>,
    locals: Seq<LocalId>,
    count: int,
    name: Symbol,
)
    requires
        0 <= count <= fields.len(),
        count <= locals.len(),
        plainly_named(fields),
    ensures
        names_bound(fields, locals, count).contains_key(name) ==> exists|k: int|
            0 <= k < count && fields[k].name == FieldName::Plain(name) && #[trigger] locals[k]
                == names_bound(fields, locals, count)[name],
        !names_bound(fields, locals, count).contains_key(name) ==> forall|k: int|
            0 <= k < count ==> (#[trigger] fields[k]).name != FieldName::Plain(name),
    decreases count,
{
    if count > 0 {
        lemma_name_bound(fields, locals, count - 1, name);
        let last = fields[count - 1];
        assert(last.name == FieldName::Plain(bound_name(last)));
        if bound_name(last) == name {
            assert(locals[count - 1] == names_bound(fields, locals, count)[name]);
        }
    }
}

/// A field is completed in one way each: with what it was given, in silence; by analyzing
/// its default, where it was given nothing and has one; and otherwise with the error node,
/// which is reported unless its type is an error already.
pub proof fn a_field_is_completed_in_one_way(
    before: SweepState,
    after: SweepState,
    construct: StructId,
    given: Seq<Option<HirExprId>>,
    defaults: Seq<Vec<Option<FieldDefault>>>,
    default_spans: Seq<Span>,
    span: Span,
    resolving: Seq<(u32, u32)>,
    source: SourceId,
)
    requires
        field_swept(
            before,
            after,
            construct,
            given,
            defaults,
            default_spans,
            span,
            resolving,
            source,
        ),
        before.program.exprs@.len() < u32::MAX - 1,
        before.ctx.locals@.len() <= u32::MAX,
    ensures
        ({
            let index = before.reads.len() as int;
            let field = before.program.types.fields(construct)[index];
            let default = default_of(defaults, construct, index);
            let bound = after.program.stmts@[before.program.stmts@.len() as int];
            &&& after.reads.len() == before.reads.len() + 1
            &&& after.locals.last().0 == before.ctx.locals@.len()
            &&& after.program.at(after.reads.last()) == (HirExpr::Local {
                local: after.locals.last(),
                ty: field.ty,
            })
            &&& given[index] matches Some(value) ==> bound == (HirStmt::Let {
                local: after.locals.last(),
                init: value,
            }) && after.said == before.said
            &&& given[index] is None ==> (bound matches HirStmt::Let { local, init } && local
                == after.locals.last() && after.program.at(init) is Error)
            &&& given[index] is None && default is None ==> after.said.len() == before.said.len() + 1
            &&& given[index] is None && default is Some ==> field.ty == Type::Error
                || resolving.contains((construct.0, index as u32))
            &&& given[index] is None && default is Some && field.ty != Type::Error
                ==> after.said.len() == before.said.len() + 1
        }),
{
    let index = before.reads.len() as int;
    if given[index] is Some {
        assert(after.said =~= before.said);
    } else {
        assert(after.program.exprs@[before.program.exprs@.len() as int] == HirExpr::Error);
    }
}

} // verus!
