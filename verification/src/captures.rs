//! Threading a binding of an enclosing frame into a closure body.
//!
//! A capture must travel as it is: a scalar, a function value, or a share of the
//! cell a `var` lives in. It is threaded through every frame it crosses, so a
//! closure nested two deep reads a binding of the outermost function through the
//! closure between them rather than reaching past it.

use vstd::prelude::*;

use crate::diagnostics::{blamed, Diagnostic, Log, Problem};
use crate::fn_types::{
    capturable, capture_is_trivially_copyable, capture_would_be_cyclic, reaches_struct, tag_used,
    ClosureImpl, FnTypeTable,
};
use crate::hir::LocalId;
use crate::lattice::Lattice;
use crate::names::Symbol;
use crate::scope::{bound, declared_local, lookup, Capture, ClosureCtx, FnCtx, LocalOwnership};
use crate::source::{SourceId, Span};
use crate::ty::{interned, row_of, FieldDef, FieldName, OwnershipMode, StructId, Type, TypeTable};

verus! {

/// What resolving a name against the enclosing closure frames produced.
#[derive(Clone, Copy, PartialEq, Eq, Structural, Debug)]
pub enum Captured {
    /// The name resolves, to this slot in the current frame.
    Local(LocalId),
    /// The name resolves in an enclosing frame, whose binding was moved away: a
    /// capture is a read, and answers to the move checker there.
    Moved { frame: usize, local: LocalId },
    /// The name resolves in an enclosing frame but may not be captured, which
    /// was reported.
    Refused,
    /// The name resolves in no frame at all.
    Absent,
}

/// What a capture needs to know of the binding it captures.
#[derive(Clone, Copy, PartialEq, Eq, Structural, Debug)]
pub struct OuterBinding {
    pub local: LocalId,
    pub ty: Type,
    pub mutable: bool,
    pub live: bool,
    /// Where the binding's name was written.
    pub span: Option<Span>,
}

/// What is to be done about one binding and one closure frame.
#[derive(Debug)]
pub enum CaptureStep {
    /// The frame is no closure body, so there is nothing to capture into.
    NotAClosure,
    /// The binding was captured before, as this slot.
    Already(LocalId),
    /// The binding was moved away.
    Moved,
    /// The binding may not be captured.
    Refuse(Problem),
    /// The closure's representation struct is not in the table.
    NoStruct,
    /// The binding is captured, behind a one-element array where `boxed`.
    Take { repr: StructId, tag: u32, place: u32, boxed: bool },
}

/// The slot `outer` was captured as, the first time.
pub open spec fn captured_as(captures: Seq<Capture>, outer: LocalId) -> Option<LocalId>
    decreases captures.len(),
{
    if captures.len() == 0 {
        None
    } else if captures[0].outer == outer {
        Some(captures[0].inner)
    } else {
        captured_as(captures.drop_first(), outer)
    }
}

fn find_capture(captures: &Vec<Capture>, outer: LocalId) -> (inner: Option<LocalId>)
    ensures
        inner == captured_as(captures@, outer),
{
    let mut i: usize = 0;
    assert(captures@.skip(0) =~= captures@);
    while i < captures.len()
        invariant
            i <= captures@.len(),
            captured_as(captures@, outer) == captured_as(captures@.skip(i as int), outer),
        decreases captures@.len() - i,
    {
        assert(captures@.skip(i as int).drop_first() =~= captures@.skip(i + 1));
        if captures[i].outer == outer {
            return Some(captures[i].inner);
        }
        i += 1;
    }
    None
}

/// Why a live binding may not be captured, if it may not.
///
/// A `var` without a cell is one a cell cannot hold; a cell whose content runs a
/// user `Drop` has no second copy to hand out; and what owns storage does not
/// travel.
pub open spec fn capture_refusal(
    types: &TypeTable,
    fn_types: &FnTypeTable,
    lattice: &Lattice,
    binding: OuterBinding,
    name: Symbol,
) -> Option<Problem> {
    if binding.mutable && !(binding.ty is Cell) {
        Some(Problem::CaptureHasNoSharedForm { name, ty: binding.ty })
    } else {
        match types.held(binding.ty) {
            Some(inner) if lattice.user_drop@.contains(inner) => Some(
                Problem::CaptureRunsDrop { name, ty: inner },
            ),
            _ => if !capturable(fn_types, binding.ty) {
                Some(Problem::CaptureNotCopyable { name, ty: binding.ty })
            } else {
                None
            },
        }
    }
}

/// What is to be done about `binding` in a frame whose closure is `closure`.
pub open spec fn capture_decision(
    types: &TypeTable,
    fn_types: &FnTypeTable,
    lattice: &Lattice,
    closure: Option<ClosureCtx>,
    binding: OuterBinding,
    name: Symbol,
) -> CaptureStep {
    match closure {
        None => CaptureStep::NotAClosure,
        Some(closure) => match captured_as(closure.captures@, binding.local) {
            Some(inner) => CaptureStep::Already(inner),
            None => if !binding.live {
                CaptureStep::Moved
            } else {
                match capture_refusal(types, fn_types, lattice, binding, name) {
                    Some(problem) => CaptureStep::Refuse(problem),
                    None => if closure.repr.0 >= types.structs@.len() {
                        CaptureStep::NoStruct
                    } else {
                        CaptureStep::Take {
                            repr: closure.repr,
                            tag: closure.tag,
                            place: closure.captures@.len() as u32,
                            boxed: reaches_struct(types, binding.ty, closure.repr),
                        }
                    },
                }
            },
        },
    }
}

/// Decides what is to be done about one binding and one closure frame.
pub fn capture_step(
    types: &TypeTable,
    fn_types: &FnTypeTable,
    lattice: &Lattice,
    closure: &Option<ClosureCtx>,
    binding: OuterBinding,
    name: Symbol,
) -> (step: CaptureStep)
    requires
        closure matches Some(closure) ==> closure.captures@.len() < u32::MAX,
    ensures
        step == capture_decision(types, fn_types, lattice, *closure, binding, name),
{
    let closure = match closure {
        Some(closure) => closure,
        None => {
            return CaptureStep::NotAClosure;
        },
    };
    if let Some(inner) = find_capture(&closure.captures, binding.local) {
        return CaptureStep::Already(inner);
    }
    if !binding.live {
        return CaptureStep::Moved;
    }
    if binding.mutable && !matches!(binding.ty, Type::Cell(_)) {
        return CaptureStep::Refuse(Problem::CaptureHasNoSharedForm { name, ty: binding.ty });
    }
    if let Some(inner) = types.cell_inner(binding.ty) {
        if lattice.runs_user_drop(inner) {
            return CaptureStep::Refuse(Problem::CaptureRunsDrop { name, ty: inner });
        }
    }
    if !capture_is_trivially_copyable(fn_types, binding.ty) {
        return CaptureStep::Refuse(Problem::CaptureNotCopyable { name, ty: binding.ty });
    }
    if (closure.repr.0 as usize) >= types.structs.len() {
        return CaptureStep::NoStruct;
    }
    let boxed = capture_would_be_cyclic(types, closure.repr, binding.ty);
    CaptureStep::Take {
        repr: closure.repr,
        tag: closure.tag,
        place: closure.captures.len() as u32,
        boxed,
    }
}

/// The field a captured binding travels in.
pub open spec fn capture_field(name: Symbol, tag: u32, place: u32, ty: Type) -> FieldDef {
    FieldDef { name: FieldName::Captured { name, tag, index: place }, ty, mutable: false }
}

/// The types after a capture field was added to `repr`: boxed, the field is an
/// array of what is captured, a handle that gives the struct a fixed size again.
pub open spec fn field_added(
    before: &TypeTable,
    after: &TypeTable,
    repr: StructId,
    name: Symbol,
    tag: u32,
    place: u32,
    ty: Type,
    boxed: bool,
) -> bool {
    let field_ty = if boxed {
        Type::Array(row_of(before.arrays@, ty) as u32)
    } else {
        ty
    };
    &&& after.arrays@ == if boxed {
        interned(before.arrays@, ty)
    } else {
        before.arrays@
    }
    &&& after.structs@.len() == before.structs@.len()
    &&& after.structs@[repr.0 as int].fields@ == before.structs@[repr.0 as int].fields@.push(
        capture_field(name, tag, place, field_ty),
    )
    &&& after.structs@[repr.0 as int].name == before.structs@[repr.0 as int].name
    &&& after.structs@[repr.0 as int].owner == before.structs@[repr.0 as int].owner
    &&& after.structs@[repr.0 as int].module == before.structs@[repr.0 as int].module
    &&& forall|i: int|
        0 <= i < before.structs@.len() && i != repr.0 ==> #[trigger] after.structs@[i]
            == before.structs@[i]
    &&& *after == (TypeTable { structs: after.structs, arrays: after.arrays, ..*before })
}

/// The frame after `binding` was captured into it in field `field`: a new slot,
/// bound in the outermost scope, standing for the outer binding.
pub open spec fn frame_captured(
    before: &FnCtx,
    after: &FnCtx,
    binding: OuterBinding,
    name: Symbol,
    field: u32,
    boxed: bool,
) -> bool {
    let inner = LocalId(before.locals@.len() as u32);
    &&& after.locals@ == before.locals@.push(
        declared_local(Some(name), binding.ty, binding.ty is Cell, OwnershipMode::Owned),
    )
    &&& after.ownership@ == before.ownership@.push(LocalOwnership::fresh(OwnershipMode::Owned))
    &&& after.binding_spans@ == before.binding_spans@.push(binding.span)
    &&& bound(before.scopes@, after.scopes@, 0, name, inner)
    &&& (before.closure matches Some(old_closure) && after.closure matches Some(new_closure)
        && new_closure.repr == old_closure.repr && new_closure.tag == old_closure.tag
        && new_closure.captures@ == old_closure.captures@.push(
        Capture { outer: binding.local, inner, field, boxed },
    ))
    &&& *after == (FnCtx {
        locals: after.locals,
        ownership: after.ownership,
        binding_spans: after.binding_spans,
        scopes: after.scopes,
        closure: after.closure,
        ..*before
    })
}

/// What capturing `binding` into a frame changes, and what it answers.
pub open spec fn capture_applied(
    types: &TypeTable,
    types_after: &TypeTable,
    fn_types: &FnTypeTable,
    lattice: &Lattice,
    ctx: &FnCtx,
    ctx_after: &FnCtx,
    binding: OuterBinding,
    outer_frame: int,
    name: Symbol,
    outcome: Captured,
    problem: Option<Problem>,
) -> bool {
    match capture_decision(types, fn_types, lattice, ctx.closure, binding, name) {
        CaptureStep::NotAClosure => {
            &&& outcome == Captured::Absent
            &&& problem is None
            &&& *types_after == *types
            &&& *ctx_after == *ctx
        },
        CaptureStep::Already(inner) => {
            &&& outcome == Captured::Local(inner)
            &&& problem is None
            &&& *types_after == *types
            &&& *ctx_after == *ctx
        },
        CaptureStep::Moved => {
            &&& (outcome matches Captured::Moved { frame, local } && frame == outer_frame && local
                == binding.local)
            &&& problem is None
            &&& *types_after == *types
            &&& *ctx_after == *ctx
        },
        CaptureStep::Refuse(refused) => {
            &&& outcome == Captured::Refused
            &&& problem == Some(refused)
            &&& *types_after == *types
            &&& *ctx_after == *ctx
        },
        CaptureStep::NoStruct => {
            &&& outcome == Captured::Refused
            &&& problem is None
            &&& *types_after == *types
            &&& *ctx_after == *ctx
        },
        CaptureStep::Take { repr, tag, place, boxed } => {
            &&& (outcome matches Captured::Local(inner) && inner.0 == ctx.locals@.len())
            &&& problem is None
            &&& field_added(types, types_after, repr, name, tag, place, binding.ty, boxed)
            &&& frame_captured(
                ctx,
                ctx_after,
                binding,
                name,
                types.structs@[repr.0 as int].fields@.len() as u32,
                boxed,
            )
        },
    }
}

/// The diagnostics after at most one problem was reported.
pub open spec fn said_after(
    said: Seq<Diagnostic>,
    source: SourceId,
    span: Span,
    problem: Option<Problem>,
) -> Seq<Diagnostic> {
    match problem {
        Some(problem) => said.push(blamed(source, span, problem)),
        None => said,
    }
}

/// Room for `count` more captures: array types, and fields of every struct.
pub open spec fn capture_room(types: &TypeTable, count: int) -> bool {
    &&& types.arrays@.len() + count <= u32::MAX
    &&& forall|i: int|
        0 <= i < types.structs@.len() ==> (#[trigger] types.structs@[i]).fields@.len() + count
            <= u32::MAX
}

/// Every capture of a frame's closure is a slot of the frame.
pub open spec fn captures_bound(ctx: &FnCtx) -> bool {
    ctx.closure matches Some(closure) ==> forall|i: int|
        0 <= i < closure.captures@.len() ==> ctx.has((#[trigger] closure.captures@[i]).inner)
}

/// Room for one more slot and one more capture in a frame.
pub open spec fn frame_room(ctx: &FnCtx) -> bool {
    ctx.wf() && captures_bound(ctx) && ctx.locals@.len() < u32::MAX && (
    ctx.closure matches Some(closure) ==> closure.captures@.len() < u32::MAX)
}

proof fn lemma_captured_as(captures: Seq<Capture>, outer: LocalId)
    ensures
        captured_as(captures, outer) matches Some(inner) ==> exists|i: int|
            0 <= i < captures.len() && (#[trigger] captures[i]).inner == inner,
    decreases captures.len(),
{
    if captures.len() > 0 {
        if captures[0].outer == outer {
            assert(captures[0].inner == captured_as(captures, outer)->0);
        } else {
            lemma_captured_as(captures.drop_first(), outer);
            if let Some(inner) = captured_as(captures, outer) {
                let rest = captures.drop_first();
                let i = choose|i: int|
                    0 <= i < rest.len() && (#[trigger] rest[i]).inner == inner;
                assert(captures[i + 1] == rest[i]);
            }
        }
    }
}

/// The problem a capture step reports, if it reports one.
pub open spec fn step_problem(step: CaptureStep) -> Option<Problem> {
    match step {
        CaptureStep::Refuse(problem) => Some(problem),
        _ => None,
    }
}

/// Threads one binding of frame `outer_frame` into the frame `ctx` as a capture.
pub fn capture(
    types: &mut TypeTable,
    fn_types: &FnTypeTable,
    lattice: &Lattice,
    ctx: &mut FnCtx,
    binding: OuterBinding,
    outer_frame: usize,
    name: Symbol,
    span: Span,
    log: &mut Log,
) -> (outcome: Captured)
    requires
        frame_room(old(ctx)),
        capture_room(old(types), 1),
    ensures
        ({
            let problem = step_problem(
                capture_decision(
                    old(types),
                    fn_types,
                    lattice,
                    old(ctx).closure,
                    binding,
                    name,
                ),
            );
            &&& capture_applied(
                old(types),
                final(types),
                fn_types,
                lattice,
                old(ctx),
                final(ctx),
                binding,
                outer_frame as int,
                name,
                outcome,
                problem,
            )
            &&& final(log).diagnostics@ == said_after(
                old(log).diagnostics@,
                old(log).source,
                span,
                problem,
            )
        }),
        final(log).source == old(log).source,
        final(ctx).wf(),
        captures_bound(final(ctx)),
        outcome matches Captured::Local(inner) ==> final(ctx).has(inner),
{
    proof {
        if let Some(closure) = &ctx.closure {
            lemma_captured_as(closure.captures@, binding.local);
        }
    }
    match capture_step(types, fn_types, lattice, &ctx.closure, binding, name) {
        CaptureStep::NotAClosure => Captured::Absent,
        CaptureStep::Already(inner) => Captured::Local(inner),
        CaptureStep::Moved => Captured::Moved { frame: outer_frame, local: binding.local },
        CaptureStep::Refuse(problem) => {
            log.emit(span, problem);
            Captured::Refused
        },
        CaptureStep::NoStruct => Captured::Refused,
        CaptureStep::Take { repr, tag, place, boxed } => {
            let ghost before = *types;
            let field_ty = if boxed {
                types.array_of(binding.ty)
            } else {
                binding.ty
            };
            assert(types.structs@ == before.structs@);
            let field: u32 = types.structs[repr.0 as usize].fields.len() as u32;
            types.structs[repr.0 as usize].fields.push(
                FieldDef {
                    name: FieldName::Captured { name, tag, index: place },
                    ty: field_ty,
                    mutable: false,
                },
            );
            let inner = ctx.declare_capture(name, binding.ty);
            if let Some(written) = binding.span {
                ctx.note_binding_span(inner, written);
            }
            assert(ctx.binding_spans@ =~= old(ctx).binding_spans@.push(binding.span));
            record_capture(ctx, Capture { outer: binding.local, inner, field, boxed });
            Captured::Local(inner)
        },
    }
}

fn record_capture(ctx: &mut FnCtx, capture: Capture)
    requires
        old(ctx).closure is Some,
    ensures
        final(ctx).closure matches Some(closure) && closure.repr == (old(ctx).closure->0).repr
            && closure.tag == (old(ctx).closure->0).tag && closure.captures@ == (
        old(ctx).closure->0).captures@.push(capture),
        *final(ctx) == (FnCtx { closure: final(ctx).closure, ..*old(ctx) }),
{
    if let Some(closure) = &mut ctx.closure {
        closure.captures.push(capture);
    }
}

/// What name resolution works on: the types captures add fields to, the frames
/// from the outermost in, and what was reported.
pub ghost struct Threads {
    pub types: TypeTable,
    pub frames: Seq<FnCtx>,
    pub said: Seq<Diagnostic>,
}

/// The binding `local` of `frame`, as a capture sees it.
pub open spec fn binding_of(frame: &FnCtx, local: LocalId) -> OuterBinding {
    OuterBinding {
        local,
        ty: frame.locals@[local.0 as int].ty,
        mutable: frame.locals@[local.0 as int].mutable,
        live: frame.ownership@[local.0 as int].is_live(),
        span: frame.binding_spans@[local.0 as int],
    }
}

/// Frame `at` captured `local` of the frame around it, or refused to.
pub open spec fn threaded(
    fn_types: &FnTypeTable,
    lattice: &Lattice,
    source: SourceId,
    before: Threads,
    after: Threads,
    at: int,
    local: LocalId,
    name: Symbol,
    span: Span,
    outcome: Captured,
) -> bool {
    let binding = binding_of(&before.frames[at - 1], local);
    let problem = step_problem(
        capture_decision(
            &before.types,
            fn_types,
            lattice,
            before.frames[at].closure,
            binding,
            name,
        ),
    );
    &&& after.frames.len() == before.frames.len()
    &&& forall|i: int|
        0 <= i < before.frames.len() && i != at ==> #[trigger] after.frames[i] == before.frames[i]
    &&& capture_applied(
        &before.types,
        &after.types,
        fn_types,
        lattice,
        &before.frames[at],
        &after.frames[at],
        binding,
        at - 1,
        name,
        outcome,
        problem,
    )
    &&& after.said == said_after(before.said, source, span, problem)
}

/// Frame `at` made what the frame around it `found` its own.
pub open spec fn brought_in(
    fn_types: &FnTypeTable,
    lattice: &Lattice,
    source: SourceId,
    before: Threads,
    after: Threads,
    at: int,
    name: Symbol,
    span: Span,
    found: Captured,
    outcome: Captured,
) -> bool {
    match found {
        Captured::Local(local) => threaded(
            fn_types,
            lattice,
            source,
            before,
            after,
            at,
            local,
            name,
            span,
            outcome,
        ),
        _ => after == before && outcome == found,
    }
}

/// `name` was resolved in frame `at`: in the frame itself where it means
/// something there, and otherwise through every frame between it and the
/// innermost one around it where it does.
pub open spec fn resolved_in(
    fn_types: &FnTypeTable,
    lattice: &Lattice,
    source: SourceId,
    before: Threads,
    after: Threads,
    at: int,
    name: Symbol,
    span: Span,
    outcome: Captured,
) -> bool
    decreases at,
{
    match before.frames[at].meaning(name) {
        Some(local) => after == before && outcome == Captured::Local(local),
        None => if at <= 0 {
            after == before && outcome == Captured::Absent
        } else {
            exists|mid: Threads, found: Captured| #[trigger]
                brought_in(
                    fn_types,
                    lattice,
                    source,
                    mid,
                    after,
                    at,
                    name,
                    span,
                    found,
                    outcome,
                ) && resolved_in(
                    fn_types,
                    lattice,
                    source,
                    before,
                    mid,
                    at - 1,
                    name,
                    span,
                    found,
                )
        },
    }
}

/// What the frame around resolved, frame `at` makes its own.
proof fn lemma_outward(
    fn_types: &FnTypeTable,
    lattice: &Lattice,
    source: SourceId,
    before: Threads,
    mid: Threads,
    after: Threads,
    at: int,
    name: Symbol,
    span: Span,
    found: Captured,
    outcome: Captured,
)
    requires
        at > 0,
        before.frames[at].meaning(name) is None,
        resolved_in(fn_types, lattice, source, before, mid, at - 1, name, span, found),
        brought_in(fn_types, lattice, source, mid, after, at, name, span, found, outcome),
    ensures
        resolved_in(fn_types, lattice, source, before, after, at, name, span, outcome),
{
}

/// Resolves `name` in frame `at`, capturing it out of an enclosing closure frame
/// when that is where it lives.
pub fn resolve_capturing(
    types: &mut TypeTable,
    fn_types: &FnTypeTable,
    lattice: &Lattice,
    frames: &mut Vec<FnCtx>,
    at: usize,
    name: Symbol,
    span: Span,
    log: &mut Log,
) -> (outcome: Captured)
    requires
        at < old(frames)@.len(),
        forall|i: int| 0 <= i < old(frames)@.len() ==> frame_room(#[trigger] &old(frames)@[i]),
        capture_room(old(types), at as int),
    ensures
        resolved_in(
            fn_types,
            lattice,
            old(log).source,
            (Threads {
                types: *old(types),
                frames: old(frames)@,
                said: old(log).diagnostics@,
            }),
            (Threads {
                types: *final(types),
                frames: final(frames)@,
                said: final(log).diagnostics@,
            }),
            at as int,
            name,
            span,
            outcome,
        ),
        final(log).source == old(log).source,
        final(frames)@.len() == old(frames)@.len(),
        forall|i: int|
            0 <= i <= at ==> (#[trigger] final(frames)@[i]).wf() && captures_bound(
                &final(frames)@[i],
            ),
        forall|i: int|
            at < i < old(frames)@.len() ==> #[trigger] final(frames)@[i] == old(frames)@[i],
        outcome matches Captured::Local(local) ==> final(frames)@[at as int].has(local),
        forall|more: int| #[trigger]
            capture_room(old(types), at + more) ==> capture_room(final(types), more),
    decreases at,
{
    let ghost source = log.source;
    let ghost before = Threads {
        types: *types,
        frames: frames@,
        said: log.diagnostics@,
    };
    assert(frame_room(&frames@[at as int]));
    if let Some(local) = frames[at].resolve(name) {
        return Captured::Local(local);
    }
    if at == 0 {
        return Captured::Absent;
    }
    let found = resolve_capturing(types, fn_types, lattice, frames, at - 1, name, span, log);
    let ghost mid = Threads {
        types: *types,
        frames: frames@,
        said: log.diagnostics@,
    };
    proof {
        assert(capture_room(old(types), (at - 1) + 1));
        assert(frames@[at as int] == old(frames)@[at as int]);
    }
    match found {
        Captured::Local(local) => {
            let outer = &frames[at - 1];
            let binding = OuterBinding {
                local,
                ty: outer.local_type(local),
                mutable: outer.is_mutable(local),
                live: outer.ownership_of(local).is_live(),
                span: outer.binding_span(local),
            };
            let outcome = capture(
                types,
                fn_types,
                lattice,
                &mut frames[at],
                binding,
                at - 1,
                name,
                span,
                log,
            );
            proof {
                let after = Threads {
                    types: *types,
                    frames: frames@,
                    said: log.diagnostics@,
                };
                assert(threaded(
                    fn_types,
                    lattice,
                    log.source,
                    mid,
                    after,
                    at as int,
                    local,
                    name,
                    span,
                    outcome,
                ));
                lemma_outward(
                    fn_types,
                    lattice,
                    source,
                    before,
                    mid,
                    after,
                    at as int,
                    name,
                    span,
                    found,
                    outcome,
                );
                assert forall|more: int| #[trigger]
                    capture_room(old(types), at + more) implies capture_room(types, more) by {
                    assert(capture_room(old(types), (at - 1) + (more + 1)));
                }
            }
            outcome
        },
        other => {
            proof {
                lemma_outward(
                    fn_types,
                    lattice,
                    source,
                    before,
                    mid,
                    mid,
                    at as int,
                    name,
                    span,
                    found,
                    other,
                );
                assert forall|more: int| #[trigger]
                    capture_room(old(types), at + more) implies capture_room(types, more) by {
                    assert(capture_room(old(types), (at - 1) + (more + 1)));
                }
            }
            other
        },
    }
}

/// A name that was just captured means its new slot from then on, wherever the
/// body does not bind it again: it needs no capturing twice.
pub proof fn a_captured_name_resolves(
    before: &FnCtx,
    after: &FnCtx,
    binding: OuterBinding,
    name: Symbol,
    field: u32,
    boxed: bool,
)
    requires
        before.scopes@.len() > 0,
        before.scope_floor == 0,
        before.meaning(name) is None,
        frame_captured(before, after, binding, name, field, boxed),
    ensures
        after.meaning(name) == Some(LocalId(before.locals@.len() as u32)),
{
    lemma_outermost(before.scopes@, after.scopes@, name, LocalId(before.locals@.len() as u32));
}

proof fn lemma_outermost(
    before: Seq<crate::symbol_map::SymbolMap<LocalId>>,
    after: Seq<crate::symbol_map::SymbolMap<LocalId>>,
    name: Symbol,
    id: LocalId,
)
    requires
        before.len() > 0,
        lookup(before, 0, name) is None,
        bound(before, after, 0, name, id),
    ensures
        lookup(after, 0, name) == Some(id),
    decreases before.len(),
{
    if before.len() > 1 {
        let n = before.len() - 1;
        assert(after[n] == before[n]);
        lemma_outermost(before.drop_last(), after.drop_last(), name, id);
    }
}

/// A capture is a slot the closure's own frame never had, so what the body
/// declared keeps its place.
pub proof fn capturing_moves_no_slot(
    before: &FnCtx,
    after: &FnCtx,
    binding: OuterBinding,
    name: Symbol,
    field: u32,
    boxed: bool,
    slot: int,
)
    requires
        frame_captured(before, after, binding, name, field, boxed),
        0 <= slot < before.locals@.len(),
    ensures
        after.locals@[slot] == before.locals@[slot],
{
}

/// No two fields share a name.
pub open spec fn fields_apart(fields: Seq<FieldDef>) -> bool {
    forall|i: int, j: int|
        0 <= i < j < fields.len() ==> (#[trigger] fields[i]).name != (#[trigger] fields[j]).name
}

/// Every field that carries a captured binding was added by a literal among `impls`.
pub open spec fn fields_tagged(fields: Seq<FieldDef>, impls: Seq<ClosureImpl>) -> bool {
    forall|i: int|
        0 <= i < fields.len() ==> ((#[trigger] fields[i]).name matches FieldName::Captured {
            tag,
            ..
        } ==> tag_used(impls, tag))
}

/// The fields that the literal tagged `tag` added are for its first `count` captures.
pub open spec fn places_below(fields: Seq<FieldDef>, tag: u32, count: int) -> bool {
    forall|i: int|
        0 <= i < fields.len() ==> ((#[trigger] fields[i]).name matches FieldName::Captured {
            tag: by,
            index,
            ..
        } ==> by == tag ==> index < count)
}

/// A literal that begins under an unused tag has added no field yet.
pub proof fn an_unused_tag_has_no_fields(
    fields: Seq<FieldDef>,
    impls: Seq<ClosureImpl>,
    tag: u32,
)
    requires
        fields_tagged(fields, impls),
        !tag_used(impls, tag),
    ensures
        places_below(fields, tag, 0),
{
}

/// The fields of a function type's representation never share a name: capturing into a
/// literal's frame adds at most a field for the literal's next capture, which no field
/// is for yet, and leaves those of every other literal alone.
pub proof fn captured_fields_stay_apart(
    types: &TypeTable,
    types_after: &TypeTable,
    fn_types: &FnTypeTable,
    lattice: &Lattice,
    ctx: &FnCtx,
    ctx_after: &FnCtx,
    binding: OuterBinding,
    outer_frame: int,
    name: Symbol,
    outcome: Captured,
    problem: Option<Problem>,
    closure: ClosureCtx,
    impls: Seq<ClosureImpl>,
)
    requires
        capture_applied(
            types,
            types_after,
            fn_types,
            lattice,
            ctx,
            ctx_after,
            binding,
            outer_frame,
            name,
            outcome,
            problem,
        ),
        ctx.closure == Some(closure),
        closure.captures@.len() <= u32::MAX,
        tag_used(impls, closure.tag),
        fields_apart(types.fields(closure.repr)),
        fields_tagged(types.fields(closure.repr), impls),
        places_below(types.fields(closure.repr), closure.tag, closure.captures@.len() as int),
    ensures
        fields_apart(types_after.fields(closure.repr)),
        fields_tagged(types_after.fields(closure.repr), impls),
        (ctx_after.closure matches Some(now) && now.repr == closure.repr && now.tag == closure.tag
            && places_below(types_after.fields(closure.repr), now.tag, now.captures@.len() as int)),
        forall|other: u32, count: int|
            other != closure.tag && places_below(types.fields(closure.repr), other, count)
                ==> #[trigger] places_below(types_after.fields(closure.repr), other, count),
{
    let fields = types.fields(closure.repr);
    let after = types_after.fields(closure.repr);
    if let CaptureStep::Take { repr, tag, place, boxed } = capture_decision(
        types,
        fn_types,
        lattice,
        ctx.closure,
        binding,
        name,
    ) {
        assert(after.drop_last() =~= fields);
        assert forall|i: int, j: int| 0 <= i < j < after.len() implies (#[trigger] after[i]).name
            != (#[trigger] after[j]).name by {
            assert(after[i] == fields[i]);
            if j < fields.len() {
                assert(after[j] == fields[j]);
            }
        }
        assert forall|i: int| 0 <= i < after.len() implies ((
        #[trigger] after[i]).name matches FieldName::Captured { tag, .. } ==> tag_used(
            impls,
            tag,
        )) by {
            if i < fields.len() {
                assert(after[i] == fields[i]);
            }
        }
        let now = ctx_after.closure->0;
        assert forall|i: int| 0 <= i < after.len() implies ((
        #[trigger] after[i]).name matches FieldName::Captured { tag: by, index, .. } ==> by
            == now.tag ==> index < now.captures@.len()) by {
            if i < fields.len() {
                assert(after[i] == fields[i]);
            }
        }
        assert forall|other: u32, count: int|
            other != closure.tag && places_below(fields, other, count) implies
            #[trigger] places_below(after, other, count) by {
            assert forall|i: int| 0 <= i < after.len() implies ((
            #[trigger] after[i]).name matches FieldName::Captured { tag: by, index, .. } ==> by
                == other ==> index < count) by {
                if i < fields.len() {
                    assert(after[i] == fields[i]);
                }
            }
        }
    }
}

/// A live binding may be captured exactly if its value can travel: a mutable one only
/// through its shared cell, a cell only where what it holds runs no drop body, and
/// anything else only where it is a scalar, a raw pointer or a function value.
pub proof fn only_what_travels_is_captured(
    types: &TypeTable,
    fn_types: &FnTypeTable,
    lattice: &Lattice,
    binding: OuterBinding,
    name: Symbol,
)
    ensures
        ({
            let refusal = capture_refusal(types, fn_types, lattice, binding, name);
            let scalar = binding.ty is Int || binding.ty is Float || binding.ty == Type::Bool
                || binding.ty == Type::Void || binding.ty == Type::Error || binding.ty
                == Type::RawPtr;
            let function = binding.ty matches Type::Struct(id) && fn_types.info(id) is Some;
            &&& binding.mutable && !(binding.ty is Cell) ==> refusal == Some(
                (Problem::CaptureHasNoSharedForm { name, ty: binding.ty }),
            )
            &&& binding.ty is Cell ==> (refusal is None <==> !(types.held(binding.ty) matches Some(
                inner,
            ) && lattice.user_drop@.contains(inner)))
            &&& !binding.mutable && !(binding.ty is Cell) && types.held(binding.ty) is None ==> (
            refusal is None <==> scalar || function)
        }),
{
}

proof fn lemma_captured_first(captures: Seq<Capture>, outer: LocalId)
    ensures
        match captured_as(captures, outer) {
            Some(inner) => exists|i: int|
                0 <= i < captures.len() && (#[trigger] captures[i]).outer == outer
                    && captures[i].inner == inner && forall|k: int|
                    0 <= k < i ==> (#[trigger] captures[k]).outer != outer,
            None => forall|i: int|
                0 <= i < captures.len() ==> (#[trigger] captures[i]).outer != outer,
        },
    decreases captures.len(),
{
    if captures.len() > 0 {
        if captures[0].outer == outer {
            assert(captures[0].inner == captures[0].inner);
        } else {
            let rest = captures.drop_first();
            lemma_captured_first(rest, outer);
            match captured_as(rest, outer) {
                Some(inner) => {
                    let i = choose|i: int|
                        0 <= i < rest.len() && (#[trigger] rest[i]).outer == outer && rest[i].inner
                            == inner && forall|k: int|
                            0 <= k < i ==> (#[trigger] rest[k]).outer != outer;
                    assert(captures[i + 1] == rest[i]);
                    assert forall|k: int| 0 <= k < i + 1 implies (#[trigger] captures[k]).outer
                        != outer by {
                        if k > 0 {
                            assert(captures[k] == rest[k - 1]);
                        }
                    }
                },
                None => {
                    assert forall|i: int| 0 <= i < captures.len() implies (
                    #[trigger] captures[i]).outer != outer by {
                        if i > 0 {
                            assert(captures[i] == rest[i - 1]);
                        }
                    }
                },
            }
        }
    }
}

/// A closure captures a binding once: a name it captured before means the slot it has. A
/// binding that was moved away is not captured but answered as moved, before anything
/// else is asked of it; one that may not be captured is refused; any other is captured
/// into the next field, boxed exactly where the value would hold its own struct.
pub proof fn a_binding_is_captured_once(
    types: &TypeTable,
    fn_types: &FnTypeTable,
    lattice: &Lattice,
    closure: ClosureCtx,
    binding: OuterBinding,
    name: Symbol,
    i: int,
)
    requires
        closure.captures@.len() < u32::MAX,
    ensures
        ({
            let step = capture_decision(types, fn_types, lattice, Some(closure), binding, name);
            let captures = closure.captures@;
            let fresh = forall|k: int|
                0 <= k < captures.len() ==> (#[trigger] captures[k]).outer != binding.local;
            let refusal = capture_refusal(types, fn_types, lattice, binding, name);
            &&& 0 <= i < captures.len() && captures[i].outer == binding.local && (forall|k: int|
                0 <= k < i ==> (#[trigger] captures[k]).outer != binding.local) ==> step
                == CaptureStep::Already(captures[i].inner)
            &&& fresh && !binding.live ==> step == CaptureStep::Moved
            &&& fresh && binding.live && refusal is Some ==> step == CaptureStep::Refuse(refusal->0)
            &&& fresh && binding.live && refusal is None && closure.repr.0 < types.structs@.len()
                ==> step == (CaptureStep::Take {
                repr: closure.repr,
                tag: closure.tag,
                place: captures.len() as u32,
                boxed: reaches_struct(types, binding.ty, closure.repr),
            })
        }),
{
    lemma_captured_first(closure.captures@, binding.local);
    let captures = closure.captures@;
    if 0 <= i < captures.len() && captures[i].outer == binding.local && (forall|k: int|
        0 <= k < i ==> (#[trigger] captures[k]).outer != binding.local) {
        if let Some(inner) = captured_as(captures, binding.local) {
            let j = choose|j: int|
                0 <= j < captures.len() && (#[trigger] captures[j]).outer == binding.local
                    && captures[j].inner == inner && forall|k: int|
                    0 <= k < j ==> (#[trigger] captures[k]).outer != binding.local;
            if j < i {
                assert(captures[j].outer != binding.local);
            }
            if i < j {
                assert(captures[i].outer != binding.local);
            }
        }
    }
}

/// What a capture takes is the binding itself: the frame gains a slot of the binding's
/// type and name, recorded as standing for that binding, and the function value a field
/// that holds it, or where it is boxed an array of it.
pub proof fn a_capture_stands_for_its_binding(
    types: &TypeTable,
    types_after: &TypeTable,
    fn_types: &FnTypeTable,
    lattice: &Lattice,
    ctx: &FnCtx,
    ctx_after: &FnCtx,
    binding: OuterBinding,
    outer_frame: int,
    name: Symbol,
    outcome: Captured,
    problem: Option<Problem>,
    repr: StructId,
    tag: u32,
    place: u32,
    boxed: bool,
)
    requires
        capture_applied(
            types,
            types_after,
            fn_types,
            lattice,
            ctx,
            ctx_after,
            binding,
            outer_frame,
            name,
            outcome,
            problem,
        ),
        capture_decision(types, fn_types, lattice, ctx.closure, binding, name) == (
        CaptureStep::Take { repr, tag, place, boxed }),
        ctx.locals@.len() < u32::MAX,
    ensures
        outcome matches Captured::Local(inner) && {
            let fields = types_after.structs@[repr.0 as int].fields@;
            let taken = ctx_after.closure->0.captures@.last();
            &&& inner.0 == ctx.locals@.len()
            &&& ctx_after.locals@.len() == ctx.locals@.len() + 1
            &&& ctx_after.locals@.last().ty == binding.ty
            &&& ctx_after.closure is Some
            &&& taken.outer == binding.local
            &&& taken.inner == inner
            &&& taken.boxed == boxed
            &&& taken.field == types.structs@[repr.0 as int].fields@.len() as u32
            &&& fields.len() == types.structs@[repr.0 as int].fields@.len() + 1
            &&& fields.last().name == (FieldName::Captured { name, tag, index: place })
            &&& !boxed ==> fields.last().ty == binding.ty
            &&& boxed ==> fields.last().ty is Array
        },
{
}

/// A name an enclosing frame binds is brought in through every frame between: where it
/// resolves to a slot of a frame that does not bind it itself, that frame's closure
/// captured it, from the slot it resolves to in the frame around.
pub proof fn a_name_is_threaded_through_every_frame(
    fn_types: &FnTypeTable,
    lattice: &Lattice,
    source: SourceId,
    before: Threads,
    after: Threads,
    at: int,
    name: Symbol,
    span: Span,
    inner: LocalId,
)
    requires
        0 < at < before.frames.len(),
        before.frames[at].meaning(name) is None,
        resolved_in(
            fn_types,
            lattice,
            source,
            before,
            after,
            at,
            name,
            span,
            Captured::Local(inner),
        ),
        forall|i: int|
            0 <= i < before.frames.len() ==> (#[trigger] before.frames[i]).locals@.len() < u32::MAX,
    ensures
        exists|mid: Threads, outer: LocalId|
            {
                &&& #[trigger] resolved_in(
                    fn_types,
                    lattice,
                    source,
                    before,
                    mid,
                    at - 1,
                    name,
                    span,
                    Captured::Local(outer),
                )
                &&& after.frames[at].closure is Some
                &&& exists|k: int|
                    0 <= k < after.frames[at].closure->0.captures@.len() && (
                    #[trigger] after.frames[at].closure->0.captures@[k]).outer == outer
                        && after.frames[at].closure->0.captures@[k].inner == inner
            },
{
    let outcome = Captured::Local(inner);
    let (mid, found) = choose|mid: Threads, found: Captured| #[trigger]
        brought_in(fn_types, lattice, source, mid, after, at, name, span, found, outcome)
            && resolved_in(
            fn_types,
            lattice,
            source,
            before,
            mid,
            at - 1,
            name,
            span,
            found,
        );
    if let Captured::Local(outer) = found {
        assert(resolved_in(
            fn_types,
            lattice,
            source,
            before,
            mid,
            at - 1,
            name,
            span,
            Captured::Local(outer),
        ));
        lemma_inner_frames_stay(
            fn_types,
            lattice,
            source,
            before,
            mid,
            at - 1,
            name,
            span,
            found,
            at,
        );
        let binding = binding_of(&mid.frames[at - 1], outer);
        let closure = mid.frames[at].closure;
        match capture_decision(&mid.types, fn_types, lattice, closure, binding, name) {
            CaptureStep::Already(held) => {
                lemma_captured_first(closure->0.captures@, outer);
                let captures = closure->0.captures@;
                let k = choose|k: int|
                    0 <= k < captures.len() && (#[trigger] captures[k]).outer == outer
                        && captures[k].inner == held && forall|j: int|
                        0 <= j < k ==> (#[trigger] captures[j]).outer != outer;
                assert(after.frames[at].closure->0.captures@[k].inner == inner);
            },
            CaptureStep::Take { .. } => {
                let captures = after.frames[at].closure->0.captures@;
                assert(captures[captures.len() - 1].outer == outer);
            },
            _ => {},
        }
    }
}

proof fn lemma_inner_frames_stay(
    fn_types: &FnTypeTable,
    lattice: &Lattice,
    source: SourceId,
    before: Threads,
    after: Threads,
    at: int,
    name: Symbol,
    span: Span,
    outcome: Captured,
    i: int,
)
    requires
        0 <= at < before.frames.len(),
        at < i < before.frames.len(),
        resolved_in(fn_types, lattice, source, before, after, at, name, span, outcome),
    ensures
        after.frames.len() == before.frames.len(),
        after.frames[i] == before.frames[i],
    decreases at,
{
    if before.frames[at].meaning(name) is None && at > 0 {
        let (mid, found) = choose|mid: Threads, found: Captured| #[trigger]
            brought_in(fn_types, lattice, source, mid, after, at, name, span, found, outcome)
                && resolved_in(
                fn_types,
                lattice,
                source,
                before,
                mid,
                at - 1,
                name,
                span,
                found,
            );
        lemma_inner_frames_stay(
            fn_types,
            lattice,
            source,
            before,
            mid,
            at - 1,
            name,
            span,
            found,
            i,
        );
    }
}

/// What a closure sees of an enclosing frame's local is what that frame says of it: its
/// type, whether it may be written, whether it still holds its value, and where its name
/// was written.
pub proof fn a_closure_sees_the_frames_own_local(frame: &FnCtx, local: LocalId)
    ensures
        binding_of(frame, local).local == local,
        binding_of(frame, local).ty == frame.locals@[local.0 as int].ty,
        binding_of(frame, local).mutable == frame.locals@[local.0 as int].mutable,
        binding_of(frame, local).live == (frame.ownership@[local.0 as int].moved is None),
        binding_of(frame, local).span == frame.binding_spans@[local.0 as int],
{
}

/// A captured value gets one new field at the end of its function type's struct, named for
/// the binding, that nothing may write: of the value's type, or an array of that where it
/// travels boxed. No other struct changes, and no array type does.
pub proof fn a_captured_value_gets_its_field(
    before: &TypeTable,
    after: &TypeTable,
    repr: StructId,
    name: Symbol,
    tag: u32,
    place: u32,
    ty: Type,
    boxed: bool,
    k: int,
)
    requires
        field_added(before, after, repr, name, tag, place, ty, boxed),
        before.arrays@.len() <= u32::MAX,
    ensures
        ({
            let fields = after.structs@[repr.0 as int].fields@;
            let old_fields = before.structs@[repr.0 as int].fields@;
            &&& fields.len() == old_fields.len() + 1
            &&& fields.last().name == (FieldName::Captured { name, tag, index: place })
            &&& !fields.last().mutable
            &&& !boxed ==> fields.last().ty == ty && after.arrays@ == before.arrays@
            &&& boxed && before.arrays@.len() < u32::MAX ==> after.element(fields.last().ty)
                == Some(ty)
            &&& 0 <= k < old_fields.len() ==> fields[k] == old_fields[k]
            &&& 0 <= k < before.structs@.len() && k != repr.0 ==> after.structs@[k]
                == before.structs@[k]
            &&& 0 <= k < before.arrays@.len() ==> after.arrays@[k] == before.arrays@[k]
        }),
{
    crate::ty::a_type_is_interned_once(before.arrays@, ty, ty, k);
    assert(row_of(before.arrays@, ty) <= before.arrays@.len()) by {
        crate::ty::lemma_row_of(before.arrays@, ty);
    }
}

/// Only a capture that is taken changes anything. Outside a closure a name stays absent,
/// one captured before is the slot it was given then, one that was moved out is said to be
/// where it was, and one that is refused is refused; a problem is reported exactly where
/// the capture was refused for one.
pub proof fn only_a_taken_capture_changes_anything(
    types: &TypeTable,
    types_after: &TypeTable,
    fn_types: &FnTypeTable,
    lattice: &Lattice,
    ctx: &FnCtx,
    ctx_after: &FnCtx,
    binding: OuterBinding,
    outer_frame: int,
    name: Symbol,
    outcome: Captured,
    problem: Option<Problem>,
)
    requires
        capture_applied(
            types,
            types_after,
            fn_types,
            lattice,
            ctx,
            ctx_after,
            binding,
            outer_frame,
            name,
            outcome,
            problem,
        ),
    ensures
        ({
            let decision = capture_decision(types, fn_types, lattice, ctx.closure, binding, name);
            &&& !(decision is Take) ==> *types_after == *types && *ctx_after == *ctx
            &&& decision is NotAClosure ==> outcome == Captured::Absent
            &&& decision matches CaptureStep::Already(inner) ==> outcome == Captured::Local(inner)
            &&& decision is Moved ==> (outcome matches Captured::Moved { frame, local } && frame
                == outer_frame && local == binding.local)
            &&& decision is Refuse || decision is NoStruct ==> outcome == Captured::Refused
            &&& problem is Some <==> decision is Refuse
            &&& decision matches CaptureStep::Refuse(refused) ==> problem == Some(refused)
        }),
{
}

/// Inside its closure a captured binding is a local of its own, under the binding's name
/// and of its type, which holds its value and may be written exactly if it is a cell; the
/// name means it there, and the closure's earlier captures stay.
pub proof fn a_capture_is_a_local_of_its_closure(
    before: &FnCtx,
    after: &FnCtx,
    binding: OuterBinding,
    name: Symbol,
    field: u32,
    boxed: bool,
    k: int,
)
    requires
        frame_captured(before, after, binding, name, field, boxed),
        before.locals@.len() < u32::MAX,
    ensures
        after.locals@.last().name == Some(name),
        after.locals@.last().ty == binding.ty,
        after.locals@.last().mutable <==> binding.ty is Cell,
        after.ownership@.len() == before.ownership@.len() + 1,
        after.ownership@.last().moved is None,
        after.binding_spans@.last() == binding.span,
        before.scopes@.len() > 0 ==> after.scopes@[0]@.contains_pair(
            name,
            LocalId(before.locals@.len() as u32),
        ),
        before.closure matches Some(held) && (after.closure matches Some(closure) && closure.repr
            == held.repr && closure.tag == held.tag && closure.captures@.len()
            == held.captures@.len() + 1 && (0 <= k < held.captures@.len() ==> closure.captures@[k]
            == held.captures@[k])),
        0 <= k < before.locals@.len() ==> after.locals@[k] == before.locals@[k],
        after.return_type == before.return_type,
        after.scope_floor == before.scope_floor,
{
}

} // verus!
