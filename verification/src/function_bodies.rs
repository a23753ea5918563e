//! The frame a declared function's body is analyzed in, and the function that
//! comes of it.

use vstd::prelude::*;

use crate::callables::{Callable, FunctionDecl};
use crate::diagnostics::{Log, Problem};
use crate::hir::{FuncId, FunctionName, HirFunction, HirLocal, HirStmtId};
use crate::method_lookup::mutates_self;
use crate::names::Symbol;
use crate::scope::{
    declared_local, lemma_names_its_locals, names_its_locals, FnCtx,
};
use crate::signatures::{CallableSignature, FuncSig, SigTable};
use crate::source::Span;
use crate::ty::{OwnershipMode, StructId, Type};

verus! {

/// The slots the receiver takes: one for a method, none for a free function.
pub open spec fn receiver_slots(callable: Callable) -> int {
    if callable.receiver is Some {
        1
    } else {
        0
    }
}

/// The receiver's slot: written by a mutating method, whose value the call site
/// carries back, and lent to every other.
pub open spec fn receiver_local(sig: FuncSig, ty: Type, this: Symbol) -> HirLocal {
    declared_local(
        Some(this),
        ty,
        sig.mutates_self,
        if sig.mutates_self {
            OwnershipMode::Owned
        } else {
            OwnershipMode::BorrowRead
        },
    )
}

/// The type parameter `index` has in the body: the signature's, which a
/// specialized copy narrows, and what was written where the signature has none.
pub open spec fn param_type(sig: FuncSig, function: FunctionDecl, slot: int, index: int) -> Type {
    if slot < sig.params@.len() {
        sig.params@[slot]
    } else {
        function.params@[index].ty
    }
}

/// The mode parameter `slot` has in the body.
pub open spec fn param_mode(sig: FuncSig, slot: int) -> OwnershipMode {
    if slot < sig.param_ownership@.len() {
        sig.param_ownership@[slot]
    } else {
        OwnershipMode::Owned
    }
}

/// The slots a body starts with: the receiver, when there is one, and the first
/// `count` parameters. Only a `borrow mut` parameter may be written through.
pub open spec fn body_locals(
    sig: FuncSig,
    function: FunctionDecl,
    callable: Callable,
    this: Symbol,
    count: int,
) -> Seq<HirLocal> {
    let skipped = receiver_slots(callable);
    (match callable.receiver {
        Some(owner) => seq![receiver_local(sig, owner.ty, this)],
        None => Seq::empty(),
    }) + Seq::new(
        count as nat,
        |i: int|
            declared_local(
                Some(function.params@[i].name),
                param_type(sig, function, i + skipped, i),
                param_mode(sig, i + skipped) == OwnershipMode::BorrowMut,
                param_mode(sig, i + skipped),
            ),
    )
}

/// Where the first `count` parameters of a body were written.
pub open spec fn body_spans(function: FunctionDecl, callable: Callable, count: int) -> Seq<
    Option<Span>,
> {
    (if callable.receiver is Some {
        seq![None]
    } else {
        Seq::empty()
    }) + Seq::new(count as nat, |i: int| Some(function.params@[i].name_span))
}

/// The struct a body is a method of.
pub open spec fn body_receiver(callable: Callable) -> Option<StructId> {
    match callable.receiver {
        Some(owner) => match owner.ty {
            Type::Struct(id) => Some(id),
            _ => None,
        },
        None => None,
    }
}

/// Prepares the frame a declared function's body is analyzed in: the receiver
/// first, under the name `this`, then every parameter with the type and the mode
/// its signature gives it.
///
/// `mentions` are the names the body's closures mention, which decide what is
/// boxed where it is declared.
pub fn begin_function(
    sigs: &SigTable,
    id: FuncId,
    function: &FunctionDecl,
    callable: &Callable,
    this: Symbol,
    mentions: Vec<Symbol>,
    log: &mut Log,
) -> (ctx: FnCtx)
    requires
        id.0 < sigs.sigs@.len(),
        function.params@.len() < u32::MAX - 1,
    ensures
        ctx.wf(),
        ctx.return_type == sigs.sigs@[id.0 as int].return_type,
        ctx.locals@ == body_locals(
            sigs.sigs@[id.0 as int],
            *function,
            *callable,
            this,
            function.params@.len() as int,
        ),
        ctx.binding_spans@ == body_spans(*function, *callable, function.params@.len() as int),
        ctx.receiver == body_receiver(*callable),
        ctx.closure_mentions == mentions,
        names_its_locals(&ctx),
        ctx.closure is None,
        ctx.loop_depth == 0,
        ctx.pending_stmts@.len() == 0,
        ctx.deferred_stmts@.len() == 0,
        final(log).source == callable.source,
        final(log).diagnostics@ == old(log).diagnostics@,
{
    log.source = callable.source;
    let sig: &FuncSig = &sigs.sigs[id.0 as usize];
    let mut ctx = FnCtx::new(sig.return_type);
    ctx.set_closure_mentions(mentions);
    assert(names_its_locals(&ctx)) by {
        reveal_with_fuel(crate::scope::lookup, 2);
    }
    let skipped: usize = match callable.receiver {
        Some(owner) => {
            let mutates = mutates_self(sigs, id);
            let mode = if mutates {
                OwnershipMode::Owned
            } else {
                OwnershipMode::BorrowRead
            };
            let ghost before = ctx;
            let local = ctx.declare_param(this, owner.ty, mutates, mode);
            proof {
                assert(ctx.locals@.drop_last() =~= before.locals@);
                lemma_names_its_locals(&before, &ctx, this, local);
            }
            ctx.receiver = match owner.ty {
                Type::Struct(of) => Some(of),
                _ => None,
            };
            assert(names_its_locals(&ctx));
            1
        },
        None => 0,
    };
    let mut i: usize = 0;
    assert(ctx.locals@ =~= body_locals(*sig, *function, *callable, this, 0));
    assert(ctx.binding_spans@ =~= body_spans(*function, *callable, 0));
    while i < function.params.len()
        invariant
            i <= function.params@.len(),
            id.0 < sigs.sigs@.len(),
            *sig == sigs.sigs@[id.0 as int],
            skipped == receiver_slots(*callable),
            function.params@.len() < u32::MAX - 1,
            ctx.wf(),
            ctx.scopes@.len() == 1,
            ctx.scope_floor == 0,
            ctx.return_type == sig.return_type,
            ctx.receiver == body_receiver(*callable),
            ctx.closure_mentions == mentions,
            ctx.closure is None,
            ctx.loop_depth == 0,
            ctx.pending_stmts@.len() == 0,
            ctx.deferred_stmts@.len() == 0,
            names_its_locals(&ctx),
            ctx.locals@ == body_locals(*sig, *function, *callable, this, i as int),
            ctx.binding_spans@ == body_spans(*function, *callable, i as int),
        decreases function.params@.len() - i,
    {
        let param = function.params[i];
        let slot: usize = i + skipped;
        let ty: Type = if slot < sig.params.len() {
            sig.params[slot]
        } else {
            param.ty
        };
        let mode: OwnershipMode = if slot < sig.param_ownership.len() {
            sig.param_ownership[slot]
        } else {
            OwnershipMode::Owned
        };
        let ghost before = ctx;
        let local = ctx.declare_param(param.name, ty, mode == OwnershipMode::BorrowMut, mode);
        proof {
            assert(ctx.locals@.drop_last() =~= before.locals@);
            lemma_names_its_locals(&before, &ctx, param.name, local);
        }
        let ghost middle = ctx;
        ctx.note_binding_span(local, param.name_span);
        assert(names_its_locals(&ctx)) by {
            assert forall|name: Symbol| #[trigger]
                crate::scope::lookup(ctx.scopes@, 0, name) == crate::scope::last_named(
                    ctx.locals@,
                    name,
                ) by {
                assert(crate::scope::lookup(middle.scopes@, 0, name) == crate::scope::last_named(
                    middle.locals@,
                    name,
                ));
            }
        }
        i += 1;
        assert(ctx.locals@ =~= body_locals(*sig, *function, *callable, this, i as int));
        assert(ctx.binding_spans@ =~= body_spans(*function, *callable, i as int));
    }
    ctx
}

/// Whether a body has to return on every path: one that gives back nothing need
/// not, and one whose result never resolved is left alone.
pub open spec fn must_return(ty: Type) -> bool {
    ty != Type::Void && ty != Type::Error
}

/// Completes a declared function from its analyzed body, reporting one that can
/// finish without returning its value.
pub fn finish_function(
    sigs: &SigTable,
    id: FuncId,
    function: &FunctionDecl,
    callable: &Callable,
    locals: Vec<HirLocal>,
    body: Vec<HirStmtId>,
    definitely_returns: bool,
    log: &mut Log,
) -> (result: HirFunction)
    requires
        id.0 < sigs.sigs@.len(),
        function.params@.len() < u32::MAX,
    ensures
        result.name == FunctionName::Declared(id),
        result.param_count == function.params@.len() + receiver_slots(*callable),
        result.return_type == sigs.sigs@[id.0 as int].return_type,
        result.locals == locals,
        result.body == body,
        result.is_main == function.is_main,
        result.is_main_thread == function.is_main_thread,
        result.is_async == function.is_async,
        result.execution == function.execution,
        result.mutates_self == sigs.sigs@[id.0 as int].mutates_self,
        result.name_span == function.name_span,
        result.signature.params@ == sigs.sigs@[id.0 as int].signature.params@,
        result.signature == (CallableSignature {
            params: result.signature.params,
            ..sigs.sigs@[id.0 as int].signature
        }),
        final(log).source == old(log).source,
        if must_return(sigs.sigs@[id.0 as int].return_type) && !definitely_returns {
            final(log).reported(
                old(log),
                old(log).source,
                function.name_span,
                (Problem::MayNotReturn { function: id }),
            )
        } else {
            final(log).quiet(old(log))
        },
{
    let return_type = sigs.sigs[id.0 as usize].return_type;
    if return_type != Type::Void && return_type != Type::Error && !definitely_returns {
        log.emit(function.name_span, Problem::MayNotReturn { function: id });
    }
    let received: u32 = if callable.receiver.is_some() {
        1
    } else {
        0
    };
    HirFunction {
        name: FunctionName::Declared(id),
        param_count: function.params.len() as u32 + received,
        return_type,
        locals,
        body,
        is_main: function.is_main,
        is_main_thread: function.is_main_thread,
        is_async: function.is_async,
        execution: function.execution,
        mutates_self: mutates_self(sigs, id),
        name_span: function.name_span,
        signature: sigs.sigs[id.0 as usize].signature.copy(),
    }
}

/// A body starts with its receiver, where it is a method, under the receiver's name and
/// writable exactly if the method mutates it, and then every parameter under its own name,
/// of the type and in the mode its signature takes it; only a parameter lent to be written
/// may be.
pub proof fn a_body_starts_with_its_parameters(
    sig: FuncSig,
    function: FunctionDecl,
    callable: Callable,
    this: Symbol,
    k: int,
)
    requires
        0 <= k < function.params@.len(),
    ensures
        ({
            let shift = if callable.receiver is Some {
                1int
            } else {
                0int
            };
            let locals = body_locals(
                sig,
                function,
                callable,
                this,
                function.params@.len() as int,
            );
            let spans = body_spans(function, callable, function.params@.len() as int);
            let slot = k + shift;
            &&& locals.len() == function.params@.len() + shift
            &&& spans.len() == locals.len()
            &&& callable.receiver matches Some(owner) ==> locals[0].name == Some(this)
                && locals[0].ty == owner.ty && locals[0].mutable == sig.mutates_self && spans[0]
                is None && (sig.mutates_self <==> locals[0].ownership == OwnershipMode::Owned)
            &&& locals[slot].name == Some(function.params@[k].name)
            &&& spans[slot] == Some(function.params@[k].name_span)
            &&& slot < sig.params@.len() ==> locals[slot].ty == sig.params@[slot]
            &&& slot < sig.param_ownership@.len() ==> locals[slot].ownership
                == sig.param_ownership@[slot]
            &&& locals[slot].mutable <==> locals[slot].ownership == OwnershipMode::BorrowMut
        }),
{
}

/// A body runs on the struct its receiver is, and on none where it has no receiver or one
/// of another type; and it has to return exactly where it has a result that resolved.
pub proof fn a_body_knows_its_receiver(callable: Callable, ty: Type)
    ensures
        body_receiver(callable) matches Some(id) ==> (callable.receiver matches Some(owner)
            && owner.ty == Type::Struct(id)),
        body_receiver(callable) is None ==> (callable.receiver matches Some(owner) ==> !(
        owner.ty is Struct)),
        must_return(ty) <==> ty != Type::Void && ty != Type::Error,
{
}

} // verus!
