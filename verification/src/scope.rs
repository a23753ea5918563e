//! Per-function analysis state: the local table and the lexical scope stack.
//!
//! One job: deciding what a name means inside one function body, and whether the
//! value it names is still there.

use vstd::prelude::*;

use crate::hir::{grew, HirLocal, HirStmtId, LocalId};
use crate::lists::copied;
use crate::names::Symbol;
use crate::source::Span;
use crate::symbol_map::SymbolMap;
use crate::ty::{OwnershipMode, StructId, Type};

verus! {

/// The ownership state of one local.
#[derive(Clone, Copy, PartialEq, Eq, Structural, Debug)]
pub struct LocalOwnership {
    pub mode: OwnershipMode,
    /// Where the value was moved out, when it was.
    pub moved: Option<Span>,
    /// Whether a loop already blamed this local for a move across its back
    /// edge.
    pub loop_reported: bool,
    /// Whether a native-state handle held here has been handed out.
    pub handed_out: bool,
}

impl LocalOwnership {
    /// The state of a local just declared with `mode`.
    pub open spec fn fresh(mode: OwnershipMode) -> LocalOwnership {
        LocalOwnership { mode, moved: None, loop_reported: false, handed_out: false }
    }

    /// The state of a local just declared with `mode`.
    #[verifier::when_used_as_spec(fresh)]
    pub fn declared(mode: OwnershipMode) -> (state: LocalOwnership)
        ensures
            state == LocalOwnership::fresh(mode),
    {
        LocalOwnership { mode, moved: None, loop_reported: false, handed_out: false }
    }

    /// Whether the local still holds its value.
    pub open spec fn spec_is_live(&self) -> bool {
        self.moved is None
    }

    /// Whether the local still holds its value.
    #[verifier::when_used_as_spec(spec_is_live)]
    pub fn is_live(&self) -> (live: bool)
        ensures
            live == self.spec_is_live(),
    {
        self.moved.is_none()
    }
}

/// One captured binding, threaded through one frame.
#[derive(Clone, Copy, PartialEq, Eq, Structural, Debug)]
pub struct Capture {
    /// The slot the value is read from, in the enclosing frame.
    pub outer: LocalId,
    /// The slot it is bound to inside this closure.
    pub inner: LocalId,
    /// The representation struct field it travels in.
    pub field: u32,
    /// Whether it travels as the one element of an array, which is how a
    /// function value whose type reaches the closure's own is stored.
    pub boxed: bool,
}

/// The per-closure state a frame carries while a lifted body is analyzed.
#[derive(Debug)]
pub struct ClosureCtx {
    /// The representation struct this closure's captures live in.
    pub repr: StructId,
    /// Which literal of that type this is, so a capture's synthesized field name
    /// is unique across every literal sharing the representation struct.
    pub tag: u32,
    /// Each capture, in discovery order.
    pub captures: Vec<Capture>,
}

/// Per-function analysis state: the growing local table and the lexical scope
/// stack mapping names to slots.
#[derive(Debug)]
pub struct FnCtx {
    pub locals: Vec<HirLocal>,
    /// Ownership state per local, positionally aligned with `locals`.
    pub ownership: Vec<LocalOwnership>,
    /// Where each local's name was written, positionally aligned with `locals`;
    /// `None` for a slot the source never named.
    pub binding_spans: Vec<Option<Span>>,
    /// Innermost scope last.
    pub scopes: Vec<SymbolMap<LocalId>>,
    /// The outermost scope visible to name lookup while an isolated
    /// declaration-owned expression is analyzed; zero otherwise.
    pub scope_floor: usize,
    /// The floor that held before each isolated scope still open, innermost last.
    pub outer_floors: Vec<usize>,
    pub return_type: Type,
    /// The struct this body is a method of, when it is one.
    pub receiver: Option<StructId>,
    /// How many loops enclose the statement being analyzed.
    pub loop_depth: u32,
    /// The closure this frame is the body of, when it is one.
    pub closure: Option<ClosureCtx>,
    /// Statements that must run before the statement being analyzed.
    pub pending_stmts: Vec<HirStmtId>,
    /// Statements that must run after the statement being analyzed.
    pub deferred_stmts: Vec<HirStmtId>,
    /// Every name a closure literal in this function mentions.
    pub closure_mentions: Vec<Symbol>,
    /// Whether the code runs on the main thread.
    pub main_thread: bool,
    /// The temporary standing in for each cell written through in the statement
    /// being analyzed, newest last.
    pub cell_temps: Vec<(LocalId, LocalId)>,
}

/// The slot `name` means, searching the scopes from `floor` up, innermost first.
pub open spec fn lookup(
    scopes: Seq<SymbolMap<LocalId>>,
    floor: int,
    name: Symbol,
) -> Option<LocalId>
    decreases scopes.len(),
{
    if scopes.len() == 0 || scopes.len() <= floor {
        None
    } else if scopes.last()@.contains_key(name) {
        Some(scopes.last()@[name])
    } else {
        lookup(scopes.drop_last(), floor, name)
    }
}

/// The last of `locals` that has `name`.
pub open spec fn last_named(locals: Seq<HirLocal>, name: Symbol) -> Option<LocalId>
    decreases locals.len(),
{
    if locals.len() == 0 {
        None
    } else if locals.last().name == Some(name) {
        Some(LocalId((locals.len() - 1) as u32))
    } else {
        last_named(locals.drop_last(), name)
    }
}

/// Every name means the last of the locals that has it: what holds of a frame that
/// has only its parameters.
pub open spec fn names_its_locals(ctx: &FnCtx) -> bool {
    forall|name: Symbol| #[trigger]
        lookup(ctx.scopes@, ctx.scope_floor as int, name) == last_named(ctx.locals@, name)
}

/// Declaring one more named local in the only scope keeps every name meaning its
/// last local.
pub proof fn lemma_names_its_locals(before: &FnCtx, after: &FnCtx, name: Symbol, id: LocalId)
    requires
        names_its_locals(before),
        before.scopes@.len() == 1,
        before.scope_floor == 0,
        after.scope_floor == 0,
        before.locals@.len() < u32::MAX,
        id.0 == before.locals@.len(),
        after.locals@.len() == before.locals@.len() + 1,
        after.locals@.drop_last() == before.locals@,
        after.locals@.last().name == Some(name),
        bound(before.scopes@, after.scopes@, 0, name, id),
    ensures
        names_its_locals(after),
{
    assert forall|n: Symbol| #[trigger]
        lookup(after.scopes@, 0, n) == last_named(after.locals@, n) by {
        reveal_with_fuel(lookup, 2);
        assert(lookup(before.scopes@, 0, n) == last_named(before.locals@, n));
    }
}

/// The newest temporary standing in for `cell`.
pub open spec fn temp_in(temps: Seq<(LocalId, LocalId)>, cell: LocalId) -> Option<LocalId>
    decreases temps.len(),
{
    if temps.len() == 0 {
        None
    } else if temps.last().0 == cell {
        Some(temps.last().1)
    } else {
        temp_in(temps.drop_last(), cell)
    }
}

/// The floor, and those kept for later, once a scope ended and `left` are left: the
/// floor that held before, where it was the isolated scope that ended.
pub open spec fn floor_behind(floor: int, outer: Seq<usize>, left: int) -> (int, Seq<usize>) {
    if floor < left {
        (floor, outer)
    } else if outer.len() == 0 {
        (0, outer)
    } else {
        (outer.last() as int, outer.drop_last())
    }
}

/// The scopes after scope `at` gained the binding of `name` to `id`.
pub open spec fn bound(
    before: Seq<SymbolMap<LocalId>>,
    after: Seq<SymbolMap<LocalId>>,
    at: int,
    name: Symbol,
    id: LocalId,
) -> bool {
    &&& after.len() == before.len()
    &&& forall|i: int| 0 <= i < before.len() && i != at ==> #[trigger] after[i] == before[i]
    &&& 0 <= at < before.len() ==> after[at].wf() && after[at]@ == before[at]@.insert(name, id)
}

/// A local the source or a desugaring declares.
pub open spec fn declared_local(
    name: Option<Symbol>,
    ty: Type,
    mutable: bool,
    ownership: OwnershipMode,
) -> HirLocal {
    HirLocal { name, ty, mutable, ownership, native_state: None }
}

/// Where each local was moved out, by slot.
pub open spec fn move_column(ownership: Seq<LocalOwnership>) -> Seq<Option<Span>> {
    ownership.map_values(|state: LocalOwnership| state.moved)
}

/// Whether slot `slot` holds a native-state handle this body still has to free.
pub open spec fn holds_unfreed(
    locals: Seq<HirLocal>,
    ownership: Seq<LocalOwnership>,
    slot: int,
) -> bool {
    &&& ownership[slot].mode == OwnershipMode::Owned
    &&& ownership[slot].is_live()
    &&& !ownership[slot].handed_out
    &&& locals[slot].ty is NativeState
}

/// The unfreed native-state handles among the first `count` slots, in order.
pub open spec fn unfreed(ctx: &FnCtx, count: int) -> Seq<(LocalId, Option<Span>)>
    decreases count,
{
    if count <= 0 {
        Seq::empty()
    } else if holds_unfreed(ctx.locals@, ctx.ownership@, count - 1) {
        unfreed(ctx, count - 1).push((LocalId((count - 1) as u32), ctx.binding_spans@[count - 1]))
    } else {
        unfreed(ctx, count - 1)
    }
}

/// The locals among the first `count` slots that were live in `state` and are
/// moved now, no loop having blamed them yet, with where each went.
pub open spec fn crossed(
    ownership: Seq<LocalOwnership>,
    state: Seq<Option<Span>>,
    count: int,
) -> Seq<(LocalId, Span)>
    decreases count,
{
    if count <= 0 {
        Seq::empty()
    } else {
        let rest = crossed(ownership, state, count - 1);
        let slot = count - 1;
        if state[slot] is None && slot < ownership.len() && !ownership[slot].loop_reported {
            match ownership[slot].moved {
                Some(span) => rest.push((LocalId(slot as u32), span)),
                None => rest,
            }
        } else {
            rest
        }
    }
}

impl FnCtx {
    /// The three local columns are in step, and every name means a local.
    pub open spec fn wf(&self) -> bool {
        &&& self.ownership@.len() == self.locals@.len()
        &&& self.binding_spans@.len() == self.locals@.len()
        &&& self.locals@.len() <= u32::MAX
        &&& forall|i: int| 0 <= i < self.scopes@.len() ==> (#[trigger] self.scopes@[i]).wf()
        &&& forall|i: int, name: Symbol|
            0 <= i < self.scopes@.len() && #[trigger] self.scopes@[i]@.contains_key(name)
                ==> self.scopes@[i]@[name].0 < self.locals@.len()
    }

    /// Whether `local` is a slot of this frame.
    pub open spec fn has(&self, local: LocalId) -> bool {
        local.0 < self.locals@.len()
    }

    /// What `name` means in this frame.
    pub open spec fn meaning(&self, name: Symbol) -> Option<LocalId> {
        lookup(self.scopes@, self.scope_floor as int, name)
    }

    /// This frame with one slot added to the three local columns.
    pub open spec fn grown(&self, before: &FnCtx, local: HirLocal, state: LocalOwnership) -> bool {
        &&& self.locals@ == before.locals@.push(local)
        &&& self.ownership@ == before.ownership@.push(state)
        &&& self.binding_spans@ == before.binding_spans@.push(None)
        &&& *self == (FnCtx {
            locals: self.locals,
            ownership: self.ownership,
            binding_spans: self.binding_spans,
            scopes: self.scopes,
            ..*before
        })
    }

    /// A frame with one empty scope and nothing declared.
    pub fn new(return_type: Type) -> (ctx: FnCtx)
        ensures
            ctx.wf(),
            ctx.locals@.len() == 0,
            ctx.scopes@.len() == 1,
            ctx.scopes@[0]@ == Map::<Symbol, LocalId>::empty(),
            ctx.scope_floor == 0,
            ctx.outer_floors@.len() == 0,
            ctx.return_type == return_type,
            ctx.receiver is None,
            ctx.loop_depth == 0,
            ctx.closure is None,
            ctx.pending_stmts@.len() == 0,
            ctx.deferred_stmts@.len() == 0,
            ctx.closure_mentions@.len() == 0,
            !ctx.main_thread,
            ctx.cell_temps@.len() == 0,
    {
        let mut scopes: Vec<SymbolMap<LocalId>> = Vec::new();
        scopes.push(SymbolMap::new());
        FnCtx {
            locals: Vec::new(),
            ownership: Vec::new(),
            binding_spans: Vec::new(),
            scopes,
            scope_floor: 0,
            outer_floors: Vec::new(),
            return_type,
            receiver: None,
            loop_depth: 0,
            closure: None,
            pending_stmts: Vec::new(),
            deferred_stmts: Vec::new(),
            closure_mentions: Vec::new(),
            main_thread: false,
            cell_temps: Vec::new(),
        }
    }

    /// Says whether the code runs on the main thread.
    pub fn set_main_thread(&mut self, main_thread: bool)
        ensures
            *final(self) == (FnCtx { main_thread, ..*old(self) }),
    {
        self.main_thread = main_thread;
    }

    /// Records which names this function's closure literals mention, so a `var`
    /// among them is boxed at its declaration.
    pub fn set_closure_mentions(&mut self, mentions: Vec<Symbol>)
        ensures
            *final(self) == (FnCtx { closure_mentions: mentions, ..*old(self) }),
    {
        self.closure_mentions = mentions;
    }

    /// The names to hand a nested closure body's frame: the same ones, because a
    /// closure body is part of the same function's text.
    pub fn closure_mentions(&self) -> (mentions: Vec<Symbol>)
        ensures
            mentions@ == self.closure_mentions@,
    {
        copied(&self.closure_mentions)
    }

    /// Whether a mutable binding named `name` must live in a shared box: whether
    /// a closure in this function mentions the name at all.
    pub fn must_box(&self, name: Symbol, mutable: bool) -> (res: bool)
        ensures
            res == (mutable && self.closure_mentions@.contains(name)),
    {
        if !mutable {
            return false;
        }
        let mut i: usize = 0;
        while i < self.closure_mentions.len()
            invariant
                mutable,
                i <= self.closure_mentions@.len(),
                forall|k: int| 0 <= k < i ==> self.closure_mentions@[k] != name,
            decreases self.closure_mentions@.len() - i,
        {
            if self.closure_mentions[i] == name {
                return true;
            }
            i += 1;
        }
        false
    }

    /// Queues a statement to run after the statement being analyzed.
    pub fn defer_stmt(&mut self, stmt: HirStmtId)
        ensures
            final(self).deferred_stmts@ == old(self).deferred_stmts@.push(stmt),
            *final(self) == (FnCtx { deferred_stmts: final(self).deferred_stmts, ..*old(self) }),
    {
        self.deferred_stmts.push(stmt);
    }

    /// Takes the deferred statements queued since the last drain, in order, and
    /// forgets the temporaries they wrote back: a temporary standing in for a
    /// cell is only good for the statement that hoisted it.
    pub fn take_deferred_stmts(&mut self) -> (stmts: Vec<HirStmtId>)
        ensures
            stmts@ == old(self).deferred_stmts@,
            final(self).deferred_stmts@.len() == 0,
            final(self).cell_temps@.len() == 0,
            *final(self) == (FnCtx {
                deferred_stmts: final(self).deferred_stmts,
                cell_temps: final(self).cell_temps,
                ..*old(self)
            }),
    {
        self.cell_temps.clear();
        let stmts = copied(&self.deferred_stmts);
        self.deferred_stmts.clear();
        stmts
    }

    /// The temporary standing in for a cell in the statement being analyzed.
    pub fn cell_temp(&self, cell: LocalId) -> (temp: Option<LocalId>)
        ensures
            temp == temp_in(self.cell_temps@, cell),
    {
        let mut i: usize = self.cell_temps.len();
        assert(self.cell_temps@.take(i as int) =~= self.cell_temps@);
        while i > 0
            invariant
                i <= self.cell_temps@.len(),
                temp_in(self.cell_temps@, cell) == temp_in(self.cell_temps@.take(i as int), cell),
            decreases i,
        {
            assert(self.cell_temps@.take(i as int).drop_last() =~= self.cell_temps@.take(i - 1));
            i -= 1;
            if self.cell_temps[i].0 == cell {
                return Some(self.cell_temps[i].1);
            }
        }
        None
    }

    /// Records the temporary standing in for a cell for the rest of this
    /// statement.
    pub fn note_cell_temp(&mut self, cell: LocalId, temp: LocalId)
        ensures
            final(self).cell_temps@ == old(self).cell_temps@.push((cell, temp)),
            temp_in(final(self).cell_temps@, cell) == Some(temp),
            forall|other: LocalId|
                other != cell ==> #[trigger] temp_in(final(self).cell_temps@, other) == temp_in(
                    old(self).cell_temps@,
                    other,
                ),
            *final(self) == (FnCtx { cell_temps: final(self).cell_temps, ..*old(self) }),
    {
        self.cell_temps.push((cell, temp));
        assert(self.cell_temps@.drop_last() =~= old(self).cell_temps@);
    }

    /// Queues a statement to run before the statement being analyzed.
    pub fn hoist_stmt(&mut self, stmt: HirStmtId)
        ensures
            final(self).pending_stmts@ == old(self).pending_stmts@.push(stmt),
            *final(self) == (FnCtx { pending_stmts: final(self).pending_stmts, ..*old(self) }),
    {
        self.pending_stmts.push(stmt);
    }

    /// Takes the hoisted statements queued since the last drain, in order.
    pub fn take_pending_stmts(&mut self) -> (stmts: Vec<HirStmtId>)
        ensures
            stmts@ == old(self).pending_stmts@,
            final(self).pending_stmts@.len() == 0,
            *final(self) == (FnCtx { pending_stmts: final(self).pending_stmts, ..*old(self) }),
    {
        let stmts = copied(&self.pending_stmts);
        self.pending_stmts.clear();
        stmts
    }

    /// Starts a scope.
    pub fn push_scope(&mut self)
        requires
            old(self).wf(),
        ensures
            final(self).wf(),
            final(self).scopes@.len() == old(self).scopes@.len() + 1,
            final(self).scopes@.drop_last() == old(self).scopes@,
            final(self).scopes@.last()@ == Map::<Symbol, LocalId>::empty(),
            *final(self) == (FnCtx { scopes: final(self).scopes, ..*old(self) }),
    {
        self.scopes.push(SymbolMap::new());
        assert(self.scopes@.drop_last() =~= old(self).scopes@);
    }

    /// Starts a scope whose lookup cannot fall through into the surrounding
    /// function.
    pub fn push_isolated_scope(&mut self)
        requires
            old(self).wf(),
        ensures
            final(self).wf(),
            final(self).scopes@.len() == old(self).scopes@.len() + 1,
            final(self).scopes@.drop_last() == old(self).scopes@,
            final(self).scopes@.last()@ == Map::<Symbol, LocalId>::empty(),
            final(self).scope_floor == old(self).scopes@.len(),
            final(self).outer_floors@ == old(self).outer_floors@.push(old(self).scope_floor),
            *final(self) == (FnCtx {
                scopes: final(self).scopes,
                scope_floor: final(self).scope_floor,
                outer_floors: final(self).outer_floors,
                ..*old(self)
            }),
    {
        self.outer_floors.push(self.scope_floor);
        self.scopes.push(SymbolMap::new());
        self.scope_floor = self.scopes.len() - 1;
        assert(self.scopes@.drop_last() =~= old(self).scopes@);
    }

    /// Ends the innermost scope, and with it the isolation it began: the floor is
    /// again the one that held before.
    pub fn pop_scope(&mut self)
        requires
            old(self).wf(),
        ensures
            final(self).wf(),
            final(self).scopes@ == if old(self).scopes@.len() == 0 {
                old(self).scopes@
            } else {
                old(self).scopes@.drop_last()
            },
            final(self).scope_floor == floor_behind(
                old(self).scope_floor as int,
                old(self).outer_floors@,
                final(self).scopes@.len() as int,
            ).0,
            final(self).outer_floors@ == floor_behind(
                old(self).scope_floor as int,
                old(self).outer_floors@,
                final(self).scopes@.len() as int,
            ).1,
            *final(self) == (FnCtx {
                scopes: final(self).scopes,
                scope_floor: final(self).scope_floor,
                outer_floors: final(self).outer_floors,
                ..*old(self)
            }),
    {
        let ghost before = self.scopes@;
        let _ = self.scopes.pop();
        assert forall|i: int| 0 <= i < self.scopes@.len() implies #[trigger] self.scopes@[i]
            == before[i] by {}
        if self.scope_floor >= self.scopes.len() {
            self.scope_floor = match self.outer_floors.pop() {
                Some(floor) => floor,
                None => 0,
            };
            assert(old(self).outer_floors@.len() > 0 ==> self.outer_floors@
                =~= old(self).outer_floors@.drop_last());
        }
    }

    /// Declares a new owned local in the innermost scope, returning its slot.
    pub fn declare(&mut self, name: Symbol, ty: Type, mutable: bool) -> (id: LocalId)
        requires
            old(self).wf(),
            old(self).locals@.len() < u32::MAX,
        ensures
            id.0 == old(self).locals@.len(),
            final(self).wf(),
            final(self).grown(
                old(self),
                declared_local(Some(name), ty, mutable, OwnershipMode::Owned),
                LocalOwnership::fresh(OwnershipMode::Owned),
            ),
            bound(
                old(self).scopes@,
                final(self).scopes@,
                old(self).scopes@.len() - 1,
                name,
                id,
            ),
    {
        self.declare_param(name, ty, mutable, OwnershipMode::Owned)
    }

    /// Declares a local with an explicit ownership mode, returning its slot.
    pub fn declare_param(
        &mut self,
        name: Symbol,
        ty: Type,
        mutable: bool,
        ownership: OwnershipMode,
    ) -> (id: LocalId)
        requires
            old(self).wf(),
            old(self).locals@.len() < u32::MAX,
        ensures
            id.0 == old(self).locals@.len(),
            final(self).wf(),
            final(self).grown(
                old(self),
                declared_local(Some(name), ty, mutable, ownership),
                LocalOwnership::fresh(ownership),
            ),
            bound(
                old(self).scopes@,
                final(self).scopes@,
                old(self).scopes@.len() - 1,
                name,
                id,
            ),
    {
        let id = self.add_slot(Some(name), ty, mutable, ownership, ownership);
        if self.scopes.len() > 0 {
            let last: usize = self.scopes.len() - 1;
            self.bind(last, name, id);
        }
        id
    }

    /// Adds one slot to the three local columns, bound to no name.
    fn add_slot(
        &mut self,
        name: Option<Symbol>,
        ty: Type,
        mutable: bool,
        ownership: OwnershipMode,
        mode: OwnershipMode,
    ) -> (id: LocalId)
        requires
            old(self).wf(),
            old(self).locals@.len() < u32::MAX,
        ensures
            id.0 == old(self).locals@.len(),
            final(self).wf(),
            final(self).grown(
                old(self),
                declared_local(name, ty, mutable, ownership),
                LocalOwnership::fresh(mode),
            ),
            final(self).scopes == old(self).scopes,
    {
        let id = LocalId(self.locals.len() as u32);
        self.locals.push(HirLocal { name, ty, mutable, ownership, native_state: None });
        self.ownership.push(LocalOwnership::declared(mode));
        self.binding_spans.push(None);
        id
    }

    /// Binds `name` to `id` in scope `at`.
    fn bind(&mut self, at: usize, name: Symbol, id: LocalId)
        requires
            old(self).wf(),
            old(self).has(id),
            at < old(self).scopes@.len(),
        ensures
            final(self).wf(),
            bound(old(self).scopes@, final(self).scopes@, at as int, name, id),
            *final(self) == (FnCtx { scopes: final(self).scopes, ..*old(self) }),
    {
        self.scopes[at].insert(name, id);
        proof {
            let before = old(self).scopes@;
            assert forall|i: int, n: Symbol|
                0 <= i < self.scopes@.len() && #[trigger] self.scopes@[i]@.contains_key(
                    n,
                ) implies self.scopes@[i]@[n].0 < self.locals@.len() by {
                if i != at || n != name {
                    assert(before[i]@.contains_key(n));
                }
            }
        }
    }

    /// Records where `local`'s name was written.
    pub fn note_binding_span(&mut self, local: LocalId, span: Span)
        requires
            old(self).wf(),
            old(self).has(local),
        ensures
            final(self).wf(),
            final(self).binding_spans@ == old(self).binding_spans@.update(
                local.0 as int,
                Some(span),
            ),
            *final(self) == (FnCtx { binding_spans: final(self).binding_spans, ..*old(self) }),
    {
        self.binding_spans[local.0 as usize] = Some(span);
    }

    /// Marks a local as a mutable view into opaque native callback state.
    pub fn mark_native_state(&mut self, local: LocalId, type_id: u32)
        requires
            old(self).wf(),
            old(self).has(local),
        ensures
            final(self).wf(),
            final(self).locals@ == old(self).locals@.update(
                local.0 as int,
                (HirLocal { native_state: Some(type_id), ..old(self).locals@[local.0 as int] }),
            ),
            *final(self) == (FnCtx { locals: final(self).locals, ..*old(self) }),
    {
        let mut marked = self.locals[local.0 as usize];
        marked.native_state = Some(type_id);
        self.locals[local.0 as usize] = marked;
    }

    /// Where `local`'s name was written, when the source named it.
    pub fn binding_span(&self, local: LocalId) -> (span: Option<Span>)
        requires
            self.wf(),
            self.has(local),
        ensures
            span == self.binding_spans@[local.0 as int],
    {
        self.binding_spans[local.0 as usize]
    }

    /// The ownership state of a local slot.
    pub fn ownership_of(&self, local: LocalId) -> (state: LocalOwnership)
        requires
            self.wf(),
            self.has(local),
        ensures
            state == self.ownership@[local.0 as int],
    {
        self.ownership[local.0 as usize]
    }

    /// Records that a native-state handle in `local` has been handed out, so
    /// the end-of-body check stops holding this body responsible for it.
    pub fn mark_handed_out(&mut self, local: LocalId)
        requires
            old(self).wf(),
        ensures
            final(self).wf(),
            final(self).ownership@ == if old(self).has(local) {
                old(self).ownership@.update(
                    local.0 as int,
                    (LocalOwnership {
                        handed_out: true,
                        ..old(self).ownership@[local.0 as int]
                    }),
                )
            } else {
                old(self).ownership@
            },
            *final(self) == (FnCtx { ownership: final(self).ownership, ..*old(self) }),
    {
        if (local.0 as usize) < self.ownership.len() {
            let mut state = self.ownership[local.0 as usize];
            state.handed_out = true;
            self.ownership[local.0 as usize] = state;
        }
    }

    /// Every owned native-state handle this body still holds, with where it was
    /// bound.
    ///
    /// Owned only: a borrowed parameter names somebody else's handle. Handles
    /// already moved out, or handed out, are somebody else's too.
    pub fn unfreed_native_state_handles(&self) -> (found: Vec<(LocalId, Option<Span>)>)
        requires
            self.wf(),
        ensures
            found@ == unfreed(self, self.locals@.len() as int),
    {
        let mut found: Vec<(LocalId, Option<Span>)> = Vec::new();
        let mut slot: usize = 0;
        while slot < self.ownership.len()
            invariant
                self.wf(),
                slot <= self.locals@.len(),
                found@ == unfreed(self, slot as int),
            decreases self.locals@.len() - slot,
        {
            let state = self.ownership[slot];
            let native = matches!(self.locals[slot].ty, Type::NativeState(_));
            if state.mode == OwnershipMode::Owned && state.is_live() && !state.handed_out
                && native {
                found.push((LocalId(slot as u32), self.binding_spans[slot]));
            }
            slot += 1;
        }
        found
    }

    /// Records that `local`'s value was moved out at `span`.
    pub fn mark_moved(&mut self, local: LocalId, span: Span)
        requires
            old(self).wf(),
            old(self).has(local),
        ensures
            final(self).wf(),
            final(self).ownership@ == old(self).ownership@.update(
                local.0 as int,
                (LocalOwnership {
                    moved: Some(span),
                    ..old(self).ownership@[local.0 as int]
                }),
            ),
            *final(self) == (FnCtx { ownership: final(self).ownership, ..*old(self) }),
    {
        self.set_moved(local.0 as usize, Some(span));
    }

    fn set_moved(&mut self, slot: usize, moved: Option<Span>)
        requires
            old(self).wf(),
            slot < old(self).locals@.len(),
        ensures
            final(self).wf(),
            final(self).ownership@ == old(self).ownership@.update(
                slot as int,
                (LocalOwnership { moved, ..old(self).ownership@[slot as int] }),
            ),
            *final(self) == (FnCtx { ownership: final(self).ownership, ..*old(self) }),
    {
        let mut state = self.ownership[slot];
        state.moved = moved;
        self.ownership[slot] = state;
    }

    /// Records that `local` holds a value again: assigning to a binding
    /// reinitializes it.
    pub fn mark_live(&mut self, local: LocalId)
        requires
            old(self).wf(),
            old(self).has(local),
        ensures
            final(self).wf(),
            final(self).ownership@ == old(self).ownership@.update(
                local.0 as int,
                (LocalOwnership { moved: None, ..old(self).ownership@[local.0 as int] }),
            ),
            *final(self) == (FnCtx { ownership: final(self).ownership, ..*old(self) }),
    {
        self.set_moved(local.0 as usize, None);
    }

    /// The ownership state, so that a trial analysis can be rolled back.
    pub fn ownership_snapshot(&self) -> (snapshot: Vec<LocalOwnership>)
        ensures
            snapshot@ == self.ownership@,
    {
        copied(&self.ownership)
    }

    /// Restores a snapshot. A trial declares no locals, so the snapshot is as
    /// long as the table it is put back beside.
    pub fn restore_ownership(&mut self, snapshot: Vec<LocalOwnership>)
        requires
            old(self).wf(),
            snapshot@.len() == old(self).locals@.len(),
        ensures
            final(self).wf(),
            *final(self) == (FnCtx { ownership: snapshot, ..*old(self) }),
    {
        self.ownership = snapshot;
    }

    /// Where each local was moved out, if it has been: the part of the ownership
    /// state that branching has to reason about.
    pub fn moved_state(&self) -> (state: Vec<Option<Span>>)
        ensures
            state@ == move_column(self.ownership@),
    {
        let mut state: Vec<Option<Span>> = Vec::new();
        let mut slot: usize = 0;
        while slot < self.ownership.len()
            invariant
                slot <= self.ownership@.len(),
                state@ == move_column(self.ownership@.take(slot as int)),
            decreases self.ownership@.len() - slot,
        {
            state.push(self.ownership[slot].moved);
            slot += 1;
            assert(self.ownership@.take(slot as int) =~= self.ownership@.take(slot - 1).push(
                self.ownership@[slot - 1],
            ));
            assert(state@ =~= move_column(self.ownership@.take(slot as int)));
        }
        assert(self.ownership@.take(slot as int) =~= self.ownership@);
        state
    }

    /// Puts the move column back to `state`, leaving any local declared since as
    /// it is.
    pub fn reset_moves(&mut self, state: &Vec<Option<Span>>)
        requires
            old(self).wf(),
        ensures
            final(self).wf(),
            final(self).ownership@.len() == old(self).ownership@.len(),
            forall|slot: int|
                0 <= slot < old(self).ownership@.len() ==> #[trigger] final(self).ownership@[slot]
                    == (LocalOwnership {
                    moved: if slot < state@.len() {
                        state@[slot]
                    } else {
                        old(self).ownership@[slot].moved
                    },
                    ..old(self).ownership@[slot]
                }),
            *final(self) == (FnCtx { ownership: final(self).ownership, ..*old(self) }),
    {
        let mut slot: usize = 0;
        while slot < state.len() && slot < self.ownership.len()
            invariant
                slot <= state@.len(),
                slot <= self.ownership@.len(),
                self.wf(),
                self.ownership@.len() == old(self).ownership@.len(),
                forall|k: int|
                    0 <= k < slot ==> #[trigger] self.ownership@[k] == (LocalOwnership {
                        moved: state@[k],
                        ..old(self).ownership@[k]
                    }),
                forall|k: int|
                    slot <= k < self.ownership@.len() ==> #[trigger] self.ownership@[k] == old(
                        self,
                    ).ownership@[k],
                *self == (FnCtx { ownership: self.ownership, ..*old(self) }),
            decreases self.ownership@.len() - slot,
        {
            self.set_moved(slot, state[slot]);
            slot += 1;
        }
    }

    /// Unions `state` into the move column: a local moved on either path is
    /// moved after the two rejoin. The compiler does not know which arm ran, so
    /// a value one of them gave away is one it may no longer have.
    pub fn union_moves(&mut self, state: &Vec<Option<Span>>)
        requires
            old(self).wf(),
        ensures
            final(self).wf(),
            final(self).ownership@.len() == old(self).ownership@.len(),
            forall|slot: int|
                0 <= slot < old(self).ownership@.len() ==> #[trigger] final(self).ownership@[slot]
                    == (LocalOwnership {
                    moved: if slot < state@.len() && old(self).ownership@[slot].moved is None {
                        state@[slot]
                    } else {
                        old(self).ownership@[slot].moved
                    },
                    ..old(self).ownership@[slot]
                }),
            *final(self) == (FnCtx { ownership: final(self).ownership, ..*old(self) }),
    {
        let mut slot: usize = 0;
        while slot < state.len() && slot < self.ownership.len()
            invariant
                slot <= state@.len(),
                slot <= self.ownership@.len(),
                self.wf(),
                self.ownership@.len() == old(self).ownership@.len(),
                forall|k: int|
                    0 <= k < slot ==> #[trigger] self.ownership@[k] == (LocalOwnership {
                        moved: if old(self).ownership@[k].moved is None {
                            state@[k]
                        } else {
                            old(self).ownership@[k].moved
                        },
                        ..old(self).ownership@[k]
                    }),
                forall|k: int|
                    slot <= k < self.ownership@.len() ==> #[trigger] self.ownership@[k] == old(
                        self,
                    ).ownership@[k],
                *self == (FnCtx { ownership: self.ownership, ..*old(self) }),
            decreases self.ownership@.len() - slot,
        {
            if self.ownership[slot].is_live() {
                self.set_moved(slot, state[slot]);
            }
            slot += 1;
        }
    }

    /// Every local that was live in `state` and is moved now, with where it went:
    /// what a loop's back edge would re-enter empty.
    ///
    /// A local declared since `state` was taken has no slot in it and is skipped.
    pub fn moves_across(&self, state: &Vec<Option<Span>>) -> (moves: Vec<(LocalId, Span)>)
        requires
            self.wf(),
        ensures
            moves@ == crossed(self.ownership@, state@, state@.len() as int),
    {
        let mut moves: Vec<(LocalId, Span)> = Vec::new();
        let mut slot: usize = 0;
        while slot < state.len()
            invariant
                self.wf(),
                slot <= state@.len(),
                moves@ == crossed(self.ownership@, state@, slot as int),
            decreases state@.len() - slot,
        {
            if state[slot].is_none() && slot < self.ownership.len() {
                let entry = self.ownership[slot];
                if !entry.loop_reported {
                    if let Some(span) = entry.moved {
                        moves.push((LocalId(slot as u32), span));
                    }
                }
            }
            slot += 1;
        }
        moves
    }

    /// Records that a loop has blamed `local` for a move across its back edge,
    /// so an enclosing loop does not repeat the report.
    pub fn mark_loop_move_reported(&mut self, local: LocalId)
        requires
            old(self).wf(),
            old(self).has(local),
        ensures
            final(self).wf(),
            final(self).ownership@ == old(self).ownership@.update(
                local.0 as int,
                (LocalOwnership {
                    loop_reported: true,
                    ..old(self).ownership@[local.0 as int]
                }),
            ),
            *final(self) == (FnCtx { ownership: final(self).ownership, ..*old(self) }),
    {
        let mut state = self.ownership[local.0 as usize];
        state.loop_reported = true;
        self.ownership[local.0 as usize] = state;
    }

    /// The name a local was declared with; a hidden one has none.
    pub fn local_name(&self, local: LocalId) -> (name: Option<Symbol>)
        requires
            self.wf(),
            self.has(local),
        ensures
            name == self.locals@[local.0 as int].name,
    {
        self.locals[local.0 as usize].name
    }

    /// Declares a local slot bound to no name, returning it.
    ///
    /// Binding it into no scope is what makes it unreachable: user code cannot
    /// read it, write it, or shadow it.
    pub fn declare_hidden(&mut self, ty: Type, mutable: bool) -> (id: LocalId)
        requires
            old(self).wf(),
            old(self).locals@.len() < u32::MAX,
        ensures
            id.0 == old(self).locals@.len(),
            final(self).wf(),
            final(self).grown(
                old(self),
                declared_local(None, ty, mutable, OwnershipMode::Owned),
                LocalOwnership::fresh(OwnershipMode::Owned),
            ),
            final(self).scopes == old(self).scopes,
    {
        self.declare_hidden_as(ty, mutable, OwnershipMode::Owned)
    }

    /// Declares an unnamed local carrying an explicit ownership mode, which is
    /// what tells lowering to pass a synthesized parameter by reference.
    pub fn declare_hidden_as(
        &mut self,
        ty: Type,
        mutable: bool,
        ownership: OwnershipMode,
    ) -> (id: LocalId)
        requires
            old(self).wf(),
            old(self).locals@.len() < u32::MAX,
        ensures
            id.0 == old(self).locals@.len(),
            final(self).wf(),
            final(self).grown(
                old(self),
                declared_local(None, ty, mutable, ownership),
                LocalOwnership::fresh(OwnershipMode::Owned),
            ),
            final(self).scopes == old(self).scopes,
    {
        self.add_slot(None, ty, mutable, ownership, OwnershipMode::Owned)
    }

    /// Declares a captured binding in the outermost scope of a closure body:
    /// visible everywhere in the body, and shadowable by an inner `let` of the
    /// same name from that `let` onward.
    ///
    /// A capture of a capture cell is mutable, and it is the only mutable one:
    /// every other capture is a copy, so writing to it would change something no
    /// one can see.
    pub fn declare_capture(&mut self, name: Symbol, ty: Type) -> (id: LocalId)
        requires
            old(self).wf(),
            old(self).locals@.len() < u32::MAX,
        ensures
            id.0 == old(self).locals@.len(),
            final(self).wf(),
            final(self).grown(
                old(self),
                declared_local(Some(name), ty, ty is Cell, OwnershipMode::Owned),
                LocalOwnership::fresh(OwnershipMode::Owned),
            ),
            bound(old(self).scopes@, final(self).scopes@, 0, name, id),
    {
        let mutable = matches!(ty, Type::Cell(_));
        let id = self.add_slot(Some(name), ty, mutable, OwnershipMode::Owned, OwnershipMode::Owned);
        if self.scopes.len() > 0 {
            self.bind(0, name, id);
        }
        id
    }

    /// Whether `local` may be reassigned.
    pub fn is_mutable(&self, local: LocalId) -> (mutable: bool)
        requires
            self.wf(),
            self.has(local),
        ensures
            mutable == self.locals@[local.0 as int].mutable,
    {
        self.locals[local.0 as usize].mutable
    }

    /// Resolves a name to a local slot, searching innermost scope outward.
    pub fn resolve(&self, name: Symbol) -> (found: Option<LocalId>)
        requires
            self.wf(),
        ensures
            found == self.meaning(name),
            found matches Some(local) ==> self.has(local),
    {
        let mut i: usize = self.scopes.len();
        assert(self.scopes@.take(i as int) =~= self.scopes@);
        while i > self.scope_floor
            invariant
                self.wf(),
                i <= self.scopes@.len(),
                self.meaning(name) == lookup(
                    self.scopes@.take(i as int),
                    self.scope_floor as int,
                    name,
                ),
            decreases i,
        {
            assert(self.scopes@.take(i as int).drop_last() =~= self.scopes@.take(i - 1));
            i -= 1;
            if let Some(id) = self.scopes[i].get(name) {
                assert(self.scopes@[i as int]@.contains_key(name));
                return Some(*id);
            }
        }
        None
    }

    /// The declared type of a local.
    pub fn local_type(&self, local: LocalId) -> (ty: Type)
        requires
            self.wf(),
            self.has(local),
        ensures
            ty == self.locals@[local.0 as int].ty,
    {
        self.locals[local.0 as usize].ty
    }
}

/// A name just declared means the slot it was declared as, unless nothing is in
/// scope to declare it in.
pub proof fn declared_name_means_its_slot(
    before: &FnCtx,
    after: &FnCtx,
    name: Symbol,
    id: LocalId,
)
    requires
        before.scopes@.len() > before.scope_floor,
        after.scope_floor == before.scope_floor,
        bound(before.scopes@, after.scopes@, before.scopes@.len() - 1, name, id),
    ensures
        after.meaning(name) == Some(id),
        forall|other: Symbol|
            other != name ==> #[trigger] after.meaning(other) == before.meaning(other),
{
    let last = before.scopes@.len() - 1;
    assert(after.scopes@.drop_last() =~= before.scopes@.drop_last());
    assert forall|other: Symbol| other != name implies #[trigger] after.meaning(other)
        == before.meaning(other) by {
        assert(after.scopes@.last()@ == before.scopes@.last()@.insert(name, id));
    }
}

/// `inside` is `before` with one more scope, isolated or not, and anything declared
/// in it: the scopes around it are untouched.
pub open spec fn scope_opened(before: &FnCtx, inside: &FnCtx) -> bool {
    &&& inside.scopes@.len() == before.scopes@.len() + 1
    &&& inside.scopes@.drop_last() == before.scopes@
    &&& ({
        ||| inside.scope_floor == before.scope_floor && inside.outer_floors@
            == before.outer_floors@
        ||| inside.scope_floor == before.scopes@.len() && inside.outer_floors@
            == before.outer_floors@.push(before.scope_floor)
    })
    &&& grew(before.locals@, inside.locals@)
}

/// The innermost scope of `inside` ended.
pub open spec fn scope_closed(inside: &FnCtx, after: &FnCtx) -> bool {
    &&& after.scopes@ == inside.scopes@.drop_last()
    &&& after.locals == inside.locals
    &&& (after.scope_floor as int, after.outer_floors@) == floor_behind(
        inside.scope_floor as int,
        inside.outer_floors@,
        after.scopes@.len() as int,
    )
}

/// Declaring in a scope, under a name or under none, keeps the scope opened.
pub proof fn declaring_stays_inside(
    before: &FnCtx,
    inside: &FnCtx,
    more: &FnCtx,
    name: Option<Symbol>,
    local: HirLocal,
    state: LocalOwnership,
)
    requires
        scope_opened(before, inside),
        more.grown(inside, local, state),
        match name {
            Some(name) => bound(
                inside.scopes@,
                more.scopes@,
                inside.scopes@.len() - 1,
                name,
                LocalId(inside.locals@.len() as u32),
            ),
            None => more.scopes == inside.scopes,
        },
    ensures
        scope_opened(before, more),
{
    assert(more.scopes@.drop_last() =~= inside.scopes@.drop_last());
    assert forall|k: int| 0 <= k < before.locals@.len() implies #[trigger] more.locals@[k]
        == before.locals@[k] by {
        assert(inside.locals@[k] == before.locals@[k]);
    }
}

/// What is declared inside a scope is gone when the scope ends: every name means
/// what it meant before the scope began, whatever the scope bound and however
/// isolated the code around it is, and the slots declared inside stay slots.
pub proof fn scope_end_forgets(before: &FnCtx, inside: &FnCtx, after: &FnCtx)
    requires
        before.scope_floor < before.scopes@.len(),
        scope_opened(before, inside),
        scope_closed(inside, after),
    ensures
        forall|name: Symbol| #[trigger] after.meaning(name) == before.meaning(name),
        after.scope_floor == before.scope_floor,
        after.outer_floors@ == before.outer_floors@,
        grew(before.locals@, after.locals@),
{
    assert(after.outer_floors@ =~= before.outer_floors@);
}

/// The floors of the isolated scopes that are open lie one inside the other, the
/// outermost at the first scope, and the innermost is below the number of scopes.
pub open spec fn floors_nested(ctx: &FnCtx) -> bool {
    &&& ctx.scope_floor < ctx.scopes@.len()
    &&& ctx.outer_floors@.len() == 0 ==> ctx.scope_floor == 0
    &&& ctx.outer_floors@.len() > 0 ==> ctx.outer_floors@[0] == 0 && ctx.outer_floors@.last()
        < ctx.scope_floor
    &&& forall|i: int, j: int|
        0 <= i < j < ctx.outer_floors@.len() ==> (#[trigger] ctx.outer_floors@[i]) < (
        #[trigger] ctx.outer_floors@[j])
}

/// Opening scopes and closing all but the last keeps the floors nested, as those of a
/// fresh frame are; so what [`scope_end_forgets`] asks holds throughout a frame's life.
pub proof fn floors_stay_nested(fresh: &FnCtx, before: &FnCtx, after: &FnCtx)
    requires
        fresh.scopes@.len() == 1,
        fresh.scope_floor == 0,
        fresh.outer_floors@.len() == 0,
        floors_nested(before),
        scope_opened(before, after) || (scope_closed(before, after) && after.scopes@.len() > 0),
    ensures
        floors_nested(fresh),
        floors_nested(after),
{
}

/// While an isolated scope is open, nothing declared around it can be named, though
/// a scope inside it, isolated itself or not, came and went.
pub proof fn isolation_outlives_inner_scopes(
    outside: &FnCtx,
    isolated: &FnCtx,
    inside: &FnCtx,
    after: &FnCtx,
    name: Symbol,
)
    requires
        isolated.scopes@.len() == outside.scopes@.len() + 1,
        isolated.scope_floor == outside.scopes@.len(),
        !isolated.scopes@.last()@.contains_key(name),
        scope_opened(isolated, inside),
        scope_closed(inside, after),
    ensures
        after.meaning(name) is None,
{
    scope_end_forgets(isolated, inside, after);
    isolated_scope_sees_itself(isolated, name);
}

/// Inside an isolated scope only the scope's own names mean anything.
pub proof fn isolated_scope_sees_itself(ctx: &FnCtx, name: Symbol)
    requires
        ctx.scopes@.len() > 0,
        ctx.scope_floor == ctx.scopes@.len() - 1,
    ensures
        ctx.meaning(name) == if ctx.scopes@.last()@.contains_key(name) {
            Some(ctx.scopes@.last()@[name])
        } else {
            None
        },
{
    reveal_with_fuel(lookup, 2);
}

/// A hidden slot changes what no name means.
pub proof fn hidden_slot_is_unreachable(before: &FnCtx, after: &FnCtx, name: Symbol)
    requires
        before.wf(),
        after.scopes == before.scopes,
        after.scope_floor == before.scope_floor,
    ensures
        after.meaning(name) == before.meaning(name),
        after.meaning(name) matches Some(local) ==> local.0 < before.locals@.len(),
{
    lemma_lookup_in_range(before, before.scopes@.len() as int, name);
    assert(before.scopes@.take(before.scopes@.len() as int) =~= before.scopes@);
}

proof fn lemma_lookup_in_range(ctx: &FnCtx, count: int, name: Symbol)
    requires
        ctx.wf(),
        0 <= count <= ctx.scopes@.len(),
    ensures
        lookup(ctx.scopes@.take(count), ctx.scope_floor as int, name) matches Some(local)
            ==> local.0 < ctx.locals@.len(),
    decreases count,
{
    if count > 0 {
        assert(ctx.scopes@.take(count).drop_last() =~= ctx.scopes@.take(count - 1));
        assert(ctx.scopes@.take(count).last() == ctx.scopes@[count - 1]);
        if ctx.scopes@[count - 1]@.contains_key(name) {
            assert(ctx.scopes@[count - 1]@[name].0 < ctx.locals@.len());
        }
        lemma_lookup_in_range(ctx, count - 1, name);
    }
}

/// A capture is what its name means until something inside shadows it.
pub proof fn capture_yields_to_inner_names(
    before: &FnCtx,
    after: &FnCtx,
    name: Symbol,
    id: LocalId,
)
    requires
        before.scopes@.len() > 0,
        before.scope_floor == 0,
        after.scope_floor == 0,
        bound(before.scopes@, after.scopes@, 0, name, id),
        forall|i: int| 0 < i < before.scopes@.len() ==> !(#[trigger] before.scopes@[i])@.contains_key(name),
    ensures
        after.meaning(name) == Some(id),
{
    lemma_outermost(after.scopes@, name, after.scopes@.len() as int);
    assert(after.scopes@.take(after.scopes@.len() as int) =~= after.scopes@);
}

proof fn lemma_outermost(scopes: Seq<SymbolMap<LocalId>>, name: Symbol, count: int)
    requires
        0 < count <= scopes.len(),
        scopes[0]@.contains_key(name),
        forall|i: int| 0 < i < scopes.len() ==> !(#[trigger] scopes[i])@.contains_key(name),
    ensures
        lookup(scopes.take(count), 0, name) == Some(scopes[0]@[name]),
    decreases count,
{
    assert(scopes.take(count).last() == scopes[count - 1]);
    if count > 1 {
        assert(scopes.take(count).drop_last() =~= scopes.take(count - 1));
        lemma_outermost(scopes, name, count - 1);
    }
}

/// After two paths rejoin a local is moved exactly when either path moved it.
pub proof fn rejoined_moves_are_either(
    before: Seq<LocalOwnership>,
    state: Seq<Option<Span>>,
    after: Seq<LocalOwnership>,
    slot: int,
)
    requires
        0 <= slot < before.len(),
        after.len() == before.len(),
        after[slot] == (LocalOwnership {
            moved: if slot < state.len() && before[slot].moved is None {
                state[slot]
            } else {
                before[slot].moved
            },
            ..before[slot]
        }),
    ensures
        !after[slot].is_live() <==> !before[slot].is_live() || (slot < state.len()
            && state[slot] is Some),
{
}

/// Putting back the move column a frame itself had undoes every move made since,
/// and only moves.
pub proof fn reset_undoes_moves(
    before: Seq<LocalOwnership>,
    between: Seq<LocalOwnership>,
    after: Seq<LocalOwnership>,
    slot: int,
)
    requires
        0 <= slot < before.len() <= between.len(),
        after.len() == between.len(),
        after[slot] == (LocalOwnership {
            moved: if slot < move_column(before).len() {
                move_column(before)[slot]
            } else {
                between[slot].moved
            },
            ..between[slot]
        }),
    ensures
        after[slot] == (LocalOwnership { moved: before[slot].moved, ..between[slot] }),
{
}

proof fn lemma_innermost(scopes: Seq<SymbolMap<LocalId>>, floor: int, name: Symbol, i: int)
    requires
        0 <= floor <= i < scopes.len(),
        scopes[i]@.contains_key(name),
        forall|j: int| i < j < scopes.len() ==> !(#[trigger] scopes[j])@.contains_key(name),
    ensures
        lookup(scopes, floor, name) == Some(scopes[i]@[name]),
    decreases scopes.len(),
{
    if i < scopes.len() - 1 {
        let rest = scopes.drop_last();
        assert(!scopes[scopes.len() - 1]@.contains_key(name));
        assert forall|j: int| i < j < rest.len() implies !(#[trigger] rest[j])@.contains_key(
            name,
        ) by {
            assert(rest[j] == scopes[j]);
        }
        lemma_innermost(rest, floor, name, i);
    }
}

proof fn lemma_unbound(scopes: Seq<SymbolMap<LocalId>>, floor: int, name: Symbol)
    requires
        0 <= floor,
        forall|j: int| floor <= j < scopes.len() ==> !(#[trigger] scopes[j])@.contains_key(name),
    ensures
        lookup(scopes, floor, name) is None,
    decreases scopes.len(),
{
    if scopes.len() > floor {
        let rest = scopes.drop_last();
        assert(!scopes[scopes.len() - 1]@.contains_key(name));
        assert forall|j: int| floor <= j < rest.len() implies !(#[trigger] rest[j])@.contains_key(
            name,
        ) by {
            assert(rest[j] == scopes[j]);
        }
        lemma_unbound(rest, floor, name);
    }
}

/// A name means what the innermost scope that binds it says, among the scopes the floor
/// leaves in sight, and nothing where none of those binds it.
pub proof fn a_name_means_its_innermost_binding(ctx: &FnCtx, name: Symbol, i: int)
    ensures
        ctx.scope_floor <= i < ctx.scopes@.len() && ctx.scopes@[i]@.contains_key(name) && (forall|
            j: int,
        |
            i < j < ctx.scopes@.len() ==> !(#[trigger] ctx.scopes@[j])@.contains_key(name))
            ==> ctx.meaning(name) == Some(ctx.scopes@[i]@[name]),
        (forall|j: int|
            ctx.scope_floor <= j < ctx.scopes@.len() ==> !(#[trigger] ctx.scopes@[j])@.contains_key(
                name,
            )) ==> ctx.meaning(name) is None,
{
    if ctx.scope_floor <= i < ctx.scopes@.len() && ctx.scopes@[i]@.contains_key(name) && (forall|
        j: int,
    |
        i < j < ctx.scopes@.len() ==> !(#[trigger] ctx.scopes@[j])@.contains_key(name)) {
        lemma_innermost(ctx.scopes@, ctx.scope_floor as int, name, i);
    }
    if forall|j: int|
        ctx.scope_floor <= j < ctx.scopes@.len() ==> !(#[trigger] ctx.scopes@[j])@.contains_key(
            name,
        ) {
        lemma_unbound(ctx.scopes@, ctx.scope_floor as int, name);
    }
}

/// A slot is reported as unfreed exactly if it owns a native-state handle that was neither
/// moved nor handed out, with where its name was written.
pub proof fn an_unfreed_handle_is_reported(ctx: &FnCtx, count: int, slot: int)
    requires
        0 <= slot < count <= ctx.locals@.len() <= u32::MAX,
    ensures
        unfreed(ctx, count).contains((LocalId(slot as u32), ctx.binding_spans@[slot]))
            <==> ctx.ownership@[slot].mode == OwnershipMode::Owned && ctx.ownership@[slot].moved
            is None && !ctx.ownership@[slot].handed_out && ctx.locals@[slot].ty is NativeState,
{
    lemma_unfreed(ctx, count, slot);
}

proof fn lemma_unfreed(ctx: &FnCtx, count: int, slot: int)
    requires
        0 <= count <= ctx.locals@.len() <= u32::MAX,
        0 <= slot < ctx.locals@.len(),
    ensures
        unfreed(ctx, count).contains((LocalId(slot as u32), ctx.binding_spans@[slot])) <==> slot
            < count && holds_unfreed(ctx.locals@, ctx.ownership@, slot),
        forall|k: int|
            0 <= k < unfreed(ctx, count).len() ==> (#[trigger] unfreed(ctx, count)[k]).0.0 < count,
    decreases count,
{
    if count > 0 {
        lemma_unfreed(ctx, count - 1, slot);
        let before = unfreed(ctx, count - 1);
        let all = unfreed(ctx, count);
        let entry = (LocalId(slot as u32), ctx.binding_spans@[slot]);
        if before.contains(entry) {
            let k = choose|k: int| 0 <= k < before.len() && before[k] == entry;
            assert(all[k] == entry);
        }
        if all.contains(entry) && !before.contains(entry) {
            let k = choose|k: int| 0 <= k < all.len() && all[k] == entry;
            if k < before.len() {
                assert(before[k] == entry);
            }
        }
        if slot == count - 1 && holds_unfreed(ctx.locals@, ctx.ownership@, slot) {
            assert(all[all.len() - 1] == entry);
        }
    }
}

/// A local is blamed for a move across a loop's back edge exactly if it held its value
/// when the loop began, was moved since, and no loop blamed it before; it is blamed where
/// it was moved.
pub proof fn a_move_across_a_loop_is_blamed(
    ownership: Seq<LocalOwnership>,
    state: Seq<Option<Span>>,
    slot: int,
    span: Span,
)
    requires
        0 <= slot < state.len() <= u32::MAX,
        state.len() <= ownership.len(),
    ensures
        crossed(ownership, state, state.len() as int).contains((LocalId(slot as u32), span))
            <==> state[slot] is None && !ownership[slot].loop_reported && ownership[slot].moved
            == Some(span),
{
    lemma_crossed(ownership, state, state.len() as int, slot, span);
}

proof fn lemma_crossed(
    ownership: Seq<LocalOwnership>,
    state: Seq<Option<Span>>,
    count: int,
    slot: int,
    span: Span,
)
    requires
        0 <= slot < state.len() <= u32::MAX,
        0 <= count <= state.len() <= ownership.len(),
    ensures
        crossed(ownership, state, count).contains((LocalId(slot as u32), span)) <==> slot < count
            && state[slot] is None && !ownership[slot].loop_reported && ownership[slot].moved
            == Some(span),
        forall|k: int|
            0 <= k < crossed(ownership, state, count).len() ==> (#[trigger] crossed(
                ownership,
                state,
                count,
            )[k]).0.0 < count,
    decreases count,
{
    if count > 0 {
        lemma_crossed(ownership, state, count - 1, slot, span);
        let before = crossed(ownership, state, count - 1);
        let all = crossed(ownership, state, count);
        let entry = (LocalId(slot as u32), span);
        if before.contains(entry) {
            let k = choose|k: int| 0 <= k < before.len() && before[k] == entry;
            assert(all[k] == entry);
        }
        if all.contains(entry) && !before.contains(entry) {
            let k = choose|k: int| 0 <= k < all.len() && all[k] == entry;
            if k < before.len() {
                assert(before[k] == entry);
            }
        }
        if slot == count - 1 && state[slot] is None && !ownership[slot].loop_reported
            && ownership[slot].moved == Some(span) {
            assert(all[all.len() - 1] == entry);
        }
    }
}

} // verus!
