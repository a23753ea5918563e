//! Filling the child slots of a construction or an update, as a whole.
//!
//! A labelled fill goes into the slot it names, and the content nobody named into the
//! slot declared first. A slot takes its first fill; every later one is refused.

use vstd::prelude::*;

use crate::child_slots::{
    begin_fill, fill_empty_lists, fill_one, fill_slot_from_value, is_empty_list, left_empty,
    refuse_content, slots_apart, SlotContent,
};
use crate::diagnostics::{Log, Problem};
use crate::families::ContentSlot;
use crate::hir::{HirExpr, HirExprId, HirProgram};
use crate::lattice::Lattice;
use crate::source::Span;
use crate::ty::{StructId, Type};

verus! {

/// Where one run of content goes.
#[derive(Clone, Copy, PartialEq, Eq, Structural, Debug)]
pub enum FillRoute {
    /// It fills the slot, and is analyzed against it.
    Fills(usize),
    /// The slot is filled already: it is analyzed for what it says itself, and refused.
    Again(usize),
    /// The declaration has no slot: it is analyzed for what it says itself, and refused.
    NoSlot,
}

/// Whether one of the first `count` labelled fills names slot `slot`.
pub open spec fn named_before(named: Seq<usize>, slot: int, count: int) -> bool {
    exists|j: int| 0 <= j < count && #[trigger] named[j] == slot
}

/// Where every run of content goes, in the order it is analyzed: the labelled fills as
/// written, then the content nobody named.
pub open spec fn fill_routes(slots: int, named: Seq<usize>, bare: bool) -> Seq<FillRoute> {
    let labelled = Seq::new(
        named.len(),
        |i: int|
            if named_before(named, named[i] as int, i) {
                FillRoute::Again(named[i])
            } else {
                FillRoute::Fills(named[i])
            },
    );
    if !bare {
        labelled
    } else if slots == 0 {
        labelled.push(FillRoute::NoSlot)
    } else if named_before(named, 0, named.len() as int) {
        labelled.push(FillRoute::Again(0))
    } else {
        labelled.push(FillRoute::Fills(0))
    }
}

fn is_named(named: &Vec<usize>, slot: usize, count: usize) -> (res: bool)
    requires
        count <= named@.len(),
    ensures
        res == named_before(named@, slot as int, count as int),
{
    let mut j: usize = 0;
    while j < count
        invariant
            j <= count <= named@.len(),
            forall|k: int| 0 <= k < j ==> #[trigger] named@[k] != slot,
        decreases count - j,
    {
        if named[j] == slot {
            assert(named@[j as int] == slot as int);
            return true;
        }
        j += 1;
    }
    false
}

/// Decides where every run of content goes, in a declaration of `slots` child slots:
/// `named` are the slots the labelled fills name, and `bare` tells whether there is
/// content nobody named.
pub fn route_fills(slots: usize, named: &Vec<usize>, bare: bool) -> (taken: Vec<FillRoute>)
    ensures
        taken@ == fill_routes(slots as int, named@, bare),
{
    let ghost whole = fill_routes(slots as int, named@, false);
    let mut taken: Vec<FillRoute> = Vec::new();
    let mut i: usize = 0;
    while i < named.len()
        invariant
            i <= named@.len(),
            whole == fill_routes(slots as int, named@, false),
            taken@ == whole.take(i as int),
        decreases named@.len() - i,
    {
        if is_named(named, named[i], i) {
            taken.push(FillRoute::Again(named[i]));
        } else {
            taken.push(FillRoute::Fills(named[i]));
        }
        i += 1;
        assert(taken@ =~= whole.take(i as int));
    }
    assert(whole.take(i as int) =~= whole);
    if bare {
        if slots == 0 {
            taken.push(FillRoute::NoSlot);
        } else if is_named(named, 0, named.len()) {
            taken.push(FillRoute::Again(0));
        } else {
            taken.push(FillRoute::Fills(0));
        }
    }
    taken
}

/// What a run of content was analyzed to.
#[derive(Clone, Copy, PartialEq, Eq, Structural, Debug)]
pub enum FillValue {
    /// An ordinary expression, which becomes the slot's value.
    Value(HirExprId, Span),
    /// The one child of a slot that holds exactly one.
    One(HirExprId, Span),
    /// The list of a list slot's children, each of them checked.
    List(HirExprId),
    /// Content that a slot which holds exactly one child cannot take, and where it is
    /// blamed.
    Refused(SlotContent, Span),
}

/// The value a fill puts into its slot, where it has one.
pub open spec fn value_put(value: FillValue) -> Option<HirExprId> {
    match value {
        FillValue::Value(id, _) => Some(id),
        FillValue::One(id, _) => Some(id),
        FillValue::List(id) => Some(id),
        FillValue::Refused(_, _) => None,
    }
}

/// Whether `value` is what analysis of content comes to: an expression of `program`, or
/// content that is refused.
pub open spec fn fill_ready(program: &HirProgram, value: FillValue) -> bool {
    match value {
        FillValue::Value(id, _) => program.has_expr(id),
        FillValue::One(id, _) => program.has_expr(id),
        FillValue::List(id) => program.has_expr(id),
        FillValue::Refused(content, _) => content is Builder || content is Count,
    }
}

/// `entry` is what `value` puts into the field of its slot: the error node where the
/// content was refused.
pub open spec fn put_into(
    program: &HirProgram,
    value: FillValue,
    entry: Option<HirExprId>,
) -> bool {
    match value_put(value) {
        Some(id) => entry == Some(id),
        None => entry matches Some(id) && program.has_expr(id) && program.at(id) == HirExpr::Error,
    }
}

/// What filling a slot reports: a value its type does not admit, or content it cannot
/// take.
pub open spec fn fill_said(
    program: &HirProgram,
    lattice: &Lattice,
    construct: StructId,
    slot: ContentSlot,
    value: FillValue,
) -> Option<(Span, Problem)> {
    match value {
        FillValue::Value(id, span) => {
            let found = program.type_at(id);
            if found == Type::Error || lattice.admits(found, slot.field_ty) {
                None
            } else {
                Some(
                    (
                        span,
                        Problem::FillMismatch {
                            construct,
                            slot: slot.name,
                            expected: slot.field_ty,
                            found,
                        },
                    ),
                )
            }
        },
        FillValue::One(id, span) => {
            let found = program.type_at(id);
            if lattice.admits(found, slot.element_ty) {
                None
            } else {
                Some(
                    (
                        span,
                        Problem::ChildMismatch {
                            construct,
                            slot: slot.name,
                            expected: slot.element_ty,
                            found,
                        },
                    ),
                )
            }
        },
        FillValue::List(_) => None,
        FillValue::Refused(SlotContent::Count(found), span) => Some(
            (span, Problem::SlotHoldsOne { construct, slot: slot.name, found }),
        ),
        FillValue::Refused(_, span) => Some(
            (span, Problem::BuilderInSingleSlot { construct, slot: slot.name }),
        ),
    }
}

/// One run of content: the slot it goes to, what it was analyzed to, and where a
/// second fill is blamed.
#[derive(Clone, Copy, PartialEq, Eq, Structural, Debug)]
pub struct SlotFill {
    pub slot: usize,
    pub value: FillValue,
    pub at: Span,
}

/// The child slots of a construction or an update while they are being filled.
#[derive(Debug)]
pub struct SlotFilling {
    /// Which slots have taken their fill.
    pub filled: Vec<bool>,
    /// What every field holds.
    pub entries: Vec<Option<HirExprId>>,
}

impl SlotFilling {
    /// Every slot stores into a field that there is.
    pub open spec fn fits(&self, slots: Seq<ContentSlot>) -> bool {
        &&& self.filled@.len() == slots.len()
        &&& forall|k: int|
            0 <= k < slots.len() ==> (#[trigger] slots[k]).field_index < self.entries@.len()
    }
}

/// Starts filling the child slots of a value whose fields hold `entries`.
pub fn begin_filling(slots: &Vec<ContentSlot>, entries: Vec<Option<HirExprId>>) -> (filling:
    SlotFilling)
    requires
        forall|k: int|
            0 <= k < slots@.len() ==> (#[trigger] slots@[k]).field_index < entries@.len(),
    ensures
        filling.fits(slots@),
        filling.entries == entries,
        forall|k: int| 0 <= k < slots@.len() ==> !#[trigger] filling.filled@[k],
{
    let mut filled: Vec<bool> = Vec::new();
    while filled.len() < slots.len()
        invariant
            filled@.len() <= slots@.len(),
            forall|k: int| 0 <= k < filled@.len() ==> !#[trigger] filled@[k],
        decreases slots@.len() - filled@.len(),
    {
        filled.push(false);
    }
    SlotFilling { filled, entries }
}

/// One fill was made between two points: the slot took it, unless it had taken one
/// before, and nothing else changed.
pub open spec fn fill_settled(
    program: &HirProgram,
    slots: Seq<ContentSlot>,
    fill: SlotFill,
    before: SlotFilling,
    after: SlotFilling,
) -> bool {
    let index = slots[fill.slot as int].field_index as int;
    &&& after.filled@ == before.filled@.update(fill.slot as int, true)
    &&& if before.filled@[fill.slot as int] {
        after.entries@ == before.entries@
    } else {
        &&& after.entries@ == before.entries@.update(index, after.entries@[index])
        &&& put_into(program, fill.value, after.entries@[index])
    }
}

/// Makes one fill, its content having just been analyzed. Content that is refused
/// leaves the error node in its slot, and a second fill of a slot is refused whatever
/// it holds.
pub fn settle_fill(
    program: &mut HirProgram,
    lattice: &Lattice,
    construct: StructId,
    slots: &Vec<ContentSlot>,
    fill: SlotFill,
    filling: &mut SlotFilling,
    log: &mut Log,
)
    requires
        old(filling).fits(slots@),
        fill.slot < slots@.len(),
        fill_ready(old(program), fill.value),
        old(program).exprs@.len() < u32::MAX,
    ensures
        final(filling).fits(slots@),
        fill_settled(final(program), slots@, fill, *old(filling), *final(filling)),
        if !old(filling).filled@[fill.slot as int] && fill.value is Refused {
            &&& final(program).exprs@ == old(program).exprs@.push(HirExpr::Error)
            &&& *final(program) == (HirProgram { exprs: final(program).exprs, ..*old(program) })
        } else {
            *final(program) == *old(program)
        },
        final(program).built_on(old(program)),
        final(log).source == old(log).source,
        if old(filling).filled@[fill.slot as int] {
            final(log).reported(
                old(log),
                old(log).source,
                fill.at,
                (Problem::SlotFilledTwice { construct, slot: slots@[fill.slot as int].name }),
            )
        } else {
            match fill_said(
                old(program),
                lattice,
                construct,
                slots@[fill.slot as int],
                fill.value,
            ) {
                Some((span, problem)) => final(log).reported(
                    old(log),
                    old(log).source,
                    span,
                    problem,
                ),
                None => final(log).quiet(old(log)),
            }
        },
{
    let slot = &slots[fill.slot];
    assert(slots@[fill.slot as int].field_index < filling.entries@.len());
    if !begin_fill(slots, &mut filling.filled, fill.slot, construct, fill.at, log) {
        return ;
    }
    match fill.value {
        FillValue::Value(id, at) => {
            fill_slot_from_value(
                program,
                lattice,
                construct,
                slot,
                id,
                at,
                &mut filling.entries,
                log,
            );
        },
        FillValue::One(id, at) => {
            fill_one(program, lattice, construct, slot, id, at, &mut filling.entries, log);
        },
        FillValue::List(id) => {
            filling.entries[slot.field_index as usize] = Some(id);
        },
        FillValue::Refused(content, at) => {
            refuse_content(
                program,
                construct,
                slot,
                content,
                at,
                at,
                &mut filling.entries,
                log,
            );
        },
    }
}

/// Ends filling: a list slot that nobody filled, and that has neither a default nor a
/// value, is the empty list.
pub fn finish_filling(
    program: &mut HirProgram,
    slots: &Vec<ContentSlot>,
    filling: SlotFilling,
) -> (entries: Vec<Option<HirExprId>>)
    requires
        filling.fits(slots@),
        slots_apart(slots@),
        old(program).exprs@.len() + slots@.len() <= u32::MAX,
    ensures
        final(program).built_on(old(program)),
        final(program).stmts == old(program).stmts,
        final(program).exprs@.len() <= old(program).exprs@.len() + slots@.len(),
        entries@.len() == filling.entries@.len(),
        forall|k: int|
            0 <= k < slots@.len() ==> {
                let entry = entries@[(#[trigger] slots@[k]).field_index as int];
                if left_empty(slots@[k], filling.filled@[k], filling.entries@) {
                    is_empty_list(final(program), entry, slots@[k].field_ty)
                } else {
                    entry == filling.entries@[slots@[k].field_index as int]
                }
            },
        forall|index: int|
            0 <= index < entries@.len() && no_slot(slots@, index) ==> #[trigger] entries@[index]
                == filling.entries@[index],
{
    let mut entries = filling.entries;
    fill_empty_lists(program, slots, &filling.filled, &mut entries);
    proof {
        assert forall|k: int| 0 <= k < slots@.len() implies {
            let entry = entries@[(#[trigger] slots@[k]).field_index as int];
            if left_empty(slots@[k], filling.filled@[k], filling.entries@) {
                is_empty_list(program, entry, slots@[k].field_ty)
            } else {
                entry == filling.entries@[slots@[k].field_index as int]
            }
        } by {
            let index = slots@[k].field_index as int;
            if !left_empty(slots@[k], filling.filled@[k], filling.entries@) {
                assert forall|j: int|
                    0 <= j < slots@.len() && (#[trigger] slots@[j]).field_index
                        == index implies !left_empty(
                    slots@[j],
                    filling.filled@[j],
                    filling.entries@,
                ) by {
                    assert(j == k);
                }
                assert(entries@[index] == filling.entries@[index]);
            }
        }
    }
    entries
}

/// The first of the first `count` fills that goes to slot `slot`.
pub open spec fn first_fill(fills: Seq<SlotFill>, slot: int, count: int) -> Option<FillValue>
    decreases count,
{
    if count <= 0 {
        None
    } else {
        match first_fill(fills, slot, count - 1) {
            Some(value) => Some(value),
            None => if fills[count - 1].slot == slot {
                Some(fills[count - 1].value)
            } else {
                None
            },
        }
    }
}

/// Whether field `index` belongs to no slot.
pub open spec fn no_slot(slots: Seq<ContentSlot>, index: int) -> bool {
    forall|k: int| 0 <= k < slots.len() ==> (#[trigger] slots[k]).field_index != index
}

/// Every fill was made, in order, along `trace`, which starts with no slot filled.
pub open spec fn fills_settled(
    program: &HirProgram,
    slots: Seq<ContentSlot>,
    fills: Seq<SlotFill>,
    trace: Seq<SlotFilling>,
) -> bool {
    &&& trace.len() == fills.len() + 1
    &&& trace[0].fits(slots)
    &&& forall|k: int| 0 <= k < slots.len() ==> !#[trigger] trace[0].filled@[k]
    &&& forall|i: int| 0 <= i < fills.len() ==> (#[trigger] fills[i]).slot < slots.len()
    &&& forall|i: int|
        0 <= i < fills.len() ==> fill_settled(
            program,
            slots,
            #[trigger] fills[i],
            trace[i],
            trace[i + 1],
        )
}

/// What a fill put into its slot stays there, whatever is analyzed after it.
pub proof fn later_nodes_keep_a_fill(
    before: &HirProgram,
    after: &HirProgram,
    slots: Seq<ContentSlot>,
    fill: SlotFill,
    from: SlotFilling,
    to: SlotFilling,
)
    requires
        fill_settled(before, slots, fill, from, to),
        after.built_on(before),
    ensures
        fill_settled(after, slots, fill, from, to),
{
}

/// A slot takes its first fill and keeps it, whatever comes after; a slot nobody fills,
/// and a field that is no slot's, hold what they held.
pub proof fn the_first_fill_stays(
    program: &HirProgram,
    slots: Seq<ContentSlot>,
    fills: Seq<SlotFill>,
    trace: Seq<SlotFilling>,
)
    requires
        slots_apart(slots),
        fills_settled(program, slots, fills, trace),
    ensures
        trace.last().fits(slots),
        trace.last().entries@.len() == trace[0].entries@.len(),
        forall|k: int|
            0 <= k < slots.len() ==> #[trigger] trace.last().filled@[k] == (first_fill(
                fills,
                k,
                fills.len() as int,
            ) is Some),
        forall|k: int|
            0 <= k < slots.len() ==> {
                let index = (#[trigger] slots[k]).field_index as int;
                match first_fill(fills, k, fills.len() as int) {
                    Some(value) => put_into(program, value, trace.last().entries@[index]),
                    None => trace.last().entries@[index] == trace[0].entries@[index],
                }
            },
        forall|index: int|
            0 <= index < trace[0].entries@.len() && no_slot(slots, index)
                ==> #[trigger] trace.last().entries@[index] == trace[0].entries@[index],
    decreases fills.len(),
{
    if fills.len() > 0 {
        let count = fills.len() - 1;
        let fill = fills[count];
        let less = fills.drop_last();
        let before = trace.drop_last();
        assert(fills_settled(program, slots, less, before)) by {
            assert forall|i: int| 0 <= i < less.len() implies fill_settled(
                program,
                slots,
                #[trigger] less[i],
                before[i],
                before[i + 1],
            ) by {
                assert(less[i] == fills[i]);
            }
            assert forall|i: int| 0 <= i < less.len() implies (#[trigger] less[i]).slot
                < slots.len() by {
                assert(less[i] == fills[i]);
            }
        }
        the_first_fill_stays(program, slots, less, before);
        assert(before.last() == trace[count]);
        assert(fill_settled(program, slots, fills[count], trace[count], trace[count + 1]));
        assert forall|k: int| 0 <= k < slots.len() implies first_fill(less, k, count)
            == #[trigger] first_fill(fills, k, count) by {
            lemma_first_fill_of(less, fills, k, count);
        }
        assert forall|k: int| 0 <= k < slots.len() implies {
            let index = (#[trigger] slots[k]).field_index as int;
            match first_fill(fills, k, fills.len() as int) {
                Some(value) => put_into(program, value, trace.last().entries@[index]),
                None => trace.last().entries@[index] == trace[0].entries@[index],
            }
        } by {
            let index = slots[k].field_index as int;
            assert(first_fill(less, k, count) == first_fill(fills, k, count));
            assert(trace[count].filled@[k] == (first_fill(less, k, count) is Some));
            assert(k != fill.slot ==> index != slots[fill.slot as int].field_index);
        }
        assert forall|k: int| 0 <= k < slots.len() implies #[trigger] trace.last().filled@[k]
            == (first_fill(fills, k, fills.len() as int) is Some) by {
            assert(trace[count].filled@[k] == (first_fill(less, k, count) is Some));
            assert(first_fill(less, k, count) == first_fill(fills, k, count));
        }
        assert forall|index: int|
            0 <= index < trace[0].entries@.len() && no_slot(slots, index) implies
            #[trigger] trace.last().entries@[index] == trace[0].entries@[index] by {
            assert(trace[count].entries@[index] == trace[0].entries@[index]);
            assert(slots[fill.slot as int].field_index != index);
        }
    }
}

proof fn lemma_first_fill_of(less: Seq<SlotFill>, fills: Seq<SlotFill>, slot: int, count: int)
    requires
        count <= less.len() <= fills.len(),
        forall|i: int| 0 <= i < less.len() ==> #[trigger] less[i] == fills[i],
    ensures
        first_fill(less, slot, count) == first_fill(fills, slot, count),
    decreases count,
{
    if count > 0 {
        lemma_first_fill_of(less, fills, slot, count - 1);
        assert(less[count - 1] == fills[count - 1]);
    }
}

/// Each run of content goes to the slot its label names, the content nobody named to the
/// first slot, and the first run to reach a slot fills it: every later one is refused as
/// its second. Content nobody named is refused where there is no slot at all.
pub proof fn the_first_run_fills_its_slot(slots: int, named: Seq<usize>, bare: bool, i: int)
    ensures
        ({
            let taken = fill_routes(slots, named, bare);
            &&& taken.len() == named.len() + (if bare {
                1int
            } else {
                0int
            })
            &&& 0 <= i < named.len() && (forall|j: int|
                0 <= j < i ==> (#[trigger] named[j]) != named[i]) ==> taken[i] == FillRoute::Fills(
                named[i],
            )
            &&& 0 <= i < named.len() && (exists|j: int|
                0 <= j < i && (#[trigger] named[j]) == named[i]) ==> taken[i] == FillRoute::Again(
                named[i],
            )
            &&& bare && slots == 0 ==> taken.last() == FillRoute::NoSlot
            &&& bare && slots != 0 && (forall|j: int|
                0 <= j < named.len() ==> (#[trigger] named[j]) != 0) ==> taken.last()
                == FillRoute::Fills(0)
            &&& bare && slots != 0 && (exists|j: int|
                0 <= j < named.len() && (#[trigger] named[j]) == 0) ==> taken.last()
                == FillRoute::Again(0)
        }),
{
    if 0 <= i < named.len() && named_before(named, named[i] as int, i) {
        let j = choose|j: int| 0 <= j < i && #[trigger] named[j] == named[i] as int;
        assert(named[j] == named[i]);
    }
}

/// A fill puts its own value into the field of its slot, and says nothing exactly if the
/// slot takes it: a value of a type the field's admits, or one that failed to analyze, one
/// child of a type the element's admits, or a list whose children were checked. Content
/// the slot cannot take puts the error node there and is always reported.
pub proof fn a_fill_puts_its_value(
    program: &HirProgram,
    lattice: &Lattice,
    construct: StructId,
    slot: ContentSlot,
    value: FillValue,
    entry: Option<HirExprId>,
)
    requires
        put_into(program, value, entry),
    ensures
        value matches FillValue::Value(id, _) ==> entry == Some(id) && (fill_said(
            program,
            lattice,
            construct,
            slot,
            value,
        ) is None <==> program.type_at(id) == Type::Error || lattice.admits(
            program.type_at(id),
            slot.field_ty,
        )),
        value matches FillValue::One(id, _) ==> entry == Some(id) && (fill_said(
            program,
            lattice,
            construct,
            slot,
            value,
        ) is None <==> lattice.admits(program.type_at(id), slot.element_ty)),
        value matches FillValue::List(id) ==> entry == Some(id) && fill_said(
            program,
            lattice,
            construct,
            slot,
            value,
        ) is None,
        value is Refused ==> entry is Some && program.at(entry->0) == HirExpr::Error && fill_said(
            program,
            lattice,
            construct,
            slot,
            value,
        ) is Some,
{
}

proof fn lemma_first_fill_at(fills: Seq<SlotFill>, slot: int, count: int, i: int)
    requires
        0 <= i < count <= fills.len(),
        fills[i].slot == slot,
        forall|j: int| 0 <= j < i ==> (#[trigger] fills[j]).slot != slot,
    ensures
        first_fill(fills, slot, count) == Some(fills[i].value),
    decreases count,
{
    if i < count - 1 {
        lemma_first_fill_at(fills, slot, count - 1, i);
    } else {
        lemma_no_fill(fills, slot, i);
    }
}

proof fn lemma_no_fill(fills: Seq<SlotFill>, slot: int, count: int)
    requires
        count <= fills.len(),
        forall|j: int| 0 <= j < count ==> (#[trigger] fills[j]).slot != slot,
    ensures
        first_fill(fills, slot, count) is None,
    decreases count,
{
    if count > 0 {
        lemma_no_fill(fills, slot, count - 1);
    }
}

/// A slot ends up with what the first run of content for it puts there, and with what its
/// field held where there is none.
pub proof fn a_slot_holds_its_first_fill(
    program: &HirProgram,
    slots: Seq<ContentSlot>,
    fills: Seq<SlotFill>,
    trace: Seq<SlotFilling>,
    k: int,
    i: int,
)
    requires
        slots_apart(slots),
        fills_settled(program, slots, fills, trace),
        0 <= k < slots.len(),
    ensures
        ({
            let entry = trace.last().entries@[slots[k].field_index as int];
            &&& 0 <= i < fills.len() && fills[i].slot == k && (forall|j: int|
                0 <= j < i ==> (#[trigger] fills[j]).slot != k) ==> match fills[i].value {
                FillValue::Value(id, _) => entry == Some(id),
                FillValue::One(id, _) => entry == Some(id),
                FillValue::List(id) => entry == Some(id),
                FillValue::Refused(_, _) => entry is Some && program.at(entry->0) == HirExpr::Error,
            }
            &&& (forall|j: int| 0 <= j < fills.len() ==> (#[trigger] fills[j]).slot != k) ==> entry
                == trace[0].entries@[slots[k].field_index as int]
        }),
{
    the_first_fill_stays(program, slots, fills, trace);
    if 0 <= i < fills.len() && fills[i].slot == k && (forall|j: int|
        0 <= j < i ==> (#[trigger] fills[j]).slot != k) {
        lemma_first_fill_at(fills, k, fills.len() as int, i);
    }
    if forall|j: int| 0 <= j < fills.len() ==> (#[trigger] fills[j]).slot != k {
        lemma_no_fill(fills, k, fills.len() as int);
    }
}

} // verus!
