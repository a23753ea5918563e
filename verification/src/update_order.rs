//! A construct update as a whole: the order its overrides are analyzed in, and what
//! they come to once they are.

use vstd::prelude::*;

use crate::arguments::carried;
use crate::child_slots::{left_empty, slots_apart};
use crate::coercion::{admits, coerce_into, coerced};
use crate::diagnostics::{Log, Problem};
use crate::families::ContentSlot;
use crate::fn_types::FnTypeTable;
use crate::hir::{HirExpr, HirExprId, HirProgram};
use crate::lattice::Lattice;
use crate::slot_fills::{
    fills_settled, first_fill, no_slot, put_into, the_first_fill_stays, SlotFill, SlotFilling,
};
use crate::source::Span;
use crate::ty::{FieldDef, FieldName, StructId, Type, TypeTable};
use crate::updates::{
    active_at, concrete_or_plain_struct, construct_field_reads, dropped_overrides, ending,
    find_ending, has_field, kept_overrides, longest, marked, matching, select_matching, starts_field, untouched_fields_are_copied, updatable, update_cost,
    update_struct_fields, updated, UpdateOverride, UpdateTables,
};

verus! {

/// What the value of an override is for.
#[derive(Clone, Copy, PartialEq, Eq, Structural, Debug)]
pub enum OverrideRole {
    /// It becomes the value of this field, and is analyzed against its type.
    Writes { field: FieldName, ty: Type },
    /// Its path leads through a type that has no fields, and goes on at this segment.
    Blocked { ty: Type, from: usize },
    /// Its path names no field of a type, at this segment.
    Missing { ty: Type, from: usize },
    /// Nothing: it is analyzed for what it says itself.
    Unused,
}

impl OverrideRole {
    /// The type an override's value is analyzed against.
    pub fn expected(self) -> (ty: Option<Type>)
        ensures
            ty == match self {
                OverrideRole::Writes { ty, .. } => Some(ty),
                _ => None,
            },
    {
        match self {
            OverrideRole::Writes { ty, .. } => Some(ty),
            _ => None,
        }
    }
}

/// What an override is refused for once its value, of type `found`, is analyzed.
pub open spec fn override_said(
    lattice: &Lattice,
    entry: UpdateOverride,
    role: OverrideRole,
    found: Type,
) -> Option<(Span, Problem)> {
    match role {
        OverrideRole::Writes { field, ty } => if lattice.admits(found, ty) {
            None
        } else {
            Some((entry.span, Problem::UpdateMismatch { field, expected: ty, found }))
        },
        OverrideRole::Blocked { ty, from } => Some(
            (entry.label_span, Problem::UpdateCannotDescend { ty, label: entry.label, from }),
        ),
        OverrideRole::Missing { ty, from } => Some(
            (entry.label_span, Problem::UpdateNoPath { ty, label: entry.label, from }),
        ),
        OverrideRole::Unused => None,
    }
}

/// Settles one override, its value having just been analyzed: what the value is
/// refused for is reported, and one that writes a field is carried into its type.
pub fn settle_override(
    program: &mut HirProgram,
    lattice: &Lattice,
    entry: &UpdateOverride,
    role: OverrideRole,
    value: HirExprId,
    log: &mut Log,
) -> (settled: HirExprId)
    requires
        old(program).has_expr(value),
        old(program).exprs@.len() < u32::MAX,
    ensures
        final(program).built_on(old(program)),
        match role {
            OverrideRole::Writes { ty, .. } => coerced(
                old(program),
                final(program),
                lattice,
                value,
                ty,
                settled,
            ) && carried(final(program), final(program), lattice, value, ty, settled),
            _ => settled == value && *final(program) == *old(program),
        },
        final(program).has_expr(settled),
        final(log).source == old(log).source,
        match override_said(lattice, *entry, role, old(program).type_at(value)) {
            Some((span, problem)) => final(log).reported(old(log), old(log).source, span, problem),
            None => final(log).quiet(old(log)),
        },
{
    match role {
        OverrideRole::Writes { field, ty } => {
            let found = program.type_of(value);
            if !admits(lattice, found, ty) {
                log.emit(entry.span, Problem::UpdateMismatch { field, expected: ty, found });
            }
            let settled = coerce_into(program, lattice, value, ty);
            assert(program.at(value) == old(program).at(value));
            settled
        },
        OverrideRole::Blocked { ty, from } => {
            log.emit(
                entry.label_span,
                Problem::UpdateCannotDescend { ty, label: entry.label, from },
            );
            value
        },
        OverrideRole::Missing { ty, from } => {
            log.emit(entry.label_span, Problem::UpdateNoPath { ty, label: entry.label, from });
            value
        },
        OverrideRole::Unused => value,
    }
}

/// An override in analysis order was settled: one that writes a field was carried into
/// its type.
pub open spec fn role_carried(
    program: &HirProgram,
    tables: &UpdateTables,
    entry: (usize, OverrideRole),
) -> bool {
    entry.1 matches OverrideRole::Writes { ty, .. } ==> {
        let value = tables.values@[entry.0 as int];
        let settled = tables.settled@[entry.0 as int];
        &&& program.has_expr(value)
        &&& program.has_expr(settled)
        &&& carried(program, program, tables.lattice, value, ty, settled)
    }
}

/// Every override of `order` was settled.
pub open spec fn carries_all(
    program: &HirProgram,
    tables: &UpdateTables,
    order: Seq<(usize, OverrideRole)>,
) -> bool {
    forall|k: int| 0 <= k < order.len() ==> role_carried(program, tables, #[trigger] order[k])
}

/// Overrides that all have one role.
pub open spec fn alike(list: Seq<usize>, role: OverrideRole) -> Seq<(usize, OverrideRole)> {
    list.map_values(|k: usize| (k, role))
}

/// Those of the first `count` active overrides whose path names no field of `id`.
pub open spec fn nowhere(
    types: &TypeTable,
    overrides: Seq<UpdateOverride>,
    id: StructId,
    active: Seq<usize>,
    depth: int,
    count: int,
) -> Seq<(usize, OverrideRole)>
    decreases count,
{
    if count <= 0 {
        Seq::empty()
    } else {
        let before = nowhere(types, overrides, id, active, depth, count - 1);
        if starts_field(types.fields(id), overrides[active[count - 1] as int].path@[depth]) {
            before
        } else {
            before.push(
                (
                    active[count - 1],
                    OverrideRole::Missing { ty: Type::Struct(id), from: depth as usize },
                ),
            )
        }
    }
}

/// The active overrides of the first `count` fields of `id`, in the order they are
/// analyzed, each with what its value is for.
pub open spec fn field_order(
    types: &TypeTable,
    fn_types: &FnTypeTable,
    overrides: Seq<UpdateOverride>,
    id: StructId,
    active: Seq<usize>,
    depth: int,
    count: int,
    limit: nat,
) -> Seq<(usize, OverrideRole)>
    decreases limit, count,
{
    if count <= 0 {
        Seq::empty()
    } else {
        let declared = types.fields(id)[count - 1];
        let list = matching(overrides, active, depth, declared.name, active.len() as int);
        let before = field_order(
            types,
            fn_types,
            overrides,
            id,
            active,
            depth,
            count - 1,
            limit,
        );
        if list.len() == 0 {
            before
        } else {
            match (ending(overrides, list, depth, 0), updatable(fn_types, declared.ty)) {
                (Some(k), _) => before.push(
                    (k, OverrideRole::Writes { field: declared.name, ty: declared.ty }),
                ),
                (None, None) => before + alike(
                    list,
                    OverrideRole::Blocked { ty: declared.ty, from: (depth + 1) as usize },
                ),
                (None, Some(nested)) => if limit > 0 {
                    before + field_order(
                        types,
                        fn_types,
                        overrides,
                        nested,
                        list,
                        depth + 1,
                        types.fields(nested).len() as int,
                        (limit - 1) as nat,
                    ) + nowhere(types, overrides, nested, list, depth + 1, list.len() as int)
                } else {
                    before
                },
            }
        }
    }
}

/// Every override of an update with what its value is for, in analysis order: those that are applied by the field they write, fields in declaration order
/// and paths that name no field behind them, and then those an earlier one overlaps.
pub open spec fn order_of(
    types: &TypeTable,
    fn_types: &FnTypeTable,
    overrides: Seq<UpdateOverride>,
    ty: Type,
    invalid: Seq<bool>,
) -> Seq<(usize, OverrideRole)> {
    let kept = marked(invalid, false, invalid.len() as int);
    let dropped = marked(invalid, true, invalid.len() as int);
    (match updatable(fn_types, ty) {
        None => alike(kept, OverrideRole::Unused),
        Some(id) => field_order(
            types,
            fn_types,
            overrides,
            id,
            kept,
            0,
            types.fields(id).len() as int,
            longest(overrides, overrides.len() as int),
        ) + nowhere(types, overrides, id, kept, 0, kept.len() as int),
    }) + alike(dropped, OverrideRole::Unused)
}

fn list_alike(order: &mut Vec<(usize, OverrideRole)>, list: &Vec<usize>, role: OverrideRole)
    ensures
        final(order)@ == old(order)@ + alike(list@, role),
{
    let ghost start = order@;
    let mut i: usize = 0;
    assert(order@ =~= start + alike(list@.take(0), role));
    while i < list.len()
        invariant
            i <= list@.len(),
            order@ == start + alike(list@.take(i as int), role),
        decreases list@.len() - i,
    {
        order.push((list[i], role));
        i += 1;
        assert(order@ =~= start + alike(list@.take(i as int), role));
    }
    assert(list@.take(i as int) =~= list@);
}

fn list_nowhere(
    order: &mut Vec<(usize, OverrideRole)>,
    types: &TypeTable,
    overrides: &Vec<UpdateOverride>,
    id: StructId,
    active: &Vec<usize>,
    depth: usize,
    Ghost(limit): Ghost<int>,
)
    requires
        active_at(overrides@, active@, depth as int, limit),
    ensures
        final(order)@ == old(order)@ + nowhere(
            types,
            overrides@,
            id,
            active@,
            depth as int,
            active@.len() as int,
        ),
{
    let ghost start = order@;
    let mut i: usize = 0;
    assert(order@ =~= start + nowhere(types, overrides@, id, active@, depth as int, 0));
    while i < active.len()
        invariant
            i <= active@.len(),
            active_at(overrides@, active@, depth as int, limit),
            order@ == start + nowhere(types, overrides@, id, active@, depth as int, i as int),
        decreases active@.len() - i,
    {
        assert(active@[i as int] < overrides@.len());
        if !has_field(types, id, overrides[active[i]].path[depth]) {
            order.push(
                (active[i], OverrideRole::Missing { ty: Type::Struct(id), from: depth }),
            );
        }
        i += 1;
        assert(order@ =~= start + nowhere(
            types,
            overrides@,
            id,
            active@,
            depth as int,
            i as int,
        ));
    }
}

fn order_level(
    order: &mut Vec<(usize, OverrideRole)>,
    types: &TypeTable,
    fn_types: &FnTypeTable,
    overrides: &Vec<UpdateOverride>,
    id: StructId,
    active: &Vec<usize>,
    depth: usize,
    limit: usize,
)
    requires
        active_at(overrides@, active@, depth as int, limit as int),
        depth + limit < usize::MAX,
    ensures
        final(order)@ == old(order)@ + field_order(
            types,
            fn_types,
            overrides@,
            id,
            active@,
            depth as int,
            types.fields(id).len() as int,
            limit as nat,
        ) + nowhere(types, overrides@, id, active@, depth as int, active@.len() as int),
    decreases limit,
{
    let ghost start = order@;
    let count: usize = if (id.0 as usize) < types.structs.len() {
        types.structs[id.0 as usize].fields.len()
    } else {
        0
    };
    let mut i: usize = 0;
    assert(order@ =~= start + field_order(
        types,
        fn_types,
        overrides@,
        id,
        active@,
        depth as int,
        0,
        limit as nat,
    ));
    while i < count
        invariant
            i <= count,
            count == types.fields(id).len(),
            active_at(overrides@, active@, depth as int, limit as int),
            depth + limit < usize::MAX,
            order@ == start + field_order(
                types,
                fn_types,
                overrides@,
                id,
                active@,
                depth as int,
                i as int,
                limit as nat,
            ),
        decreases count - i,
    {
        let ghost held = order@;
        let declared: FieldDef = types.structs[id.0 as usize].fields[i];
        assert(declared == types.fields(id)[i as int]);
        let list = select_matching(overrides, active, depth, declared.name, Ghost(limit as int));
        if list.len() > 0 {
            match find_ending(overrides, &list, depth, Ghost(limit as int)) {
                Some(k) => {
                    order.push(
                        (k, OverrideRole::Writes { field: declared.name, ty: declared.ty }),
                    );
                },
                None => match concrete_or_plain_struct(fn_types, declared.ty) {
                    None => {
                        list_alike(
                            order,
                            &list,
                            OverrideRole::Blocked { ty: declared.ty, from: depth + 1 },
                        );
                    },
                    Some(nested) => {
                        assert(limit > 0) by {
                            assert(overrides@[list@[0] as int].path@.len() > depth + 1);
                            assert(list@[0] < overrides@.len());
                        }
                        order_level(
                            order,
                            types,
                            fn_types,
                            overrides,
                            nested,
                            &list,
                            depth + 1,
                            limit - 1,
                        );
                    },
                },
            }
        }
        i += 1;
        assert(order@ =~= start + field_order(
            types,
            fn_types,
            overrides@,
            id,
            active@,
            depth as int,
            i as int,
            limit as nat,
        ));
    }
    list_nowhere(order, types, overrides, id, active, depth, Ghost(limit as int));
}

fn longest_path(overrides: &Vec<UpdateOverride>) -> (limit: usize)
    ensures
        limit == longest(overrides@, overrides@.len() as int),
        forall|k: int|
            0 <= k < overrides@.len() ==> (#[trigger] overrides@[k]).path@.len() <= limit,
{
    let mut limit: usize = 0;
    let mut i: usize = 0;
    while i < overrides.len()
        invariant
            i <= overrides@.len(),
            limit == longest(overrides@, i as int),
            forall|k: int| 0 <= k < i ==> (#[trigger] overrides@[k]).path@.len() <= limit,
        decreases overrides@.len() - i,
    {
        if overrides[i].path.len() > limit {
            limit = overrides[i].path.len();
        }
        i += 1;
    }
    limit
}

/// Lists every override of an update with what its value is for, in the order the
/// values are analyzed.
pub fn update_order(
    types: &TypeTable,
    fn_types: &FnTypeTable,
    overrides: &Vec<UpdateOverride>,
    ty: Type,
    invalid: &Vec<bool>,
) -> (order: Vec<(usize, OverrideRole)>)
    requires
        invalid@.len() == overrides@.len(),
        forall|k: int|
            0 <= k < overrides@.len() ==> (#[trigger] overrides@[k]).path@.len() > 0,
        longest(overrides@, overrides@.len() as int) < usize::MAX,
    ensures
        order@ == order_of(types, fn_types, overrides@, ty, invalid@),
{
    let kept = kept_overrides(overrides, invalid);
    let dropped = dropped_overrides(invalid);
    let mut order: Vec<(usize, OverrideRole)> = Vec::new();
    match concrete_or_plain_struct(fn_types, ty) {
        None => {
            list_alike(&mut order, &kept, OverrideRole::Unused);
            assert(order@ =~= alike(kept@, OverrideRole::Unused));
        },
        Some(id) => {
            let limit = longest_path(overrides);
            assert(active_at(overrides@, kept@, 0, limit as int));
            order_level(&mut order, types, fn_types, overrides, id, &kept, 0, limit);
            assert(order@ =~= field_order(
                types,
                fn_types,
                overrides@,
                id,
                kept@,
                0,
                types.fields(id).len() as int,
                limit as nat,
            ) + nowhere(types, overrides@, id, kept@, 0, kept@.len() as int));
        },
    }
    list_alike(&mut order, &dropped, OverrideRole::Unused);
    order
}

/// Reads every field of the value `base` that an update copies, in declaration order.
pub fn begin_copy(program: &mut HirProgram, id: StructId, base: HirExprId) -> (entries: Vec<
    Option<HirExprId>,
>)
    requires
        old(program).exprs@.len() + old(program).types.fields(id).len() <= u32::MAX,
    ensures
        final(program).built_on(old(program)),
        final(program).stmts == old(program).stmts,
        final(program).exprs@.len() == old(program).exprs@.len() + old(program).types.fields(
            id,
        ).len(),
        copies_fields(final(program), entries@, base, old(program).types.fields(id)),
{
    let reads = construct_field_reads(program, id, base);
    let mut entries: Vec<Option<HirExprId>> = Vec::new();
    let mut i: usize = 0;
    while i < reads.len()
        invariant
            i <= reads@.len(),
            entries@.len() == i,
            forall|k: int| 0 <= k < i ==> #[trigger] entries@[k] == Some(reads@[k]),
        decreases reads@.len() - i,
    {
        entries.push(Some(reads[i]));
        i += 1;
    }
    entries
}

/// Every entry reads its field of `base`.
pub open spec fn copies_fields(
    program: &HirProgram,
    entries: Seq<Option<HirExprId>>,
    base: HirExprId,
    fields: Seq<FieldDef>,
) -> bool {
    &&& entries.len() == fields.len()
    &&& forall|i: int|
        0 <= i < entries.len() ==> (#[trigger] entries[i] matches Some(read) && program.has_expr(
            read,
        ) && program.at(read) == (HirExpr::Field { base, index: i as u32, ty: fields[i].ty }))
}

/// `result` is a copy of the value whose fields hold `entries`, with the overrides that
/// `kept` lists applied.
pub open spec fn update_made(
    program: &HirProgram,
    types: &TypeTable,
    tables: &UpdateTables,
    id: StructId,
    kept: Seq<usize>,
    entries: Seq<HirExprId>,
    result: HirExprId,
) -> bool {
    &&& program.has_expr(result)
    &&& (program.at(result) matches HirExpr::StructNew { struct_id, fields } && struct_id == id
        && fields@.len() == entries.len() && updated(
        program,
        types,
        tables,
        id,
        entries,
        fields@,
        kept,
        0,
        entries.len() as int,
        longest(tables.overrides@, tables.overrides@.len() as int),
    ))
}

/// What the fields hold, each of them holding something.
pub open spec fn given(entries: Seq<Option<HirExprId>>) -> Seq<HirExprId> {
    entries.map_values(|entry: Option<HirExprId>| entry->0)
}

fn fields_given(entries: &Vec<Option<HirExprId>>) -> (list: Vec<HirExprId>)
    requires
        forall|k: int| 0 <= k < entries@.len() ==> (#[trigger] entries@[k]) is Some,
    ensures
        list@ == given(entries@),
{
    let mut list: Vec<HirExprId> = Vec::new();
    let mut i: usize = 0;
    while i < entries.len()
        invariant
            i <= entries@.len(),
            forall|k: int| 0 <= k < entries@.len() ==> (#[trigger] entries@[k]) is Some,
            list@ == given(entries@).take(i as int),
        decreases entries@.len() - i,
    {
        assert(entries@[i as int] is Some);
        if let Some(id) = entries[i] {
            list.push(id);
        }
        i += 1;
        assert(list@ =~= given(entries@).take(i as int));
    }
    assert(given(entries@).take(i as int) =~= given(entries@));
    list
}

/// Completes an update of a value whose fields hold `entries`, its child slots filled
/// and its overrides settled: the overrides that no earlier one overlaps are applied.
pub fn complete_update(
    program: &mut HirProgram,
    tables: &UpdateTables,
    id: StructId,
    entries: &Vec<Option<HirExprId>>,
    invalid: &Vec<bool>,
) -> (result: HirExprId)
    requires
        updatable(tables.fn_types, Type::Struct(id)) is Some,
        entries@.len() == old(program).types.fields(id).len(),
        forall|k: int| 0 <= k < entries@.len() ==> (#[trigger] entries@[k]) is Some,
        invalid@.len() == tables.overrides@.len(),
        tables.values@.len() == tables.overrides@.len(),
        tables.settled@.len() == tables.overrides@.len(),
        forall|k: int|
            0 <= k < tables.overrides@.len() ==> (#[trigger] tables.overrides@[k]).path@.len() > 0,
        carries_all(
            old(program),
            tables,
            order_of(
                &old(program).types,
                tables.fn_types,
                tables.overrides@,
                Type::Struct(id),
                invalid@,
            ),
        ),
        longest(tables.overrides@, tables.overrides@.len() as int) < usize::MAX,
        old(program).exprs@.len() < u32::MAX,
        old(program).exprs@.len() + update_cost(
            &old(program).types,
            tables,
            id,
            marked(invalid@, false, invalid@.len() as int),
            0,
            old(program).types.fields(id).len() as int,
            longest(tables.overrides@, tables.overrides@.len() as int),
        ) < u32::MAX,
    ensures
        final(program).built_on(old(program)),
        update_made(
            final(program),
            &old(program).types,
            tables,
            id,
            marked(invalid@, false, invalid@.len() as int),
            given(entries@),
            result,
        ),
{
    let kept = kept_overrides(tables.overrides, invalid);
    let list = fields_given(entries);
    proof {
        let types = &program.types;
        let order = order_of(
            types,
            tables.fn_types,
            tables.overrides@,
            Type::Struct(id),
            invalid@,
        );
        let applied = field_order(
            types,
            tables.fn_types,
            tables.overrides@,
            id,
            kept@,
            0,
            types.fields(id).len() as int,
            longest(tables.overrides@, tables.overrides@.len() as int),
        );
        assert forall|k: int| 0 <= k < applied.len() implies role_carried(
            program,
            tables,
            #[trigger] applied[k],
        ) by {
            assert(order[k] == applied[k]);
        }
    }
    update_struct_fields(program, tables, Type::Struct(id), &list, &kept)
}

/// `entries` is what the fields hold once the child slots were restated: what was read,
/// and what the first fill of a slot put there.
pub open spec fn restated(
    program: &HirProgram,
    reads: Seq<Option<HirExprId>>,
    slots: Seq<ContentSlot>,
    fills: Seq<SlotFill>,
    entries: Seq<Option<HirExprId>>,
) -> bool {
    &&& entries.len() == reads.len()
    &&& forall|index: int|
        0 <= index < reads.len() && no_slot(slots, index) ==> #[trigger] entries[index]
            == reads[index]
    &&& forall|k: int|
        0 <= k < slots.len() ==> {
            let index = (#[trigger] slots[k]).field_index as int;
            match first_fill(fills, k, fills.len() as int) {
                Some(value) => put_into(program, value, entries[index]),
                None => entries[index] == reads[index],
            }
        }
}

/// Filling the slots of a copy restates them: every field holds something all along,
/// and a slot nobody filled keeps what was read.
pub proof fn filling_restates(
    program: &HirProgram,
    slots: Seq<ContentSlot>,
    fills: Seq<SlotFill>,
    trace: Seq<SlotFilling>,
)
    requires
        slots_apart(slots),
        fills_settled(program, slots, fills, trace),
        forall|k: int| 0 <= k < trace[0].entries@.len() ==> (#[trigger] trace[0].entries@[k]) is Some,
    ensures
        restated(program, trace[0].entries@, slots, fills, trace.last().entries@),
        forall|k: int|
            0 <= k < trace.last().entries@.len() ==> (#[trigger] trace.last().entries@[k]) is Some,
        forall|k: int|
            0 <= k < slots.len() ==> !left_empty(
                #[trigger] slots[k],
                trace.last().filled@[k],
                trace.last().entries@,
            ),
{
    the_first_fill_stays(program, slots, fills, trace);
    let entries = trace.last().entries@;
    assert forall|index: int| 0 <= index < entries.len() implies (#[trigger] entries[index])
        is Some by {
        assert(trace[0].entries@[index] is Some);
        if !no_slot(slots, index) {
            let k = choose|k: int| 0 <= k < slots.len() && (#[trigger] slots[k]).field_index == index;
            assert(slots[k].field_index == index);
        } else {
            assert(trace.last().entries@[index] == trace[0].entries@[index]);
        }
    }
}

/// A field that no applied override's path starts and that no fill restates is read from
/// the value being updated.
pub proof fn unmentioned_fields_are_read(
    program: &HirProgram,
    types: &TypeTable,
    tables: &UpdateTables,
    id: StructId,
    base: HirExprId,
    slots: Seq<ContentSlot>,
    fills: Seq<SlotFill>,
    kept: Seq<usize>,
    reads: Seq<Option<HirExprId>>,
    entries: Seq<Option<HirExprId>>,
    result: HirExprId,
    at: int,
)
    requires
        copies_fields(program, reads, base, types.fields(id)),
        restated(program, reads, slots, fills, entries),
        update_made(program, types, tables, id, kept, given(entries), result),
        0 <= at < types.fields(id).len(),
        forall|k: int|
            0 <= k < kept.len() ==> FieldName::Plain(
                tables.overrides@[(#[trigger] kept[k]) as int].path@[0],
            ) != types.fields(id)[at].name,
        forall|k: int|
            0 <= k < slots.len() && (#[trigger] slots[k]).field_index == at ==> first_fill(
                fills,
                k,
                fills.len() as int,
            ) is None,
    ensures
        (program.at(result) matches HirExpr::StructNew { fields, .. } && program.at(fields@[at])
            == (HirExpr::Field { base, index: at as u32, ty: types.fields(id)[at].ty })),
{
    let fields = program.at(result)->StructNew_fields@;
    let list = given(entries);
    untouched_fields_are_copied(
        program,
        types,
        tables,
        id,
        list,
        fields,
        kept,
        0,
        list.len() as int,
        longest(tables.overrides@, tables.overrides@.len() as int),
        at,
    );
    if !no_slot(slots, at) {
        let k = choose|k: int| 0 <= k < slots.len() && (#[trigger] slots[k]).field_index == at;
        assert(slots[k].field_index == at);
    }
    assert(entries[at] == reads[at]);
    assert(reads[at] is Some);
}

/// A child slot whose content was refused holds the error node in the copy, unless an
/// override writes it.
pub proof fn refused_content_is_an_error(
    program: &HirProgram,
    types: &TypeTable,
    tables: &UpdateTables,
    id: StructId,
    slots: Seq<ContentSlot>,
    fills: Seq<SlotFill>,
    kept: Seq<usize>,
    reads: Seq<Option<HirExprId>>,
    entries: Seq<Option<HirExprId>>,
    result: HirExprId,
    slot: int,
)
    requires
        reads.len() == types.fields(id).len(),
        restated(program, reads, slots, fills, entries),
        update_made(program, types, tables, id, kept, given(entries), result),
        0 <= slot < slots.len(),
        slots[slot].field_index < types.fields(id).len(),
        (first_fill(fills, slot, fills.len() as int) matches Some(value) && value is Refused),
        forall|k: int|
            0 <= k < kept.len() ==> FieldName::Plain(
                tables.overrides@[(#[trigger] kept[k]) as int].path@[0],
            ) != types.fields(id)[slots[slot].field_index as int].name,
    ensures
        (program.at(result) matches HirExpr::StructNew { fields, .. } && program.at(
            fields@[slots[slot].field_index as int],
        ) == HirExpr::Error),
{
    let fields = program.at(result)->StructNew_fields@;
    let list = given(entries);
    let at = slots[slot].field_index as int;
    untouched_fields_are_copied(
        program,
        types,
        tables,
        id,
        list,
        fields,
        kept,
        0,
        list.len() as int,
        longest(tables.overrides@, tables.overrides@.len() as int),
        at,
    );
    assert(fields[at] == list[at]);
}

/// An override is refused nothing exactly if it writes a field whose type admits its
/// value, or is used for nothing; a value that does not fit is blamed itself, and a path
/// that leads nowhere at its label.
pub proof fn a_silent_override_fits(
    lattice: &Lattice,
    entry: UpdateOverride,
    role: OverrideRole,
    found: Type,
)
    ensures
        override_said(lattice, entry, role, found) is None <==> {
            ||| role is Unused
            ||| role matches OverrideRole::Writes { ty, .. } && lattice.assignable@.contains(
                (found, ty),
            )
        },
        override_said(lattice, entry, role, found) matches Some((at, _)) ==> at == if role
            is Writes {
            entry.span
        } else {
            entry.label_span
        },
{
}

proof fn lemma_nowhere(
    types: &TypeTable,
    overrides: Seq<UpdateOverride>,
    id: StructId,
    active: Seq<usize>,
    depth: int,
    count: int,
    j: int,
)
    requires
        0 <= count <= active.len(),
        0 <= depth <= usize::MAX,
    ensures
        ({
            let list = nowhere(types, overrides, id, active, depth, count);
            &&& 0 <= j < count && !starts_field(
                types.fields(id),
                overrides[active[j] as int].path@[depth],
            ) ==> list.contains(
                (
                    active[j],
                    OverrideRole::Missing { ty: Type::Struct(id), from: depth as usize },
                ),
            )
            &&& 0 <= j < list.len() ==> !starts_field(
                types.fields(id),
                overrides[list[j].0 as int].path@[depth],
            ) && list[j].1 == (OverrideRole::Missing {
                ty: Type::Struct(id),
                from: depth as usize,
            })
        }),
    decreases count,
{
    if count > 0 {
        lemma_nowhere(types, overrides, id, active, depth, count - 1, j);
        let before = nowhere(types, overrides, id, active, depth, count - 1);
        let list = nowhere(types, overrides, id, active, depth, count);
        if 0 <= j < count && !starts_field(
            types.fields(id),
            overrides[active[j] as int].path@[depth],
        ) {
            let entry = (
                active[j],
                OverrideRole::Missing { ty: Type::Struct(id), from: depth as usize },
            );
            if j < count - 1 {
                let i = choose|i: int| 0 <= i < before.len() && before[i] == entry;
                assert(list[i] == entry);
            } else {
                assert(list[list.len() - 1] == entry);
            }
        }
        if 0 <= j < before.len() {
            assert(list[j] == before[j]);
        }
    }
}

/// An override is said to lead nowhere exactly if the next segment of its path names no
/// field of the struct it has come to.
pub proof fn only_a_path_without_a_field_leads_nowhere(
    types: &TypeTable,
    overrides: Seq<UpdateOverride>,
    id: StructId,
    active: Seq<usize>,
    depth: int,
    j: int,
)
    requires
        0 <= depth <= usize::MAX,
    ensures
        ({
            let list = nowhere(types, overrides, id, active, depth, active.len() as int);
            &&& 0 <= j < active.len() && (forall|i: int|
                0 <= i < types.fields(id).len() ==> (#[trigger] types.fields(id)[i]).name
                    != FieldName::Plain(overrides[active[j] as int].path@[depth])) ==> list.contains(
                (
                    active[j],
                    OverrideRole::Missing { ty: Type::Struct(id), from: depth as usize },
                ),
            )
            &&& 0 <= j < list.len() ==> forall|i: int|
                0 <= i < types.fields(id).len() ==> (#[trigger] types.fields(id)[i]).name
                    != FieldName::Plain(overrides[list[j].0 as int].path@[depth])
        }),
{
    lemma_nowhere(types, overrides, id, active, depth, active.len() as int, j);
}

/// Every override that writes a field has its value carried into that field's type.
pub proof fn every_written_override_is_carried(
    program: &HirProgram,
    tables: &UpdateTables,
    order: Seq<(usize, OverrideRole)>,
    k: int,
)
    requires
        carries_all(program, tables, order),
        0 <= k < order.len(),
    ensures
        order[k].1 matches OverrideRole::Writes { ty, .. } ==> carried(
            program,
            program,
            tables.lattice,
            tables.values@[order[k].0 as int],
            ty,
            tables.settled@[order[k].0 as int],
        ),
{
    assert(role_carried(program, tables, order[k]));
}

} // verus!
