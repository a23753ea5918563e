//! Building a class's flattened field list.
//!
//! A class's storage is its parents' slots in order, then its own. Four things
//! happen on the way there and they are all about slots: inheriting them,
//! rebinding a default with `override let`, qualifying two parents' same-named
//! slots apart, and saying how a bare name resolves once they are numbered.

use vstd::prelude::*;

use crate::classes::{ClassDecl, ClassFieldDecl, ClassInfo, ClassTable, OverrideFieldDecl, SlotOrigin};
use crate::diagnostics::{noted, Log, Problem};
use crate::source::{SourceId, Span};
use crate::syntax::FieldDefault;
use crate::ty::{FieldName, StructId, Type, TypeTable};

verus! {

/// One field of a class being flattened.
#[derive(Clone, Copy, PartialEq, Eq, Structural, Debug)]
pub struct FlatField {
    /// The type that declared it; `None` for a field this class declares
    /// itself.
    pub owner: Option<StructId>,
    /// The name as written, before any qualification.
    pub plain: FieldName,
    /// The storage name in the flattened struct.
    pub storage: FieldName,
    pub ty: Type,
    pub mutable: bool,
    pub default: Option<FieldDefault>,
}

/// The default of `id`'s field in `slot`, if it has one.
pub open spec fn default_of(
    defaults: Seq<Vec<Option<FieldDefault>>>,
    id: StructId,
    slot: int,
) -> Option<FieldDefault> {
    if id.0 < defaults.len() && slot < defaults[id.0 as int]@.len() {
        defaults[id.0 as int]@[slot]
    } else {
        None
    }
}

/// The default of `id`'s field in `slot`, if it has one.
pub fn field_default(
    defaults: &Vec<Vec<Option<FieldDefault>>>,
    id: StructId,
    slot: usize,
) -> (default: Option<FieldDefault>)
    ensures
        default == default_of(defaults@, id, slot as int),
{
    if (id.0 as usize) < defaults.len() && slot < defaults[id.0 as usize].len() {
        defaults[id.0 as usize][slot]
    } else {
        None
    }
}

/// Where slot `slot` of `parent` came from: what the parent recorded, when it is
/// itself a class, and the parent under the slot's own name otherwise.
pub open spec fn origin_of(
    types: &TypeTable,
    classes: &ClassTable,
    parent: StructId,
    slot: int,
) -> SlotOrigin {
    let own = SlotOrigin { owner: parent, plain: types.fields(parent)[slot].name };
    match classes.info(parent) {
        Some(info) => if slot < info.slot_origin@.len() {
            info.slot_origin@[slot]
        } else {
            own
        },
        None => own,
    }
}

/// Slot `slot` of `parent`, as a class that inherits it carries it.
pub open spec fn inherited_slot(
    types: &TypeTable,
    classes: &ClassTable,
    defaults: Seq<Vec<Option<FieldDefault>>>,
    parent: StructId,
    slot: int,
) -> FlatField {
    let origin = origin_of(types, classes, parent, slot);
    let field = types.fields(parent)[slot];
    FlatField {
        owner: Some(origin.owner),
        plain: origin.plain,
        storage: field.name,
        ty: field.ty,
        mutable: field.mutable,
        default: default_of(defaults, parent, slot),
    }
}

/// Some slot of `flat` is the one `owner` declared as `plain`.
pub open spec fn carries(flat: Seq<FlatField>, owner: Option<StructId>, plain: FieldName) -> bool {
    exists|i: int| 0 <= i < flat.len() && (#[trigger] flat[i]).owner == owner && flat[i].plain == plain
}

/// Some slot of `flat` is written `plain`.
pub open spec fn written(flat: Seq<FlatField>, plain: FieldName) -> bool {
    exists|i: int| 0 <= i < flat.len() && (#[trigger] flat[i]).plain == plain
}

/// `flat` after the first `count` slots of `parent` were inherited, each unless
/// it is there already.
pub open spec fn with_inherited(
    types: &TypeTable,
    classes: &ClassTable,
    defaults: Seq<Vec<Option<FieldDefault>>>,
    flat: Seq<FlatField>,
    parent: StructId,
    count: int,
) -> Seq<FlatField>
    decreases count,
{
    if count <= 0 {
        flat
    } else {
        let before = with_inherited(types, classes, defaults, flat, parent, count - 1);
        let slot = inherited_slot(types, classes, defaults, parent, count - 1);
        if carries(before, slot.owner, slot.plain) {
            before
        } else {
            before.push(slot)
        }
    }
}

/// The slots of the first `count` parents, in order.
pub open spec fn all_inherited(
    types: &TypeTable,
    classes: &ClassTable,
    defaults: Seq<Vec<Option<FieldDefault>>>,
    parents: Seq<StructId>,
    count: int,
) -> Seq<FlatField>
    decreases count,
{
    if count <= 0 {
        Seq::empty()
    } else {
        with_inherited(
            types,
            classes,
            defaults,
            all_inherited(types, classes, defaults, parents, count - 1),
            parents[count - 1],
            types.fields(parents[count - 1]).len() as int,
        )
    }
}

/// A field the class declares itself.
pub open spec fn own_slot(field: ClassFieldDecl, source: SourceId) -> FlatField {
    FlatField {
        owner: None,
        plain: FieldName::Plain(field.name),
        storage: FieldName::Plain(field.name),
        ty: field.ty,
        mutable: field.mutable,
        default: match field.default {
            Some(syntax) => Some(FieldDefault::written(syntax, source)),
            None => None,
        },
    }
}

/// `flat` after the first `count` own fields joined, each whose name is free, and
/// the problem of each whose name is not.
pub open spec fn with_own(
    flat: Seq<FlatField>,
    fields: Seq<ClassFieldDecl>,
    source: SourceId,
    count: int,
) -> (Seq<FlatField>, Seq<(Span, Problem)>)
    decreases count,
{
    if count <= 0 {
        (flat, Seq::empty())
    } else {
        let (before, problems) = with_own(flat, fields, source, count - 1);
        let field = fields[count - 1];
        if written(before, FieldName::Plain(field.name)) {
            (
                before,
                problems.push((field.name_span, Problem::FieldAlreadyInherited { field: field.name })),
            )
        } else {
            (before.push(own_slot(field, source)), problems)
        }
    }
}

/// How many slots are written `plain`.
pub open spec fn times_written(flat: Seq<FlatField>, plain: FieldName) -> nat
    decreases flat.len(),
{
    if flat.len() == 0 {
        0
    } else {
        times_written(flat.drop_last(), plain) + if flat.last().plain == plain {
            1nat
        } else {
            0nat
        }
    }
}

/// The first slot written `plain`.
pub open spec fn first_written(flat: Seq<FlatField>, plain: FieldName) -> int
    decreases flat.len(),
{
    if flat.len() == 0 {
        0
    } else if flat[0].plain == plain {
        0
    } else {
        1 + first_written(flat.drop_first(), plain)
    }
}

/// The problem a restated type makes, if it disagrees with the slot's. A type
/// that failed to resolve already reported.
pub open spec fn restated_problem(entry: OverrideFieldDecl, inherited: Type) -> Seq<(Span, Problem)> {
    match entry.restated {
        Some((ty, span)) if ty != inherited && ty != Type::Error && inherited != Type::Error => seq![
            (span, Problem::OverrideRestatesType { field: entry.name, written: ty, inherited }),
        ],
        _ => Seq::empty(),
    }
}

/// `flat` after one `override let`, and what it reports.
pub open spec fn with_override(
    flat: Seq<FlatField>,
    entry: OverrideFieldDecl,
    source: SourceId,
) -> (Seq<FlatField>, Seq<(Span, Problem)>) {
    let plain = FieldName::Plain(entry.name);
    let times = times_written(flat, plain);
    if times == 0 {
        (flat, seq![(entry.name_span, Problem::OverridesNoField { field: entry.name })])
    } else if times == 1 {
        let slot = first_written(flat, plain);
        (
            flat.update(
                slot,
                FlatField {
                    default: Some(FieldDefault::written(entry.default, source)),
                    ..flat[slot]
                },
            ),
            restated_problem(entry, flat[slot].ty),
        )
    } else {
        (flat, seq![(entry.name_span, Problem::OverrideIsAmbiguous { field: entry.name })])
    }
}

/// `flat` after the first `count` overrides, and what they report.
pub open spec fn with_overrides(
    flat: Seq<FlatField>,
    entries: Seq<OverrideFieldDecl>,
    source: SourceId,
    count: int,
) -> (Seq<FlatField>, Seq<(Span, Problem)>)
    decreases count,
{
    if count <= 0 {
        (flat, Seq::empty())
    } else {
        let (before, problems) = with_overrides(flat, entries, source, count - 1);
        let (after, more) = with_override(before, entries[count - 1], source);
        (after, problems + more)
    }
}

/// The storage name of a slot among `flat`: qualified by its owner where the
/// written name is not its alone.
pub open spec fn storage_name(flat: Seq<FlatField>, field: FlatField) -> FieldName {
    if times_written(flat, field.plain) <= 1 {
        field.storage
    } else {
        match (field.owner, field.plain) {
            (Some(owner), FieldName::Plain(name)) => FieldName::Qualified { owner, name },
            _ => field.storage,
        }
    }
}

/// Every slot with its storage name.
pub open spec fn qualified(flat: Seq<FlatField>) -> Seq<FlatField> {
    flat.map_values(
        |field: FlatField| FlatField { storage: storage_name(flat, field), ..field },
    )
}

/// A class's slots and what building them reports.
pub open spec fn flattened(
    types: &TypeTable,
    classes: &ClassTable,
    defaults: Seq<Vec<Option<FieldDefault>>>,
    declaration: ClassDecl,
    parents: Seq<StructId>,
    source: SourceId,
) -> (Seq<FlatField>, Seq<(Span, Problem)>) {
    let inherited = all_inherited(types, classes, defaults, parents, parents.len() as int);
    let (owned, own_problems) = with_own(
        inherited,
        declaration.fields@,
        source,
        declaration.fields@.len() as int,
    );
    let (overridden, override_problems) = with_overrides(
        owned,
        declaration.overrides@,
        source,
        declaration.overrides@.len() as int,
    );
    (qualified(overridden), own_problems + override_problems)
}

fn flat_carries(flat: &Vec<FlatField>, owner: Option<StructId>, plain: FieldName) -> (res: bool)
    ensures
        res == carries(flat@, owner, plain),
{
    let mut i: usize = 0;
    while i < flat.len()
        invariant
            i <= flat@.len(),
            forall|k: int| 0 <= k < i ==> !((#[trigger] flat@[k]).owner == owner && flat@[k].plain == plain),
        decreases flat@.len() - i,
    {
        if flat[i].owner == owner && flat[i].plain == plain {
            return true;
        }
        i += 1;
    }
    false
}

/// Copies one parent's fields into the flattened list, skipping a slot the list
/// already carries: a diamond inherits one copy of the shared base.
pub fn inherit_fields(
    types: &TypeTable,
    classes: &ClassTable,
    defaults: &Vec<Vec<Option<FieldDefault>>>,
    parent: StructId,
    flat: &mut Vec<FlatField>,
)
    ensures
        final(flat)@ == with_inherited(
            types,
            classes,
            defaults@,
            old(flat)@,
            parent,
            types.fields(parent).len() as int,
        ),
{
    if (parent.0 as usize) >= types.structs.len() {
        return;
    }
    let row = classes.find(parent);
    let mut slot: usize = 0;
    while slot < types.structs[parent.0 as usize].fields.len()
        invariant
            parent.0 < types.structs@.len(),
            slot <= types.fields(parent).len(),
            match row {
                Some(i) => i < classes.classes@.len() && classes.info(parent) == Some(
                    classes.classes@[i as int],
                ),
                None => classes.info(parent) is None,
            },
            flat@ == with_inherited(
                types,
                classes,
                defaults@,
                old(flat)@,
                parent,
                slot as int,
            ),
        decreases types.fields(parent).len() - slot,
    {
        let field = types.structs[parent.0 as usize].fields[slot];
        let own = SlotOrigin { owner: parent, plain: field.name };
        let origin = match row {
            Some(i) => if slot < classes.classes[i].slot_origin.len() {
                classes.classes[i].slot_origin[slot]
            } else {
                own
            },
            None => own,
        };
        if !flat_carries(flat, Some(origin.owner), origin.plain) {
            flat.push(
                FlatField {
                    owner: Some(origin.owner),
                    plain: origin.plain,
                    storage: field.name,
                    ty: field.ty,
                    mutable: field.mutable,
                    default: field_default(defaults, parent, slot),
                },
            );
        }
        slot += 1;
    }
}

fn is_written(flat: &Vec<FlatField>, plain: FieldName) -> (res: bool)
    ensures
        res == written(flat@, plain),
{
    let mut i: usize = 0;
    while i < flat.len()
        invariant
            i <= flat@.len(),
            forall|k: int| 0 <= k < i ==> (#[trigger] flat@[k]).plain != plain,
        decreases flat@.len() - i,
    {
        if flat[i].plain == plain {
            return true;
        }
        i += 1;
    }
    false
}

/// How many slots are written `plain`, and the first of them.
fn matches(flat: &Vec<FlatField>, plain: FieldName) -> (res: (usize, usize))
    ensures
        res.0 == times_written(flat@, plain),
        res.0 > 0 ==> res.1 == first_written(flat@, plain) && res.1 < flat@.len(),
{
    let mut count: usize = 0;
    let mut first: usize = 0;
    let mut i: usize = 0;
    assert(flat@.skip(0) =~= flat@);
    while i < flat.len()
        invariant
            i <= flat@.len(),
            count <= i,
            count == times_written(flat@.take(i as int), plain),
            count == 0 ==> first_written(flat@, plain) == i + first_written(
                flat@.skip(i as int),
                plain,
            ),
            count > 0 ==> first == first_written(flat@, plain) && first < flat@.len(),
        decreases flat@.len() - i,
    {
        assert(flat@.take(i + 1).drop_last() =~= flat@.take(i as int));
        assert(flat@.skip(i as int).drop_first() =~= flat@.skip(i + 1));
        if flat[i].plain == plain {
            if count == 0 {
                first = i;
            }
            count += 1;
        }
        i += 1;
    }
    assert(flat@.take(i as int) =~= flat@);
    (count, first)
}

/// Checks a restated `override let name: T = …` type against the slot it rebinds:
/// an override keeps the type it rebinds.
fn check_override_type(entry: &OverrideFieldDecl, inherited: Type, log: &mut Log)
    ensures
        final(log).source == old(log).source,
        final(log).diagnostics@ == old(log).diagnostics@ + noted(
            old(log).source,
            restated_problem(*entry, inherited),
        ),
{
    if let Some((ty, span)) = entry.restated {
        if ty != inherited && ty != Type::Error && inherited != Type::Error {
            log.emit(
                span,
                Problem::OverrideRestatesType { field: entry.name, written: ty, inherited },
            );
        }
    }
    assert(log.diagnostics@ =~= old(log).diagnostics@ + noted(
        old(log).source,
        restated_problem(*entry, inherited),
    ));
}

/// Applies `override let name = value`, replacing the inherited slot's default.
pub fn apply_overrides(entries: &Vec<OverrideFieldDecl>, flat: &mut Vec<FlatField>, log: &mut Log)
    ensures
        final(flat)@ == with_overrides(
            old(flat)@,
            entries@,
            old(log).source,
            entries@.len() as int,
        ).0,
        final(log).source == old(log).source,
        final(log).diagnostics@ == old(log).diagnostics@ + noted(
            old(log).source,
            with_overrides(old(flat)@, entries@, old(log).source, entries@.len() as int).1,
        ),
{
    let mut i: usize = 0;
    assert(log.diagnostics@ =~= old(log).diagnostics@ + noted(
        old(log).source,
        Seq::<(Span, Problem)>::empty(),
    ));
    while i < entries.len()
        invariant
            i <= entries@.len(),
            flat@ == with_overrides(old(flat)@, entries@, old(log).source, i as int).0,
            log.source == old(log).source,
            log.diagnostics@ == old(log).diagnostics@ + noted(
                old(log).source,
                with_overrides(old(flat)@, entries@, old(log).source, i as int).1,
            ),
        decreases entries@.len() - i,
    {
        let entry = entries[i];
        let ghost before = with_overrides(old(flat)@, entries@, old(log).source, i as int);
        let ghost said = log.diagnostics@;
        let (times, slot): (usize, usize) = matches(flat, FieldName::Plain(entry.name));
        if times == 0 {
            log.emit(entry.name_span, Problem::OverridesNoField { field: entry.name });
        } else if times == 1 {
            check_override_type(&entry, flat[slot].ty, log);
            let mut rebound = flat[slot];
            rebound.default = Some(FieldDefault::new(entry.default, log.source));
            flat[slot] = rebound;
        } else {
            log.emit(entry.name_span, Problem::OverrideIsAmbiguous { field: entry.name });
        }
        proof {
            let more = with_override(before.0, entry, old(log).source).1;
            assert(log.diagnostics@ =~= said + noted(old(log).source, more));
            assert(noted(old(log).source, before.1 + more) =~= noted(old(log).source, before.1)
                + noted(old(log).source, more));
        }
        i += 1;
    }
}

/// Stores every colliding name qualified, so two parents' same-named fields stay
/// two distinct slots.
pub fn qualify_collisions(flat: &mut Vec<FlatField>)
    ensures
        final(flat)@ == qualified(old(flat)@),
{
    let written = crate::lists::copied(flat);
    let mut i: usize = 0;
    while i < flat.len()
        invariant
            i <= flat@.len(),
            written@ == old(flat)@,
            flat@.len() == old(flat)@.len(),
            forall|k: int| 0 <= k < i ==> #[trigger] flat@[k] == qualified(old(flat)@)[k],
            forall|k: int| i <= k < flat@.len() ==> #[trigger] flat@[k] == old(flat)@[k],
        decreases flat@.len() - i,
    {
        let mut field = flat[i];
        let (times, _): (usize, usize) = matches(&written, field.plain);
        if times > 1 {
            if let (Some(owner), FieldName::Plain(name)) = (field.owner, field.plain) {
                field.storage = FieldName::Qualified { owner, name };
            }
        }
        flat[i] = field;
        i += 1;
    }
    assert(flat@ =~= qualified(old(flat)@));
}

/// Builds the flattened field list: every parent's fields, in order, then this
/// class's own, with `override let` rewriting an inherited default.
pub fn flatten_fields(
    types: &TypeTable,
    classes: &ClassTable,
    defaults: &Vec<Vec<Option<FieldDefault>>>,
    declaration: &ClassDecl,
    parents: &Vec<StructId>,
    log: &mut Log,
) -> (flat: Vec<FlatField>)
    ensures
        flat@ == flattened(
            types,
            classes,
            defaults@,
            *declaration,
            parents@,
            old(log).source,
        ).0,
        final(log).source == old(log).source,
        final(log).diagnostics@ == old(log).diagnostics@ + noted(
            old(log).source,
            flattened(types, classes, defaults@, *declaration, parents@, old(log).source).1,
        ),
{
    let mut flat: Vec<FlatField> = Vec::new();
    let mut p: usize = 0;
    while p < parents.len()
        invariant
            p <= parents@.len(),
            flat@ == all_inherited(types, classes, defaults@, parents@, p as int),
        decreases parents@.len() - p,
    {
        inherit_fields(types, classes, defaults, parents[p], &mut flat);
        p += 1;
    }
    let ghost inherited = flat@;
    let ghost source = log.source;
    assert(log.diagnostics@ =~= old(log).diagnostics@ + noted(
        source,
        Seq::<(Span, Problem)>::empty(),
    ));
    let mut i: usize = 0;
    while i < declaration.fields.len()
        invariant
            i <= declaration.fields@.len(),
            log.source == source,
            source == old(log).source,
            flat@ == with_own(inherited, declaration.fields@, source, i as int).0,
            log.diagnostics@ == old(log).diagnostics@ + noted(
                source,
                with_own(inherited, declaration.fields@, source, i as int).1,
            ),
        decreases declaration.fields@.len() - i,
    {
        let field = declaration.fields[i];
        let plain = FieldName::Plain(field.name);
        let ghost before = with_own(inherited, declaration.fields@, source, i as int);
        if is_written(&flat, plain) {
            log.emit(field.name_span, Problem::FieldAlreadyInherited { field: field.name });
            proof {
                let problem = (
                    field.name_span,
                    Problem::FieldAlreadyInherited { field: field.name },
                );
                assert(noted(source, before.1.push(problem)) =~= noted(source, before.1).push(
                    crate::diagnostics::blamed(source, problem.0, problem.1),
                ));
            }
        } else {
            flat.push(
                FlatField {
                    owner: None,
                    plain,
                    storage: plain,
                    ty: field.ty,
                    mutable: field.mutable,
                    default: match field.default {
                        Some(syntax) => Some(FieldDefault::new(syntax, log.source)),
                        None => None,
                    },
                },
            );
        }
        i += 1;
    }
    let ghost owned = with_own(inherited, declaration.fields@, source, i as int);
    let ghost said = log.diagnostics@;
    apply_overrides(&declaration.overrides, &mut flat, log);
    proof {
        let more = with_overrides(
            owned.0,
            declaration.overrides@,
            source,
            declaration.overrides@.len() as int,
        ).1;
        assert(noted(source, owned.1 + more) =~= noted(source, owned.1) + noted(source, more));
        assert(log.diagnostics@ =~= old(log).diagnostics@ + noted(source, owned.1 + more));
    }
    qualify_collisions(&mut flat);
    flat
}

/// The slots of a class recorded as `plain`, in order, each with its owner.
pub open spec fn slots_named(
    origins: Seq<SlotOrigin>,
    plain: FieldName,
    count: int,
) -> Seq<(StructId, u32)>
    decreases count,
{
    if count <= 0 {
        Seq::empty()
    } else if origins[count - 1].plain == plain {
        slots_named(origins, plain, count - 1).push((origins[count - 1].owner, (count - 1) as u32))
    } else {
        slots_named(origins, plain, count - 1)
    }
}

/// How a bare field name resolves on a class: the slots that carry it. One is
/// what the name means; several leave it ambiguous between their owners; none
/// means the class has no such field.
pub fn bare_field(info: &ClassInfo, plain: FieldName) -> (slots: Vec<(StructId, u32)>)
    requires
        info.slot_origin@.len() <= u32::MAX,
    ensures
        slots@ == slots_named(info.slot_origin@, plain, info.slot_origin@.len() as int),
{
    let mut slots: Vec<(StructId, u32)> = Vec::new();
    let mut i: usize = 0;
    while i < info.slot_origin.len()
        invariant
            i <= info.slot_origin@.len() <= u32::MAX,
            slots@ == slots_named(info.slot_origin@, plain, i as int),
        decreases info.slot_origin@.len() - i,
    {
        if info.slot_origin[i].plain == plain {
            slots.push((info.slot_origin[i].owner, i as u32));
        }
        i += 1;
    }
    slots
}

/// The slot `owner` declared as `plain`, when the class has one.
pub fn qualified_field(info: &ClassInfo, owner: StructId, plain: FieldName) -> (slot: Option<u32>)
    requires
        info.slot_origin@.len() <= u32::MAX,
    ensures
        match slot {
            Some(i) => i < info.slot_origin@.len() && info.slot_origin@[i as int] == (SlotOrigin {
                owner,
                plain,
            }) && forall|k: int|
                i < k < info.slot_origin@.len() ==> #[trigger] info.slot_origin@[k] != (
                SlotOrigin { owner, plain }),
            None => !info.slot_origin@.contains(SlotOrigin { owner, plain }),
        },
{
    let wanted = SlotOrigin { owner, plain };
    let mut i: usize = info.slot_origin.len();
    while i > 0
        invariant
            i <= info.slot_origin@.len() <= u32::MAX,
            wanted == (SlotOrigin { owner, plain }),
            forall|k: int| i <= k < info.slot_origin@.len() ==> #[trigger] info.slot_origin@[k] != wanted,
        decreases i,
    {
        i -= 1;
        if info.slot_origin[i] == wanted {
            return Some(i as u32);
        }
    }
    None
}

/// No two slots are the same owner's under the same name.
pub open spec fn distinct_slots(flat: Seq<FlatField>) -> bool {
    forall|i: int, j: int|
        0 <= i < j < flat.len() ==> (#[trigger] flat[i]).owner != (#[trigger] flat[j]).owner
            || flat[i].plain != flat[j].plain
}

proof fn lemma_inherited_grows(
    types: &TypeTable,
    classes: &ClassTable,
    defaults: Seq<Vec<Option<FieldDefault>>>,
    flat: Seq<FlatField>,
    parent: StructId,
    count: int,
)
    requires
        0 <= count,
    ensures
        crate::hir::grew(flat, with_inherited(types, classes, defaults, flat, parent, count)),
        distinct_slots(flat) ==> distinct_slots(
            with_inherited(types, classes, defaults, flat, parent, count),
        ),
    decreases count,
{
    if count > 0 {
        lemma_inherited_grows(types, classes, defaults, flat, parent, count - 1);
    }
}

proof fn lemma_first_parent(
    types: &TypeTable,
    classes: &ClassTable,
    defaults: Seq<Vec<Option<FieldDefault>>>,
    parent: StructId,
    count: int,
)
    requires
        0 <= count <= types.fields(parent).len(),
        forall|i: int, j: int|
            0 <= i < j < types.fields(parent).len() ==> #[trigger] origin_of(
                types,
                classes,
                parent,
                i,
            ) != #[trigger] origin_of(types, classes, parent, j),
    ensures
        with_inherited(types, classes, defaults, Seq::empty(), parent, count).len() == count,
        forall|k: int|
            0 <= k < count ==> #[trigger] with_inherited(
                types,
                classes,
                defaults,
                Seq::empty(),
                parent,
                count,
            )[k] == inherited_slot(types, classes, defaults, parent, k),
    decreases count,
{
    if count > 0 {
        lemma_first_parent(types, classes, defaults, parent, count - 1);
        let before = with_inherited(types, classes, defaults, Seq::empty(), parent, count - 1);
        let slot = inherited_slot(types, classes, defaults, parent, count - 1);
        if carries(before, slot.owner, slot.plain) {
            let i = choose|i: int|
                0 <= i < before.len() && (#[trigger] before[i]).owner == slot.owner
                    && before[i].plain == slot.plain;
            assert(before[i] == inherited_slot(types, classes, defaults, parent, i));
            assert(origin_of(types, classes, parent, i) == origin_of(
                types,
                classes,
                parent,
                count - 1,
            ));
        }
    }
}

proof fn lemma_all_inherited(
    types: &TypeTable,
    classes: &ClassTable,
    defaults: Seq<Vec<Option<FieldDefault>>>,
    parents: Seq<StructId>,
    count: int,
)
    requires
        1 <= count <= parents.len(),
    ensures
        crate::hir::grew(
            with_inherited(
                types,
                classes,
                defaults,
                Seq::empty(),
                parents[0],
                types.fields(parents[0]).len() as int,
            ),
            all_inherited(types, classes, defaults, parents, count),
        ),
    decreases count,
{
    let first = all_inherited(types, classes, defaults, parents, count - 1);
    lemma_inherited_grows(
        types,
        classes,
        defaults,
        first,
        parents[count - 1],
        types.fields(parents[count - 1]).len() as int,
    );
    if count > 1 {
        lemma_all_inherited(types, classes, defaults, parents, count - 1);
    } else {
        assert(first =~= Seq::empty());
    }
}

proof fn lemma_all_distinct(
    types: &TypeTable,
    classes: &ClassTable,
    defaults: Seq<Vec<Option<FieldDefault>>>,
    parents: Seq<StructId>,
    count: int,
)
    requires
        0 <= count <= parents.len(),
    ensures
        distinct_slots(all_inherited(types, classes, defaults, parents, count)),
    decreases count,
{
    if count > 0 {
        lemma_all_distinct(types, classes, defaults, parents, count - 1);
        lemma_inherited_grows(
            types,
            classes,
            defaults,
            all_inherited(types, classes, defaults, parents, count - 1),
            parents[count - 1],
            types.fields(parents[count - 1]).len() as int,
        );
    }
}

proof fn lemma_own_grows(
    flat: Seq<FlatField>,
    fields: Seq<ClassFieldDecl>,
    source: SourceId,
    count: int,
)
    requires
        0 <= count <= fields.len(),
    ensures
        crate::hir::grew(flat, with_own(flat, fields, source, count).0),
        distinct_slots(flat) ==> distinct_slots(with_own(flat, fields, source, count).0),
    decreases count,
{
    if count > 0 {
        lemma_own_grows(flat, fields, source, count - 1);
    }
}

/// The two lists have the same slots, but for what each defaults to.
pub open spec fn same_slots(a: Seq<FlatField>, b: Seq<FlatField>) -> bool {
    a.len() == b.len() && forall|k: int|
        0 <= k < a.len() ==> (#[trigger] b[k]).owner == a[k].owner && b[k].plain == a[k].plain
            && b[k].storage == a[k].storage && b[k].ty == a[k].ty && b[k].mutable == a[k].mutable
}

proof fn lemma_first_written(flat: Seq<FlatField>, plain: FieldName)
    ensures
        times_written(flat, plain) > 0 ==> 0 <= first_written(flat, plain) < flat.len()
            && flat[first_written(flat, plain)].plain == plain,
        times_written(flat, plain) == 0 ==> first_written(flat, plain) == flat.len(),
        times_written(flat, plain) == 0 <==> !written(flat, plain),
    decreases flat.len(),
{
    lemma_times_written(flat, plain);
    if flat.len() > 0 && flat[0].plain != plain {
        lemma_first_written(flat.drop_first(), plain);
        lemma_times_written(flat.drop_first(), plain);
        if written(flat, plain) {
            let i = choose|i: int| 0 <= i < flat.len() && (#[trigger] flat[i]).plain == plain;
            assert(flat.drop_first()[i - 1].plain == plain);
        }
        if written(flat.drop_first(), plain) {
            let i = choose|i: int|
                0 <= i < flat.drop_first().len() && (#[trigger] flat.drop_first()[i]).plain == plain;
            assert(flat[i + 1].plain == plain);
        }
    } else if flat.len() > 0 {
        assert(written(flat, plain)) by {
            assert(flat[0].plain == plain);
        }
    }
}

proof fn lemma_times_written(flat: Seq<FlatField>, plain: FieldName)
    ensures
        times_written(flat, plain) == 0 <==> !written(flat, plain),
    decreases flat.len(),
{
    if flat.len() > 0 {
        lemma_times_written(flat.drop_last(), plain);
        if written(flat, plain) {
            let i = choose|i: int| 0 <= i < flat.len() && (#[trigger] flat[i]).plain == plain;
            if i < flat.len() - 1 {
                assert(flat.drop_last()[i].plain == plain);
            }
        }
        if written(flat.drop_last(), plain) {
            let i = choose|i: int|
                0 <= i < flat.drop_last().len() && (#[trigger] flat.drop_last()[i]).plain == plain;
            assert(flat[i].plain == plain);
        }
        if flat.last().plain == plain {
            assert(flat[flat.len() - 1].plain == plain);
        }
    }
}

proof fn lemma_overrides_keep(
    flat: Seq<FlatField>,
    entries: Seq<OverrideFieldDecl>,
    source: SourceId,
    count: int,
)
    requires
        0 <= count <= entries.len(),
    ensures
        same_slots(flat, with_overrides(flat, entries, source, count).0),
    decreases count,
{
    if count > 0 {
        lemma_overrides_keep(flat, entries, source, count - 1);
        let before = with_overrides(flat, entries, source, count - 1).0;
        lemma_first_written(before, FieldName::Plain(entries[count - 1].name));
    }
}

/// A class has its first parent's layout as a prefix: each of the parent's slots
/// is at the same position, with the same type and mutability, and the slot of the
/// same owner under the same written name, so a position expecting the parent reads
/// exactly the slots it means to.
pub proof fn first_parent_layout_is_a_prefix(
    types: &TypeTable,
    classes: &ClassTable,
    defaults: Seq<Vec<Option<FieldDefault>>>,
    declaration: ClassDecl,
    parents: Seq<StructId>,
    source: SourceId,
    slot: int,
)
    requires
        parents.len() > 0,
        forall|i: int, j: int|
            0 <= i < j < types.fields(parents[0]).len() ==> #[trigger] origin_of(
                types,
                classes,
                parents[0],
                i,
            ) != #[trigger] origin_of(types, classes, parents[0], j),
        0 <= slot < types.fields(parents[0]).len(),
    ensures
        slot < flattened(types, classes, defaults, declaration, parents, source).0.len(),
        flattened(types, classes, defaults, declaration, parents, source).0[slot].ty
            == types.fields(parents[0])[slot].ty,
        flattened(types, classes, defaults, declaration, parents, source).0[slot].mutable
            == types.fields(parents[0])[slot].mutable,
        flattened(types, classes, defaults, declaration, parents, source).0[slot].owner == Some(
            origin_of(types, classes, parents[0], slot).owner,
        ),
        flattened(types, classes, defaults, declaration, parents, source).0[slot].plain
            == origin_of(types, classes, parents[0], slot).plain,
{
    let full = types.fields(parents[0]).len() as int;
    lemma_first_parent(types, classes, defaults, parents[0], full);
    lemma_all_inherited(types, classes, defaults, parents, parents.len() as int);
    let inherited = all_inherited(types, classes, defaults, parents, parents.len() as int);
    let first = with_inherited(types, classes, defaults, Seq::empty(), parents[0], full);
    assert(inherited[slot] == first[slot]);
    lemma_own_grows(inherited, declaration.fields@, source, declaration.fields@.len() as int);
    let owned = with_own(
        inherited,
        declaration.fields@,
        source,
        declaration.fields@.len() as int,
    ).0;
    assert(owned[slot] == inherited[slot]);
    lemma_overrides_keep(
        owned,
        declaration.overrides@,
        source,
        declaration.overrides@.len() as int,
    );
}

/// A class never has two slots of one owner under one name: a diamond inherits
/// one copy of the shared base, and no own field takes an inherited name.
pub proof fn slots_are_distinct(
    types: &TypeTable,
    classes: &ClassTable,
    defaults: Seq<Vec<Option<FieldDefault>>>,
    declaration: ClassDecl,
    parents: Seq<StructId>,
    source: SourceId,
)
    ensures
        distinct_slots(flattened(types, classes, defaults, declaration, parents, source).0),
{
    lemma_all_distinct(types, classes, defaults, parents, parents.len() as int);
    let inherited = all_inherited(types, classes, defaults, parents, parents.len() as int);
    lemma_own_grows(inherited, declaration.fields@, source, declaration.fields@.len() as int);
    let owned = with_own(
        inherited,
        declaration.fields@,
        source,
        declaration.fields@.len() as int,
    ).0;
    lemma_overrides_keep(
        owned,
        declaration.overrides@,
        source,
        declaration.overrides@.len() as int,
    );
    let rebound = with_overrides(
        owned,
        declaration.overrides@,
        source,
        declaration.overrides@.len() as int,
    ).0;
    let flat = qualified(rebound);
    assert forall|i: int, j: int| 0 <= i < j < flat.len() implies (#[trigger] flat[i]).owner != (
    #[trigger] flat[j]).owner || flat[i].plain != flat[j].plain by {
        assert(owned[i].owner != owned[j].owner || owned[i].plain != owned[j].plain);
        assert(rebound[i].owner == owned[i].owner && rebound[j].owner == owned[j].owner);
    }
}

/// A slot is stored under the name it was written with, or under that name qualified by
/// its owner.
pub open spec fn named_by_origin(slot: FlatField) -> bool {
    slot.plain matches FieldName::Plain(name) && (slot.storage == slot.plain || (slot.owner matches
        Some(owner) && slot.storage == (FieldName::Qualified { owner, name })))
}

/// A field a class declares itself shares its written name with no other slot.
pub open spec fn own_alone(flat: Seq<FlatField>) -> bool {
    forall|i: int, j: int|
        0 <= i < flat.len() && 0 <= j < flat.len() && i != j && (#[trigger] flat[i]).owner is None
            ==> flat[i].plain != (#[trigger] flat[j]).plain
}

proof fn lemma_inherited_named(
    types: &TypeTable,
    classes: &ClassTable,
    defaults: Seq<Vec<Option<FieldDefault>>>,
    flat: Seq<FlatField>,
    parent: StructId,
    count: int,
)
    requires
        0 <= count <= types.fields(parent).len(),
        forall|slot: int|
            0 <= slot < types.fields(parent).len() ==> named_by_origin(
                #[trigger] inherited_slot(types, classes, defaults, parent, slot),
            ),
        forall|i: int|
            0 <= i < flat.len() ==> named_by_origin(#[trigger] flat[i]) && flat[i].owner is Some,
    ensures
        ({
            let more = with_inherited(types, classes, defaults, flat, parent, count);
            forall|i: int|
                0 <= i < more.len() ==> named_by_origin(#[trigger] more[i]) && more[i].owner is Some
        }),
    decreases count,
{
    if count > 0 {
        lemma_inherited_named(types, classes, defaults, flat, parent, count - 1);
        assert(named_by_origin(inherited_slot(types, classes, defaults, parent, count - 1)));
    }
}

proof fn lemma_all_named(
    types: &TypeTable,
    classes: &ClassTable,
    defaults: Seq<Vec<Option<FieldDefault>>>,
    parents: Seq<StructId>,
    count: int,
)
    requires
        0 <= count <= parents.len(),
        forall|p: int, slot: int|
            0 <= p < parents.len() && 0 <= slot < types.fields(parents[p]).len()
                ==> named_by_origin(
                #[trigger] inherited_slot(types, classes, defaults, parents[p], slot),
            ),
    ensures
        ({
            let flat = all_inherited(types, classes, defaults, parents, count);
            forall|i: int|
                0 <= i < flat.len() ==> named_by_origin(#[trigger] flat[i]) && flat[i].owner is Some
        }),
    decreases count,
{
    if count > 0 {
        lemma_all_named(types, classes, defaults, parents, count - 1);
        lemma_inherited_named(
            types,
            classes,
            defaults,
            all_inherited(types, classes, defaults, parents, count - 1),
            parents[count - 1],
            types.fields(parents[count - 1]).len() as int,
        );
    }
}

proof fn lemma_own_alone(
    flat: Seq<FlatField>,
    fields: Seq<ClassFieldDecl>,
    source: SourceId,
    count: int,
)
    requires
        0 <= count <= fields.len(),
        own_alone(flat),
        forall|i: int| 0 <= i < flat.len() ==> named_by_origin(#[trigger] flat[i]),
    ensures
        ({
            let more = with_own(flat, fields, source, count).0;
            &&& own_alone(more)
            &&& forall|i: int| 0 <= i < more.len() ==> named_by_origin(#[trigger] more[i])
        }),
    decreases count,
{
    if count > 0 {
        lemma_own_alone(flat, fields, source, count - 1);
    }
}

proof fn lemma_written_twice(flat: Seq<FlatField>, i: int, j: int)
    requires
        0 <= i < j < flat.len(),
        flat[i].plain == flat[j].plain,
    ensures
        times_written(flat, flat[i].plain) > 1,
    decreases flat.len(),
{
    if j == flat.len() - 1 {
        lemma_times_written(flat.drop_last(), flat[i].plain);
        assert(flat.drop_last()[i].plain == flat[i].plain);
    } else {
        lemma_written_twice(flat.drop_last(), i, j);
    }
}

/// The slots of a class are stored under distinct names, though several owners of one
/// name, from one package or from several, declare a field of one name.
pub proof fn storage_names_are_distinct(
    types: &TypeTable,
    classes: &ClassTable,
    defaults: Seq<Vec<Option<FieldDefault>>>,
    declaration: ClassDecl,
    parents: Seq<StructId>,
    source: SourceId,
    i: int,
    j: int,
)
    requires
        forall|p: int, slot: int|
            0 <= p < parents.len() && 0 <= slot < types.fields(parents[p]).len()
                ==> named_by_origin(
                #[trigger] inherited_slot(types, classes, defaults, parents[p], slot),
            ),
        0 <= i < j < flattened(types, classes, defaults, declaration, parents, source).0.len(),
    ensures
        ({
            let flat = flattened(types, classes, defaults, declaration, parents, source).0;
            &&& flat[i].storage != flat[j].storage
            &&& named_by_origin(flat[i])
            &&& named_by_origin(flat[j])
        }),
{
    let inherited = all_inherited(types, classes, defaults, parents, parents.len() as int);
    lemma_all_named(types, classes, defaults, parents, parents.len() as int);
    lemma_own_alone(inherited, declaration.fields@, source, declaration.fields@.len() as int);
    let owned = with_own(
        inherited,
        declaration.fields@,
        source,
        declaration.fields@.len() as int,
    ).0;
    lemma_overrides_keep(
        owned,
        declaration.overrides@,
        source,
        declaration.overrides@.len() as int,
    );
    let flat = with_overrides(
        owned,
        declaration.overrides@,
        source,
        declaration.overrides@.len() as int,
    ).0;
    slots_are_distinct(types, classes, defaults, declaration, parents, source);
    let stored = qualified(flat);
    assert(stored[i].owner == flat[i].owner && stored[j].owner == flat[j].owner);
    assert(named_by_origin(owned[i]) && named_by_origin(owned[j]));
    assert(named_by_origin(flat[i]) && named_by_origin(flat[j]));
    if flat[i].plain == flat[j].plain {
        lemma_written_twice(flat, i, j);
        assert(owned[i].plain == owned[j].plain);
        assert(owned[i].owner is Some && owned[j].owner is Some);
    }
}

/// Some `override let` of the class names a slot written `plain`.
pub open spec fn overridden(entries: Seq<OverrideFieldDecl>, plain: FieldName) -> bool {
    exists|j: int|
        0 <= j < entries.len() && FieldName::Plain((#[trigger] entries[j]).name) == plain
}

/// `field` is slot `slot` of `parent` as it stands there: who declared it and under which
/// name, its type and whether it can be assigned.
pub open spec fn brought_by(
    types: &TypeTable,
    classes: &ClassTable,
    parent: StructId,
    slot: int,
    field: FlatField,
) -> bool {
    let stored = types.fields(parent)[slot];
    let recorded = match classes.info(parent) {
        Some(info) => info.slot_origin@,
        None => Seq::empty(),
    };
    &&& 0 <= slot < types.fields(parent).len()
    &&& field.ty == stored.ty
    &&& field.mutable == stored.mutable
    &&& slot < recorded.len() ==> field.owner == Some(recorded[slot].owner) && field.plain
        == recorded[slot].plain
    &&& slot >= recorded.len() ==> field.owner == Some(parent) && field.plain == stored.name
}

/// `default` is what `id` gives its field in `slot`: what stands in its list, and nothing
/// where its list does not reach.
pub open spec fn gives_default(
    defaults: Seq<Vec<Option<FieldDefault>>>,
    id: StructId,
    slot: int,
    default: Option<FieldDefault>,
) -> bool {
    &&& id.0 < defaults.len() && slot < defaults[id.0 as int]@.len() ==> default
        == defaults[id.0 as int]@[slot]
    &&& !(id.0 < defaults.len() && slot < defaults[id.0 as int]@.len()) ==> default is None
}

proof fn lemma_unnamed_keeps(
    flat: Seq<FlatField>,
    entries: Seq<OverrideFieldDecl>,
    source: SourceId,
    count: int,
    k: int,
)
    requires
        0 <= count <= entries.len(),
        0 <= k < flat.len(),
        forall|j: int|
            0 <= j < count ==> FieldName::Plain((#[trigger] entries[j]).name) != flat[k].plain,
    ensures
        with_overrides(flat, entries, source, count).0.len() == flat.len(),
        with_overrides(flat, entries, source, count).0[k] == flat[k],
    decreases count,
{
    if count > 0 {
        lemma_unnamed_keeps(flat, entries, source, count - 1, k);
        let before = with_overrides(flat, entries, source, count - 1).0;
        let plain = FieldName::Plain(entries[count - 1].name);
        lemma_first_written(before, plain);
        if times_written(before, plain) == 1 {
            assert(before[first_written(before, plain)].plain == plain);
            assert(first_written(before, plain) != k);
        }
    }
}

proof fn lemma_written_once(flat: Seq<FlatField>, k: int)
    requires
        0 <= k < flat.len(),
        forall|i: int| 0 <= i < flat.len() && i != k ==> (#[trigger] flat[i]).plain != flat[k].plain,
    ensures
        times_written(flat, flat[k].plain) == 1,
        first_written(flat, flat[k].plain) == k,
    decreases flat.len(),
{
    let plain = flat[k].plain;
    if k == flat.len() - 1 {
        lemma_times_written(flat.drop_last(), plain);
    } else {
        lemma_written_once(flat.drop_last(), k);
    }
    lemma_first_written(flat, plain);
    assert(flat[first_written(flat, plain)].plain == plain);
}

proof fn lemma_overrides_rebind(
    flat: Seq<FlatField>,
    entries: Seq<OverrideFieldDecl>,
    source: SourceId,
    count: int,
    k: int,
    j: int,
)
    requires
        0 <= j < count <= entries.len(),
        0 <= k < flat.len(),
        flat[k].plain == FieldName::Plain(entries[j].name),
        forall|i: int| 0 <= i < flat.len() && i != k ==> (#[trigger] flat[i]).plain != flat[k].plain,
        forall|l: int| j < l < count ==> (#[trigger] entries[l]).name != entries[j].name,
    ensures
        with_overrides(flat, entries, source, count).0[k].default == Some(
            FieldDefault { syntax: entries[j].default, source, resolved: None },
        ),
    decreases count,
{
    lemma_overrides_keep(flat, entries, source, count - 1);
    let before = with_overrides(flat, entries, source, count - 1).0;
    let plain = FieldName::Plain(entries[count - 1].name);
    if j == count - 1 {
        assert forall|i: int| 0 <= i < before.len() && i != k implies (#[trigger] before[i]).plain
            != before[k].plain by {
            assert(before[i].plain == flat[i].plain);
            assert(before[k].plain == flat[k].plain);
        }
        assert(before[k].plain == flat[k].plain);
        lemma_written_once(before, k);
    } else {
        lemma_overrides_rebind(flat, entries, source, count - 1, k, j);
        lemma_first_written(before, plain);
        assert(entries[count - 1].name != entries[j].name);
        assert(before[k].plain == flat[k].plain);
        if times_written(before, plain) == 1 {
            assert(before[first_written(before, plain)].plain == plain);
            assert(first_written(before, plain) != k);
        }
    }
}

/// A slot a class inherits from its first parent and does not override has the default
/// the parent gives it, so it is one the class leaves open exactly if the parent does.
pub proof fn an_inherited_default_is_the_parents(
    types: &TypeTable,
    classes: &ClassTable,
    defaults: Seq<Vec<Option<FieldDefault>>>,
    declaration: ClassDecl,
    parents: Seq<StructId>,
    source: SourceId,
    slot: int,
)
    requires
        parents.len() > 0,
        forall|i: int, j: int|
            0 <= i < j < types.fields(parents[0]).len() ==> #[trigger] origin_of(
                types,
                classes,
                parents[0],
                i,
            ) != #[trigger] origin_of(types, classes, parents[0], j),
        0 <= slot < types.fields(parents[0]).len(),
        !overridden(
            declaration.overrides@,
            flattened(types, classes, defaults, declaration, parents, source).0[slot].plain,
        ),
    ensures
        ({
            let field = flattened(types, classes, defaults, declaration, parents, source).0[slot];
            &&& brought_by(types, classes, parents[0], slot, field)
            &&& gives_default(defaults, parents[0], slot, field.default)
        }),
{
    first_parent_layout_is_a_prefix(
        types,
        classes,
        defaults,
        declaration,
        parents,
        source,
        slot,
    );
    let full = types.fields(parents[0]).len() as int;
    lemma_first_parent(types, classes, defaults, parents[0], full);
    lemma_all_inherited(types, classes, defaults, parents, parents.len() as int);
    let inherited = all_inherited(types, classes, defaults, parents, parents.len() as int);
    let first = with_inherited(types, classes, defaults, Seq::empty(), parents[0], full);
    assert(inherited[slot] == first[slot]);
    lemma_own_grows(inherited, declaration.fields@, source, declaration.fields@.len() as int);
    let owned = with_own(
        inherited,
        declaration.fields@,
        source,
        declaration.fields@.len() as int,
    ).0;
    assert(owned[slot] == inherited[slot]);
    lemma_unnamed_keeps(
        owned,
        declaration.overrides@,
        source,
        declaration.overrides@.len() as int,
        slot,
    );
}

/// An `override let` gives the one slot of its name its own value, in the file of the
/// class: the last one written for a name wins.
pub proof fn an_override_rebinds_the_default(
    types: &TypeTable,
    classes: &ClassTable,
    defaults: Seq<Vec<Option<FieldDefault>>>,
    declaration: ClassDecl,
    parents: Seq<StructId>,
    source: SourceId,
    k: int,
    j: int,
)
    requires
        ({
            let flat = flattened(types, classes, defaults, declaration, parents, source).0;
            &&& 0 <= k < flat.len()
            &&& 0 <= j < declaration.overrides@.len()
            &&& flat[k].plain == FieldName::Plain(declaration.overrides@[j].name)
            &&& forall|i: int|
                0 <= i < flat.len() && i != k ==> (#[trigger] flat[i]).plain != flat[k].plain
            &&& forall|l: int|
                j < l < declaration.overrides@.len() ==> (#[trigger] declaration.overrides@[l]).name
                    != declaration.overrides@[j].name
        }),
    ensures
        flattened(types, classes, defaults, declaration, parents, source).0[k].default == Some(
            FieldDefault { syntax: declaration.overrides@[j].default, source, resolved: None },
        ),
{
    let inherited = all_inherited(types, classes, defaults, parents, parents.len() as int);
    let owned = with_own(
        inherited,
        declaration.fields@,
        source,
        declaration.fields@.len() as int,
    ).0;
    let count = declaration.overrides@.len() as int;
    lemma_overrides_keep(owned, declaration.overrides@, source, count);
    let flat = flattened(types, classes, defaults, declaration, parents, source).0;
    let rebound = with_overrides(owned, declaration.overrides@, source, count).0;
    assert(flat[k].plain == rebound[k].plain);
    assert forall|i: int| 0 <= i < owned.len() && i != k implies (#[trigger] owned[i]).plain
        != owned[k].plain by {
        assert(rebound[i].plain == owned[i].plain);
        assert(flat[i].plain == rebound[i].plain);
        assert(flat[i].plain != flat[k].plain);
    }
    lemma_overrides_rebind(owned, declaration.overrides@, source, count, k, j);
}

proof fn lemma_inherited_from(
    types: &TypeTable,
    classes: &ClassTable,
    defaults: Seq<Vec<Option<FieldDefault>>>,
    flat: Seq<FlatField>,
    parent: StructId,
    count: int,
    k: int,
)
    requires
        0 <= count <= types.fields(parent).len(),
        flat.len() <= k < with_inherited(types, classes, defaults, flat, parent, count).len(),
    ensures
        exists|slot: int|
            0 <= slot < count && with_inherited(types, classes, defaults, flat, parent, count)[k]
                == #[trigger] inherited_slot(types, classes, defaults, parent, slot),
    decreases count,
{
    if count > 0 {
        let before = with_inherited(types, classes, defaults, flat, parent, count - 1);
        if k < before.len() {
            lemma_inherited_from(types, classes, defaults, flat, parent, count - 1, k);
        } else {
            assert(with_inherited(types, classes, defaults, flat, parent, count)[k]
                == inherited_slot(types, classes, defaults, parent, count - 1));
        }
    }
}

proof fn lemma_all_from(
    types: &TypeTable,
    classes: &ClassTable,
    defaults: Seq<Vec<Option<FieldDefault>>>,
    parents: Seq<StructId>,
    count: int,
    k: int,
)
    requires
        0 <= count <= parents.len(),
        0 <= k < all_inherited(types, classes, defaults, parents, count).len(),
    ensures
        exists|p: int, slot: int|
            0 <= p < count && 0 <= slot < types.fields(parents[p]).len() && all_inherited(
                types,
                classes,
                defaults,
                parents,
                count,
            )[k] == #[trigger] inherited_slot(types, classes, defaults, parents[p], slot),
    decreases count,
{
    if count > 0 {
        let before = all_inherited(types, classes, defaults, parents, count - 1);
        let full = types.fields(parents[count - 1]).len() as int;
        lemma_inherited_grows(types, classes, defaults, before, parents[count - 1], full);
        if k < before.len() {
            lemma_all_from(types, classes, defaults, parents, count - 1, k);
        } else {
            lemma_inherited_from(types, classes, defaults, before, parents[count - 1], full, k);
        }
    }
}

proof fn lemma_own_from(
    flat: Seq<FlatField>,
    fields: Seq<ClassFieldDecl>,
    source: SourceId,
    count: int,
    k: int,
)
    requires
        0 <= count <= fields.len(),
        flat.len() <= k < with_own(flat, fields, source, count).0.len(),
    ensures
        exists|j: int|
            0 <= j < count && with_own(flat, fields, source, count).0[k] == #[trigger] own_slot(
                fields[j],
                source,
            ),
    decreases count,
{
    if count > 0 {
        let before = with_own(flat, fields, source, count - 1).0;
        if k < before.len() {
            lemma_own_from(flat, fields, source, count - 1, k);
        } else {
            assert(with_own(flat, fields, source, count).0[k] == own_slot(
                fields[count - 1],
                source,
            ));
        }
    }
}

/// Every slot of a class is a parent's or one the class declares. A parent's keeps its
/// owner, written name, type and mutability, and its default where the class does not
/// override it; the class's own has the type, mutability and default it was declared
/// with. Where no other slot is written alike, it is stored under the name it had.
pub proof fn every_slot_is_inherited_or_own(
    types: &TypeTable,
    classes: &ClassTable,
    defaults: Seq<Vec<Option<FieldDefault>>>,
    declaration: ClassDecl,
    parents: Seq<StructId>,
    source: SourceId,
    k: int,
)
    requires
        0 <= k < flattened(types, classes, defaults, declaration, parents, source).0.len(),
    ensures
        ({
            let flat = flattened(types, classes, defaults, declaration, parents, source).0;
            let kept = !overridden(declaration.overrides@, flat[k].plain);
            let alone = forall|i: int|
                0 <= i < flat.len() && i != k ==> (#[trigger] flat[i]).plain != flat[k].plain;
            ||| exists|p: int, slot: int|
                {
                    &&& 0 <= p < parents.len()
                    &&& #[trigger] brought_by(types, classes, parents[p], slot, flat[k])
                    &&& kept ==> gives_default(defaults, parents[p], slot, flat[k].default)
                    &&& alone ==> flat[k].storage == types.fields(parents[p])[slot].name
                }
            ||| exists|j: int|
                {
                    &&& 0 <= j < declaration.fields@.len()
                    &&& flat[k].owner is None
                    &&& flat[k].plain == FieldName::Plain((#[trigger] declaration.fields@[j]).name)
                    &&& flat[k].storage == FieldName::Plain(declaration.fields@[j].name)
                    &&& flat[k].ty == declaration.fields@[j].ty
                    &&& flat[k].mutable == declaration.fields@[j].mutable
                    &&& kept && declaration.fields@[j].default is None ==> flat[k].default is None
                    &&& kept && declaration.fields@[j].default is Some ==> flat[k].default == Some(
                        FieldDefault {
                            syntax: declaration.fields@[j].default->0,
                            source,
                            resolved: None,
                        },
                    )
                }
        }),
{
    let inherited = all_inherited(types, classes, defaults, parents, parents.len() as int);
    lemma_own_grows(inherited, declaration.fields@, source, declaration.fields@.len() as int);
    let owned = with_own(
        inherited,
        declaration.fields@,
        source,
        declaration.fields@.len() as int,
    ).0;
    let count = declaration.overrides@.len() as int;
    lemma_overrides_keep(owned, declaration.overrides@, source, count);
    let flat = flattened(types, classes, defaults, declaration, parents, source).0;
    let rebound = with_overrides(owned, declaration.overrides@, source, count).0;
    let kept = !overridden(declaration.overrides@, flat[k].plain);
    let alone = forall|i: int|
        0 <= i < flat.len() && i != k ==> (#[trigger] flat[i]).plain != flat[k].plain;
    assert(flat[k] == FlatField { storage: storage_name(rebound, rebound[k]), ..rebound[k] });
    assert(rebound[k].plain == owned[k].plain);
    if kept {
        lemma_unnamed_keeps(owned, declaration.overrides@, source, count, k);
    }
    if alone {
        assert forall|i: int| 0 <= i < rebound.len() && i != k implies (#[trigger] rebound[i]).plain
            != rebound[k].plain by {
            assert(flat[i].plain == rebound[i].plain);
        }
        lemma_written_once(rebound, k);
        assert(flat[k].storage == owned[k].storage);
    }
    if k < inherited.len() {
        lemma_all_from(types, classes, defaults, parents, parents.len() as int, k);
        let (p, slot) = choose|p: int, slot: int|
            0 <= p < parents.len() && 0 <= slot < types.fields(parents[p]).len() && inherited[k]
                == #[trigger] inherited_slot(types, classes, defaults, parents[p], slot);
        assert(owned[k] == inherited[k]);
        assert(brought_by(types, classes, parents[p], slot, flat[k]));
    } else {
        lemma_own_from(
            inherited,
            declaration.fields@,
            source,
            declaration.fields@.len() as int,
            k,
        );
        let j = choose|j: int|
            0 <= j < declaration.fields@.len() && owned[k] == #[trigger] own_slot(
                declaration.fields@[j],
                source,
            );
        assert(flat[k].plain == FieldName::Plain(declaration.fields@[j].name));
    }
}

proof fn lemma_inherited_carries(
    types: &TypeTable,
    classes: &ClassTable,
    defaults: Seq<Vec<Option<FieldDefault>>>,
    flat: Seq<FlatField>,
    parent: StructId,
    count: int,
    slot: int,
)
    requires
        0 <= slot < count,
    ensures
        ({
            let origin = origin_of(types, classes, parent, slot);
            carries(
                with_inherited(types, classes, defaults, flat, parent, count),
                Some(origin.owner),
                origin.plain,
            )
        }),
    decreases count,
{
    let all = with_inherited(types, classes, defaults, flat, parent, count);
    let before = with_inherited(types, classes, defaults, flat, parent, count - 1);
    let origin = origin_of(types, classes, parent, slot);
    if slot < count - 1 {
        lemma_inherited_carries(types, classes, defaults, flat, parent, count - 1, slot);
        let i = choose|i: int|
            0 <= i < before.len() && (#[trigger] before[i]).owner == Some(origin.owner)
                && before[i].plain == origin.plain;
        assert(all[i] == before[i]);
    } else if !carries(before, Some(origin.owner), origin.plain) {
        assert(all[all.len() - 1] == inherited_slot(types, classes, defaults, parent, slot));
    }
}

proof fn lemma_all_carries(
    types: &TypeTable,
    classes: &ClassTable,
    defaults: Seq<Vec<Option<FieldDefault>>>,
    parents: Seq<StructId>,
    count: int,
    p: int,
    slot: int,
)
    requires
        0 <= p < count <= parents.len(),
        0 <= slot < types.fields(parents[p]).len(),
    ensures
        ({
            let origin = origin_of(types, classes, parents[p], slot);
            carries(
                all_inherited(types, classes, defaults, parents, count),
                Some(origin.owner),
                origin.plain,
            )
        }),
    decreases count,
{
    let before = all_inherited(types, classes, defaults, parents, count - 1);
    let full = types.fields(parents[count - 1]).len() as int;
    let origin = origin_of(types, classes, parents[p], slot);
    if p < count - 1 {
        lemma_all_carries(types, classes, defaults, parents, count - 1, p, slot);
        lemma_inherited_grows(types, classes, defaults, before, parents[count - 1], full);
        let i = choose|i: int|
            0 <= i < before.len() && (#[trigger] before[i]).owner == Some(origin.owner)
                && before[i].plain == origin.plain;
        assert(all_inherited(types, classes, defaults, parents, count)[i] == before[i]);
    } else {
        lemma_inherited_carries(types, classes, defaults, before, parents[p], full, slot);
    }
}

/// No slot of any parent is lost: the class has a slot of the same owner under the same
/// written name.
pub proof fn every_parent_slot_is_carried(
    types: &TypeTable,
    classes: &ClassTable,
    defaults: Seq<Vec<Option<FieldDefault>>>,
    declaration: ClassDecl,
    parents: Seq<StructId>,
    source: SourceId,
    p: int,
    slot: int,
)
    requires
        0 <= p < parents.len(),
        0 <= slot < types.fields(parents[p]).len(),
    ensures
        exists|k: int|
            #![trigger flattened(types, classes, defaults, declaration, parents, source).0[k]]
            {
                let flat = flattened(types, classes, defaults, declaration, parents, source).0;
                let field = flat[k];
                let recorded = match classes.info(parents[p]) {
                    Some(info) => info.slot_origin@,
                    None => Seq::empty(),
                };
                &&& 0 <= k < flat.len()
                &&& slot < recorded.len() ==> field.owner == Some(recorded[slot].owner)
                    && field.plain == recorded[slot].plain
                &&& slot >= recorded.len() ==> field.owner == Some(parents[p]) && field.plain
                    == types.fields(parents[p])[slot].name
            },
{
    lemma_all_carries(types, classes, defaults, parents, parents.len() as int, p, slot);
    let origin = origin_of(types, classes, parents[p], slot);
    let inherited = all_inherited(types, classes, defaults, parents, parents.len() as int);
    lemma_own_grows(inherited, declaration.fields@, source, declaration.fields@.len() as int);
    let owned = with_own(
        inherited,
        declaration.fields@,
        source,
        declaration.fields@.len() as int,
    ).0;
    lemma_overrides_keep(
        owned,
        declaration.overrides@,
        source,
        declaration.overrides@.len() as int,
    );
    let k = choose|k: int|
        0 <= k < inherited.len() && (#[trigger] inherited[k]).owner == Some(origin.owner)
            && inherited[k].plain == origin.plain;
    let flat = flattened(types, classes, defaults, declaration, parents, source).0;
    assert(owned[k] == inherited[k]);
    assert(flat[k].owner == owned[k].owner && flat[k].plain == owned[k].plain);
}

proof fn lemma_own_silent(
    flat: Seq<FlatField>,
    fields: Seq<ClassFieldDecl>,
    source: SourceId,
    count: int,
)
    requires
        0 <= count <= fields.len(),
        with_own(flat, fields, source, count).1.len() == 0,
    ensures
        with_own(flat, fields, source, count).0.len() == flat.len() + count,
        forall|j: int|
            0 <= j < count ==> with_own(flat, fields, source, count).0[flat.len() + j] == own_slot(
                #[trigger] fields[j],
                source,
            ),
        forall|j: int|
            0 <= j < count ==> !written(flat, FieldName::Plain((#[trigger] fields[j]).name)),
        forall|i: int, j: int|
            0 <= i < j < count ==> (#[trigger] fields[i]).name != (#[trigger] fields[j]).name,
    decreases count,
{
    if count > 0 {
        let (before, problems) = with_own(flat, fields, source, count - 1);
        let field = fields[count - 1];
        assert(problems.len() == 0);
        lemma_own_silent(flat, fields, source, count - 1);
        lemma_own_grows(flat, fields, source, count - 1);
        assert(!written(before, FieldName::Plain(field.name)));
        if written(flat, FieldName::Plain(field.name)) {
            let i = choose|i: int|
                0 <= i < flat.len() && (#[trigger] flat[i]).plain == FieldName::Plain(field.name);
            assert(before[i] == flat[i]);
        }
        assert forall|i: int| 0 <= i < count - 1 implies (#[trigger] fields[i]).name
            != field.name by {
            assert(before[flat.len() + i] == own_slot(fields[i], source));
        }
    }
}

proof fn lemma_overrides_silent(
    flat: Seq<FlatField>,
    entries: Seq<OverrideFieldDecl>,
    source: SourceId,
    count: int,
    j: int,
)
    requires
        0 <= j < count <= entries.len(),
        with_overrides(flat, entries, source, count).1.len() == 0,
    ensures
        exists|k: int|
            {
                &&& 0 <= k < flat.len()
                &&& (#[trigger] flat[k]).plain == FieldName::Plain(entries[j].name)
                &&& forall|i: int|
                    0 <= i < flat.len() && i != k ==> (#[trigger] flat[i]).plain != flat[k].plain
                &&& entries[j].restated matches Some((ty, _)) ==> ty == flat[k].ty || ty
                    == Type::Error || flat[k].ty == Type::Error
            },
    decreases count,
{
    let (before, problems) = with_overrides(flat, entries, source, count - 1);
    let more = with_override(before, entries[count - 1], source).1;
    assert((problems + more).len() == problems.len() + more.len());
    if j < count - 1 {
        lemma_overrides_silent(flat, entries, source, count - 1, j);
    } else {
        lemma_overrides_keep(flat, entries, source, count - 1);
        let plain = FieldName::Plain(entries[j].name);
        assert(times_written(before, plain) == 1);
        lemma_first_written(before, plain);
        let k = first_written(before, plain);
        assert forall|i: int| 0 <= i < flat.len() && i != k implies (#[trigger] flat[i]).plain
            != flat[k].plain by {
            if flat[i].plain == flat[k].plain {
                assert(before[i].plain == flat[i].plain && before[k].plain == flat[k].plain);
                if i < k {
                    lemma_written_twice(before, i, k);
                } else {
                    lemma_written_twice(before, k, i);
                }
            }
        }
        assert(before[k].plain == flat[k].plain && before[k].ty == flat[k].ty);
    }
}

/// Where building a class's slots reports nothing, the class has a slot for every field
/// it declares, as declared, after all it inherits; each of its overrides names exactly
/// one slot, and restates, if it restates one, that slot's type.
pub proof fn a_silent_flattening_keeps_every_field(
    types: &TypeTable,
    classes: &ClassTable,
    defaults: Seq<Vec<Option<FieldDefault>>>,
    declaration: ClassDecl,
    parents: Seq<StructId>,
    source: SourceId,
)
    requires
        flattened(types, classes, defaults, declaration, parents, source).1.len() == 0,
    ensures
        ({
            let flat = flattened(types, classes, defaults, declaration, parents, source).0;
            let own = declaration.fields@;
            let entries = declaration.overrides@;
            &&& flat.len() >= own.len()
            &&& forall|j: int|
                #![trigger own[j]]
                0 <= j < own.len() ==> {
                    let field = flat[flat.len() - own.len() + j];
                    &&& field.owner is None
                    &&& field.plain == FieldName::Plain(own[j].name)
                    &&& field.ty == own[j].ty
                    &&& field.mutable == own[j].mutable
                }
            &&& forall|k: int|
                0 <= k < flat.len() - own.len() ==> (#[trigger] flat[k]).owner is Some
            &&& forall|j: int|
                #![trigger entries[j]]
                0 <= j < entries.len() ==> exists|k: int|
                    {
                        &&& 0 <= k < flat.len()
                        &&& (#[trigger] flat[k]).plain == FieldName::Plain(entries[j].name)
                        &&& forall|i: int|
                            0 <= i < flat.len() && i != k ==> (#[trigger] flat[i]).plain
                                != flat[k].plain
                        &&& entries[j].restated matches Some((ty, _)) ==> ty == flat[k].ty || ty
                            == Type::Error || flat[k].ty == Type::Error
                    }
        }),
{
    let own = declaration.fields@;
    let entries = declaration.overrides@;
    let inherited = all_inherited(types, classes, defaults, parents, parents.len() as int);
    let (owned, own_problems) = with_own(inherited, own, source, own.len() as int);
    let (rebound, override_problems) = with_overrides(
        owned,
        entries,
        source,
        entries.len() as int,
    );
    assert((own_problems + override_problems).len() == own_problems.len()
        + override_problems.len());
    lemma_own_silent(inherited, own, source, own.len() as int);
    lemma_own_grows(inherited, own, source, own.len() as int);
    lemma_overrides_keep(owned, entries, source, entries.len() as int);
    let flat = flattened(types, classes, defaults, declaration, parents, source).0;
    assert(flat.len() == owned.len());
    assert forall|k: int| 0 <= k < flat.len() implies (#[trigger] flat[k]).owner == owned[k].owner
        && flat[k].plain == owned[k].plain && flat[k].ty == owned[k].ty && flat[k].mutable
        == owned[k].mutable by {
        assert(rebound[k].owner == owned[k].owner);
    }
    assert forall|k: int| 0 <= k < flat.len() - own.len() implies (
    #[trigger] flat[k]).owner is Some by {
        assert(owned[k] == inherited[k]);
        lemma_all_from(types, classes, defaults, parents, parents.len() as int, k);
    }
    assert forall|j: int| #![trigger own[j]] 0 <= j < own.len() implies {
        let field = flat[flat.len() - own.len() + j];
        &&& field.owner is None
        &&& field.plain == FieldName::Plain(own[j].name)
        &&& field.ty == own[j].ty
        &&& field.mutable == own[j].mutable
    } by {
        assert(owned[inherited.len() + j] == own_slot(own[j], source));
    }
    assert forall|j: int| #![trigger entries[j]] 0 <= j < entries.len() implies exists|k: int|
        {
            &&& 0 <= k < flat.len()
            &&& (#[trigger] flat[k]).plain == FieldName::Plain(entries[j].name)
            &&& forall|i: int|
                0 <= i < flat.len() && i != k ==> (#[trigger] flat[i]).plain != flat[k].plain
            &&& entries[j].restated matches Some((ty, _)) ==> ty == flat[k].ty || ty == Type::Error
                || flat[k].ty == Type::Error
        } by {
        lemma_overrides_silent(owned, entries, source, entries.len() as int, j);
        let k = choose|k: int|
            {
                &&& 0 <= k < owned.len()
                &&& (#[trigger] owned[k]).plain == FieldName::Plain(entries[j].name)
                &&& forall|i: int|
                    0 <= i < owned.len() && i != k ==> (#[trigger] owned[i]).plain
                        != owned[k].plain
                &&& entries[j].restated matches Some((ty, _)) ==> ty == owned[k].ty || ty
                    == Type::Error || owned[k].ty == Type::Error
            };
        assert(flat[k].plain == owned[k].plain);
    }
}

proof fn lemma_slots_named(origins: Seq<SlotOrigin>, plain: FieldName, count: int)
    requires
        0 <= count <= origins.len() <= u32::MAX,
    ensures
        ({
            let found = slots_named(origins, plain, count);
            &&& forall|i: int|
                0 <= i < found.len() ==> (#[trigger] found[i]).1 < count && origins[found[i].1 as int]
                    == (SlotOrigin { owner: found[i].0, plain })
            &&& forall|i: int, j: int|
                0 <= i < j < found.len() ==> (#[trigger] found[i]).1 < (#[trigger] found[j]).1
            &&& forall|slot: int|
                0 <= slot < count && (#[trigger] origins[slot]).plain == plain ==> found.contains(
                    (origins[slot].owner, slot as u32),
                )
        }),
    decreases count,
{
    if count > 0 {
        lemma_slots_named(origins, plain, count - 1);
        let before = slots_named(origins, plain, count - 1);
        let found = slots_named(origins, plain, count);
        assert forall|slot: int|
            0 <= slot < count && (#[trigger] origins[slot]).plain == plain implies found.contains(
            (origins[slot].owner, slot as u32),
        ) by {
            if slot < count - 1 {
                let i = choose|i: int|
                    0 <= i < before.len() && before[i] == (origins[slot].owner, slot as u32);
                assert(found[i] == before[i]);
            } else {
                assert(found[found.len() - 1] == (origins[slot].owner, slot as u32));
            }
        }
    }
}

/// A bare field name means exactly the slots written so, in storage order, each with who
/// declared it.
pub proof fn a_bare_name_means_the_slots_written_so(origins: Seq<SlotOrigin>, plain: FieldName)
    requires
        origins.len() <= u32::MAX,
    ensures
        ({
            let found = slots_named(origins, plain, origins.len() as int);
            &&& forall|i: int|
                0 <= i < found.len() ==> (#[trigger] found[i]).1 < origins.len()
                    && origins[found[i].1 as int] == (SlotOrigin { owner: found[i].0, plain })
            &&& forall|i: int, j: int|
                0 <= i < j < found.len() ==> (#[trigger] found[i]).1 < (#[trigger] found[j]).1
            &&& forall|slot: int|
                0 <= slot < origins.len() && (#[trigger] origins[slot]).plain == plain
                    ==> found.contains((origins[slot].owner, slot as u32))
        }),
{
    lemma_slots_named(origins, plain, origins.len() as int);
}

/// Where an inherited slot comes from: what the parent's own record says of it where the
/// parent is a class that inherited it in turn, and the parent and its field's name
/// otherwise.
pub proof fn a_slots_origin_is_carried_down(
    types: &TypeTable,
    classes: &ClassTable,
    parent: StructId,
    slot: int,
)
    ensures
        classes.info(parent) matches Some(info) ==> (slot < info.slot_origin@.len() ==> origin_of(
            types,
            classes,
            parent,
            slot,
        ) == info.slot_origin@[slot]),
        classes.info(parent) is None ==> origin_of(types, classes, parent, slot).owner == parent
            && origin_of(types, classes, parent, slot).plain == types.fields(parent)[slot].name,
{
}

} // verus!
