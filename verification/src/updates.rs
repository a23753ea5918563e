//! Copy/update construction of an existing construct value.
//!
//! `local { let field = value }` evaluates the local once, copies its fields into
//! a new value, and replaces only the paths the overrides write.

use vstd::prelude::*;

use crate::arguments::carried;
use crate::cells::{cell_inner, held_by, local_read, read_local};
use crate::diagnostics::{
    blamed, Diagnostic, Log, Problem,
};
use crate::families::{ConstructTable, ContentSlot};
use crate::fn_types::FnTypeTable;
use crate::hir::{HirExpr, HirExprId, HirProgram, HirStmt, LocalId};
use crate::lattice::Lattice;
use crate::lists::copied;
use crate::names::Symbol;
use crate::scope::{declared_local, FnCtx, LocalOwnership};
use crate::source::{SourceId, Span};
use crate::ty::{FieldDef, FieldName, OwnershipMode, StructId, Type, TypeTable};
use crate::update_order::{carries_all, field_order, nowhere, role_carried, OverrideRole};

verus! {

/// Whether `prefix` begins `path`.
pub open spec fn begins(prefix: Seq<Symbol>, path: Seq<Symbol>) -> bool {
    prefix.len() <= path.len() && path.take(prefix.len() as int) == prefix
}

/// Whether `prefix` begins `path`.
pub fn is_prefix(prefix: &Vec<Symbol>, path: &Vec<Symbol>) -> (res: bool)
    ensures
        res == begins(prefix@, path@),
{
    if prefix.len() > path.len() {
        return false;
    }
    let mut i: usize = 0;
    while i < prefix.len()
        invariant
            i <= prefix@.len() <= path@.len(),
            forall|k: int| 0 <= k < i ==> prefix@[k] == #[trigger] path@[k],
        decreases prefix@.len() - i,
    {
        if prefix[i] != path[i] {
            assert(path@.take(prefix@.len() as int)[i as int] != prefix@[i as int]);
            return false;
        }
        i += 1;
    }
    assert(path@.take(prefix@.len() as int) =~= prefix@);
    true
}

/// Whether two paths write into one another: one of them begins the other.
pub open spec fn overlaps(left: Seq<Symbol>, right: Seq<Symbol>) -> bool {
    begins(left, right) || begins(right, left)
}

/// Whether two paths write into one another.
pub fn paths_overlap(left: &Vec<Symbol>, right: &Vec<Symbol>) -> (res: bool)
    ensures
        res == overlaps(left@, right@),
{
    is_prefix(left, right) || is_prefix(right, left)
}

/// The non-empty segments of a dotted label, the first `count` characters read:
/// those completed by a dot, and the one still open.
pub open spec fn segments_of(text: Seq<char>, count: int) -> (Seq<Seq<char>>, Seq<char>)
    decreases count,
{
    if count <= 0 {
        (Seq::empty(), Seq::empty())
    } else {
        let (done, open) = segments_of(text, count - 1);
        if text[count - 1] == '.' {
            if open.len() == 0 {
                (done, Seq::empty())
            } else {
                (done.push(open), Seq::empty())
            }
        } else {
            (done, open.push(text[count - 1]))
        }
    }
}

/// The non-empty segments of a dotted label.
pub open spec fn segments(text: Seq<char>) -> Seq<Seq<char>> {
    let (done, open) = segments_of(text, text.len() as int);
    if open.len() == 0 {
        done
    } else {
        done.push(open)
    }
}

/// Splits a dotted label into its non-empty segments.
pub fn split_label(text: &str) -> (list: Vec<String>)
    ensures
        list@.len() == segments(text@).len(),
        forall|k: int| 0 <= k < list@.len() ==> (#[trigger] list@[k])@ == segments(text@)[k],
{
    let count: usize = text.unicode_len();
    let mut list: Vec<String> = Vec::new();
    let mut from: usize = 0;
    let mut i: usize = 0;
    assert(text@.subrange(0, 0) =~= Seq::empty());
    while i < count
        invariant
            count == text@.len(),
            from <= i <= count,
            text@.subrange(from as int, i as int) == segments_of(text@, i as int).1,
            list@.len() == segments_of(text@, i as int).0.len(),
            forall|k: int|
                0 <= k < list@.len() ==> (#[trigger] list@[k])@ == segments_of(
                    text@,
                    i as int,
                ).0[k],
        decreases count - i,
    {
        if text.get_char(i) == '.' {
            if from < i {
                list.push(text.substring_char(from, i).to_owned());
            }
            from = i + 1;
            assert(text@.subrange(i + 1, i + 1) =~= Seq::empty());
        } else {
            assert(text@.subrange(from as int, i + 1) =~= text@.subrange(
                from as int,
                i as int,
            ).push(text@[i as int]));
        }
        i += 1;
    }
    if from < count {
        list.push(text.substring_char(from, count).to_owned());
    }
    list
}

/// One override of a construct update.
#[derive(Debug)]
pub struct UpdateOverride {
    pub label: Symbol,
    /// The label's segments, never none.
    pub path: Vec<Symbol>,
    pub span: Span,
    pub label_span: Span,
}

/// Where one argument of a construct update goes.
#[derive(Clone, Copy, PartialEq, Eq, Structural, Debug)]
pub enum UpdateRoute {
    /// It restates a child slot's content.
    Slot(usize),
    /// It overrides the field its path names.
    Override,
    /// It has no label, and is refused.
    Unlabeled,
    /// Its path is empty, and it is refused.
    EmptyPath,
}

/// Decides where an argument goes, by its label and that label's segments.
pub fn route_update(
    slots: &Vec<ContentSlot>,
    label: Option<Symbol>,
    path: &Vec<Symbol>,
) -> (route: UpdateRoute)
    ensures
        route == match label {
            None => UpdateRoute::Unlabeled,
            Some(label) => match crate::construction::slot_named(slots@, label, 0) {
                Some(slot) => UpdateRoute::Slot(slot as usize),
                None => if path@.len() == 0 {
                    UpdateRoute::EmptyPath
                } else {
                    UpdateRoute::Override
                },
            },
        },
        route matches UpdateRoute::Slot(k) ==> k < slots@.len(),
{
    match label {
        None => UpdateRoute::Unlabeled,
        Some(label) => match crate::construction::find_slot(slots, label) {
            Some(slot) => UpdateRoute::Slot(slot),
            None => if path.len() == 0 {
                UpdateRoute::EmptyPath
            } else {
                UpdateRoute::Override
            },
        },
    }
}

/// Reports an argument a construct update cannot take.
pub fn refuse_update(
    route: UpdateRoute,
    span: Span,
    label_span: Option<Span>,
    log: &mut Log,
)
    ensures
        final(log).source == old(log).source,
        match route {
            UpdateRoute::Unlabeled => final(log).reported(
                old(log),
                old(log).source,
                span,
                Problem::UpdateNeedsField,
            ),
            UpdateRoute::EmptyPath => final(log).reported(
                old(log),
                old(log).source,
                match label_span {
                    Some(at) => at,
                    None => span,
                },
                Problem::UpdateEmptyPath,
            ),
            _ => final(log).quiet(old(log)),
        },
{
    match route {
        UpdateRoute::Unlabeled => {
            log.emit(span, Problem::UpdateNeedsField);
        },
        UpdateRoute::EmptyPath => {
            let at = match label_span {
                Some(at) => at,
                None => span,
            };
            log.emit(at, Problem::UpdateEmptyPath);
        },
        _ => {},
    }
}

/// One argument of a construct update, its label split.
#[derive(Debug)]
pub struct UpdateArgument {
    pub label: Option<Symbol>,
    /// The label's segments.
    pub path: Vec<Symbol>,
    pub span: Span,
    pub label_span: Option<Span>,
}

/// Where an argument of an update goes.
pub open spec fn update_routed(slots: Seq<ContentSlot>, arg: UpdateArgument) -> UpdateRoute {
    match arg.label {
        None => UpdateRoute::Unlabeled,
        Some(label) => match crate::construction::slot_named(slots, label, 0) {
            Some(slot) => UpdateRoute::Slot(slot as usize),
            None => if arg.path@.len() == 0 {
                UpdateRoute::EmptyPath
            } else {
                UpdateRoute::Override
            },
        },
    }
}

/// Where an update blames an argument's label.
pub open spec fn label_at(arg: UpdateArgument) -> Span {
    match arg.label_span {
        Some(at) => at,
        None => arg.span,
    }
}

/// Those of the first `count` arguments that override a field, by their place.
pub open spec fn overriding(
    slots: Seq<ContentSlot>,
    args: Seq<UpdateArgument>,
    count: int,
) -> Seq<int>
    decreases count,
{
    if count <= 0 {
        Seq::empty()
    } else if update_routed(slots, args[count - 1]) is Override {
        overriding(slots, args, count - 1).push(count - 1)
    } else {
        overriding(slots, args, count - 1)
    }
}

/// Those of the first `count` arguments that restate a child slot, each with the
/// slot it restates.
pub open spec fn restating(
    slots: Seq<ContentSlot>,
    args: Seq<UpdateArgument>,
    count: int,
) -> Seq<(usize, usize)>
    decreases count,
{
    if count <= 0 {
        Seq::empty()
    } else {
        let before = restating(slots, args, count - 1);
        match update_routed(slots, args[count - 1]) {
            UpdateRoute::Slot(slot) => before.push((slot, (count - 1) as usize)),
            _ => before,
        }
    }
}

/// Those of the first `count` arguments that are refused, each with where it would go.
pub open spec fn refused(
    slots: Seq<ContentSlot>,
    args: Seq<UpdateArgument>,
    count: int,
) -> Seq<(usize, UpdateRoute)>
    decreases count,
{
    if count <= 0 {
        Seq::empty()
    } else {
        let before = refused(slots, args, count - 1);
        let route = update_routed(slots, args[count - 1]);
        if route is Unlabeled || route is EmptyPath {
            before.push(((count - 1) as usize, route))
        } else {
            before
        }
    }
}

/// `entry` is the override `arg` writes.
pub open spec fn override_of(entry: UpdateOverride, arg: UpdateArgument) -> bool {
    &&& arg.label == Some(entry.label)
    &&& entry.path@ == arg.path@
    &&& entry.span == arg.span
    &&& entry.label_span == label_at(arg)
}

/// The arguments of a construct update, by what becomes of them.
#[derive(Debug)]
pub struct UpdateReading {
    /// The overrides they write.
    pub overrides: Vec<UpdateOverride>,
    /// The child slots they restate, each with the place of its argument.
    pub restated: Vec<(usize, usize)>,
    /// Those an update cannot take, by their place: each is analyzed for what it says
    /// itself, and then refused.
    pub refused: Vec<(usize, UpdateRoute)>,
}

/// Reads the arguments of a construct update.
pub fn read_update(slots: &Vec<ContentSlot>, args: &Vec<UpdateArgument>) -> (read: UpdateReading)
    ensures
        read.overrides@.len() == overriding(slots@, args@, args@.len() as int).len(),
        forall|k: int|
            0 <= k < read.overrides@.len() ==> override_of(
                #[trigger] read.overrides@[k],
                args@[overriding(slots@, args@, args@.len() as int)[k]],
            ) && read.overrides@[k].path@.len() > 0,
        read.restated@ == restating(slots@, args@, args@.len() as int),
        read.refused@ == refused(slots@, args@, args@.len() as int),
{
    let mut overrides: Vec<UpdateOverride> = Vec::new();
    let mut named: Vec<(usize, usize)> = Vec::new();
    let mut bad: Vec<(usize, UpdateRoute)> = Vec::new();
    let mut i: usize = 0;
    while i < args.len()
        invariant
            i <= args@.len(),
            overrides@.len() == overriding(slots@, args@, i as int).len(),
            forall|k: int|
                0 <= k < overrides@.len() ==> override_of(
                    #[trigger] overrides@[k],
                    args@[overriding(slots@, args@, i as int)[k]],
                ) && overrides@[k].path@.len() > 0,
            named@ == restating(slots@, args@, i as int),
            bad@ == refused(slots@, args@, i as int),
        decreases args@.len() - i,
    {
        let ghost held = overrides@;
        let arg = &args[i];
        let route = route_update(slots, arg.label, &arg.path);
        assert(route == update_routed(slots@, args@[i as int]));
        match (route, arg.label) {
            (UpdateRoute::Slot(slot), _) => {
                named.push((slot, i));
            },
            (UpdateRoute::Override, Some(label)) => {
                let at = match arg.label_span {
                    Some(at) => at,
                    None => arg.span,
                };
                overrides.push(
                    UpdateOverride {
                        label,
                        path: copied(&arg.path),
                        span: arg.span,
                        label_span: at,
                    },
                );
                proof {
                    assert forall|k: int| 0 <= k < overrides@.len() implies override_of(
                        #[trigger] overrides@[k],
                        args@[overriding(slots@, args@, i + 1)[k]],
                    ) && overrides@[k].path@.len() > 0 by {
                        if k < held.len() {
                            assert(overrides@[k] == held[k]);
                        }
                    }
                }
            },
            _ => {
                bad.push((i, route));
            },
        }
        i += 1;
    }
    UpdateReading { overrides, restated: named, refused: bad }
}

/// What one override is refused for against the `count` before it.
pub open spec fn overlaps_with(
    overrides: Seq<UpdateOverride>,
    left: int,
    count: int,
    source: SourceId,
) -> Seq<Diagnostic>
    decreases count - left,
{
    if count <= left + 1 {
        Seq::empty()
    } else {
        let before = overlaps_with(overrides, left, count - 1, source);
        if overlaps(overrides[left].path@, overrides[count - 1].path@) {
            before.push(
                blamed(
                    source,
                    overrides[count - 1].label_span,
                    Problem::UpdatePathsOverlap {
                        left: overrides[left].label,
                        right: overrides[count - 1].label,
                    },
                ),
            )
        } else {
            before
        }
    }
}

/// What the first `count` overrides have the later ones refused for.
pub open spec fn all_overlaps(
    overrides: Seq<UpdateOverride>,
    count: int,
    source: SourceId,
) -> Seq<Diagnostic>
    decreases count,
{
    if count <= 0 {
        Seq::empty()
    } else {
        all_overlaps(overrides, count - 1, source) + overlaps_with(
            overrides,
            count - 1,
            overrides.len() as int,
            source,
        )
    }
}

/// Whether some override before `right`, among the first `count`, overlaps it.
pub open spec fn overlapped(overrides: Seq<UpdateOverride>, right: int, count: int) -> bool {
    exists|left: int|
        0 <= left < right && left < count && overlaps(
            (#[trigger] overrides[left]).path@,
            overrides[right].path@,
        )
}

/// Reports every pair of overrides that write into one another, and tells which
/// ones an earlier one overlaps.
pub fn check_overlaps(overrides: &Vec<UpdateOverride>, log: &mut Log) -> (invalid: Vec<bool>)
    ensures
        invalid@.len() == overrides@.len(),
        forall|k: int|
            0 <= k < overrides@.len() ==> #[trigger] invalid@[k] == overlapped(
                overrides@,
                k,
                overrides@.len() as int,
            ),
        final(log).source == old(log).source,
        final(log).diagnostics@ == old(log).diagnostics@ + all_overlaps(
            overrides@,
            overrides@.len() as int,
            old(log).source,
        ),
{
    let ghost said = log.diagnostics@;
    let ghost source = log.source;
    let mut invalid: Vec<bool> = Vec::new();
    let mut i: usize = 0;
    while i < overrides.len()
        invariant
            i <= overrides@.len(),
            invalid@.len() == i,
            forall|k: int| 0 <= k < i ==> !(#[trigger] invalid@[k]),
        decreases overrides@.len() - i,
    {
        invalid.push(false);
        i += 1;
    }
    let mut left: usize = 0;
    assert(said + Seq::<Diagnostic>::empty() =~= said);
    while left < overrides.len()
        invariant
            left <= overrides@.len(),
            invalid@.len() == overrides@.len(),
            log.source == source,
            forall|k: int|
                0 <= k < overrides@.len() ==> #[trigger] invalid@[k] == overlapped(
                    overrides@,
                    k,
                    left as int,
                ),
            log.diagnostics@ == said + all_overlaps(overrides@, left as int, source),
        decreases overrides@.len() - left,
    {
        let mut right: usize = left + 1;
        let ghost before = log.diagnostics@;
        assert(before + Seq::<Diagnostic>::empty() =~= before);
        while right < overrides.len()
            invariant
                left < overrides@.len(),
                left + 1 <= right <= overrides@.len(),
                invalid@.len() == overrides@.len(),
                log.source == source,
                forall|k: int|
                    0 <= k < right ==> #[trigger] invalid@[k] == overlapped(
                        overrides@,
                        k,
                        left + 1,
                    ),
                forall|k: int|
                    right <= k < overrides@.len() ==> #[trigger] invalid@[k] == overlapped(
                        overrides@,
                        k,
                        left as int,
                    ),
                log.diagnostics@ == before + overlaps_with(
                    overrides@,
                    left as int,
                    right as int,
                    source,
                ),
            decreases overrides@.len() - right,
        {
            let ghost flags = invalid@;
            if paths_overlap(&overrides[left].path, &overrides[right].path) {
                invalid[right] = true;
                log.emit(
                    overrides[right].label_span,
                    Problem::UpdatePathsOverlap {
                        left: overrides[left].label,
                        right: overrides[right].label,
                    },
                );
            }
            proof {
                assert(invalid@[right as int] == overlapped(overrides@, right as int, left + 1))
                    by {
                    if overlapped(overrides@, right as int, left as int) {
                        let l = choose|l: int|
                            0 <= l < right && l < left && overlaps(
                                (#[trigger] overrides@[l]).path@,
                                overrides@[right as int].path@,
                            );
                        assert(overlaps(overrides@[l].path@, overrides@[right as int].path@));
                    }
                    if overlaps(overrides@[left as int].path@, overrides@[right as int].path@) {
                        assert(overlapped(overrides@, right as int, left + 1));
                    }
                    assert(flags[right as int] == overlapped(
                        overrides@,
                        right as int,
                        left as int,
                    ));
                }
                assert(log.diagnostics@ =~= before + overlaps_with(
                    overrides@,
                    left as int,
                    right + 1,
                    source,
                ));
            }
            right += 1;
        }
        proof {
            assert forall|k: int| 0 <= k < overrides@.len() implies #[trigger] invalid@[k]
                == overlapped(overrides@, k, left + 1) by {}
            assert(log.diagnostics@ =~= said + all_overlaps(overrides@, left + 1, source));
        }
        left += 1;
    }
    invalid
}

/// Those of the first `count` overrides that are marked `mark`, ascending.
pub open spec fn marked(invalid: Seq<bool>, mark: bool, count: int) -> Seq<usize>
    decreases count,
{
    if count <= 0 {
        Seq::empty()
    } else if invalid[count - 1] == mark {
        marked(invalid, mark, count - 1).push((count - 1) as usize)
    } else {
        marked(invalid, mark, count - 1)
    }
}

pub(crate) proof fn lemma_marked(invalid: Seq<bool>, mark: bool, count: int)
    requires
        0 <= count <= invalid.len() <= usize::MAX,
    ensures
        ({
            let list = marked(invalid, mark, count);
            &&& forall|i: int, j: int|
                0 <= i < j < list.len() ==> (#[trigger] list[i]) < (#[trigger] list[j])
            &&& forall|i: int|
                0 <= i < list.len() ==> (#[trigger] list[i]) < count && invalid[list[i] as int]
                    == mark
            &&& forall|k: int|
                0 <= k < count && (#[trigger] invalid[k]) == mark ==> list.contains(k as usize)
        }),
    decreases count,
{
    if count > 0 {
        lemma_marked(invalid, mark, count - 1);
        let before = marked(invalid, mark, count - 1);
        let list = marked(invalid, mark, count);
        assert forall|k: int| 0 <= k < count && (#[trigger] invalid[k]) == mark implies list.contains(
            k as usize,
        ) by {
            if k < count - 1 {
                let at = choose|at: int| 0 <= at < before.len() && before[at] == k as usize;
                assert(list[at] == k as usize);
            } else {
                assert(list[list.len() - 1] == k as usize);
            }
        }
    }
}

fn list_marked(invalid: &Vec<bool>, mark: bool) -> (list: Vec<usize>)
    ensures
        list@ == marked(invalid@, mark, invalid@.len() as int),
{
    let mut list: Vec<usize> = Vec::new();
    let mut i: usize = 0;
    while i < invalid.len()
        invariant
            i <= invalid@.len(),
            list@ == marked(invalid@, mark, i as int),
        decreases invalid@.len() - i,
    {
        if invalid[i] == mark {
            list.push(i);
        }
        i += 1;
    }
    list
}

/// The overrides that are applied: those no earlier one overlaps, in the order they
/// were written.
pub fn kept_overrides(overrides: &Vec<UpdateOverride>, invalid: &Vec<bool>) -> (kept: Vec<usize>)
    requires
        invalid@.len() == overrides@.len(),
    ensures
        kept@ == marked(invalid@, false, invalid@.len() as int),
        forall|i: int, j: int|
            0 <= i < j < kept@.len() ==> (#[trigger] kept@[i]) < (#[trigger] kept@[j]),
        forall|i: int|
            0 <= i < kept@.len() ==> (#[trigger] kept@[i]) < overrides@.len()
                && !invalid@[kept@[i] as int],
        forall|k: int|
            0 <= k < overrides@.len() && !(#[trigger] invalid@[k]) ==> kept@.contains(k as usize),
{
    let kept = list_marked(invalid, false);
    let room: usize = invalid.len();
    proof {
        lemma_marked(invalid@, false, room as int);
    }
    kept
}

/// The overrides that an earlier one overlaps, in the order they were written.
pub fn dropped_overrides(invalid: &Vec<bool>) -> (dropped: Vec<usize>)
    ensures
        dropped@ == marked(invalid@, true, invalid@.len() as int),
        forall|i: int|
            0 <= i < dropped@.len() ==> (#[trigger] dropped@[i]) < invalid@.len()
                && invalid@[dropped@[i] as int],
{
    let dropped = list_marked(invalid, true);
    let room: usize = invalid.len();
    proof {
        lemma_marked(invalid@, true, room as int);
    }
    dropped
}

/// An override is applied exactly where no override before it writes into what it
/// writes.
pub proof fn applied_unless_overlapped(
    overrides: Seq<UpdateOverride>,
    invalid: Seq<bool>,
    kept: Seq<usize>,
    j: int,
)
    requires
        overrides.len() <= usize::MAX,
        invalid.len() == overrides.len(),
        forall|k: int|
            0 <= k < overrides.len() ==> #[trigger] invalid[k] == overlapped(
                overrides,
                k,
                overrides.len() as int,
            ),
        kept == marked(invalid, false, invalid.len() as int),
        0 <= j < overrides.len(),
    ensures
        kept.contains(j as usize) <==> forall|i: int|
            0 <= i < j ==> !overlaps((#[trigger] overrides[i]).path@, overrides[j].path@),
{
    lemma_marked(invalid, false, invalid.len() as int);
    if kept.contains(j as usize) {
        let at = choose|at: int| 0 <= at < kept.len() && kept[at] == j as usize;
        assert(!invalid[kept[at] as int]);
        assert(!overlapped(overrides, j, overrides.len() as int));
    } else {
        assert(invalid[j]);
    }
}

/// No two overrides that were kept write into one another.
pub proof fn kept_overrides_do_not_overlap(
    overrides: Seq<UpdateOverride>,
    invalid: Seq<bool>,
    i: int,
    j: int,
)
    requires
        invalid.len() == overrides.len(),
        forall|k: int|
            0 <= k < overrides.len() ==> #[trigger] invalid[k] == overlapped(
                overrides,
                k,
                overrides.len() as int,
            ),
        0 <= i < j < overrides.len(),
        !invalid[j],
    ensures
        !overlaps(overrides[i].path@, overrides[j].path@),
        !overlaps(overrides[j].path@, overrides[i].path@),
{
    if overlaps(overrides[i].path@, overrides[j].path@) {
        assert(overlapped(overrides, j, overrides.len() as int));
    }
}

/// A struct whose fields may be copied and updated: any but a function type's.
pub open spec fn updatable(fn_types: &FnTypeTable, ty: Type) -> Option<StructId> {
    match ty {
        Type::Struct(id) => if fn_types.info(id) is None {
            Some(id)
        } else {
            None
        },
        _ => None,
    }
}

pub(crate) fn concrete_or_plain_struct(fn_types: &FnTypeTable, ty: Type) -> (id: Option<StructId>)
    ensures
        id == updatable(fn_types, ty),
{
    match ty {
        Type::Struct(id) => match fn_types.find(id) {
            Some(_) => None,
            None => Some(id),
        },
        _ => None,
    }
}

/// What a construct update goes by: its overrides, what each was analyzed to, and what
/// settling it made of that.
pub struct UpdateTables<'a> {
    pub fn_types: &'a FnTypeTable,
    pub lattice: &'a Lattice,
    pub overrides: &'a Vec<UpdateOverride>,
    pub values: &'a Vec<HirExprId>,
    pub settled: &'a Vec<HirExprId>,
}

/// Those of the first `count` of `active` whose path goes on, at `depth`, with
/// the field called `name`.
pub open spec fn matching(
    overrides: Seq<UpdateOverride>,
    active: Seq<usize>,
    depth: int,
    name: FieldName,
    count: int,
) -> Seq<usize>
    decreases count,
{
    if count <= 0 {
        Seq::empty()
    } else {
        let before = matching(overrides, active, depth, name, count - 1);
        let k = active[count - 1];
        if name == FieldName::Plain(overrides[k as int].path@[depth]) {
            before.push(k)
        } else {
            before
        }
    }
}

/// The first of `list` from `from` on whose path ends at `depth`.
pub open spec fn ending(
    overrides: Seq<UpdateOverride>,
    list: Seq<usize>,
    depth: int,
    from: int,
) -> Option<usize>
    decreases list.len() - from,
{
    if from < 0 || from >= list.len() {
        None
    } else if overrides[list[from] as int].path@.len() == depth + 1 {
        Some(list[from])
    } else {
        ending(overrides, list, depth, from + 1)
    }
}

/// `reads` reads every field of `base`, in declaration order.
pub open spec fn reads_fields(
    program: &HirProgram,
    reads: Seq<HirExprId>,
    base: HirExprId,
    fields: Seq<FieldDef>,
) -> bool {
    &&& reads.len() == fields.len()
    &&& forall|i: int|
        0 <= i < reads.len() ==> program.has_expr(#[trigger] reads[i]) && program.at(reads[i]) == (
        HirExpr::Field { base, index: i as u32, ty: fields[i].ty })
}

/// `value` rebuilds struct `id` from `fields`, where `reads` reads what `base`
/// held.
pub open spec fn rebuilds(
    program: &HirProgram,
    value: HirExprId,
    id: StructId,
    base: HirExprId,
    declared: Seq<FieldDef>,
    reads: Seq<HirExprId>,
    fields: Seq<HirExprId>,
) -> bool {
    &&& program.has_expr(value)
    &&& (program.at(value) matches HirExpr::StructNew { struct_id, fields: given } && struct_id == id
        && given@ == fields)
    &&& reads_fields(program, reads, base, declared)
    &&& fields.len() == reads.len()
}

/// The first `count` of `fields` are those of a copy of `reads` with the active
/// overrides applied from `depth` on: the value an override gives, a rebuilt
/// struct where overrides go deeper, and what was there everywhere else.
pub open spec fn updated(
    program: &HirProgram,
    types: &TypeTable,
    tables: &UpdateTables,
    id: StructId,
    reads: Seq<HirExprId>,
    fields: Seq<HirExprId>,
    active: Seq<usize>,
    depth: int,
    count: int,
    limit: nat,
) -> bool
    decreases limit, count,
{
    if count <= 0 {
        true
    } else {
        let at = count - 1;
        let declared = types.fields(id)[at];
        let list = matching(
            tables.overrides@,
            active,
            depth,
            declared.name,
            active.len() as int,
        );
        &&& updated(program, types, tables, id, reads, fields, active, depth, count - 1, limit)
        &&& if list.len() == 0 {
            fields[at] == reads[at]
        } else {
            match (
                ending(tables.overrides@, list, depth, 0),
                updatable(tables.fn_types, declared.ty),
            ) {
                (Some(k), _) => program.has_expr(tables.values@[k as int]) && carried(
                    program,
                    program,
                    tables.lattice,
                    tables.values@[k as int],
                    declared.ty,
                    fields[at],
                ),
                (None, None) => fields[at] == reads[at],
                (None, Some(nested)) => limit > 0 && exists|
                    inner: Seq<HirExprId>,
                    rebuilt: Seq<HirExprId>,
                |
                    #[trigger] rebuilds(
                        program,
                        fields[at],
                        nested,
                        reads[at],
                        types.fields(nested),
                        inner,
                        rebuilt,
                    ) && updated(
                        program,
                        types,
                        tables,
                        nested,
                        inner,
                        rebuilt,
                        list,
                        depth + 1,
                        inner.len() as int,
                        (limit - 1) as nat,
                    ),
            }
        }
    }
}

/// Field `at` alone is as an update leaves it.
spec fn field_right(
    program: &HirProgram,
    types: &TypeTable,
    tables: &UpdateTables,
    id: StructId,
    read: HirExprId,
    value: HirExprId,
    list: Seq<usize>,
    depth: int,
    at: int,
    limit: nat,
) -> bool {
    let declared = types.fields(id)[at];
    if list.len() == 0 {
        value == read
    } else {
        match (
            ending(tables.overrides@, list, depth, 0),
            updatable(tables.fn_types, declared.ty),
        ) {
            (Some(k), _) => program.has_expr(tables.values@[k as int]) && carried(
                program,
                program,
                tables.lattice,
                tables.values@[k as int],
                declared.ty,
                value,
            ),
            (None, None) => value == read,
            (None, Some(nested)) => limit > 0 && exists|
                inner: Seq<HirExprId>,
                rebuilt: Seq<HirExprId>,
            |
                #[trigger] rebuilds(
                    program,
                    value,
                    nested,
                    read,
                    types.fields(nested),
                    inner,
                    rebuilt,
                ) && updated(
                    program,
                    types,
                    tables,
                    nested,
                    inner,
                    rebuilt,
                    list,
                    depth + 1,
                    inner.len() as int,
                    (limit - 1) as nat,
                ),
        }
    }
}

proof fn lemma_one_more(
    program: &HirProgram,
    types: &TypeTable,
    tables: &UpdateTables,
    id: StructId,
    reads: Seq<HirExprId>,
    fields: Seq<HirExprId>,
    active: Seq<usize>,
    depth: int,
    count: int,
    limit: nat,
)
    requires
        count > 0,
        updated(program, types, tables, id, reads, fields, active, depth, count - 1, limit),
        field_right(
            program,
            types,
            tables,
            id,
            reads[count - 1],
            fields[count - 1],
            matching(
                tables.overrides@,
                active,
                depth,
                types.fields(id)[count - 1].name,
                active.len() as int,
            ),
            depth,
            count - 1,
            limit,
        ),
    ensures
        updated(program, types, tables, id, reads, fields, active, depth, count, limit),
{
}

proof fn lemma_updated_kept(
    before: &HirProgram,
    after: &HirProgram,
    types: &TypeTable,
    tables: &UpdateTables,
    id: StructId,
    reads: Seq<HirExprId>,
    fields: Seq<HirExprId>,
    more: Seq<HirExprId>,
    active: Seq<usize>,
    depth: int,
    count: int,
    limit: nat,
)
    requires
        after.built_on(before),
        count <= fields.len() <= more.len(),
        forall|k: int| 0 <= k < count ==> more[k] == fields[k],
        updated(before, types, tables, id, reads, fields, active, depth, count, limit),
    ensures
        updated(after, types, tables, id, reads, more, active, depth, count, limit),
    decreases limit, count,
{
    if count > 0 {
        lemma_updated_kept(
            before,
            after,
            types,
            tables,
            id,
            reads,
            fields,
            more,
            active,
            depth,
            count - 1,
            limit,
        );
        let at = count - 1;
        let declared = types.fields(id)[at];
        let list = matching(
            tables.overrides@,
            active,
            depth,
            declared.name,
            active.len() as int,
        );
        if list.len() > 0 && ending(tables.overrides@, list, depth, 0) is None {
            if let Some(nested) = updatable(tables.fn_types, declared.ty) {
                let (inner, rebuilt) = choose|inner: Seq<HirExprId>, rebuilt: Seq<HirExprId>|
                    #[trigger] rebuilds(
                        before,
                        fields[at],
                        nested,
                        reads[at],
                        types.fields(nested),
                        inner,
                        rebuilt,
                    ) && updated(
                        before,
                        types,
                        tables,
                        nested,
                        inner,
                        rebuilt,
                        list,
                        depth + 1,
                        inner.len() as int,
                        (limit - 1) as nat,
                    );
                lemma_updated_kept(
                    before,
                    after,
                    types,
                    tables,
                    nested,
                    inner,
                    rebuilt,
                    rebuilt,
                    list,
                    depth + 1,
                    inner.len() as int,
                    (limit - 1) as nat,
                );
                assert(rebuilds(
                    after,
                    more[at],
                    nested,
                    reads[at],
                    types.fields(nested),
                    inner,
                    rebuilt,
                ));
            }
        }
    }
}

/// Whether some field is called `name`.
pub open spec fn starts_field(fields: Seq<FieldDef>, name: Symbol) -> bool {
    exists|i: int| 0 <= i < fields.len() && (#[trigger] fields[i]).name == FieldName::Plain(name)
}

/// How many nodes applying the active overrides to the first `count` fields may
/// take.
pub open spec fn update_cost(
    types: &TypeTable,
    tables: &UpdateTables,
    id: StructId,
    active: Seq<usize>,
    depth: int,
    count: int,
    limit: nat,
) -> int
    decreases limit, count,
{
    if count <= 0 {
        0
    } else {
        let declared = types.fields(id)[count - 1];
        let list = matching(
            tables.overrides@,
            active,
            depth,
            declared.name,
            active.len() as int,
        );
        update_cost(types, tables, id, active, depth, count - 1, limit) + if list.len() == 0 {
            0
        } else {
            match (
                ending(tables.overrides@, list, depth, 0),
                updatable(tables.fn_types, declared.ty),
            ) {
                (Some(_), _) => 0,
                (None, None) => 0,
                (None, Some(nested)) => if limit > 0 {
                    types.fields(nested).len() + update_cost(
                        types,
                        tables,
                        nested,
                        list,
                        depth + 1,
                        types.fields(nested).len() as int,
                        (limit - 1) as nat,
                    ) + 1
                } else {
                    0
                },
            }
        }
    }
}

proof fn lemma_cost(
    types: &TypeTable,
    tables: &UpdateTables,
    id: StructId,
    active: Seq<usize>,
    depth: int,
    count: int,
    limit: nat,
)
    ensures
        update_cost(types, tables, id, active, depth, count, limit) >= 0,
    decreases limit, count,
{
    if count > 0 {
        lemma_cost(types, tables, id, active, depth, count - 1, limit);
        let declared = types.fields(id)[count - 1];
        let list = matching(
            tables.overrides@,
            active,
            depth,
            declared.name,
            active.len() as int,
        );
        if limit > 0 {
            if let Some(nested) = updatable(tables.fn_types, declared.ty) {
                lemma_cost(
                    types,
                    tables,
                    nested,
                    list,
                    depth + 1,
                    types.fields(nested).len() as int,
                    (limit - 1) as nat,
                );
            }
        }
    }
}

proof fn lemma_cost_grows(
    types: &TypeTable,
    tables: &UpdateTables,
    id: StructId,
    active: Seq<usize>,
    depth: int,
    count: int,
    more: int,
    limit: nat,
)
    requires
        count <= more,
    ensures
        update_cost(types, tables, id, active, depth, count, limit) <= update_cost(
            types,
            tables,
            id,
            active,
            depth,
            more,
            limit,
        ),
    decreases more - count,
{
    if count < more {
        lemma_cost_grows(types, tables, id, active, depth, count, more - 1, limit);
        if more > 0 {
            let declared = types.fields(id)[more - 1];
            let list = matching(
                tables.overrides@,
                active,
                depth,
                declared.name,
                active.len() as int,
            );
            if limit > 0 {
                if let Some(nested) = updatable(tables.fn_types, declared.ty) {
                    lemma_cost(
                        types,
                        tables,
                        nested,
                        list,
                        depth + 1,
                        types.fields(nested).len() as int,
                        (limit - 1) as nat,
                    );
                }
            }
        }
    }
}

/// Every active override is one of them and goes on past `depth`, for at most
/// `limit` more segments.
pub open spec fn active_at(
    overrides: Seq<UpdateOverride>,
    active: Seq<usize>,
    depth: int,
    limit: int,
) -> bool {
    forall|k: int|
        0 <= k < active.len() ==> (#[trigger] active[k]) < overrides.len() && depth
            < overrides[active[k] as int].path@.len() <= depth + limit
}

pub(crate) fn select_matching(
    overrides: &Vec<UpdateOverride>,
    active: &Vec<usize>,
    depth: usize,
    name: FieldName,
    Ghost(limit): Ghost<int>,
) -> (list: Vec<usize>)
    requires
        active_at(overrides@, active@, depth as int, limit),
    ensures
        list@ == matching(overrides@, active@, depth as int, name, active@.len() as int),
        active_at(overrides@, list@, depth as int, limit),
{
    let mut list: Vec<usize> = Vec::new();
    let mut i: usize = 0;
    while i < active.len()
        invariant
            i <= active@.len(),
            active_at(overrides@, active@, depth as int, limit),
            list@ == matching(overrides@, active@, depth as int, name, i as int),
            active_at(overrides@, list@, depth as int, limit),
        decreases active@.len() - i,
    {
        let k: usize = active[i];
        assert(active@[i as int] < overrides@.len());
        let goes_on = FieldName::Plain(overrides[k].path[depth]);
        if name == goes_on {
            list.push(k);
        }
        i += 1;
    }
    list
}

pub(crate) fn find_ending(
    overrides: &Vec<UpdateOverride>,
    list: &Vec<usize>,
    depth: usize,
    Ghost(limit): Ghost<int>,
) -> (found: Option<usize>)
    requires
        active_at(overrides@, list@, depth as int, limit),
    ensures
        found == ending(overrides@, list@, depth as int, 0),
        match found {
            Some(k) => k < overrides@.len(),
            None => forall|k: int|
                0 <= k < list@.len() ==> overrides@[(#[trigger] list@[k]) as int].path@.len() > depth
                    + 1,
        },
{
    let mut i: usize = 0;
    while i < list.len()
        invariant
            i <= list@.len(),
            active_at(overrides@, list@, depth as int, limit),
            ending(overrides@, list@, depth as int, 0) == ending(
                overrides@,
                list@,
                depth as int,
                i as int,
            ),
            forall|k: int|
                0 <= k < i ==> overrides@[(#[trigger] list@[k]) as int].path@.len() > depth + 1,
        decreases list@.len() - i,
    {
        assert(list@[i as int] < overrides@.len());
        if overrides[list[i]].path.len() - 1 == depth {
            return Some(list[i]);
        }
        i += 1;
    }
    None
}

/// Reads every field of `base` in declaration order.
pub fn construct_field_reads(program: &mut HirProgram, id: StructId, base: HirExprId) -> (reads: Vec<
    HirExprId,
>)
    requires
        old(program).exprs@.len() + old(program).types.fields(id).len() <= u32::MAX,
    ensures
        final(program).built_on(old(program)),
        final(program).stmts == old(program).stmts,
        final(program).exprs@.len() == old(program).exprs@.len() + old(program).types.fields(
            id,
        ).len(),
        reads_fields(final(program), reads@, base, old(program).types.fields(id)),
{
    let ghost start = *program;
    let ghost fields = program.types.fields(id);
    let mut reads: Vec<HirExprId> = Vec::new();
    if (id.0 as usize) >= program.types.structs.len() {
        return reads;
    }
    let mut i: usize = 0;
    while i < program.types.structs[id.0 as usize].fields.len()
        invariant
            program.built_on(&start),
            program.stmts == start.stmts,
            id.0 < program.types.structs@.len(),
            fields == program.types.structs@[id.0 as int].fields@,
            start.exprs@.len() + fields.len() <= u32::MAX,
            i <= fields.len(),
            program.exprs@.len() == start.exprs@.len() + i,
            reads@.len() == i,
            forall|k: int|
                0 <= k < i ==> program.has_expr(#[trigger] reads@[k]) && program.at(reads@[k]) == (
                HirExpr::Field { base, index: k as u32, ty: fields[k].ty }),
        decreases fields.len() - i,
    {
        let ty = program.types.structs[id.0 as usize].fields[i].ty;
        let ghost before = *program;
        let ghost held = reads@;
        let read = program.add_expr(HirExpr::Field { base, index: i as u32, ty });
        reads.push(read);
        proof {
            assert forall|k: int| 0 <= k < i + 1 implies program.has_expr(#[trigger] reads@[k])
                && program.at(reads@[k]) == (HirExpr::Field {
                base,
                index: k as u32,
                ty: fields[k].ty,
            }) by {
                if k < i {
                    assert(reads@[k] == held[k]);
                    assert(program.at(held[k]) == before.at(held[k]));
                }
            }
        }
        i += 1;
    }
    reads
}

pub(crate) fn has_field(types: &TypeTable, id: StructId, name: Symbol) -> (res: bool)
    ensures
        res == starts_field(types.fields(id), name),
{
    if (id.0 as usize) >= types.structs.len() {
        return false;
    }
    let fields = &types.structs[id.0 as usize].fields;
    let wanted = FieldName::Plain(name);
    let mut i: usize = 0;
    while i < fields.len()
        invariant
            i <= fields@.len(),
            wanted == FieldName::Plain(name),
            fields@ == types.fields(id),
            forall|k: int| 0 <= k < i ==> (#[trigger] fields@[k]).name != wanted,
        decreases fields@.len() - i,
    {
        if fields[i].name == wanted {
            assert(types.fields(id)[i as int].name == FieldName::Plain(name));
            return true;
        }
        i += 1;
    }
    false
}

/// Applies the active overrides to one struct, rebuilding nested structs where a
/// path goes deeper.
#[verifier::rlimit(60)]
fn update_level(
    program: &mut HirProgram,
    tables: &UpdateTables,
    id: StructId,
    reads: &Vec<HirExprId>,
    active: &Vec<usize>,
    depth: usize,
    limit: usize,
) -> (result: HirExprId)
    requires
        reads@.len() == old(program).types.fields(id).len(),
        active_at(tables.overrides@, active@, depth as int, limit as int),
        tables.values@.len() == tables.overrides@.len(),
        tables.settled@.len() == tables.overrides@.len(),
        carries_all(
            old(program),
            tables,
            field_order(
                &old(program).types,
                tables.fn_types,
                tables.overrides@,
                id,
                active@,
                depth as int,
                reads@.len() as int,
                limit as nat,
            ),
        ),
        depth + limit < usize::MAX,
        old(program).exprs@.len() + update_cost(
            &old(program).types,
            tables,
            id,
            active@,
            depth as int,
            reads@.len() as int,
            limit as nat,
        ) < u32::MAX,
    ensures
        final(program).built_on(old(program)),
        final(program).stmts == old(program).stmts,
        final(program).exprs@.len() <= old(program).exprs@.len() + update_cost(
            &old(program).types,
            tables,
            id,
            active@,
            depth as int,
            reads@.len() as int,
            limit as nat,
        ) + 1,
        final(program).has_expr(result),
        (final(program).at(result) matches HirExpr::StructNew { struct_id, fields } && struct_id
            == id && fields@.len() == reads@.len() && updated(
            final(program),
            &old(program).types,
            tables,
            id,
            reads@,
            fields@,
            active@,
            depth as int,
            reads@.len() as int,
            limit as nat,
        )),
    decreases limit,
{
    let ghost start = *program;
    let ghost types = program.types;
    let ghost order = field_order(
        &types,
        tables.fn_types,
        tables.overrides@,
        id,
        active@,
        depth as int,
        reads@.len() as int,
        limit as nat,
    );
    let ghost total = update_cost(
        &types,
        tables,
        id,
        active@,
        depth as int,
        reads@.len() as int,
        limit as nat,
    );
    let mut fields: Vec<HirExprId> = Vec::new();
    let mut i: usize = 0;
    while i < reads.len()
        invariant
            i <= reads@.len(),
            types == start.types,
            reads@.len() == types.fields(id).len(),
            active_at(tables.overrides@, active@, depth as int, limit as int),
            tables.values@.len() == tables.overrides@.len(),
            tables.settled@.len() == tables.overrides@.len(),
            order == field_order(
                &types,
                tables.fn_types,
                tables.overrides@,
                id,
                active@,
                depth as int,
                reads@.len() as int,
                limit as nat,
            ),
            carries_all(&start, tables, order),
            depth + limit < usize::MAX,
            total == update_cost(
                &types,
                tables,
                id,
                active@,
                depth as int,
                reads@.len() as int,
                limit as nat,
            ),
            start.exprs@.len() + total < u32::MAX,
            program.built_on(&start),
            program.stmts == start.stmts,
            program.exprs@.len() <= start.exprs@.len() + update_cost(
                &types,
                tables,
                id,
                active@,
                depth as int,
                i as int,
                limit as nat,
            ),
            fields@.len() == i,
            updated(
                program,
                &types,
                tables,
                id,
                reads@,
                fields@,
                active@,
                depth as int,
                i as int,
                limit as nat,
            ),
        decreases reads@.len() - i,
    {
        let ghost before = *program;
        let ghost held = fields@;
        let declared: FieldDef = program.types.structs[id.0 as usize].fields[i];
        assert(declared == types.fields(id)[i as int]);
        let list = select_matching(
            tables.overrides,
            active,
            depth,
            declared.name,
            Ghost(limit as int),
        );
        proof {
            lemma_cost_grows(
                &types,
                tables,
                id,
                active@,
                depth as int,
                i + 1,
                reads@.len() as int,
                limit as nat,
            );
        }
        let value: HirExprId = if list.len() == 0 {
            reads[i]
        } else {
            match find_ending(tables.overrides, &list, depth, Ghost(limit as int)) {
                Some(k) => {
                    proof {
                        lemma_order_starts(
                            &start,
                            tables,
                            id,
                            active@,
                            depth as int,
                            i + 1,
                            reads@.len() as int,
                            limit as nat,
                        );
                        lemma_carries_kept(&start, program, tables, field_order(
                            &types,
                            tables.fn_types,
                            tables.overrides@,
                            id,
                            active@,
                            depth as int,
                            i + 1,
                            limit as nat,
                        ));
                        let upto = field_order(
                            &types,
                            tables.fn_types,
                            tables.overrides@,
                            id,
                            active@,
                            depth as int,
                            i + 1,
                            limit as nat,
                        );
                        assert(upto.last() == (
                            k,
                            OverrideRole::Writes { field: declared.name, ty: declared.ty },
                        ));
                        assert(upto[upto.len() - 1] == upto.last());
                    }
                    tables.settled[k]
                },
                None => match concrete_or_plain_struct(tables.fn_types, declared.ty) {
                    None => {
                        reads[i]
                    },
                    Some(nested) => {
                        assert(limit > 0) by {
                            assert(tables.overrides@[list@[0] as int].path@.len() > depth + 1);
                            assert(list@[0] < tables.overrides@.len());
                        }
                        proof {
                            lemma_cost(
                                &types,
                                tables,
                                nested,
                                list@,
                                depth + 1,
                                types.fields(nested).len() as int,
                                (limit - 1) as nat,
                            );
                        }
                        let inner = construct_field_reads(program, nested, reads[i]);
                        let ghost read = *program;
                        proof {
                            lemma_order_starts(
                                &start,
                                tables,
                                id,
                                active@,
                                depth as int,
                                i + 1,
                                reads@.len() as int,
                                limit as nat,
                            );
                            let upto = field_order(
                                &types,
                                tables.fn_types,
                                tables.overrides@,
                                id,
                                active@,
                                depth as int,
                                i as int,
                                limit as nat,
                            );
                            let below = field_order(
                                &types,
                                tables.fn_types,
                                tables.overrides@,
                                nested,
                                list@,
                                depth + 1,
                                types.fields(nested).len() as int,
                                (limit - 1) as nat,
                            );
                            let behind = nowhere(
                                &types,
                                tables.overrides@,
                                nested,
                                list@,
                                depth + 1,
                                list@.len() as int,
                            );
                            assert forall|k: int| 0 <= k < below.len() implies role_carried(
                                &start,
                                tables,
                                #[trigger] below[k],
                            ) by {
                                assert((upto + below + behind)[upto.len() + k] == below[k]);
                            }
                            lemma_carries_kept(&start, program, tables, below);
                        }
                        let rebuilt = update_level(
                            program,
                            tables,
                            nested,
                            &inner,
                            &list,
                            depth + 1,
                            limit - 1,
                        );
                        proof {
                            let made = program.at(rebuilt)->StructNew_fields@;
                            assert(reads_fields(
                                program,
                                inner@,
                                reads@[i as int],
                                types.fields(nested),
                            )) by {
                                assert forall|k: int| 0 <= k < inner@.len() implies program.has_expr(
                                    #[trigger] inner@[k],
                                ) && program.at(inner@[k]) == (HirExpr::Field {
                                    base: reads@[i as int],
                                    index: k as u32,
                                    ty: types.fields(nested)[k].ty,
                                }) by {
                                    assert(program.at(inner@[k]) == read.at(inner@[k]));
                                }
                            }
                            assert(rebuilds(
                                program,
                                rebuilt,
                                nested,
                                reads@[i as int],
                                types.fields(nested),
                                inner@,
                                made,
                            ));
                            assert(updated(
                                program,
                                &types,
                                tables,
                                nested,
                                inner@,
                                made,
                                list@,
                                depth + 1,
                                inner@.len() as int,
                                (limit - 1) as nat,
                            ));
                        }
                        rebuilt
                    },
                },
            }
        };
        fields.push(value);
        proof {
            assert(field_right(
                program,
                &types,
                tables,
                id,
                reads@[i as int],
                value,
                list@,
                depth as int,
                i as int,
                limit as nat,
            ));
            lemma_updated_kept(
                &before,
                program,
                &types,
                tables,
                id,
                reads@,
                held,
                fields@,
                active@,
                depth as int,
                i as int,
                limit as nat,
            );
            lemma_one_more(
                program,
                &types,
                tables,
                id,
                reads@,
                fields@,
                active@,
                depth as int,
                i + 1,
                limit as nat,
            );
        }
        i += 1;
    }
    let ghost before = *program;
    let ghost made = fields@;
    let result = program.add_expr(HirExpr::StructNew { struct_id: id, fields });
    proof {
        lemma_updated_kept(
            &before,
            program,
            &types,
            tables,
            id,
            reads@,
            made,
            made,
            active@,
            depth as int,
            reads@.len() as int,
            limit as nat,
        );
    }
    result
}

proof fn lemma_order_starts(
    program: &HirProgram,
    tables: &UpdateTables,
    id: StructId,
    active: Seq<usize>,
    depth: int,
    count: int,
    more: int,
    limit: nat,
)
    requires
        0 <= count <= more,
        carries_all(
            program,
            tables,
            field_order(
                &program.types,
                tables.fn_types,
                tables.overrides@,
                id,
                active,
                depth,
                more,
                limit,
            ),
        ),
    ensures
        carries_all(
            program,
            tables,
            field_order(
                &program.types,
                tables.fn_types,
                tables.overrides@,
                id,
                active,
                depth,
                count,
                limit,
            ),
        ),
    decreases more - count,
{
    if count < more {
        let whole = field_order(
            &program.types,
            tables.fn_types,
            tables.overrides@,
            id,
            active,
            depth,
            more,
            limit,
        );
        let part = field_order(
            &program.types,
            tables.fn_types,
            tables.overrides@,
            id,
            active,
            depth,
            more - 1,
            limit,
        );
        assert forall|k: int| 0 <= k < part.len() implies role_carried(
            program,
            tables,
            #[trigger] part[k],
        ) by {
            assert(whole[k] == part[k]);
        }
        lemma_order_starts(program, tables, id, active, depth, count, more - 1, limit);
    }
}

proof fn lemma_carries_kept(
    before: &HirProgram,
    after: &HirProgram,
    tables: &UpdateTables,
    order: Seq<(usize, OverrideRole)>,
)
    requires
        after.built_on(before),
        carries_all(before, tables, order),
    ensures
        carries_all(after, tables, order),
{
    assert forall|k: int| 0 <= k < order.len() implies role_carried(
        after,
        tables,
        #[trigger] order[k],
    ) by {
        assert(role_carried(before, tables, order[k]));
        let value = tables.values@[order[k].0 as int];
        assert(before.has_expr(value) ==> after.at(value) == before.at(value));
    }
}

/// The length of the longest path.
pub open spec fn longest(overrides: Seq<UpdateOverride>, count: int) -> nat
    decreases count,
{
    if count <= 0 {
        0
    } else {
        let before = longest(overrides, count - 1);
        if overrides[count - 1].path@.len() > before {
            overrides[count - 1].path@.len()
        } else {
            before
        }
    }
}

/// Applies the overrides that `active` lists, each of them settled, to a copy of the
/// value whose fields `reads` reads.
pub fn update_struct_fields(
    program: &mut HirProgram,
    tables: &UpdateTables,
    ty: Type,
    reads: &Vec<HirExprId>,
    active: &Vec<usize>,
) -> (result: HirExprId)
    requires
        updatable(tables.fn_types, ty) matches Some(id) ==> reads@.len() == old(
            program,
        ).types.fields(id).len(),
        forall|k: int|
            0 <= k < tables.overrides@.len() ==> (#[trigger] tables.overrides@[k]).path@.len() > 0,
        tables.values@.len() == tables.overrides@.len(),
        tables.settled@.len() == tables.overrides@.len(),
        forall|k: int|
            0 <= k < active@.len() ==> (#[trigger] active@[k]) < tables.overrides@.len(),
        updatable(tables.fn_types, ty) matches Some(id) ==> carries_all(
            old(program),
            tables,
            field_order(
                &old(program).types,
                tables.fn_types,
                tables.overrides@,
                id,
                active@,
                0,
                reads@.len() as int,
                longest(tables.overrides@, tables.overrides@.len() as int),
            ),
        ),
        longest(tables.overrides@, tables.overrides@.len() as int) < usize::MAX,
        old(program).exprs@.len() < u32::MAX,
        updatable(tables.fn_types, ty) matches Some(id) ==> old(program).exprs@.len() + update_cost(
            &old(program).types,
            tables,
            id,
            active@,
            0,
            reads@.len() as int,
            longest(tables.overrides@, tables.overrides@.len() as int),
        ) < u32::MAX,
    ensures
        final(program).built_on(old(program)),
        final(program).has_expr(result),
        match updatable(tables.fn_types, ty) {
            None => final(program).at(result) == HirExpr::Error,
            Some(id) => {
                let limit = longest(tables.overrides@, tables.overrides@.len() as int);
                (final(program).at(result) matches HirExpr::StructNew { struct_id, fields }
                    && struct_id == id && fields@.len() == reads@.len() && updated(
                    final(program),
                    &old(program).types,
                    tables,
                    id,
                    reads@,
                    fields@,
                    active@,
                    0,
                    reads@.len() as int,
                    limit,
                ))
            },
        },
{
    let id = match concrete_or_plain_struct(tables.fn_types, ty) {
        Some(id) => id,
        None => {
            return program.add_expr(HirExpr::Error);
        },
    };
    let mut limit: usize = 0;
    let mut i: usize = 0;
    while i < tables.overrides.len()
        invariant
            i <= tables.overrides@.len(),
            limit == longest(tables.overrides@, i as int),
            forall|k: int|
                0 <= k < tables.overrides@.len() ==> (#[trigger] tables.overrides@[k]).path@.len()
                    > 0,
            forall|k: int|
                0 <= k < i ==> (#[trigger] tables.overrides@[k]).path@.len() <= limit,
        decreases tables.overrides@.len() - i,
    {
        if tables.overrides[i].path.len() > limit {
            limit = tables.overrides[i].path.len();
        }
        i += 1;
    }
    update_level(program, tables, id, reads, active, 0, limit)
}

/// A field no override's path starts keeps the value it had.
pub proof fn untouched_fields_are_copied(
    program: &HirProgram,
    types: &TypeTable,
    tables: &UpdateTables,
    id: StructId,
    reads: Seq<HirExprId>,
    fields: Seq<HirExprId>,
    active: Seq<usize>,
    depth: int,
    count: int,
    limit: nat,
    at: int,
)
    requires
        updated(program, types, tables, id, reads, fields, active, depth, count, limit),
        0 <= at < count,
        forall|k: int|
            0 <= k < active.len() ==> FieldName::Plain(
                tables.overrides@[(#[trigger] active[k]) as int].path@[depth],
            ) != types.fields(id)[at].name,
    ensures
        fields[at] == reads[at],
    decreases count,
{
    if at == count - 1 {
        lemma_no_match(
            tables.overrides@,
            active,
            depth,
            types.fields(id)[at].name,
            active.len() as int,
        );
    } else {
        untouched_fields_are_copied(
            program,
            types,
            tables,
            id,
            reads,
            fields,
            active,
            depth,
            count - 1,
            limit,
            at,
        );
    }
}

proof fn lemma_no_match(
    overrides: Seq<UpdateOverride>,
    active: Seq<usize>,
    depth: int,
    name: FieldName,
    count: int,
)
    requires
        count <= active.len(),
        forall|k: int|
            0 <= k < active.len() ==> FieldName::Plain(
                overrides[(#[trigger] active[k]) as int].path@[depth],
            ) != name,
    ensures
        matching(overrides, active, depth, name, count).len() == 0,
    decreases count,
{
    if count > 0 {
        lemma_no_match(overrides, active, depth, name, count - 1);
    }
}

/// The type of the value a local holds: what its cell holds where it is boxed.
pub open spec fn base_type(types: &TypeTable, ctx: &FnCtx, local: LocalId) -> Type {
    match held_by(types, ctx, local) {
        Some(held) => held,
        None => ctx.locals@[local.0 as int].ty,
    }
}

/// How a construct update starts.
#[derive(Clone, Copy, PartialEq, Eq, Structural, Debug)]
pub enum UpdateStart {
    /// The local holds no construct value: everything written is analyzed for what it
    /// says itself, and then the update is refused.
    Refused,
    /// The local was moved out of, which is reported; the value is the error node.
    Moved,
    /// The update copies the fields of this declaration, read from this value.
    Copies(StructId, HirExprId),
}

/// Starts a construct update: reads the local once, into a hidden binding that
/// every copied field is then read from.
pub fn begin_update(
    program: &mut HirProgram,
    ctx: &mut FnCtx,
    constructs: &ConstructTable,
    local: LocalId,
) -> (start: UpdateStart)
    requires
        old(ctx).wf(),
        old(ctx).has(local),
        old(ctx).locals@.len() < u32::MAX,
        old(program).room(2),
    ensures
        final(ctx).wf(),
        ({
            let ty = base_type(&old(program).types, old(ctx), local);
            let construct = match ty {
                Type::Struct(id) if constructs.info(id) is Some => Some(id),
                _ => None,
            };
            match construct {
                None => start is Refused && *final(program) == *old(program) && *final(ctx)
                    == *old(ctx),
                Some(id) => if !old(ctx).ownership@[local.0 as int].is_live() {
                    start is Moved && *final(program) == *old(program) && *final(ctx) == *old(ctx)
                } else {
                    let hidden = LocalId(old(ctx).locals@.len() as u32);
                    &&& start == UpdateStart::Copies(
                        id,
                        HirExprId((old(program).exprs@.len() + 1) as u32),
                    )
                    &&& final(program).exprs@ == old(program).exprs@.push(
                        local_read(&old(program).types, old(ctx), local),
                    ).push(HirExpr::Local { local: hidden, ty })
                    &&& final(program).stmts@ == old(program).stmts@.push(
                        HirStmt::Let {
                            local: hidden,
                            init: HirExprId(old(program).exprs@.len() as u32),
                        },
                    )
                    &&& final(program).built_on(old(program))
                    &&& final(ctx).pending_stmts@ == old(ctx).pending_stmts@.push(
                        crate::hir::HirStmtId(old(program).stmts@.len() as u32),
                    )
                    &&& (FnCtx { pending_stmts: old(ctx).pending_stmts, ..*final(ctx) }).grown(
                        old(ctx),
                        declared_local(None, ty, false, OwnershipMode::Owned),
                        LocalOwnership::fresh(OwnershipMode::Owned),
                    )
                    &&& final(ctx).scopes == old(ctx).scopes
                },
            }
        }),
{
    let ty = match cell_inner(&program.types, ctx, local) {
        Some(held) => held,
        None => ctx.local_type(local),
    };
    let id = match constructs.concrete_construct_id(ty) {
        Some(id) => id,
        None => {
            return UpdateStart::Refused;
        },
    };
    if !ctx.ownership_of(local).is_live() {
        return UpdateStart::Moved;
    }
    let read = read_local(program, ctx, local);
    let hidden = ctx.declare_hidden(ty, false);
    let stmt = program.add_stmt(HirStmt::Let { local: hidden, init: read });
    ctx.hoist_stmt(stmt);
    let base = program.add_expr(HirExpr::Local { local: hidden, ty });
    UpdateStart::Copies(id, base)
}

/// Refuses an update of a local that holds no construct value, everything written in it
/// having been analyzed; its value is the error node.
pub fn refuse_base(program: &mut HirProgram, span: Span, log: &mut Log) -> (id: HirExprId)
    requires
        old(program).exprs@.len() < u32::MAX,
    ensures
        id.0 == old(program).exprs@.len(),
        final(program).exprs@ == old(program).exprs@.push(HirExpr::Error),
        *final(program) == (HirProgram { exprs: final(program).exprs, ..*old(program) }),
        final(log).source == old(log).source,
        final(log).reported(old(log), old(log).source, span, Problem::UpdateNeedsConstruct),
{
    log.emit(span, Problem::UpdateNeedsConstruct);
    program.add_expr(HirExpr::Error)
}

/// Two paths write into one another exactly if they agree as far as both go.
pub proof fn paths_overlap_where_they_agree(left: Seq<Symbol>, right: Seq<Symbol>)
    ensures
        overlaps(left, right) <==> forall|i: int|
            0 <= i < left.len() && i < right.len() ==> #[trigger] left[i] == right[i],
{
    if overlaps(left, right) {
        assert forall|i: int| 0 <= i < left.len() && i < right.len() implies #[trigger] left[i]
            == right[i] by {
            if begins(left, right) {
                assert(right.take(left.len() as int)[i] == right[i]);
            } else {
                assert(left.take(right.len() as int)[i] == left[i]);
            }
        }
    }
    if forall|i: int| 0 <= i < left.len() && i < right.len() ==> #[trigger] left[i] == right[i] {
        if left.len() <= right.len() {
            assert(right.take(left.len() as int) =~= left);
        } else {
            assert(left.take(right.len() as int) =~= right);
        }
    }
}

proof fn lemma_segments_plain(text: Seq<char>, count: int)
    requires
        0 <= count <= text.len(),
    ensures
        ({
            let (done, open) = segments_of(text, count);
            &&& forall|k: int|
                0 <= k < done.len() ==> (#[trigger] done[k]).len() > 0 && !done[k].contains('.')
            &&& !open.contains('.')
        }),
    decreases count,
{
    if count > 0 {
        lemma_segments_plain(text, count - 1);
        let (done, open) = segments_of(text, count - 1);
        if text[count - 1] != '.' {
            let longer = open.push(text[count - 1]);
            assert(!longer.contains('.')) by {
                if longer.contains('.') {
                    let i = choose|i: int| 0 <= i < longer.len() && longer[i] == '.';
                    if i < open.len() {
                        assert(open[i] == '.');
                    }
                }
            }
        }
    }
}

proof fn lemma_segments_prefix(text: Seq<char>, longer: Seq<char>, count: int)
    requires
        0 <= count <= text.len() <= longer.len(),
        forall|i: int| 0 <= i < text.len() ==> text[i] == longer[i],
    ensures
        segments_of(text, count) == segments_of(longer, count),
    decreases count,
{
    if count > 0 {
        lemma_segments_prefix(text, longer, count - 1);
    }
}

proof fn lemma_segments_after(left: Seq<char>, right: Seq<char>, count: int)
    requires
        0 <= count <= right.len(),
    ensures
        ({
            let text = left + seq!['.'] + right;
            let (done, open) = segments_of(right, count);
            segments_of(text, left.len() + 1 + count) == (segments(left) + done, open)
        }),
    decreases count,
{
    let text = left + seq!['.'] + right;
    if count == 0 {
        lemma_segments_prefix(left, text, left.len() as int);
        assert(text[left.len() as int] == '.');
        assert(segments(left) + Seq::<Seq<char>>::empty() =~= segments(left));
    } else {
        lemma_segments_after(left, right, count - 1);
        let (done, open) = segments_of(right, count - 1);
        assert(text[left.len() + count] == right[count - 1]);
        if right[count - 1] == '.' && open.len() > 0 {
            assert((segments(left) + done).push(open) =~= segments(left) + done.push(open));
        }
    }
}

/// A dotted label's segments are what stands between its dots: no segment is empty or
/// holds a dot, a label without a dot is its own one segment, and a dot parts the
/// segments before it from those after it.
pub proof fn a_label_is_split_at_its_dots(left: Seq<char>, right: Seq<char>)
    ensures
        forall|k: int|
            0 <= k < segments(left).len() ==> (#[trigger] segments(left)[k]).len() > 0
                && !segments(left)[k].contains('.'),
        left.len() > 0 && !left.contains('.') ==> segments(left) == seq![left],
        segments(left + seq!['.'] + right) == segments(left) + segments(right),
{
    lemma_segments_plain(left, left.len() as int);
    if left.len() > 0 && !left.contains('.') {
        lemma_segment_whole(left, left.len() as int);
        assert(left.take(left.len() as int) =~= left);
        assert(Seq::<Seq<char>>::empty().push(left) =~= seq![left]);
    }
    lemma_segments_after(left, right, right.len() as int);
    let text = left + seq!['.'] + right;
    assert(text.len() == left.len() + 1 + right.len());
    let (done, open) = segments_of(right, right.len() as int);
    if open.len() > 0 {
        assert((segments(left) + done).push(open) =~= segments(left) + done.push(open));
    }
}

proof fn lemma_segment_whole(text: Seq<char>, count: int)
    requires
        0 <= count <= text.len(),
        !text.contains('.'),
    ensures
        segments_of(text, count) == (Seq::<Seq<char>>::empty(), text.take(count)),
    decreases count,
{
    if count > 0 {
        lemma_segment_whole(text, count - 1);
        assert(text[count - 1] != '.') by {
            if text[count - 1] == '.' {
                assert(text.contains('.'));
            }
        }
        assert(text.take(count) =~= text.take(count - 1).push(text[count - 1]));
    } else {
        assert(text.take(0) =~= Seq::<char>::empty());
    }
}

proof fn lemma_matching(
    overrides: Seq<UpdateOverride>,
    active: Seq<usize>,
    depth: int,
    name: FieldName,
    count: int,
)
    requires
        0 <= count <= active.len(),
    ensures
        ({
            let list = matching(overrides, active, depth, name, count);
            &&& forall|i: int|
                0 <= i < list.len() ==> active.contains(#[trigger] list[i]) && name
                    == FieldName::Plain(overrides[list[i] as int].path@[depth])
            &&& forall|j: int|
                0 <= j < count && name == FieldName::Plain(
                    overrides[(#[trigger] active[j]) as int].path@[depth],
                ) ==> list.contains(active[j])
        }),
    decreases count,
{
    if count > 0 {
        lemma_matching(overrides, active, depth, name, count - 1);
        let before = matching(overrides, active, depth, name, count - 1);
        let list = matching(overrides, active, depth, name, count);
        assert forall|j: int|
            0 <= j < count && name == FieldName::Plain(
                overrides[(#[trigger] active[j]) as int].path@[depth],
            ) implies list.contains(active[j]) by {
            if j < count - 1 {
                let i = choose|i: int| 0 <= i < before.len() && before[i] == active[j];
                assert(list[i] == active[j]);
            } else {
                assert(list[list.len() - 1] == active[j]);
            }
        }
        assert forall|i: int| 0 <= i < list.len() implies active.contains(#[trigger] list[i])
            && name == FieldName::Plain(overrides[list[i] as int].path@[depth]) by {
            if i < before.len() {
                assert(list[i] == before[i]);
            } else {
                assert(active[count - 1] == list[i]);
            }
        }
    }
}

proof fn lemma_ending(overrides: Seq<UpdateOverride>, list: Seq<usize>, depth: int, from: int)
    requires
        0 <= from <= list.len(),
    ensures
        match ending(overrides, list, depth, from) {
            Some(k) => list.contains(k) && overrides[k as int].path@.len() == depth + 1,
            None => forall|i: int|
                from <= i < list.len() ==> overrides[(#[trigger] list[i]) as int].path@.len() != depth
                    + 1,
        },
    decreases list.len() - from,
{
    if from < list.len() {
        if overrides[list[from] as int].path@.len() != depth + 1 {
            lemma_ending(overrides, list, depth, from + 1);
        } else {
            assert(list[from] == list[from]);
        }
    }
}

proof fn lemma_field_updated(
    program: &HirProgram,
    types: &TypeTable,
    tables: &UpdateTables,
    id: StructId,
    reads: Seq<HirExprId>,
    fields: Seq<HirExprId>,
    active: Seq<usize>,
    depth: int,
    count: int,
    limit: nat,
    at: int,
)
    requires
        updated(program, types, tables, id, reads, fields, active, depth, count, limit),
        0 <= at < count,
    ensures
        field_right(
            program,
            types,
            tables,
            id,
            reads[at],
            fields[at],
            matching(
                tables.overrides@,
                active,
                depth,
                types.fields(id)[at].name,
                active.len() as int,
            ),
            depth,
            at,
            limit,
        ),
    decreases count,
{
    if at < count - 1 {
        lemma_field_updated(
            program,
            types,
            tables,
            id,
            reads,
            fields,
            active,
            depth,
            count - 1,
            limit,
            at,
        );
    }
}

/// An override whose path ends at a field gives that field its value, carried into the
/// field's type, where no other override ends there.
pub proof fn an_override_writes_its_field(
    program: &HirProgram,
    types: &TypeTable,
    tables: &UpdateTables,
    id: StructId,
    reads: Seq<HirExprId>,
    fields: Seq<HirExprId>,
    active: Seq<usize>,
    depth: int,
    count: int,
    limit: nat,
    at: int,
    k: usize,
)
    requires
        updated(program, types, tables, id, reads, fields, active, depth, count, limit),
        0 <= at < count,
        active.contains(k),
        tables.overrides@[k as int].path@.len() == depth + 1,
        types.fields(id)[at].name == FieldName::Plain(tables.overrides@[k as int].path@[depth]),
        forall|j: int|
            0 <= j < active.len() && tables.overrides@[(#[trigger] active[j]) as int].path@.len()
                == depth + 1 && FieldName::Plain(
                tables.overrides@[active[j] as int].path@[depth],
            ) == types.fields(id)[at].name ==> active[j] == k,
    ensures
        carried(
            program,
            program,
            tables.lattice,
            tables.values@[k as int],
            types.fields(id)[at].ty,
            fields[at],
        ),
{
    lemma_field_updated(
        program,
        types,
        tables,
        id,
        reads,
        fields,
        active,
        depth,
        count,
        limit,
        at,
    );
    let overrides = tables.overrides@;
    let name = types.fields(id)[at].name;
    let list = matching(overrides, active, depth, name, active.len() as int);
    lemma_matching(overrides, active, depth, name, active.len() as int);
    lemma_ending(overrides, list, depth, 0);
    let j = choose|j: int| 0 <= j < active.len() && active[j] == k;
    assert(list.contains(active[j]));
    let i = choose|i: int| 0 <= i < list.len() && list[i] == k;
    assert(overrides[list[i] as int].path@.len() == depth + 1);
    if let Some(found) = ending(overrides, list, depth, 0) {
        let m = choose|m: int| 0 <= m < list.len() && list[m] == found;
        assert(active.contains(list[m]));
        let n = choose|n: int| 0 <= n < active.len() && active[n] == found;
        assert(active[n] == k);
    }
}

/// A field that overrides write into, none of them at the field itself, is rebuilt: a new
/// value of its struct, from reads of every field it had, with those overrides applied one
/// segment further.
pub proof fn an_override_descends_into_its_field(
    program: &HirProgram,
    types: &TypeTable,
    tables: &UpdateTables,
    id: StructId,
    reads: Seq<HirExprId>,
    fields: Seq<HirExprId>,
    active: Seq<usize>,
    depth: int,
    count: int,
    limit: nat,
    at: int,
    k: usize,
    nested: StructId,
)
    requires
        updated(program, types, tables, id, reads, fields, active, depth, count, limit),
        0 <= at < count,
        active.contains(k),
        types.fields(id)[at].name == FieldName::Plain(tables.overrides@[k as int].path@[depth]),
        types.fields(id)[at].ty == Type::Struct(nested),
        tables.fn_types.info(nested) is None,
        forall|j: int|
            0 <= j < active.len() && FieldName::Plain(
                tables.overrides@[(#[trigger] active[j]) as int].path@[depth],
            ) == types.fields(id)[at].name ==> tables.overrides@[active[j] as int].path@.len()
                != depth + 1,
    ensures
        program.at(fields[at]) matches HirExpr::StructNew { struct_id, fields: given } && {
            &&& struct_id == nested
            &&& given@.len() == types.fields(nested).len()
            &&& exists|inner: Seq<HirExprId>|
                {
                    &&& inner.len() == types.fields(nested).len()
                    &&& forall|f: int|
                        0 <= f < inner.len() ==> program.at(#[trigger] inner[f]) == (
                        HirExpr::Field {
                            base: reads[at],
                            index: f as u32,
                            ty: types.fields(nested)[f].ty,
                        })
                    &&& #[trigger] updated(
                        program,
                        types,
                        tables,
                        nested,
                        inner,
                        given@,
                        matching(
                            tables.overrides@,
                            active,
                            depth,
                            types.fields(id)[at].name,
                            active.len() as int,
                        ),
                        depth + 1,
                        inner.len() as int,
                        (limit - 1) as nat,
                    )
                }
        },
{
    lemma_field_updated(
        program,
        types,
        tables,
        id,
        reads,
        fields,
        active,
        depth,
        count,
        limit,
        at,
    );
    let overrides = tables.overrides@;
    let name = types.fields(id)[at].name;
    let list = matching(overrides, active, depth, name, active.len() as int);
    lemma_matching(overrides, active, depth, name, active.len() as int);
    lemma_ending(overrides, list, depth, 0);
    let j = choose|j: int| 0 <= j < active.len() && active[j] == k;
    assert(list.contains(active[j]));
    if let Some(found) = ending(overrides, list, depth, 0) {
        let m = choose|m: int| 0 <= m < list.len() && list[m] == found;
        assert(active.contains(list[m]));
        let n = choose|n: int| 0 <= n < active.len() && active[n] == found;
        assert(overrides[active[n] as int].path@.len() == depth + 1);
    }
    let (inner, rebuilt) = choose|inner: Seq<HirExprId>, rebuilt: Seq<HirExprId>| #[trigger]
        rebuilds(program, fields[at], nested, reads[at], types.fields(nested), inner, rebuilt)
            && updated(
            program,
            types,
            tables,
            nested,
            inner,
            rebuilt,
            list,
            depth + 1,
            inner.len() as int,
            (limit - 1) as nat,
        );
    assert(rebuilds(program, fields[at], nested, reads[at], types.fields(nested), inner, rebuilt));
    assert(updated(
        program,
        types,
        tables,
        nested,
        inner,
        rebuilt,
        list,
        depth + 1,
        inner.len() as int,
        (limit - 1) as nat,
    ));
}

proof fn lemma_routed_parts(slots: Seq<ContentSlot>, args: Seq<UpdateArgument>, count: int)
    requires
        0 <= count <= args.len() <= usize::MAX,
    ensures
        overriding(slots, args, count).len() + restating(slots, args, count).len() + refused(
            slots,
            args,
            count,
        ).len() == count,
        forall|i: int|
            0 <= i < count ==> match update_routed(slots, #[trigger] args[i]) {
                UpdateRoute::Override => overriding(slots, args, count).contains(i),
                UpdateRoute::Slot(slot) => restating(slots, args, count).contains(
                    (slot, i as usize),
                ),
                route => refused(slots, args, count).contains((i as usize, route)),
            },
    decreases count,
{
    if count > 0 {
        lemma_routed_parts(slots, args, count - 1);
        let a = overriding(slots, args, count - 1);
        let b = restating(slots, args, count - 1);
        let c = refused(slots, args, count - 1);
        let a2 = overriding(slots, args, count);
        let b2 = restating(slots, args, count);
        let c2 = refused(slots, args, count);
        assert forall|i: int| 0 <= i < count implies match update_routed(slots, #[trigger] args[i]) {
            UpdateRoute::Override => a2.contains(i),
            UpdateRoute::Slot(slot) => b2.contains((slot, i as usize)),
            route => c2.contains((i as usize, route)),
        } by {
            match update_routed(slots, args[i]) {
                UpdateRoute::Override => {
                    if i < count - 1 {
                        let k = choose|k: int| 0 <= k < a.len() && a[k] == i;
                        assert(a2[k] == i);
                    } else {
                        assert(a2[a2.len() - 1] == i);
                    }
                },
                UpdateRoute::Slot(slot) => {
                    if i < count - 1 {
                        let k = choose|k: int| 0 <= k < b.len() && b[k] == (slot, i as usize);
                        assert(b2[k] == b[k]);
                    } else {
                        assert(b2[b2.len() - 1] == (slot, i as usize));
                    }
                },
                route => {
                    if i < count - 1 {
                        let k = choose|k: int| 0 <= k < c.len() && c[k] == (i as usize, route);
                        assert(c2[k] == c[k]);
                    } else {
                        assert(c2[c2.len() - 1] == (i as usize, route));
                    }
                },
            }
        }
    }
}

/// Every argument of a construct update is read once: it restates the child slot its
/// label names, overrides the field its path names where no slot has that label, or is
/// refused, having no label or an empty path.
pub proof fn every_update_argument_is_read_once(
    slots: Seq<ContentSlot>,
    args: Seq<UpdateArgument>,
    i: int,
)
    requires
        args.len() <= usize::MAX,
        slots.len() <= usize::MAX,
        0 <= i < args.len(),
    ensures
        ({
            let n = args.len() as int;
            let named = exists|s: int|
                0 <= s < slots.len() && Some((#[trigger] slots[s]).name) == args[i].label;
            &&& overriding(slots, args, n).len() + restating(slots, args, n).len() + refused(
                slots,
                args,
                n,
            ).len() == n
            &&& args[i].label is None ==> refused(slots, args, n).contains(
                (i as usize, UpdateRoute::Unlabeled),
            )
            &&& args[i].label is Some && named ==> exists|s: int|
                0 <= s < slots.len() && Some((#[trigger] slots[s]).name) == args[i].label
                    && restating(slots, args, n).contains((s as usize, i as usize))
            &&& args[i].label is Some && !named && args[i].path@.len() > 0 ==> overriding(
                slots,
                args,
                n,
            ).contains(i)
            &&& args[i].label is Some && !named && args[i].path@.len() == 0 ==> refused(
                slots,
                args,
                n,
            ).contains((i as usize, UpdateRoute::EmptyPath))
        }),
{
    lemma_routed_parts(slots, args, args.len() as int);
    if let Some(label) = args[i].label {
        crate::construction::a_label_names_its_slot(slots, label);
    }
    assert(update_routed(slots, args[i]) == update_routed(slots, args[i]));
}

proof fn lemma_overlaps_with(
    overrides: Seq<UpdateOverride>,
    left: int,
    count: int,
    source: SourceId,
    right: int,
)
    requires
        0 <= left < right < count <= overrides.len(),
    ensures
        overlaps_with(overrides, left, count, source).len() == 0 ==> !overlaps(
            overrides[left].path@,
            overrides[right].path@,
        ),
    decreases count - left,
{
    if right < count - 1 {
        lemma_overlaps_with(overrides, left, count - 1, source, right);
    }
}

proof fn lemma_all_overlaps(
    overrides: Seq<UpdateOverride>,
    count: int,
    source: SourceId,
    left: int,
    right: int,
)
    requires
        0 <= left < count <= overrides.len(),
        left < right < overrides.len(),
    ensures
        all_overlaps(overrides, count, source).len() == 0 ==> !overlaps(
            overrides[left].path@,
            overrides[right].path@,
        ),
    decreases count,
{
    if left < count - 1 {
        lemma_all_overlaps(overrides, count - 1, source, left, right);
    } else {
        lemma_overlaps_with(overrides, left, overrides.len() as int, source, right);
    }
}

/// Where checking the overrides of an update reports nothing, no two of them write into
/// one another: of any two paths, one differs from the other at a segment both have.
pub proof fn silent_overrides_are_apart(
    overrides: Seq<UpdateOverride>,
    source: SourceId,
    left: int,
    right: int,
)
    requires
        all_overlaps(overrides, overrides.len() as int, source).len() == 0,
        0 <= left < right < overrides.len(),
    ensures
        exists|i: int|
            0 <= i < overrides[left].path@.len() && i < overrides[right].path@.len()
                && #[trigger] overrides[left].path@[i] != overrides[right].path@[i],
{
    lemma_all_overlaps(overrides, overrides.len() as int, source, left, right);
    paths_overlap_where_they_agree(overrides[left].path@, overrides[right].path@);
}

/// An override is what was written: its label, its path and its span, blamed at its label
/// where the label has a place of its own.
pub proof fn an_override_is_what_was_written(entry: UpdateOverride, arg: UpdateArgument, k: int)
    requires
        override_of(entry, arg),
    ensures
        arg.label == Some(entry.label),
        entry.path@.len() == arg.path@.len(),
        0 <= k < arg.path@.len() ==> entry.path@[k] == arg.path@[k],
        entry.span == arg.span,
        arg.label_span matches Some(at) ==> entry.label_span == at,
        arg.label_span is None ==> entry.label_span == arg.span,
{
}

/// What an update copies is what the local holds where it is a cell, and the local itself
/// otherwise.
pub proof fn an_update_copies_what_is_held(types: &TypeTable, ctx: &FnCtx, local: LocalId)
    ensures
        types.held(ctx.locals@[local.0 as int].ty) matches Some(held) ==> base_type(
            types,
            ctx,
            local,
        ) == held,
        types.held(ctx.locals@[local.0 as int].ty) is None ==> base_type(types, ctx, local)
            == ctx.locals@[local.0 as int].ty,
{
}

} // verus!
