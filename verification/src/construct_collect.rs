//! Declaring and defining every construct-backed declaration.
//!
//! Each gets an empty struct first, so that one may name another; each is then
//! filled in turn, and joins the families it is seen through.

use vstd::prelude::*;

use crate::backed::{
    construct_recorded, deferrals, define_construct, field_bound, lemma_arrays_laid, whole_layout,
    BackedDecl,
};
use crate::diagnostics::{blamed, Diagnostic, Log, Problem};
use crate::families::{construct_row, ConstructInfo, ConstructTable, FamilyTable};
use crate::family_variants::{
    only_variants, reachable_families, variant_lists, variant_room,
    variants_joined,
};
use crate::hir::grew;
use crate::imports::ImportTable;
use crate::names::Symbol;
use crate::source::SourceId;
use crate::syntax::{FieldDefault, TypeRefs};
use crate::ty::{StructDef, StructId, StructName, Type, TypeTable};
use crate::visibility::DeclaredIn;

verus! {

/// The package and the name of every struct.
pub open spec fn row_names(rows: Seq<StructDef>) -> Seq<(Option<Symbol>, StructName)> {
    rows.map_values(|row: StructDef| (row.owner, row.name))
}

/// What a declaration is filed under.
pub open spec fn filed_as(imports: &ImportTable, decl: BackedDecl) -> (Option<Symbol>, StructName) {
    (imports.package(decl.source), StructName::Declared(decl.name))
}

/// The structs there are, and the one each of the first `count` declarations got:
/// the next, unless its package already has the name.
pub open spec fn structs_granted(
    names: Seq<(Option<Symbol>, StructName)>,
    imports: &ImportTable,
    decls: Seq<BackedDecl>,
    count: int,
) -> (Seq<(Option<Symbol>, StructName)>, Seq<Option<StructId>>)
    decreases count,
{
    if count <= 0 {
        (names, Seq::empty())
    } else {
        let (held, ids) = structs_granted(names, imports, decls, count - 1);
        let name = filed_as(imports, decls[count - 1]);
        if held.contains(name) {
            (held, ids.push(None))
        } else {
            (held.push(name), ids.push(Some(StructId(held.len() as u32))))
        }
    }
}

/// Where each struct the first `count` declarations got was written.
pub open spec fn sources_granted(
    decls: Seq<BackedDecl>,
    ids: Seq<Option<StructId>>,
    count: int,
) -> Seq<Option<SourceId>>
    decreases count,
{
    if count <= 0 {
        Seq::empty()
    } else if ids[count - 1] is None {
        sources_granted(decls, ids, count - 1)
    } else {
        sources_granted(decls, ids, count - 1).push(Some(decls[count - 1].source))
    }
}

/// The declarations among the first `count` whose name their package already has.
pub open spec fn names_refused(
    decls: Seq<BackedDecl>,
    ids: Seq<Option<StructId>>,
    count: int,
) -> Seq<Diagnostic>
    decreases count,
{
    if count <= 0 {
        Seq::empty()
    } else {
        let before = names_refused(decls, ids, count - 1);
        let decl = decls[count - 1];
        if ids[count - 1] is None {
            before.push(
                blamed(
                    decl.source,
                    decl.name_span,
                    Problem::ConstructAlreadyDefined { declaration: decl.name },
                ),
            )
        } else {
            before
        }
    }
}

fn name_taken(types: &TypeTable, owner: Option<Symbol>, name: Symbol) -> (res: bool)
    ensures
        res == row_names(types.structs@).contains((owner, StructName::Declared(name))),
{
    let wanted = StructName::Declared(name);
    let mut i: usize = 0;
    while i < types.structs.len()
        invariant
            i <= types.structs@.len(),
            wanted == StructName::Declared(name),
            forall|k: int|
                0 <= k < i ==> (#[trigger] types.structs@[k]).owner != owner || types.structs@[k].name
                    != wanted,
        decreases types.structs@.len() - i,
    {
        if types.structs[i].owner == owner && types.structs[i].name == wanted {
            assert(row_names(types.structs@)[i as int] == (owner, wanted));
            return true;
        }
        i += 1;
    }
    proof {
        if row_names(types.structs@).contains((owner, wanted)) {
            let k = choose|k: int|
                0 <= k < row_names(types.structs@).len() && row_names(types.structs@)[k] == (
                    owner,
                    wanted,
                );
            assert(types.structs@[k].owner == owner && types.structs@[k].name == wanted);
        }
    }
    false
}

/// No two declarations get one struct, and none gets a struct that was there
/// before.
pub proof fn each_declaration_gets_its_own_struct(
    names: Seq<(Option<Symbol>, StructName)>,
    imports: &ImportTable,
    decls: Seq<BackedDecl>,
    count: int,
)
    requires
        0 <= count,
    ensures
        structs_granted(names, imports, decls, count).1.len() == count,
        names.len() <= structs_granted(names, imports, decls, count).0.len() <= names.len() + count,
        forall|k: int|
            0 <= k < count ==> (#[trigger] structs_granted(
                names,
                imports,
                decls,
                count,
            ).1[k] matches Some(id) ==> names.len() + count <= u32::MAX ==> names.len() <= id.0
                < structs_granted(names, imports, decls, count).0.len()),
        forall|i: int, j: int|
            0 <= i < j < count && names.len() + count <= u32::MAX ==> ((
            #[trigger] structs_granted(names, imports, decls, count).1[i], #[trigger] structs_granted(
                names,
                imports,
                decls,
                count,
            ).1[j]) matches (Some(a), Some(b)) ==> a.0 < b.0),
    decreases count,
{
    if count > 0 {
        each_declaration_gets_its_own_struct(names, imports, decls, count - 1);
    }
}

/// Declares every construct-backed declaration's name as an empty struct, in
/// declaration order. A name its package already has is reported.
pub fn declare_constructs(
    decls: &Vec<BackedDecl>,
    imports: &ImportTable,
    types: &mut TypeTable,
    declared: &mut DeclaredIn,
    defaults: &mut Vec<Vec<Option<FieldDefault>>>,
    log: &mut Log,
) -> (ids: Vec<Option<StructId>>)
    requires
        old(types).structs@.len() + decls@.len() <= u32::MAX,
    ensures
        row_names(final(types).structs@) == structs_granted(
            row_names(old(types).structs@),
            imports,
            decls@,
            decls@.len() as int,
        ).0,
        ids@ == structs_granted(
            row_names(old(types).structs@),
            imports,
            decls@,
            decls@.len() as int,
        ).1,
        grew(old(types).structs@, final(types).structs@),
        forall|i: int|
            0 <= i < ids@.len() ==> (#[trigger] ids@[i] matches Some(id) ==> id.0 < final(
                types).structs@.len() && final(types).structs@[id.0 as int].module
                == imports.module(decls@[i].source)),
        forall|k: int|
            old(types).structs@.len() <= k < final(types).structs@.len() ==> (#[trigger] final(
                types).structs@[k]).fields@.len() == 0,
        *final(types) == (TypeTable { structs: final(types).structs, ..*old(types) }),
        final(declared).structs@ == old(declared).structs@ + sources_granted(
            decls@,
            ids@,
            decls@.len() as int,
        ),
        final(declared).enums == old(declared).enums,
        grew(old(defaults)@, final(defaults)@),
        final(defaults)@.len() - old(defaults)@.len() == final(types).structs@.len() - old(
            types).structs@.len(),
        forall|k: int|
            old(defaults)@.len() <= k < final(defaults)@.len() ==> (#[trigger] final(
                defaults)@[k])@.len() == 0,
        final(log).diagnostics@ == old(log).diagnostics@ + names_refused(
            decls@,
            ids@,
            decls@.len() as int,
        ),
        final(log).source == if decls@.len() == 0 {
            old(log).source
        } else {
            decls@.last().source
        },
{
    let ghost names = row_names(types.structs@);
    let ghost said = log.diagnostics@;
    let mut ids: Vec<Option<StructId>> = Vec::new();
    let mut i: usize = 0;
    assert(said + Seq::<Diagnostic>::empty() =~= said);
    assert(declared.structs@ =~= declared.structs@ + sources_granted(decls@, ids@, 0));
    while i < decls.len()
        invariant
            i <= decls@.len(),
            names == row_names(old(types).structs@),
            names.len() == old(types).structs@.len(),
            old(types).structs@.len() + decls@.len() <= u32::MAX,
            types.structs@.len() <= old(types).structs@.len() + i,
            row_names(types.structs@) == structs_granted(names, imports, decls@, i as int).0,
            ids@ == structs_granted(names, imports, decls@, i as int).1,
            ids@.len() == i,
            grew(old(types).structs@, types.structs@),
            forall|k: int|
                0 <= k < i ==> (#[trigger] ids@[k] matches Some(id) ==> id.0
                    < types.structs@.len() && types.structs@[id.0 as int].module
                    == imports.module(decls@[k].source)),
            forall|k: int|
                old(types).structs@.len() <= k < types.structs@.len() ==> (
                #[trigger] types.structs@[k]).fields@.len() == 0,
            *types == (TypeTable { structs: types.structs, ..*old(types) }),
            declared.structs@ == old(declared).structs@ + sources_granted(decls@, ids@, i as int),
            i == 0 ==> log.source == old(log).source,
            i > 0 ==> log.source == decls@[i - 1].source,
            declared.enums == old(declared).enums,
            grew(old(defaults)@, defaults@),
            defaults@.len() - old(defaults)@.len() == types.structs@.len() - old(
                types).structs@.len(),
            forall|k: int|
                old(defaults)@.len() <= k < defaults@.len() ==> (#[trigger] defaults@[k])@.len()
                    == 0,
            log.diagnostics@ == said + names_refused(decls@, ids@, i as int),
        decreases decls@.len() - i,
    {
        let ghost rows = types.structs@;
        let ghost known = ids@;
        let decl = &decls[i];
        log.source = decl.source;
        let owner = imports.package_of(decl.source);
        if name_taken(types, owner, decl.name) {
            log.emit(
                decl.name_span,
                Problem::ConstructAlreadyDefined { declaration: decl.name },
            );
            ids.push(None);
        } else {
            ids.push(Some(StructId(types.structs.len() as u32)));
            types.structs.push(
                StructDef {
                    name: StructName::Declared(decl.name),
                    owner,
                    module: imports.module_of(decl.source),
                    fields: Vec::new(),
                },
            );
            declared.structs.push(Some(decl.source));
            defaults.push(Vec::new());
            assert(row_names(types.structs@) =~= row_names(rows).push(
                filed_as(imports, decls@[i as int]),
            ));
        }
        proof {
            lemma_refused_prefix(decls@, known, ids@, i as int);
            assert forall|k: int| 0 <= k < i + 1 implies (#[trigger] ids@[k] matches Some(id)
                ==> id.0 < types.structs@.len() && types.structs@[id.0 as int].module
                == imports.module(decls@[k].source)) by {
                if k < i {
                    assert(ids@[k] == known[k]);
                    if let Some(id) = known[k] {
                        assert(types.structs@[id.0 as int] == rows[id.0 as int]);
                    }
                }
            }
            assert(log.diagnostics@ =~= said + names_refused(decls@, ids@, i + 1));
            assert(declared.structs@ =~= old(declared).structs@ + sources_granted(
                decls@,
                ids@,
                i + 1,
            ));
        }
        i += 1;
    }
    ids
}

proof fn lemma_refused_prefix(
    decls: Seq<BackedDecl>,
    ids: Seq<Option<StructId>>,
    more: Seq<Option<StructId>>,
    count: int,
)
    requires
        0 <= count <= ids.len() <= more.len(),
        forall|k: int| 0 <= k < count ==> more[k] == ids[k],
    ensures
        names_refused(decls, ids, count) == names_refused(decls, more, count),
        sources_granted(decls, ids, count) == sources_granted(decls, more, count),
    decreases count,
{
    if count > 0 {
        lemma_refused_prefix(decls, ids, more, count - 1);
    }
}

/// Everything defining a declaration changes, at one point.
pub struct ConstructState {
    pub types: TypeTable,
    pub defaults: Seq<Vec<Option<FieldDefault>>>,
    pub table: FamilyTable,
    pub rows: Seq<(StructId, ConstructInfo)>,
    pub said: Seq<Diagnostic>,
}

/// One declaration that got struct `id` was defined between two points.
pub open spec fn construct_defined(
    before: ConstructState,
    after: ConstructState,
    refs: &TypeRefs,
    decl: &BackedDecl,
    id: StructId,
) -> bool {
    let layout = whole_layout(
        decl,
        &before.table,
        refs,
        before.types.arrays@,
        before.said,
    );
    let at = id.0 as int;
    &&& after.types.structs@.len() == before.types.structs@.len()
    &&& forall|k: int|
        0 <= k < before.types.structs@.len() && k != at ==> #[trigger] after.types.structs@[k]
            == before.types.structs@[k]
    &&& after.types.structs@[at].name == before.types.structs@[at].name
    &&& after.types.structs@[at].owner == before.types.structs@[at].owner
    &&& after.types.structs@[at].module == before.types.structs@[at].module
    &&& after.types.structs@[at].fields@ == layout.fields
    &&& after.types.arrays@ == layout.arrays
    &&& after.defaults.len() == before.defaults.len()
    &&& forall|k: int|
        0 <= k < before.defaults.len() && k != at ==> #[trigger] after.defaults[k]
            == before.defaults[k]
    &&& at < before.defaults.len() ==> after.defaults[at]@ == layout.defaults
    &&& after.said == layout.said + deferrals(decl.source, decl.deferred@)
    &&& after.rows.len() == before.rows.len() + 1
    &&& after.rows.drop_last() == before.rows
    &&& after.rows.last().0 == id
    &&& construct_recorded(
        after.rows.last().1,
        decl,
        &before.table,
        refs,
        before.types.arrays@,
        id,
    )
    &&& only_variants(&before.table, &after.table)
    &&& variant_lists(&after.table) == variants_joined(
        variant_lists(&before.table),
        reachable_families(&before.table, decl.family_name()),
        Type::Struct(id),
        decl.name,
    )
}

/// Declaration `i` was defined between two points, or passed over where it got no
/// struct.
pub open spec fn construct_step(
    before: ConstructState,
    after: ConstructState,
    refs: &TypeRefs,
    decl: &BackedDecl,
    id: Option<StructId>,
) -> bool {
    match id {
        Some(id) => construct_defined(before, after, refs, decl, id),
        None => after == before,
    }
}

/// The first `count` declarations were defined, in order.
pub open spec fn constructs_defined(
    trace: Seq<ConstructState>,
    refs: &TypeRefs,
    decls: Seq<BackedDecl>,
    ids: Seq<Option<StructId>>,
    count: int,
) -> bool {
    &&& trace.len() == count + 1
    &&& forall|i: int|
        0 <= i < count ==> construct_step(
            #[trigger] trace[i],
            trace[i + 1],
            refs,
            &decls[i],
            ids[i],
        )
}

/// How many fields the declarations from `from` on can come to.
pub open spec fn fields_from(decls: Seq<BackedDecl>, table: &FamilyTable, from: int) -> int
    decreases decls.len() - from,
{
    if from < 0 || from >= decls.len() {
        0
    } else {
        field_bound(&decls[from], table) + fields_from(decls, table, from + 1)
    }
}

/// How many families the declarations from `from` on join.
pub open spec fn joins_from(decls: Seq<BackedDecl>, table: &FamilyTable, from: int) -> int
    decreases decls.len() - from,
{
    if from < 0 || from >= decls.len() {
        0
    } else {
        reachable_families(table, decls[from].family_name()).len() + joins_from(
            decls,
            table,
            from + 1,
        )
    }
}

proof fn lemma_bounds(decls: Seq<BackedDecl>, table: &FamilyTable, from: int)
    ensures
        fields_from(decls, table, from) >= 0,
        joins_from(decls, table, from) >= 0,
    decreases decls.len() - from,
{
    if 0 <= from < decls.len() {
        lemma_bounds(decls, table, from + 1);
    }
}

proof fn lemma_bounds_kept(
    decls: Seq<BackedDecl>,
    before: &FamilyTable,
    after: &FamilyTable,
    from: int,
)
    requires
        only_variants(before, after),
    ensures
        fields_from(decls, after, from) == fields_from(decls, before, from),
        joins_from(decls, after, from) == joins_from(decls, before, from),
    decreases decls.len() - from,
{
    if 0 <= from < decls.len() {
        lemma_bounds_kept(decls, before, after, from + 1);
        lemma_surface_kept(&decls[from], before, after);
    }
}

proof fn lemma_surface_kept(decl: &BackedDecl, before: &FamilyTable, after: &FamilyTable)
    requires
        only_variants(before, after),
    ensures
        field_bound(decl, after) == field_bound(decl, before),
        reachable_families(after, decl.family_name()) == reachable_families(
            before,
            decl.family_name(),
        ),
{
    let key = decl.family_name();
    if after.families@.contains_key(key) {
        assert(after.families@[key].parents == before.families@[key].parents);
        assert(after.families@[key].stored_fields == before.families@[key].stored_fields);
    }
    assert(before.families@.contains_key(key) == after.families@.contains_key(key));
}

proof fn lemma_joined_len(
    lists: Map<Symbol, Seq<crate::dispatch_tree::ConstructVariant>>,
    keys: Seq<Symbol>,
    ty: Type,
    name: Symbol,
    key: Symbol,
)
    requires
        lists.contains_key(key),
    ensures
        variants_joined(lists, keys, ty, name).contains_key(key),
        variants_joined(lists, keys, ty, name)[key].len() <= lists[key].len() + keys.len(),
    decreases keys.len(),
{
    if keys.len() > 0 {
        lemma_joined_len(lists, keys.drop_last(), ty, name, key);
    }
}

proof fn lemma_room_left(
    before: &FamilyTable,
    after: &FamilyTable,
    keys: Seq<Symbol>,
    ty: Type,
    name: Symbol,
    left: int,
)
    requires
        only_variants(before, after),
        variant_room(before, keys.len() + left),
        variant_lists(after) == variants_joined(variant_lists(before), keys, ty, name),
    ensures
        variant_room(after, left),
{
    assert forall|key: Symbol| after.families@.contains_key(key) implies (
    #[trigger] after.families@[key]).variants@.len() + left <= u32::MAX by {
        assert(before.families@.contains_key(key));
        assert(before.families@[key].variants@.len() + (keys.len() + left) <= u32::MAX);
        lemma_joined_len(variant_lists(before), keys, ty, name, key);
        assert(variant_lists(after)[key] == after.families@[key].variants@);
    }
}

proof fn lemma_no_row(rows: Seq<(StructId, ConstructInfo)>, id: StructId)
    requires
        forall|k: int| 0 <= k < rows.len() ==> (#[trigger] rows[k]).0 != id,
    ensures
        construct_row(rows, id) is None,
    decreases rows.len(),
{
    if rows.len() > 0 {
        assert(rows[0].0 != id);
        assert forall|k: int| 0 <= k < rows.drop_first().len() implies (
        #[trigger] rows.drop_first()[k]).0 != id by {
            assert(rows[k + 1].0 != id);
        }
        lemma_no_row(rows.drop_first(), id);
    }
}

/// The file being read once the first `count` declarations were defined: that of
/// the last that got a struct, or `source` where none did.
pub open spec fn defined_last(
    decls: Seq<BackedDecl>,
    ids: Seq<Option<StructId>>,
    source: SourceId,
    count: int,
) -> SourceId
    decreases count,
{
    if count <= 0 {
        source
    } else if ids[count - 1] is None {
        defined_last(decls, ids, source, count - 1)
    } else {
        decls[count - 1].source
    }
}

/// Defines every declared construct, in declaration order, telling every point the
/// tables went through.
pub fn define_constructs(
    decls: &Vec<BackedDecl>,
    ids: &Vec<Option<StructId>>,
    refs: &TypeRefs,
    types: &mut TypeTable,
    defaults: &mut Vec<Vec<Option<FieldDefault>>>,
    table: &mut FamilyTable,
    constructs: &mut ConstructTable,
    log: &mut Log,
) -> (trace: Ghost<Seq<ConstructState>>)
    requires
        old(table).wf(),
        ids@.len() == decls@.len(),
        forall|i: int|
            0 <= i < ids@.len() ==> ((#[trigger] ids@[i]) matches Some(id) ==> id.0 < old(
                types).structs@.len()),
        forall|i: int, j: int|
            0 <= i < j < ids@.len() && (#[trigger] ids@[i]) is Some ==> ids@[i]
                != #[trigger] ids@[j],
        forall|i: int, k: int|
            0 <= i < ids@.len() && 0 <= k < old(constructs).rows@.len() ==> ((
            #[trigger] ids@[i]) matches Some(id) ==> (#[trigger] old(constructs).rows@[k]).0 != id),
        old(types).arrays@.len() + fields_from(decls@, old(table), 0) <= u32::MAX,
        variant_room(old(table), joins_from(decls@, old(table), 0)),
    ensures
        final(table).wf(),
        constructs_defined(trace@, refs, decls@, ids@, decls@.len() as int),
        trace@[0] == (ConstructState {
            types: *old(types),
            defaults: old(defaults)@,
            table: *old(table),
            rows: old(constructs).rows@,
            said: old(log).diagnostics@,
        }),
        trace@.last() == (ConstructState {
            types: *final(types),
            defaults: final(defaults)@,
            table: *final(table),
            rows: final(constructs).rows@,
            said: final(log).diagnostics@,
        }),
        final(log).source == defined_last(decls@, ids@, old(log).source, decls@.len() as int),
{
    let ghost start = ConstructState {
        types: *types,
        defaults: defaults@,
        table: *table,
        rows: constructs.rows@,
        said: log.diagnostics@,
    };
    let ghost mut trace = seq![start];
    let mut i: usize = 0;
    while i < decls.len()
        invariant
            i <= decls@.len(),
            table.wf(),
            ids@.len() == decls@.len(),
            only_variants(&start.table, table),
            types.structs@.len() == start.types.structs@.len(),
            forall|k: int|
                0 <= k < ids@.len() ==> ((#[trigger] ids@[k]) matches Some(id) ==> id.0
                    < start.types.structs@.len()),
            forall|k: int, j: int|
                0 <= k < j < ids@.len() && (#[trigger] ids@[k]) is Some ==> ids@[k]
                    != #[trigger] ids@[j],
            forall|k: int, r: int|
                i <= k < ids@.len() && 0 <= r < constructs.rows@.len() ==> ((
                #[trigger] ids@[k]) matches Some(id) ==> (#[trigger] constructs.rows@[r]).0 != id),
            types.arrays@.len() + fields_from(decls@, &start.table, i as int) <= u32::MAX,
            variant_room(table, joins_from(decls@, &start.table, i as int)),
            constructs_defined(trace, refs, decls@, ids@, i as int),
            log.source == defined_last(decls@, ids@, old(log).source, i as int),
            trace[0] == start,
            trace.last() == (ConstructState {
                types: *types,
                defaults: defaults@,
                table: *table,
                rows: constructs.rows@,
                said: log.diagnostics@,
            }),
        decreases decls@.len() - i,
    {
        let ghost before = trace;
        let ghost state = trace.last();
        proof {
            lemma_bounds(decls@, &start.table, i + 1);
            lemma_surface_kept(&decls@[i as int], &start.table, table);
        }
        if let Some(id) = ids[i] {
            proof {
                lemma_no_row(constructs.rows@, id);
            }
            let ghost keys = reachable_families(table, decls@[i as int].family_name());
            assert(variant_room(table, keys.len() as int)) by {
                assert forall|key: Symbol| table.families@.contains_key(key) implies (
                #[trigger] table.families@[key]).variants@.len() + keys.len() <= u32::MAX by {}
            }
            define_construct(types, defaults, table, constructs, refs, &decls[i], id, log);
            proof {
                let now = ConstructState {
                    types: *types,
                    defaults: defaults@,
                    table: *table,
                    rows: constructs.rows@,
                    said: log.diagnostics@,
                };
                assert(construct_defined(state, now, refs, &decls@[i as int], id));
                trace = before.push(now);
                lemma_room_left(
                    &state.table,
                    table,
                    keys,
                    Type::Struct(id),
                    decls@[i as int].name,
                    joins_from(decls@, &start.table, i + 1),
                );
                lemma_arrays_laid(
                    &decls@[i as int],
                    &state.table,
                    refs,
                    state.types.arrays@,
                    state.said,
                );
                assert forall|k: int, r: int|
                    i + 1 <= k < ids@.len() && 0 <= r < constructs.rows@.len() implies ((
                #[trigger] ids@[k]) matches Some(other) ==> (#[trigger] constructs.rows@[r]).0
                    != other) by {
                    if r < state.rows.len() {
                        assert(constructs.rows@.drop_last()[r] == state.rows[r]);
                    } else {
                        assert(ids@[i as int] != ids@[k]);
                    }
                }
            }
        } else {
            proof {
                trace = before.push(state);
                assert(variant_room(table, joins_from(decls@, &start.table, i + 1))) by {
                    assert forall|key: Symbol| table.families@.contains_key(key) implies (
                    #[trigger] table.families@[key]).variants@.len() + joins_from(
                        decls@,
                        &start.table,
                        i + 1,
                    ) <= u32::MAX by {}
                }
            }
        }
        proof {
            assert forall|k: int| 0 <= k < i + 1 implies construct_step(
                #[trigger] trace[k],
                trace[k + 1],
                refs,
                &decls@[k],
                ids@[k],
            ) by {
                if k < i {
                    assert(construct_step(before[k], before[k + 1], refs, &decls@[k], ids@[k]));
                }
            }
        }
        i += 1;
    }
    Ghost(trace)
}

proof fn lemma_held(
    names: Seq<(Option<Symbol>, StructName)>,
    imports: &ImportTable,
    decls: Seq<BackedDecl>,
    count: int,
    name: (Option<Symbol>, StructName),
)
    requires
        0 <= count <= decls.len(),
    ensures
        structs_granted(names, imports, decls, count).0.contains(name) <==> names.contains(name)
            || exists|j: int|
            0 <= j < count && (imports.package(decls[j].source), StructName::Declared(
                (#[trigger] decls[j]).name,
            )) == name,
        structs_granted(names, imports, decls, count).1.len() == count,
    decreases count,
{
    if count > 0 {
        lemma_held(names, imports, decls, count - 1, name);
        let before = structs_granted(names, imports, decls, count - 1).0;
        let held = structs_granted(names, imports, decls, count).0;
        let decl = decls[count - 1];
        if before.contains(name) {
            let k = choose|k: int| 0 <= k < before.len() && before[k] == name;
            assert(held[k] == name);
        }
        if held.contains(name) && !before.contains(name) {
            let k = choose|k: int| 0 <= k < held.len() && held[k] == name;
            if k < before.len() {
                assert(before[k] == name);
            }
            assert(decls[count - 1].name == decl.name);
        }
        if filed_as(imports, decl) == name && !before.contains(name) {
            assert(held[held.len() - 1] == name);
        }
    }
}

proof fn lemma_granted_kept(
    names: Seq<(Option<Symbol>, StructName)>,
    imports: &ImportTable,
    decls: Seq<BackedDecl>,
    count: int,
    k: int,
)
    requires
        0 <= k < count <= decls.len(),
    ensures
        structs_granted(names, imports, decls, count).1[k] == structs_granted(
            names,
            imports,
            decls,
            k + 1,
        ).1[k],
    decreases count,
{
    if k < count - 1 {
        lemma_granted_kept(names, imports, decls, count - 1, k);
        each_declaration_gets_its_own_struct(names, imports, decls, count - 1);
    }
}

/// A declaration gets a struct exactly if no struct and no declaration before it has its
/// name in its package; every declaration that gets none is refused, one report each, and
/// no other.
pub proof fn a_free_declaration_gets_a_struct(
    names: Seq<(Option<Symbol>, StructName)>,
    imports: &ImportTable,
    decls: Seq<BackedDecl>,
    k: int,
)
    requires
        0 <= k < decls.len(),
    ensures
        ({
            let ids = structs_granted(names, imports, decls, decls.len() as int).1;
            let filed = (imports.package(decls[k].source), StructName::Declared(decls[k].name));
            &&& ids.len() == decls.len()
            &&& ids[k] is Some <==> !names.contains(filed) && forall|j: int|
                0 <= j < k ==> (imports.package(decls[j].source), StructName::Declared(
                    (#[trigger] decls[j]).name,
                )) != filed
            &&& ids[k] is None ==> names_refused(decls, ids, decls.len() as int).len() > 0
            &&& (forall|j: int| 0 <= j < ids.len() ==> (#[trigger] ids[j]) is Some)
                ==> names_refused(decls, ids, decls.len() as int).len() == 0
        }),
{
    let count = decls.len() as int;
    let ids = structs_granted(names, imports, decls, count).1;
    let filed = (imports.package(decls[k].source), StructName::Declared(decls[k].name));
    lemma_held(names, imports, decls, k, filed);
    lemma_held(names, imports, decls, count, filed);
    lemma_granted_kept(names, imports, decls, count, k);
    if ids[k] is None {
        lemma_one_refused(decls, ids, count, k);
    }
    if forall|j: int| 0 <= j < ids.len() ==> (#[trigger] ids[j]) is Some {
        lemma_none_refused(decls, ids, count);
    }
}

proof fn lemma_one_refused(
    decls: Seq<BackedDecl>,
    ids: Seq<Option<StructId>>,
    count: int,
    k: int,
)
    requires
        0 <= k < count,
        ids[k] is None,
    ensures
        names_refused(decls, ids, count).len() > 0,
    decreases count,
{
    if k < count - 1 {
        lemma_one_refused(decls, ids, count - 1, k);
    }
}

proof fn lemma_none_refused(decls: Seq<BackedDecl>, ids: Seq<Option<StructId>>, count: int)
    requires
        0 <= count <= ids.len(),
        forall|j: int| 0 <= j < ids.len() ==> (#[trigger] ids[j]) is Some,
    ensures
        names_refused(decls, ids, count).len() == 0,
    decreases count,
{
    if count > 0 {
        lemma_none_refused(decls, ids, count - 1);
        assert(ids[count - 1] is Some);
    }
}

/// Defining a declaration lays out its own struct and no other, records it under that
/// struct with the family it is backed by, and refuses every member of it that is not
/// executable yet, one report each.
pub proof fn a_definition_lays_out_its_own_struct(
    before: ConstructState,
    after: ConstructState,
    refs: &TypeRefs,
    decl: &BackedDecl,
    id: StructId,
    other: int,
    k: int,
)
    requires
        construct_defined(before, after, refs, decl, id),
    ensures
        ({
            let layout = whole_layout(
                decl,
                &before.table,
                refs,
                before.types.arrays@,
                before.said,
            );
            let fields = after.types.structs@[id.0 as int].fields@;
            let info = after.rows.last().1;
            &&& fields.len() >= decl.params@.len() + decl.fields@.len()
            &&& 0 <= k < decl.params@.len() ==> fields[k].name == crate::ty::FieldName::Plain(
                decl.params@[k].name,
            ) && fields[k].ty == refs.meaning(decl.params@[k].ty).ty
            &&& 0 <= k < decl.fields@.len() ==> fields[decl.params@.len() + k].name
                == crate::ty::FieldName::Plain(decl.fields@[k].name)
            &&& id.0 < before.defaults.len() ==> after.defaults[id.0 as int]@ == layout.defaults
            &&& after.types.structs@[id.0 as int].name == before.types.structs@[id.0 as int].name
            &&& 0 <= other < before.types.structs@.len() && other != id.0
                ==> after.types.structs@[other] == before.types.structs@[other]
            &&& 0 <= other < before.defaults.len() && other != id.0 ==> after.defaults[other]
                == before.defaults[other]
            &&& after.rows.len() == before.rows.len() + 1
            &&& after.rows.last().0 == id
            &&& info.family == match decl.key {
                Some(key) => key,
                None => decl.family,
            }
            &&& after.said.len() == layout.said.len() + decl.deferred@.len()
        }),
{
    crate::backed::a_declaration_stores_what_it_writes(
        decl,
        &before.table,
        refs,
        before.types.arrays@,
        before.said,
        k,
    );
}

/// Every declaration that got a struct is defined, one after the other, each recorded
/// under its own struct; one that got none changes nothing.
pub proof fn every_granted_declaration_is_defined(
    trace: Seq<ConstructState>,
    refs: &TypeRefs,
    decls: Seq<BackedDecl>,
    ids: Seq<Option<StructId>>,
    i: int,
)
    requires
        constructs_defined(trace, refs, decls, ids, decls.len() as int),
        0 <= i < decls.len(),
    ensures
        trace.len() == decls.len() + 1,
        ids[i] matches Some(id) ==> trace[i + 1].rows.len() == trace[i].rows.len() + 1
            && trace[i + 1].rows.last().0 == id && construct_defined(
            trace[i],
            trace[i + 1],
            refs,
            &decls[i],
            id,
        ),
        ids[i] is None ==> trace[i + 1] == trace[i],
{
    assert(construct_step(trace[i], trace[i + 1], refs, &decls[i], ids[i]));
}

} // verus!
