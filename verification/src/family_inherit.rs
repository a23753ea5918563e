//! Family inheritance: `construct Child extends Parent`.
//!
//! A family that extends another takes on its parent's surface, and every
//! declaration backed by the child is a variant of the parent too. Merging the
//! surface downward, rather than searching upward at every lookup, is what lets
//! everything else read one family's tables and never learn of a parent.

use vstd::prelude::*;

use crate::diagnostics::{read_last, Log};
use crate::families::{names_list, FamilyField, FamilyInfo, FamilyTable, MethodEntry, StoredField};
use crate::family_headers::FamilyDecl;
use crate::family_order::{
    collect_family_parents, family_inheritance_order, FamilyParents,
};
use crate::names::Symbol;
use crate::source::{SourceId, Span};
use crate::symbol_map::{keyed, lemma_row, SymbolMap};

verus! {

/// `own` with every name of `inherited` it lacks added at the end.
pub open spec fn names_merged(own: Seq<Symbol>, inherited: Seq<Symbol>) -> Seq<Symbol>
    decreases inherited.len(),
{
    if inherited.len() == 0 {
        own
    } else {
        let before = names_merged(own, inherited.drop_last());
        if before.contains(inherited.last()) {
            before
        } else {
            before.push(inherited.last())
        }
    }
}

/// Whether one of `fields` is called `name`.
pub open spec fn stores(fields: Seq<StoredField>, name: Symbol) -> bool {
    exists|i: int| 0 <= i < fields.len() && (#[trigger] fields[i]).name == name
}

/// `own` with every stored field of `inherited` whose name it lacks added at the
/// end.
pub open spec fn stored_merged(own: Seq<StoredField>, inherited: Seq<StoredField>) -> Seq<
    StoredField,
>
    decreases inherited.len(),
{
    if inherited.len() == 0 {
        own
    } else {
        let before = stored_merged(own, inherited.drop_last());
        if stores(before, inherited.last().name) {
            before
        } else {
            before.push(inherited.last())
        }
    }
}

/// `after` is `child` with everything `parent` states that it does not state
/// itself, and the parent and its ancestors among its own.
pub open spec fn surface_merged(
    child: FamilyInfo,
    after: FamilyInfo,
    parent: FamilyInfo,
    parent_name: Symbol,
) -> bool {
    &&& after.wf()
    &&& after.name == child.name
    &&& after.enum_id == child.enum_id
    &&& after.required@ == names_merged(child.required@, parent.required@)
    &&& after.methods@ == parent.methods@.union_prefer_right(child.methods@)
    &&& after.field_members@ == parent.field_members@.union_prefer_right(child.field_members@)
    &&& after.stored_fields@ == stored_merged(child.stored_fields@, parent.stored_fields@)
    &&& after.variants == child.variants
    &&& after.parents@ == names_merged(child.parents@, seq![parent_name] + parent.parents@)
    &&& after.member_types@ == parent.member_types@.union_prefer_right(child.member_types@)
}

/// The tables after `child` took on the surface of `parent`.
pub open spec fn family_merged(
    before: &FamilyTable,
    after: &FamilyTable,
    child: Symbol,
    parent: Symbol,
) -> bool {
    if before.families@.contains_key(child) && before.families@.contains_key(parent) {
        &&& after.families@.dom() == before.families@.dom()
        &&& forall|key: Symbol| #[trigger]
            after.families@.contains_key(key) && key != child ==> after.families@[key]
                == before.families@[key]
        &&& surface_merged(
            before.families@[child],
            after.families@[child],
            before.families@[parent],
            parent,
        )
        &&& *after == (FamilyTable { families: after.families, ..*before })
    } else {
        *after == *before
    }
}

fn merge_names(own: &mut Vec<Symbol>, inherited: &Vec<Symbol>)
    ensures
        final(own)@ == names_merged(old(own)@, inherited@),
{
    let mut i: usize = 0;
    assert(inherited@.take(0) =~= Seq::empty());
    while i < inherited.len()
        invariant
            i <= inherited@.len(),
            own@ == names_merged(old(own)@, inherited@.take(i as int)),
        decreases inherited@.len() - i,
    {
        proof {
            assert(inherited@.take(i + 1).drop_last() =~= inherited@.take(i as int));
            assert(inherited@.take(i + 1).last() == inherited@[i as int]);
        }
        if !names_list(own, inherited[i]) {
            own.push(inherited[i]);
        }
        i += 1;
    }
    assert(inherited@.take(i as int) =~= inherited@);
}

fn stores_name(fields: &Vec<StoredField>, name: Symbol) -> (res: bool)
    ensures
        res == stores(fields@, name),
{
    let mut i: usize = 0;
    while i < fields.len()
        invariant
            i <= fields@.len(),
            forall|k: int| 0 <= k < i ==> (#[trigger] fields@[k]).name != name,
        decreases fields@.len() - i,
    {
        if fields[i].name == name {
            return true;
        }
        i += 1;
    }
    false
}

fn merge_stored(own: &mut Vec<StoredField>, inherited: &Vec<StoredField>)
    ensures
        final(own)@ == stored_merged(old(own)@, inherited@),
{
    let mut i: usize = 0;
    assert(inherited@.take(0) =~= Seq::empty());
    while i < inherited.len()
        invariant
            i <= inherited@.len(),
            own@ == stored_merged(old(own)@, inherited@.take(i as int)),
        decreases inherited@.len() - i,
    {
        proof {
            assert(inherited@.take(i + 1).drop_last() =~= inherited@.take(i as int));
            assert(inherited@.take(i + 1).last() == inherited@[i as int]);
        }
        if !stores_name(own, inherited[i].name) {
            own.push(inherited[i]);
        }
        i += 1;
    }
    assert(inherited@.take(i as int) =~= inherited@);
}

/// Adds every row of `inherited` whose key `own` lacks.
fn merge_map<V: Copy>(own: &mut SymbolMap<V>, inherited: &SymbolMap<V>)
    requires
        old(own).wf(),
        inherited.wf(),
    ensures
        final(own).wf(),
        final(own)@ == inherited@.union_prefer_right(old(own)@),
{
    let ghost rows = inherited.rows@;
    let ghost start = own@;
    let mut i: usize = 0;
    while i < inherited.rows.len()
        invariant
            i <= rows.len(),
            rows == inherited.rows@,
            start == old(own)@,
            own.wf(),
            inherited.wf(),
            forall|key: Symbol| #[trigger]
                own@.contains_key(key) <==> start.contains_key(key) || keyed(
                    rows.take(i as int),
                    key,
                ),
            forall|key: Symbol| #[trigger]
                own@.contains_key(key) ==> own@[key] == if start.contains_key(key) {
                    start[key]
                } else {
                    inherited@[key]
                },
        decreases rows.len() - i,
    {
        let key = inherited.rows[i].0;
        let value = inherited.rows[i].1;
        let ghost before = own@;
        proof {
            lemma_row(rows, i as int);
            assert(inherited@.contains_key(key) && inherited@[key] == value);
        }
        if !own.contains(key) {
            own.insert(key, value);
        }
        proof {
            assert forall|other: Symbol| #[trigger]
                own@.contains_key(other) <==> start.contains_key(other) || keyed(
                    rows.take(i + 1),
                    other,
                ) by {
                lemma_keyed_more(rows, i as int, other);
                assert(before.contains_key(other) <==> start.contains_key(other) || keyed(
                    rows.take(i as int),
                    other,
                ));
            }
        }
        i += 1;
    }
    proof {
        assert(rows.take(i as int) =~= rows);
        assert forall|key: Symbol| own@.contains_key(key) <==> #[trigger] inherited@.union_prefer_right(
            start,
        ).contains_key(key) by {
            assert(inherited@.contains_key(key) <==> keyed(rows, key));
        }
        assert(own@ =~= inherited@.union_prefer_right(start));
    }
}

proof fn lemma_keyed_more<V>(rows: Seq<(Symbol, V)>, i: int, key: Symbol)
    requires
        0 <= i < rows.len(),
    ensures
        keyed(rows.take(i + 1), key) <==> keyed(rows.take(i), key) || rows[i].0 == key,
{
    let more = rows.take(i + 1);
    let less = rows.take(i);
    if keyed(more, key) {
        let k = choose|k: int| 0 <= k < more.len() && (#[trigger] more[k]).0 == key;
        if k < i {
            assert(less[k].0 == key);
        }
    }
    if keyed(less, key) {
        let k = choose|k: int| 0 <= k < less.len() && (#[trigger] less[k]).0 == key;
        assert(more[k].0 == key);
    }
    if rows[i].0 == key {
        assert(more[i].0 == key);
    }
}

/// Everything a family states that another can inherit.
struct Surface {
    required: Vec<Symbol>,
    methods: SymbolMap<MethodEntry>,
    field_members: SymbolMap<FamilyField>,
    stored_fields: Vec<StoredField>,
    parents: Vec<Symbol>,
    member_types: SymbolMap<(crate::syntax::TypeRefId, SourceId)>,
}

fn copy_map<V: Copy>(map: &SymbolMap<V>) -> (copy: SymbolMap<V>)
    requires
        map.wf(),
    ensures
        copy.wf(),
        copy@ == map@,
{
    let rows = crate::lists::copied(&map.rows);
    let copy = SymbolMap { rows };
    assert(copy@ =~= map@);
    copy
}

/// Copies everything `parent` states onto `child` that `child` does not state
/// itself. The child always wins, which is what redeclaring a member means.
pub fn merge_family_surface(table: &mut FamilyTable, child: Symbol, parent: Symbol)
    requires
        old(table).wf(),
    ensures
        final(table).wf(),
        family_merged(old(table), final(table), child, parent),
{
    let surface = match table.families.find(parent) {
        Some(i) => {
            let info = &table.families.rows[i].1;
            Surface {
                required: crate::lists::copied(&info.required),
                methods: copy_map(&info.methods),
                field_members: copy_map(&info.field_members),
                stored_fields: crate::lists::copied(&info.stored_fields),
                parents: crate::lists::copied(&info.parents),
                member_types: copy_map(&info.member_types),
            }
        },
        None => {
            return;
        },
    };
    match table.families.find(child) {
        Some(i) => {
            let ghost before = *table;
            let ghost own = before.families@[child];
            let ghost stated = before.families@[parent];
            merge_into(&mut table.families.rows[i].1, surface, parent);
            proof {
                let rows = before.families.rows@;
                let after = table.families.rows@;
                assert(after == rows.update(i as int, (child, after[i as int].1)));
                assert(crate::symbol_map::ordered(after));
                lemma_replaced(rows, after, i as int);
                assert(table.families@.dom() =~= before.families@.dom());
                assert(table.families@[child] == after[i as int].1);
                assert forall|key: Symbol, name: Symbol|
                    table.families@.contains_key(key)
                        && table.families@[key].methods@.contains_key(name) implies (
                #[trigger] table.families@[key].methods@[name]).method < table.methods@.len() by {
                    if key == child {
                        if own.methods@.contains_key(name) {
                            assert(before.families@[child].methods@[name].method
                                < before.methods@.len());
                        } else {
                            assert(before.families@[parent].methods@[name].method
                                < before.methods@.len());
                        }
                    } else {
                        assert(before.families@[key].methods@[name].method
                            < before.methods@.len());
                    }
                }
                assert forall|key: Symbol| table.families@.contains_key(key) implies (
                #[trigger] table.families@[key]).wf() by {
                    if key != child {
                        assert(before.families@[key].wf());
                    }
                }
            }
        },
        None => {},
    }
}

/// Replacing the value of one row replaces the value of its key.
pub proof fn lemma_replaced<V>(before: Seq<(Symbol, V)>, after: Seq<(Symbol, V)>, i: int)
    requires
        crate::symbol_map::ordered(before),
        crate::symbol_map::ordered(after),
        0 <= i < before.len(),
        after.len() == before.len(),
        after[i].0 == before[i].0,
        forall|k: int| 0 <= k < before.len() && k != i ==> #[trigger] after[k] == before[k],
    ensures
        forall|key: Symbol| #[trigger] keyed(after, key) <==> keyed(before, key),
        forall|key: Symbol|
            keyed(before, key) ==> #[trigger] crate::symbol_map::value_of(after, key) == if key
                == before[i].0 {
                after[i].1
            } else {
                crate::symbol_map::value_of(before, key)
            },
{
    assert forall|key: Symbol| #[trigger] keyed(after, key) <==> keyed(before, key) by {
        if keyed(after, key) {
            let k = choose|k: int| 0 <= k < after.len() && (#[trigger] after[k]).0 == key;
            assert(before[k].0 == key);
        }
        if keyed(before, key) {
            let k = choose|k: int| 0 <= k < before.len() && (#[trigger] before[k]).0 == key;
            assert(after[k].0 == key);
        }
    }
    assert forall|key: Symbol| keyed(before, key) implies #[trigger] crate::symbol_map::value_of(
        after,
        key,
    ) == if key == before[i].0 {
        after[i].1
    } else {
        crate::symbol_map::value_of(before, key)
    } by {
        let k = choose|k: int| 0 <= k < before.len() && (#[trigger] before[k]).0 == key;
        assert(after[k].0 == key);
        lemma_row(before, k);
        lemma_row(after, k);
        if k != i && key == before[i].0 {
            if k < i {
                assert(before[k].0.0 < before[i].0.0);
            } else {
                assert(before[i].0.0 < before[k].0.0);
            }
        }
    }
}

fn merge_into(info: &mut FamilyInfo, surface: Surface, parent: Symbol)
    requires
        old(info).wf(),
        surface.methods.wf(),
        surface.field_members.wf(),
        surface.member_types.wf(),
    ensures
        final(info).wf(),
        final(info).name == old(info).name,
        final(info).enum_id == old(info).enum_id,
        final(info).required@ == names_merged(old(info).required@, surface.required@),
        final(info).methods@ == surface.methods@.union_prefer_right(old(info).methods@),
        final(info).field_members@ == surface.field_members@.union_prefer_right(
            old(info).field_members@,
        ),
        final(info).stored_fields@ == stored_merged(
            old(info).stored_fields@,
            surface.stored_fields@,
        ),
        final(info).variants == old(info).variants,
        final(info).parents@ == names_merged(
            old(info).parents@,
            seq![parent] + surface.parents@,
        ),
        final(info).member_types@ == surface.member_types@.union_prefer_right(
            old(info).member_types@,
        ),
{
    merge_names(&mut info.required, &surface.required);
    merge_map(&mut info.methods, &surface.methods);
    merge_map(&mut info.field_members, &surface.field_members);
    merge_stored(&mut info.stored_fields, &surface.stored_fields);
    merge_map(&mut info.member_types, &surface.member_types);
    let mut ancestors: Vec<Symbol> = Vec::new();
    ancestors.push(parent);
    crate::lists::extend(&mut ancestors, &surface.parents);
    assert(ancestors@ =~= seq![parent] + surface.parents@);
    merge_names(&mut info.parents, &ancestors);
}

/// The first row of `child`.
pub open spec fn first_clause(rows: Seq<FamilyParents>, child: Symbol) -> Option<FamilyParents>
    decreases rows.len(),
{
    if rows.len() == 0 {
        None
    } else if rows[0].child == child {
        Some(rows[0])
    } else {
        first_clause(rows.drop_first(), child)
    }
}

/// What `child` inherits from, parent by parent.
pub open spec fn clause_steps(rows: Seq<FamilyParents>, child: Symbol) -> Seq<(Symbol, Symbol)> {
    match first_clause(rows, child) {
        Some(row) => row.parents@.map_values(|parent: (Symbol, Span)| (child, parent.0)),
        None => Seq::empty(),
    }
}

/// Every merge, in the order the families are placed.
pub open spec fn merge_steps(rows: Seq<FamilyParents>, order: Seq<Symbol>) -> Seq<(Symbol, Symbol)>
    decreases order.len(),
{
    if order.len() == 0 {
        Seq::empty()
    } else {
        merge_steps(rows, order.drop_last()) + clause_steps(rows, order.last())
    }
}

/// The tables pass through `trace`, one merge at a time.
pub open spec fn merges_along(trace: Seq<FamilyTable>, steps: Seq<(Symbol, Symbol)>) -> bool {
    &&& trace.len() == steps.len() + 1
    &&& forall|k: int|
        0 <= k < steps.len() ==> #[trigger] merge_at(trace, steps, k)
}

/// Merge `k` takes the tables from one state of `trace` to the next.
pub open spec fn merge_at(trace: Seq<FamilyTable>, steps: Seq<(Symbol, Symbol)>, k: int) -> bool {
    family_merged(&trace[k], &trace[k + 1], steps[k].0, steps[k].1)
}

fn find_clause(rows: &Vec<FamilyParents>, child: Symbol) -> (found: Option<usize>)
    ensures
        match found {
            Some(i) => i < rows@.len() && first_clause(rows@, child) == Some(rows@[i as int]),
            None => first_clause(rows@, child) is None,
        },
{
    let mut i: usize = 0;
    assert(rows@.skip(0) =~= rows@);
    while i < rows.len()
        invariant
            i <= rows@.len(),
            first_clause(rows@, child) == first_clause(rows@.skip(i as int), child),
        decreases rows@.len() - i,
    {
        assert(rows@.skip(i as int).drop_first() =~= rows@.skip(i + 1));
        if rows[i].child == child {
            return Some(i);
        }
        i += 1;
    }
    None
}

fn list_steps(rows: &Vec<FamilyParents>, order: &Vec<Symbol>) -> (steps: Vec<(Symbol, Symbol)>)
    ensures
        steps@ == merge_steps(rows@, order@),
{
    let mut steps: Vec<(Symbol, Symbol)> = Vec::new();
    let mut i: usize = 0;
    assert(order@.take(0) =~= Seq::empty());
    while i < order.len()
        invariant
            i <= order@.len(),
            steps@ == merge_steps(rows@, order@.take(i as int)),
        decreases order@.len() - i,
    {
        let child = order[i];
        let ghost before = steps@;
        proof {
            assert(order@.take(i + 1).drop_last() =~= order@.take(i as int));
            assert(order@.take(i + 1).last() == child);
        }
        match find_clause(rows, child) {
            Some(at) => {
                let parents = &rows[at].parents;
                let ghost all = clause_steps(rows@, child);
                let mut p: usize = 0;
                assert(all.take(0) =~= Seq::empty());
                while p < parents.len()
                    invariant
                        p <= parents@.len(),
                        all.len() == parents@.len(),
                        all == parents@.map_values(|parent: (Symbol, Span)| (child, parent.0)),
                        steps@ == before + all.take(p as int),
                    decreases parents@.len() - p,
                {
                    steps.push((child, parents[p].0));
                    p += 1;
                    assert(steps@ =~= before + all.take(p as int));
                }
                assert(all.take(p as int) =~= all);
            },
            None => {
                assert(steps@ =~= before + clause_steps(rows@, child));
            },
        }
        i += 1;
    }
    assert(order@.take(i as int) =~= order@);
    steps
}

/// The file of the clause read last as the families are placed, or `source` where none
/// is.
pub open spec fn placed_read(
    rows: Seq<FamilyParents>,
    order: Seq<Symbol>,
    source: SourceId,
) -> SourceId
    decreases order.len(),
{
    if order.len() == 0 {
        source
    } else {
        match first_clause(rows, order.last()) {
            Some(row) => row.source,
            None => placed_read(rows, order.drop_last(), source),
        }
    }
}

fn read_placed(rows: &Vec<FamilyParents>, order: &Vec<Symbol>, log: &mut Log)
    ensures
        final(log).source == placed_read(rows@, order@, old(log).source),
        final(log).diagnostics == old(log).diagnostics,
{
    let mut i: usize = order.len();
    assert(order@.take(i as int) =~= order@);
    while i > 0
        invariant
            i <= order@.len(),
            *log == *old(log),
            placed_read(rows@, order@, log.source) == placed_read(
                rows@,
                order@.take(i as int),
                log.source,
            ),
        decreases i,
    {
        assert(order@.take(i as int).last() == order@[i - 1]);
        assert(order@.take(i as int).drop_last() =~= order@.take(i - 1));
        i -= 1;
        if let Some(at) = find_clause(rows, order[i]) {
            log.source = rows[at].source;
            return ;
        }
    }
}

/// Resolves every `extends` clause and merges each parent's surface into its
/// children, parents first. The file being read is then that of the last child placed.
pub fn inherit_construct_families(
    table: &mut FamilyTable,
    decls: &Vec<FamilyDecl>,
    log: &mut Log,
)
    requires
        old(table).wf(),
    ensures
        final(table).wf(),
        exists|rows: Seq<FamilyParents>, order: Seq<Symbol>, trace: Seq<FamilyTable>|
            {
                &&& #[trigger] families_ordered(
                    old(table),
                    decls@,
                    rows,
                    order,
                    old(log),
                    final(log),
                )
                &&& #[trigger] merges_along(trace, merge_steps(rows, order))
                &&& trace[0] == *old(table)
                &&& trace.last() == *final(table)
            },
{
    let rows = collect_family_parents(table, decls, log);
    let order = family_inheritance_order(&rows, log);
    let steps = list_steps(&rows, &order);
    read_placed(&rows, &order, log);
    let ghost mut trace: Seq<FamilyTable> = seq![*table];
    assert(families_ordered(
        table,
        decls@,
        rows@,
        order@,
        old(log),
        log,
    ));
    let mut i: usize = 0;
    while i < steps.len()
        invariant
            i <= steps@.len(),
            table.wf(),
            trace.len() == i + 1,
            trace[0] == *old(table),
            trace.last() == *table,
            forall|k: int| 0 <= k < i ==> #[trigger] merge_at(trace, steps@, k),
        decreases steps@.len() - i,
    {
        let ghost before = trace;
        merge_family_surface(table, steps[i].0, steps[i].1);
        proof {
            trace = trace.push(*table);
            assert forall|k: int| 0 <= k < i + 1 implies #[trigger] merge_at(trace, steps@, k) by {
                if k < i {
                    assert(merge_at(before, steps@, k));
                }
            }
        }
        i += 1;
    }
    assert(merges_along(trace, steps@));
}

/// The clauses of `decls` are `rows`, and `order` places their families.
pub open spec fn families_ordered(
    table: &FamilyTable,
    decls: Seq<FamilyDecl>,
    rows: Seq<FamilyParents>,
    order: Seq<Symbol>,
    before: &Log,
    after: &Log,
) -> bool {
    &&& rows.len() == crate::family_order::extending(decls, decls.len() as int).len()
    &&& forall|k: int|
        0 <= k < rows.len() ==> crate::family_order::clause_of(
            table,
            #[trigger] rows[k],
            decls[crate::family_order::extending(decls, decls.len() as int)[k]],
        )
    &&& exists|pending: Seq<(Symbol, usize)>|
        {
            &&& #[trigger] crate::family_order::lists(
                pending,
                crate::family_order::last_rows(rows, rows.len() as int),
            )
            &&& crate::family_order::waiting_rows(rows, pending)
            &&& order == crate::family_order::placed_from(rows, pending).map_values(
                |entry: (Symbol, usize)| entry.0,
            )
            &&& after.diagnostics@ == before.diagnostics@ + crate::family_order::clause_problems(
                table,
                decls,
                decls.len() as int,
            ) + crate::family_order::cycle_reports(
                rows,
                crate::family_order::never_placed(rows, pending),
            )
            &&& after.source == placed_read(
                rows,
                order,
                read_last(
                    crate::family_order::read_of(
                        decls,
                        crate::family_order::extending(decls, decls.len() as int),
                        before.source,
                    ),
                    crate::family_order::cycle_reports(
                        rows,
                        crate::family_order::never_placed(rows, pending),
                    ),
                ),
            )
        }
}

/// A family that extends another presents everything the other does.
pub proof fn a_child_presents_its_parents_surface(
    child: FamilyInfo,
    after: FamilyInfo,
    parent: FamilyInfo,
    parent_name: Symbol,
    member: Symbol,
)
    requires
        surface_merged(child, after, parent, parent_name),
    ensures
        parent.methods@.contains_key(member) ==> after.methods@.contains_key(member),
        parent.field_members@.contains_key(member) ==> after.field_members@.contains_key(member),
        parent.required@.contains(member) ==> after.required@.contains(member),
        after.parents@.contains(parent_name),
        parent.parents@.contains(member) ==> after.parents@.contains(member),
{
    lemma_names_merged(child.required@, parent.required@, member);
    let ancestors = seq![parent_name] + parent.parents@;
    lemma_names_merged(child.parents@, ancestors, parent_name);
    lemma_names_merged(child.parents@, ancestors, member);
    assert(ancestors[0] == parent_name);
    if parent.parents@.contains(member) {
        let k = choose|k: int| 0 <= k < parent.parents@.len() && parent.parents@[k] == member;
        assert(ancestors[k + 1] == member);
    }
}

/// What a family states itself is never replaced by what it inherits.
pub proof fn a_redeclared_member_is_kept(
    child: FamilyInfo,
    after: FamilyInfo,
    parent: FamilyInfo,
    parent_name: Symbol,
    member: Symbol,
)
    requires
        surface_merged(child, after, parent, parent_name),
    ensures
        child.methods@.contains_key(member) ==> after.methods@[member] == child.methods@[member],
        child.field_members@.contains_key(member) ==> after.field_members@[member]
            == child.field_members@[member],
        child.member_types@.contains_key(member) ==> after.member_types@[member]
            == child.member_types@[member],
{
}

proof fn lemma_names_merged(own: Seq<Symbol>, inherited: Seq<Symbol>, name: Symbol)
    ensures
        names_merged(own, inherited).contains(name) <==> own.contains(name) || inherited.contains(
            name,
        ),
    decreases inherited.len(),
{
    if inherited.len() > 0 {
        let rest = inherited.drop_last();
        lemma_names_merged(own, rest, name);
        lemma_names_merged(own, rest, inherited.last());
        let before = names_merged(own, rest);
        let after = names_merged(own, inherited);
        if inherited.contains(name) {
            let k = choose|k: int| 0 <= k < inherited.len() && inherited[k] == name;
            if k < rest.len() {
                assert(rest[k] == name);
            }
        }
        if rest.contains(name) {
            let k = choose|k: int| 0 <= k < rest.len() && rest[k] == name;
            assert(inherited[k] == name);
        }
        if before.contains(name) {
            let k = choose|k: int| 0 <= k < before.len() && before[k] == name;
            assert(after[k] == name);
        }
        if after.contains(name) && !before.contains(name) {
            let k = choose|k: int| 0 <= k < after.len() && after[k] == name;
            if k < before.len() {
                assert(before[k] == name);
            } else {
                assert(inherited[inherited.len() - 1] == name);
            }
        }
        if inherited.last() == name && !before.contains(name) {
            assert(after[after.len() - 1] == name);
        }
    }
}

proof fn lemma_stored_merged(own: Seq<StoredField>, inherited: Seq<StoredField>)
    ensures
        crate::hir::grew(own, stored_merged(own, inherited)),
        forall|i: int|
            #![trigger inherited[i]]
            0 <= i < inherited.len() && !stores(own, inherited[i].name) && (forall|j: int|
                0 <= j < i ==> (#[trigger] inherited[j]).name != inherited[i].name)
                ==> stored_merged(own, inherited).contains(inherited[i]),
        forall|k: int|
            #![trigger stored_merged(own, inherited)[k]]
            own.len() <= k < stored_merged(own, inherited).len() ==> inherited.contains(
                stored_merged(own, inherited)[k],
            ) && !stores(own, stored_merged(own, inherited)[k].name),
    decreases inherited.len(),
{
    if inherited.len() > 0 {
        let rest = inherited.drop_last();
        lemma_stored_merged(own, rest);
        let before = stored_merged(own, rest);
        let all = stored_merged(own, inherited);
        assert forall|i: int|
            #![trigger inherited[i]]
            0 <= i < inherited.len() && !stores(own, inherited[i].name) && (forall|j: int|
                0 <= j < i ==> (#[trigger] inherited[j]).name != inherited[i].name) implies all.contains(
            inherited[i],
        ) by {
            if i < rest.len() {
                assert(rest[i] == inherited[i]);
                assert forall|j: int| 0 <= j < i implies (#[trigger] rest[j]).name
                    != rest[i].name by {
                    assert(rest[j] == inherited[j]);
                }
                let k = choose|k: int| 0 <= k < before.len() && before[k] == inherited[i];
                assert(all[k] == inherited[i]);
            } else {
                if stores(before, inherited[i].name) {
                    let k = choose|k: int|
                        0 <= k < before.len() && (#[trigger] before[k]).name == inherited[i].name;
                    if k < own.len() {
                        assert(own[k] == before[k]);
                        assert(stores(own, inherited[i].name));
                    } else {
                        assert(rest.contains(before[k]));
                        let j = choose|j: int| 0 <= j < rest.len() && rest[j] == before[k];
                        assert(inherited[j].name == inherited[i].name);
                    }
                }
                assert(all[all.len() - 1] == inherited[i]);
            }
        }
        assert forall|k: int|
            #![trigger all[k]]
            own.len() <= k < all.len() implies inherited.contains(all[k]) && !stores(
            own,
            all[k].name,
        ) by {
            if k < before.len() {
                assert(all[k] == before[k]);
                assert(rest.contains(before[k]));
                let j = choose|j: int| 0 <= j < rest.len() && rest[j] == before[k];
                assert(inherited[j] == all[k]);
            } else {
                assert(inherited[inherited.len() - 1] == all[k]);
                if stores(own, all[k].name) {
                    let j = choose|j: int| 0 <= j < own.len() && (#[trigger] own[j]).name
                        == all[k].name;
                    assert(before[j] == own[j]);
                    assert(stores(before, all[k].name));
                }
            }
        }
    }
}

/// A family that extends another states what it states itself and, where it states nothing
/// of a name, what the other does: its methods, value members, written types and stored
/// fields are its own and then the parent's, unchanged, and it requires what either does.
/// It is a child of the parent and of all the parent extends. It takes on no more.
pub proof fn a_child_inherits_what_it_does_not_state(
    child: FamilyInfo,
    after: FamilyInfo,
    parent: FamilyInfo,
    parent_name: Symbol,
    name: Symbol,
    i: int,
)
    requires
        surface_merged(child, after, parent, parent_name),
    ensures
        !child.methods@.contains_key(name) && parent.methods@.contains_key(name)
            ==> after.methods@.contains_pair(name, parent.methods@[name]),
        !child.field_members@.contains_key(name) && parent.field_members@.contains_key(name)
            ==> after.field_members@.contains_pair(name, parent.field_members@[name]),
        !child.member_types@.contains_key(name) && parent.member_types@.contains_key(name)
            ==> after.member_types@.contains_pair(name, parent.member_types@[name]),
        after.methods@.contains_key(name) <==> child.methods@.contains_key(name)
            || parent.methods@.contains_key(name),
        after.field_members@.contains_key(name) <==> child.field_members@.contains_key(name)
            || parent.field_members@.contains_key(name),
        after.required@.contains(name) <==> child.required@.contains(name)
            || parent.required@.contains(name),
        after.parents@.contains(name) <==> child.parents@.contains(name) || name == parent_name
            || parent.parents@.contains(name),
        0 <= i < child.stored_fields@.len() ==> after.stored_fields@.len() > i
            && after.stored_fields@[i] == child.stored_fields@[i],
        0 <= i < parent.stored_fields@.len() && (forall|j: int|
            0 <= j < child.stored_fields@.len() ==> (#[trigger] child.stored_fields@[j]).name
                != parent.stored_fields@[i].name) && (forall|j: int|
            0 <= j < i ==> (#[trigger] parent.stored_fields@[j]).name
                != parent.stored_fields@[i].name) ==> after.stored_fields@.contains(
            parent.stored_fields@[i],
        ),
        child.stored_fields@.len() <= i < after.stored_fields@.len()
            ==> parent.stored_fields@.contains(after.stored_fields@[i]),
        after.enum_id == child.enum_id,
        after.variants == child.variants,
{
    lemma_names_merged(child.required@, parent.required@, name);
    let above = seq![parent_name] + parent.parents@;
    lemma_names_merged(child.parents@, above, name);
    if above.contains(name) {
        let k = choose|k: int| 0 <= k < above.len() && above[k] == name;
        if k > 0 {
            assert(parent.parents@[k - 1] == name);
        }
    }
    if name == parent_name {
        assert(above[0] == name);
    }
    if parent.parents@.contains(name) {
        let k = choose|k: int| 0 <= k < parent.parents@.len() && parent.parents@[k] == name;
        assert(above[k + 1] == name);
    }
    lemma_stored_merged(child.stored_fields@, parent.stored_fields@);
    if 0 <= i < parent.stored_fields@.len() && (forall|j: int|
        0 <= j < child.stored_fields@.len() ==> (#[trigger] child.stored_fields@[j]).name
            != parent.stored_fields@[i].name) {
        assert(!stores(child.stored_fields@, parent.stored_fields@[i].name));
    }
    if child.stored_fields@.len() <= i < after.stored_fields@.len() {
        assert(parent.stored_fields@.contains(
            stored_merged(child.stored_fields@, parent.stored_fields@)[i],
        ));
    }
}

proof fn lemma_first_clause(rows: Seq<FamilyParents>, child: Symbol, i: int)
    requires
        0 <= i < rows.len(),
        rows[i].child == child,
        forall|j: int| 0 <= j < i ==> (#[trigger] rows[j]).child != child,
    ensures
        first_clause(rows, child) == Some(rows[i]),
    decreases rows.len(),
{
    if i > 0 {
        let rest = rows.drop_first();
        assert(rows[0].child != child);
        assert forall|j: int| 0 <= j < i - 1 implies (#[trigger] rest[j]).child != child by {
            assert(rest[j] == rows[j + 1]);
        }
        lemma_first_clause(rest, child, i - 1);
    }
}

proof fn lemma_merge_steps(
    rows: Seq<FamilyParents>,
    order: Seq<Symbol>,
    at: int,
    step: (Symbol, Symbol),
)
    requires
        0 <= at < order.len(),
        clause_steps(rows, order[at]).contains(step),
    ensures
        merge_steps(rows, order).contains(step),
    decreases order.len(),
{
    let before = merge_steps(rows, order.drop_last());
    let own = clause_steps(rows, order.last());
    let all = merge_steps(rows, order);
    if at < order.len() - 1 {
        assert(order.drop_last()[at] == order[at]);
        lemma_merge_steps(rows, order.drop_last(), at, step);
        let i = choose|i: int| 0 <= i < before.len() && before[i] == step;
        assert(all[i] == step);
    } else {
        let i = choose|i: int| 0 <= i < own.len() && own[i] == step;
        assert(all[before.len() + i] == step);
    }
}

/// Every family that is placed is merged with each of the families its clause names, and
/// merging changes the child alone.
pub proof fn every_placed_family_is_merged_with_its_parents(
    rows: Seq<FamilyParents>,
    order: Seq<Symbol>,
    at: int,
    i: int,
    p: int,
    before: &FamilyTable,
    after: &FamilyTable,
    child: Symbol,
    parent: Symbol,
    other: Symbol,
)
    requires
        0 <= at < order.len(),
        0 <= i < rows.len(),
        rows[i].child == order[at],
        forall|j: int| 0 <= j < i ==> (#[trigger] rows[j]).child != order[at],
        0 <= p < rows[i].parents@.len(),
    ensures
        merge_steps(rows, order).contains((order[at], rows[i].parents@[p].0)),
        family_merged(before, after, child, parent) && other != child
            && before.families@.contains_key(other) ==> after.families@.contains_pair(
            other,
            before.families@[other],
        ),
        family_merged(before, after, child, parent) ==> after.methods == before.methods
            && after.names == before.names,
{
    lemma_first_clause(rows, order[at], i);
    let own = clause_steps(rows, order[at]);
    assert(own[p] == (order[at], rows[i].parents@[p].0));
    assert(own.contains((order[at], rows[i].parents@[p].0)));
    lemma_merge_steps(rows, order, at, (order[at], rows[i].parents@[p].0));
    if family_merged(before, after, child, parent) && other != child
        && before.families@.contains_key(other) {
        assert(after.families@.dom().contains(other) || *after == *before);
        assert(after.families@.contains_key(other));
    }
}

/// A family that extends another keeps its own name.
pub proof fn a_child_keeps_its_name(
    child: FamilyInfo,
    after: FamilyInfo,
    parent: FamilyInfo,
    parent_name: Symbol,
)
    requires
        surface_merged(child, after, parent, parent_name),
    ensures
        after.name == child.name,
        after.enum_id == child.enum_id,
{
}

} // verus!
