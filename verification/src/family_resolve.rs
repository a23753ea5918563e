//! Resolving what family methods and value members were written with.
//!
//! Types resolve after the families' enums exist, because a requirement may name
//! its own family.

use vstd::prelude::*;

use crate::diagnostics::Log;
use crate::families::{FamilyField, FamilyInfo, FamilyMethod, FamilyTable, MethodParam};
use crate::hir::HirExprId;
use crate::lists::copied;
use crate::names::Symbol;
use crate::source::SourceId;
use crate::symbol_map::{lemma_row, ordered};
use crate::syntax::{ExprId, TypeRefId, TypeRefs};
use crate::ty::{OwnershipMode, Type};

verus! {

/// The types of written parameters.
pub open spec fn param_types(refs: &TypeRefs, written: Seq<MethodParam>) -> Seq<Type> {
    written.map_values(|param: MethodParam| refs.meaning(param.ty).ty)
}

/// The result a method was written with, void where none was.
pub open spec fn written_result(refs: &TypeRefs, result: Option<TypeRefId>) -> Type {
    match result {
        Some(result) => refs.meaning(result).ty,
        None => Type::Void,
    }
}

/// `after` is `before` with its types resolved, its parameters taken by `modes`.
pub open spec fn method_resolved(
    before: FamilyMethod,
    after: FamilyMethod,
    refs: &TypeRefs,
    modes: Seq<OwnershipMode>,
) -> bool {
    &&& after.params@ == param_types(refs, before.written@)
    &&& after.ownership@ == modes
    &&& after.result == written_result(refs, before.written_result)
    &&& after == (FamilyMethod {
        params: after.params,
        ownership: after.ownership,
        result: after.result,
        ..before
    })
}

fn resolve_params(refs: &TypeRefs, written: &Vec<MethodParam>) -> (types: Vec<Type>)
    ensures
        types@ == param_types(refs, written@),
{
    let mut types: Vec<Type> = Vec::new();
    let mut i: usize = 0;
    while i < written.len()
        invariant
            i <= written@.len(),
            types@ == param_types(refs, written@.take(i as int)),
        decreases written@.len() - i,
    {
        types.push(refs.resolve(written[i].ty).ty);
        i += 1;
        assert(types@ =~= param_types(refs, written@.take(i as int)));
    }
    assert(written@.take(i as int) =~= written@);
    types
}

/// Resolves the signature of every family method, `modes` saying by method how it
/// takes its parameters.
pub fn resolve_family_method_signatures(
    table: &mut FamilyTable,
    refs: &TypeRefs,
    modes: &Vec<Vec<OwnershipMode>>,
)
    requires
        old(table).wf(),
        modes@.len() == old(table).methods@.len(),
    ensures
        final(table).wf(),
        final(table).methods@.len() == old(table).methods@.len(),
        forall|k: int|
            0 <= k < old(table).methods@.len() ==> method_resolved(
                old(table).methods@[k],
                #[trigger] final(table).methods@[k],
                refs,
                modes@[k]@,
            ),
        *final(table) == (FamilyTable { methods: final(table).methods, ..*old(table) }),
{
    let mut i: usize = 0;
    while i < table.methods.len()
        invariant
            i <= table.methods@.len(),
            table.methods@.len() == old(table).methods@.len(),
            modes@.len() == old(table).methods@.len(),
            forall|k: int|
                0 <= k < i ==> method_resolved(
                    old(table).methods@[k],
                    #[trigger] table.methods@[k],
                    refs,
                    modes@[k]@,
                ),
            forall|k: int|
                i <= k < table.methods@.len() ==> #[trigger] table.methods@[k] == old(
                    table).methods@[k],
            *table == (FamilyTable { methods: table.methods, ..*old(table) }),
        decreases table.methods@.len() - i,
    {
        let params = resolve_params(refs, &table.methods[i].written);
        let result: Type = match table.methods[i].written_result {
            Some(result) => refs.resolve(result).ty,
            None => Type::Void,
        };
        let ghost was = table.methods@;
        table.methods[i].params = params;
        table.methods[i].ownership = copied(&modes[i]);
        table.methods[i].result = result;
        proof {
            assert forall|k: int| 0 <= k < i + 1 implies method_resolved(
                old(table).methods@[k],
                #[trigger] table.methods@[k],
                refs,
                modes@[k]@,
            ) by {
                if k < i {
                    assert(table.methods@[k] == was[k]);
                }
            }
        }
        i += 1;
    }
    proof {
        assert forall|key: Symbol, name: Symbol|
            table.families@.contains_key(key) && table.families@[key].methods@.contains_key(
                name,
            ) implies (#[trigger] table.families@[key].methods@[name]).method
            < table.methods@.len() by {
            assert(old(table).families@[key].methods@[name].method < old(table).methods@.len());
        }
        assert forall|key: Symbol| table.families@.contains_key(key) implies (
        #[trigger] table.families@[key]).wf() by {
            assert(old(table).families@[key].wf());
        }
    }
}

/// A value member with the type it was written with, where it was written with
/// one.
pub open spec fn member_typed(
    member: FamilyField,
    written: Map<Symbol, (TypeRefId, SourceId)>,
    name: Symbol,
    refs: &TypeRefs,
) -> FamilyField {
    if written.contains_key(name) {
        FamilyField { result: refs.meaning(written[name].0).ty, ..member }
    } else {
        member
    }
}

/// `after` is `before` with its first `count` value members typed.
pub open spec fn family_typed(
    before: FamilyInfo,
    after: FamilyInfo,
    refs: &TypeRefs,
    count: int,
) -> bool {
    let rows = before.field_members.rows@;
    &&& after == (FamilyInfo { field_members: after.field_members, ..before })
    &&& after.field_members.rows@.len() == rows.len()
    &&& forall|k: int|
        0 <= k < rows.len() ==> (#[trigger] after.field_members.rows@[k]).0 == rows[k].0
            && after.field_members.rows@[k].1 == if k < count {
            member_typed(rows[k].1, before.member_types@, rows[k].0, refs)
        } else {
            rows[k].1
        }
}

fn type_members(info: &mut FamilyInfo, refs: &TypeRefs)
    requires
        old(info).wf(),
    ensures
        family_typed(*old(info), *final(info), refs, old(info).field_members.rows@.len() as int),
{
    let ghost rows = info.field_members.rows@;
    let mut k: usize = 0;
    while k < info.field_members.rows.len()
        invariant
            k <= rows.len(),
            rows == old(info).field_members.rows@,
            old(info).wf(),
            info.member_types == old(info).member_types,
            family_typed(*old(info), *info, refs, k as int),
        decreases rows.len() - k,
    {
        let (name, member): (Symbol, FamilyField) = info.field_members.rows[k];
        let ghost was = info.field_members.rows@;
        assert(was[k as int] == rows[k as int]);
        if let Some((written, _)) = info.member_types.get(name) {
            let result = refs.resolve(*written).ty;
            info.field_members.rows[k] = (name, FamilyField { result, ..member });
        }
        proof {
            let now = info.field_members.rows@;
            assert forall|j: int| 0 <= j < rows.len() implies (#[trigger] now[j]).0 == rows[j].0
                && now[j].1 == if j < k + 1 {
                member_typed(rows[j].1, old(info).member_types@, rows[j].0, refs)
            } else {
                rows[j].1
            } by {
                assert(was[j].0 == rows[j].0);
            }
        }
        k += 1;
    }
}

/// The families after the first `count` had their value members typed.
pub open spec fn families_typed(
    before: Seq<(Symbol, FamilyInfo)>,
    after: Seq<(Symbol, FamilyInfo)>,
    refs: &TypeRefs,
    count: int,
) -> bool {
    &&& after.len() == before.len()
    &&& forall|f: int|
        0 <= f < before.len() ==> {
            &&& (#[trigger] after[f]).0 == before[f].0
            &&& if f < count {
                family_typed(
                    before[f].1,
                    after[f].1,
                    refs,
                    before[f].1.field_members.rows@.len() as int,
                )
            } else {
                after[f].1 == before[f].1
            }
        }
}

/// Resolves the written type of every family value member.
pub fn resolve_family_field_members(table: &mut FamilyTable, refs: &TypeRefs)
    requires
        old(table).wf(),
    ensures
        final(table).wf(),
        families_typed(
            old(table).families.rows@,
            final(table).families.rows@,
            refs,
            old(table).families.rows@.len() as int,
        ),
        *final(table) == (FamilyTable { families: final(table).families, ..*old(table) }),
{
    let ghost rows = table.families.rows@;
    let mut f: usize = 0;
    while f < table.families.rows.len()
        invariant
            f <= rows.len(),
            rows == old(table).families.rows@,
            old(table).wf(),
            families_typed(rows, table.families.rows@, refs, f as int),
            *table == (FamilyTable { families: table.families, ..*old(table) }),
        decreases rows.len() - f,
    {
        let ghost was = table.families.rows@;
        proof {
            lemma_row(rows, f as int);
            assert(old(table).families@[rows[f as int].0].wf());
            assert(was[f as int] == rows[f as int]);
        }
        type_members(&mut table.families.rows[f].1, refs);
        proof {
            let now = table.families.rows@;
            assert forall|k: int| 0 <= k < rows.len() implies {
                &&& (#[trigger] now[k]).0 == rows[k].0
                &&& if k < f + 1 {
                    family_typed(
                        rows[k].1,
                        now[k].1,
                        refs,
                        rows[k].1.field_members.rows@.len() as int,
                    )
                } else {
                    now[k].1 == rows[k].1
                }
            } by {
                if k != f {
                    assert(now[k] == was[k]);
                }
            }
        }
        f += 1;
    }
    proof {
        lemma_typed_wf(old(table), table, refs);
    }
}

/// Typing value members keeps the table in order.
proof fn lemma_typed_wf(before: &FamilyTable, after: &FamilyTable, refs: &TypeRefs)
    requires
        before.wf(),
        families_typed(
            before.families.rows@,
            after.families.rows@,
            refs,
            before.families.rows@.len() as int,
        ),
        *after == (FamilyTable { families: after.families, ..*before }),
    ensures
        after.wf(),
{
    let rows = before.families.rows@;
    let changed = after.families.rows@;
    assert(ordered(changed)) by {
        assert forall|i: int, j: int| 0 <= i < j < changed.len() implies (
        #[trigger] changed[i]).0.0 < (#[trigger] changed[j]).0.0 by {
            assert(changed[i].0 == rows[i].0 && changed[j].0 == rows[j].0);
            assert(rows[i].0.0 < rows[j].0.0);
        }
    }
    assert forall|key: Symbol| after.families@.contains_key(key) implies (
    #[trigger] after.families@[key]).wf() && (forall|name: Symbol|
        after.families@[key].methods@.contains_key(name) ==> (
        #[trigger] after.families@[key].methods@[name]).method < after.methods@.len()) by {
        let f = choose|f: int| 0 <= f < changed.len() && (#[trigger] changed[f]).0 == key;
        lemma_row(changed, f);
        lemma_row(rows, f);
        assert(rows[f].0 == key);
        assert(before.families@[key].wf());
        let inner = rows[f].1.field_members.rows@;
        let now = changed[f].1.field_members.rows@;
        assert(ordered(now)) by {
            assert forall|i: int, j: int| 0 <= i < j < now.len() implies (#[trigger] now[i]).0.0 < (
            #[trigger] now[j]).0.0 by {
                assert(now[i].0 == inner[i].0 && now[j].0 == inner[j].0);
                assert(inner[i].0.0 < inner[j].0.0);
            }
        }
        assert forall|name: Symbol|
            after.families@[key].methods@.contains_key(name) implies (
        #[trigger] after.families@[key].methods@[name]).method < after.methods@.len() by {
            assert(before.families@[key].methods@[name].method < before.methods@.len());
        }
    }
}

/// Whether some parameter was written with a default.
pub open spec fn has_defaults(written: Seq<MethodParam>) -> bool {
    exists|i: int| 0 <= i < written.len() && (#[trigger] written[i]).default is Some
}

/// Whether a method's parameter defaults have to be resolved at all.
pub fn needs_defaults(method: &FamilyMethod) -> (res: bool)
    ensures
        res == has_defaults(method.written@),
{
    let mut i: usize = 0;
    while i < method.written.len()
        invariant
            i <= method.written@.len(),
            forall|k: int| 0 <= k < i ==> (#[trigger] method.written@[k]).default is None,
        decreases method.written@.len() - i,
    {
        if method.written[i].default.is_some() {
            return true;
        }
        i += 1;
    }
    false
}

/// The methods among the first `count` of a family that have defaults to resolve, by
/// their rows, behind those of `before`: each method once, however many families
/// present it.
pub open spec fn family_defaults(
    table: &FamilyTable,
    f: int,
    count: int,
    before: Seq<usize>,
) -> Seq<usize>
    decreases count,
{
    if count <= 0 {
        before
    } else {
        let listed = family_defaults(table, f, count - 1, before);
        let row = table.families.rows@[f].1.methods.rows@[count - 1].1.method as usize;
        if has_defaults(table.methods@[row as int].written@) && !listed.contains(row) {
            listed.push(row)
        } else {
            listed
        }
    }
}

/// The methods of the first `count` families that have defaults to resolve, by family
/// key and then by name.
pub open spec fn defaults_order(table: &FamilyTable, count: int) -> Seq<usize>
    decreases count,
{
    if count <= 0 {
        Seq::empty()
    } else {
        family_defaults(
            table,
            count - 1,
            table.families.rows@[count - 1].1.methods.rows@.len() as int,
            defaults_order(table, count - 1),
        )
    }
}

fn row_listed(rows: &Vec<usize>, row: usize) -> (res: bool)
    ensures
        res == rows@.contains(row),
{
    let mut i: usize = 0;
    while i < rows.len()
        invariant
            i <= rows@.len(),
            forall|k: int| 0 <= k < i ==> rows@[k] != row,
        decreases rows@.len() - i,
    {
        if rows[i] == row {
            assert(rows@[i as int] == row);
            return true;
        }
        i += 1;
    }
    false
}

/// Lists the family methods whose parameter defaults are resolved, in the order they
/// are.
pub fn methods_with_defaults(table: &FamilyTable) -> (rows: Vec<usize>)
    requires
        table.wf(),
    ensures
        rows@ == defaults_order(table, table.families.rows@.len() as int),
{
    let mut rows: Vec<usize> = Vec::new();
    let mut f: usize = 0;
    while f < table.families.rows.len()
        invariant
            f <= table.families.rows@.len(),
            table.wf(),
            rows@ == defaults_order(table, f as int),
        decreases table.families.rows@.len() - f,
    {
        let ghost before = rows@;
        let ghost key = table.families.rows@[f as int].0;
        let methods = &table.families.rows[f].1.methods;
        proof {
            lemma_row(table.families.rows@, f as int);
            assert(table.families@[key].wf());
        }
        let mut m: usize = 0;
        while m < methods.rows.len()
            invariant
                f < table.families.rows@.len(),
                table.wf(),
                key == table.families.rows@[f as int].0,
                table.families@.contains_key(key),
                table.families@[key] == table.families.rows@[f as int].1,
                table.families@[key].wf(),
                *methods == table.families.rows@[f as int].1.methods,
                m <= methods.rows@.len(),
                rows@ == family_defaults(table, f as int, m as int, before),
            decreases methods.rows@.len() - m,
        {
            proof {
                lemma_row(methods.rows@, m as int);
                let name = methods.rows@[m as int].0;
                assert(table.families@[key].methods@[name].method < table.methods@.len());
            }
            let row: usize = methods.rows[m].1.method as usize;
            if needs_defaults(&table.methods[row]) && !row_listed(&rows, row) {
                rows.push(row);
            }
            m += 1;
        }
        f += 1;
    }
    rows
}

/// The defaults among the first `count` parameters of a method, each with its place and
/// the type it is analyzed against, where the parameter has one.
pub open spec fn default_tasks(method: FamilyMethod, count: int) -> Seq<
    (usize, ExprId, Option<Type>),
>
    decreases count,
{
    if count <= 0 {
        Seq::empty()
    } else {
        let before = default_tasks(method, count - 1);
        match method.written@[count - 1].default {
            Some(syntax) => before.push(
                (
                    (count - 1) as usize,
                    syntax,
                    if count <= method.params@.len() {
                        Some(method.params@[count - 1])
                    } else {
                        None
                    },
                ),
            ),
            None => before,
        }
    }
}

/// Lists the defaults of a method that are to be analyzed, in its own file.
pub fn begin_method_defaults(method: &FamilyMethod, log: &mut Log) -> (tasks: Vec<
    (usize, ExprId, Option<Type>),
>)
    ensures
        tasks@ == default_tasks(*method, method.written@.len() as int),
        final(log).source == method.source,
        final(log).diagnostics == old(log).diagnostics,
{
    log.source = method.source;
    let mut tasks: Vec<(usize, ExprId, Option<Type>)> = Vec::new();
    let mut i: usize = 0;
    while i < method.written.len()
        invariant
            i <= method.written@.len(),
            tasks@ == default_tasks(*method, i as int),
        decreases method.written@.len() - i,
    {
        if let Some(syntax) = method.written[i].default {
            let expected: Option<Type> = if i < method.params.len() {
                Some(method.params[i])
            } else {
                None
            };
            tasks.push((i, syntax, expected));
        }
        i += 1;
    }
    tasks
}

/// Records the resolved parameter defaults of a family method, each resolved once
/// and reused by every call that leaves the argument out.
pub fn record_method_defaults(table: &mut FamilyTable, row: usize, defaults: Vec<Option<HirExprId>>)
    requires
        old(table).wf(),
        row < old(table).methods@.len(),
        defaults@.len() == old(table).methods@[row as int].written@.len(),
    ensures
        final(table).wf(),
        final(table).methods@.len() == old(table).methods@.len(),
        forall|k: int|
            0 <= k < old(table).methods@.len() && k != row ==> #[trigger] final(table).methods@[k]
                == old(table).methods@[k],
        final(table).methods@[row as int] == (FamilyMethod {
            defaults,
            ..old(table).methods@[row as int]
        }),
        *final(table) == (FamilyTable { methods: final(table).methods, ..*old(table) }),
{
    table.methods[row].defaults = defaults;
    proof {
        assert forall|key: Symbol, name: Symbol|
            table.families@.contains_key(key) && table.families@[key].methods@.contains_key(
                name,
            ) implies (#[trigger] table.families@[key].methods@[name]).method
            < table.methods@.len() by {
            assert(old(table).families@[key].methods@[name].method < old(table).methods@.len());
        }
        assert forall|key: Symbol| table.families@.contains_key(key) implies (
        #[trigger] table.families@[key]).wf() by {
            assert(old(table).families@[key].wf());
        }
    }
}

/// A resolved family method takes, parameter by parameter, the types its parameters were
/// written with, in the modes given, and returns the type its result was written with, or
/// nothing where none was; everything else about it stays.
pub proof fn a_resolved_method_has_its_written_types(
    before: FamilyMethod,
    after: FamilyMethod,
    refs: &TypeRefs,
    modes: Seq<OwnershipMode>,
    k: int,
)
    requires
        method_resolved(before, after, refs, modes),
    ensures
        after.params@.len() == before.written@.len(),
        0 <= k < before.written@.len() ==> after.params@[k] == refs.meaning(
            before.written@[k].ty,
        ).ty,
        after.ownership@ == modes,
        before.written_result matches Some(result) ==> after.result == refs.meaning(result).ty,
        before.written_result is None ==> after.result == Type::Void,
        after.written == before.written,
        after.required == before.required,
        after.mutates_self == before.mutates_self,
        after.defaults == before.defaults,
{
}

/// A value member written with a type has that type once resolved, and keeps its reader;
/// one written without stays as it was.
pub proof fn a_typed_member_has_its_written_type(
    member: FamilyField,
    written: Map<Symbol, (TypeRefId, SourceId)>,
    name: Symbol,
    refs: &TypeRefs,
)
    ensures
        written.contains_key(name) ==> member_typed(member, written, name, refs).result
            == refs.meaning(written[name].0).ty,
        !written.contains_key(name) ==> member_typed(member, written, name, refs) == member,
        member_typed(member, written, name, refs).dispatcher == member.dispatcher,
{
}

proof fn lemma_default_tasks(method: FamilyMethod, count: int)
    requires
        0 <= count <= method.written@.len() <= usize::MAX,
    ensures
        ({
            let tasks = default_tasks(method, count);
            &&& forall|i: int|
                0 <= i < count ==> ((#[trigger] method.written@[i]).default matches Some(syntax)
                    ==> tasks.contains(
                    (
                        i as usize,
                        syntax,
                        if i < method.params@.len() {
                            Some(method.params@[i])
                        } else {
                            None
                        },
                    ),
                ))
            &&& forall|k: int|
                0 <= k < tasks.len() ==> (#[trigger] tasks[k]).0 < count
                    && method.written@[tasks[k].0 as int].default == Some(tasks[k].1)
            &&& forall|a: int, b: int|
                0 <= a < b < tasks.len() ==> (#[trigger] tasks[a]).0 < (#[trigger] tasks[b]).0
        }),
    decreases count,
{
    if count > 0 {
        lemma_default_tasks(method, count - 1);
        let before = default_tasks(method, count - 1);
        let tasks = default_tasks(method, count);
        assert forall|i: int| 0 <= i < count implies ((
        #[trigger] method.written@[i]).default matches Some(syntax) ==> tasks.contains(
            (
                i as usize,
                syntax,
                if i < method.params@.len() {
                    Some(method.params@[i])
                } else {
                    None
                },
            ),
        )) by {
            if let Some(syntax) = method.written@[i].default {
                let task = (
                    i as usize,
                    syntax,
                    if i < method.params@.len() {
                        Some(method.params@[i])
                    } else {
                        None
                    },
                );
                if i < count - 1 {
                    let k = choose|k: int| 0 <= k < before.len() && before[k] == task;
                    assert(tasks[k] == task);
                } else {
                    assert(tasks[tasks.len() - 1] == task);
                }
            }
        }
    }
}

/// Every default a method writes is analyzed once, in parameter order, against the type of
/// its own parameter.
pub proof fn every_default_is_analyzed_against_its_parameter(method: FamilyMethod, i: int)
    requires
        method.written@.len() <= usize::MAX,
        0 <= i < method.written@.len(),
    ensures
        ({
            let tasks = default_tasks(method, method.written@.len() as int);
            &&& method.written@[i].default is Some && i < method.params@.len() ==> tasks.contains(
                (i as usize, method.written@[i].default->0, Some(method.params@[i])),
            )
            &&& method.written@[i].default is None ==> forall|k: int|
                0 <= k < tasks.len() ==> (#[trigger] tasks[k]).0 != i
            &&& forall|a: int, b: int|
                0 <= a < b < tasks.len() ==> (#[trigger] tasks[a]).0 < (#[trigger] tasks[b]).0
        }),
{
    lemma_default_tasks(method, method.written@.len() as int);
    assert(method.written@[i] == method.written@[i]);
}

proof fn lemma_family_defaults(table: &FamilyTable, f: int, count: int, before: Seq<usize>)
    requires
        0 <= f < table.families.rows@.len(),
        0 <= count <= table.families.rows@[f].1.methods.rows@.len(),
    ensures
        ({
            let listed = family_defaults(table, f, count, before);
            &&& crate::hir::grew(before, listed)
            &&& before.no_duplicates() ==> listed.no_duplicates()
            &&& forall|m: int|
                0 <= m < count && has_defaults(
                    table.methods@[(#[trigger] table.families.rows@[f].1.methods.rows@[m]).1.method as int].written@,
                ) ==> listed.contains(
                    table.families.rows@[f].1.methods.rows@[m].1.method as usize,
                )
        }),
    decreases count,
{
    if count > 0 {
        lemma_family_defaults(table, f, count - 1, before);
        let held = family_defaults(table, f, count - 1, before);
        let listed = family_defaults(table, f, count, before);
        let rows = table.families.rows@[f].1.methods.rows@;
        assert forall|m: int|
            0 <= m < count && has_defaults(
                table.methods@[(#[trigger] table.families.rows@[f].1.methods.rows@[m]).1.method as int].written@,
            ) implies listed.contains(
            table.families.rows@[f].1.methods.rows@[m].1.method as usize,
        ) by {
            let row = rows[m].1.method as usize;
            if held.contains(row) {
                let k = choose|k: int| 0 <= k < held.len() && held[k] == row;
                assert(listed[k] == row);
            } else {
                assert(m == count - 1);
                assert(listed[listed.len() - 1] == row);
            }
        }
    }
}

proof fn lemma_defaults_order(table: &FamilyTable, count: int, f: int, m: int)
    requires
        0 <= f < count <= table.families.rows@.len(),
        0 <= m < table.families.rows@[f].1.methods.rows@.len(),
        has_defaults(
            table.methods@[table.families.rows@[f].1.methods.rows@[m].1.method as int].written@,
        ),
    ensures
        defaults_order(table, count).contains(
            table.families.rows@[f].1.methods.rows@[m].1.method as usize,
        ),
    decreases count,
{
    let rows = table.families.rows@[count - 1].1.methods.rows@;
    let before = defaults_order(table, count - 1);
    lemma_family_defaults(table, count - 1, rows.len() as int, before);
    let row = table.families.rows@[f].1.methods.rows@[m].1.method as usize;
    if f < count - 1 {
        lemma_defaults_order(table, count - 1, f, m);
        let k = choose|k: int| 0 <= k < before.len() && before[k] == row;
        assert(defaults_order(table, count)[k] == row);
    } else {
        assert(rows[m] == table.families.rows@[f].1.methods.rows@[m]);
    }
}

proof fn lemma_defaults_once(table: &FamilyTable, count: int)
    requires
        0 <= count <= table.families.rows@.len(),
    ensures
        defaults_order(table, count).no_duplicates(),
    decreases count,
{
    if count > 0 {
        lemma_defaults_once(table, count - 1);
        lemma_family_defaults(
            table,
            count - 1,
            table.families.rows@[count - 1].1.methods.rows@.len() as int,
            defaults_order(table, count - 1),
        );
    }
}

/// Every method of every family that writes a default has its defaults resolved, once,
/// however many families hold it.
pub proof fn every_method_with_defaults_is_resolved_once(table: &FamilyTable, f: int, m: int, k: int)
    requires
        0 <= f < table.families.rows@.len(),
        0 <= m < table.families.rows@[f].1.methods.rows@.len(),
        ({
            let method =
                table.methods@[table.families.rows@[f].1.methods.rows@[m].1.method as int];
            0 <= k < method.written@.len() && method.written@[k].default is Some
        }),
    ensures
        defaults_order(table, table.families.rows@.len() as int).contains(
            table.families.rows@[f].1.methods.rows@[m].1.method as usize,
        ),
        defaults_order(table, table.families.rows@.len() as int).no_duplicates(),
{
    let written =
        table.methods@[table.families.rows@[f].1.methods.rows@[m].1.method as int].written@;
    assert(written[k].default is Some);
    assert(has_defaults(written));
    lemma_defaults_order(table, table.families.rows@.len() as int, f, m);
    lemma_defaults_once(table, table.families.rows@.len() as int);
}

/// Resolving a family's value members gives each one written with a type that type, in
/// place, and changes nothing else of the family.
pub proof fn every_typed_member_is_resolved(
    before: FamilyInfo,
    after: FamilyInfo,
    refs: &TypeRefs,
    k: int,
)
    requires
        family_typed(before, after, refs, before.field_members.rows@.len() as int),
        0 <= k < before.field_members.rows@.len(),
    ensures
        after.field_members.rows@.len() == before.field_members.rows@.len(),
        after.field_members.rows@[k].0 == before.field_members.rows@[k].0,
        before.member_types@.contains_key(before.field_members.rows@[k].0)
            ==> after.field_members.rows@[k].1.result == refs.meaning(
            before.member_types@[before.field_members.rows@[k].0].0,
        ).ty,
        !before.member_types@.contains_key(before.field_members.rows@[k].0)
            ==> after.field_members.rows@[k] == before.field_members.rows@[k],
        after.methods == before.methods,
        after.variants == before.variants,
        after.stored_fields == before.stored_fields,
{
    assert(after.field_members.rows@[k].0 == before.field_members.rows@[k].0);
}

/// Resolving the value members of every family keeps each family under its key and in its
/// place.
pub proof fn every_family_keeps_its_place(
    before: Seq<(Symbol, FamilyInfo)>,
    after: Seq<(Symbol, FamilyInfo)>,
    refs: &TypeRefs,
    f: int,
)
    requires
        families_typed(before, after, refs, before.len() as int),
        0 <= f < before.len(),
    ensures
        after.len() == before.len(),
        after[f].0 == before[f].0,
        after[f].1.methods == before[f].1.methods,
        after[f].1.field_members.rows@.len() == before[f].1.field_members.rows@.len(),
        family_typed(
            before[f].1,
            after[f].1,
            refs,
            before[f].1.field_members.rows@.len() as int,
        ),
{
    assert(after[f].0 == before[f].0);
}

} // verus!
