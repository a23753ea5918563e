//! Every override of a construct update is analyzed, and no more than once.

use vstd::prelude::*;

use crate::fn_types::FnTypeTable;
use crate::names::Symbol;
use crate::ty::{FieldDef, FieldName, StructId, Type, TypeTable};
use crate::update_order::{alike, field_order, nowhere, order_of, OverrideRole};
use crate::updates::{
    active_at, begins, ending, kept_overrides_do_not_overlap, lemma_marked, longest, marked,
    matching, overlapped, overlaps, starts_field, updatable, UpdateOverride,
};

verus! {

/// How often override `k` is analyzed in `order`.
pub open spec fn times(order: Seq<(usize, OverrideRole)>, k: usize) -> nat
    decreases order.len(),
{
    if order.len() == 0 {
        0
    } else {
        times(order.drop_last(), k) + if order.last().0 == k {
            1nat
        } else {
            0nat
        }
    }
}

/// No struct has two fields of one name.
pub open spec fn fields_named_apart(types: &TypeTable) -> bool {
    forall|id: StructId, i: int, j: int|
        0 <= i < j < types.fields(id).len() ==> (#[trigger] types.fields(id)[i]).name != (
        #[trigger] types.fields(id)[j]).name
}

/// Whether one of the first `count` fields is called `name`.
spec fn among(fields: Seq<FieldDef>, count: int, name: Symbol) -> bool {
    exists|f: int| 0 <= f < count && (#[trigger] fields[f]).name == FieldName::Plain(name)
}

/// The active overrides are all different, begin alike down to `depth`, and none of
/// them writes into another.
spec fn apart_at(overrides: Seq<UpdateOverride>, active: Seq<usize>, depth: int) -> bool {
    &&& active.no_duplicates()
    &&& forall|i: int, j: int|
        0 <= i < active.len() && 0 <= j < active.len() ==> (
        #[trigger] overrides[active[i] as int]).path@.take(depth) == (
        #[trigger] overrides[active[j] as int]).path@.take(depth)
    &&& forall|i: int, j: int|
        0 <= i < active.len() && 0 <= j < active.len() && i != j ==> !overlaps(
            (#[trigger] overrides[active[i] as int]).path@,
            (#[trigger] overrides[active[j] as int]).path@,
        )
}

proof fn lemma_times_add(
    a: Seq<(usize, OverrideRole)>,
    b: Seq<(usize, OverrideRole)>,
    k: usize,
)
    ensures
        times(a + b, k) == times(a, k) + times(b, k),
    decreases b.len(),
{
    if b.len() == 0 {
        assert(a + b =~= a);
    } else {
        assert((a + b).drop_last() =~= a + b.drop_last());
        lemma_times_add(a, b.drop_last(), k);
    }
}

proof fn lemma_times_alike(list: Seq<usize>, role: OverrideRole, k: usize)
    requires
        list.no_duplicates(),
    ensures
        times(alike(list, role), k) == if list.contains(k) {
            1nat
        } else {
            0nat
        },
    decreases list.len(),
{
    let order = alike(list, role);
    if list.len() > 0 {
        let rest = list.drop_last();
        assert(order.drop_last() =~= alike(rest, role));
        lemma_times_alike(rest, role, k);
        if rest.contains(k) {
            let i = choose|i: int| 0 <= i < rest.len() && rest[i] == k;
            assert(list[i] == k);
        }
        if list.contains(k) {
            let i = choose|i: int| 0 <= i < list.len() && list[i] == k;
            if i < rest.len() {
                assert(rest[i] == k);
            }
        }
    }
}

proof fn lemma_matching(
    overrides: Seq<UpdateOverride>,
    active: Seq<usize>,
    depth: int,
    name: FieldName,
    count: int,
    limit: int,
)
    requires
        0 <= count <= active.len(),
        active.no_duplicates(),
        active_at(overrides, active, depth, limit),
    ensures
        ({
            let list = matching(overrides, active, depth, name, count);
            &&& list.no_duplicates()
            &&& active_at(overrides, list, depth, limit)
            &&& forall|k: usize| #[trigger]
                list.contains(k) <==> (active.take(count).contains(k) && name == FieldName::Plain(
                    overrides[k as int].path@[depth],
                ))
        }),
    decreases count,
{
    let list = matching(overrides, active, depth, name, count);
    if count > 0 {
        lemma_matching(overrides, active, depth, name, count - 1, limit);
        let before = matching(overrides, active, depth, name, count - 1);
        let last = active[count - 1];
        assert(active.take(count).drop_last() =~= active.take(count - 1));
        if active.take(count - 1).contains(last) {
            let less = active.take(count - 1);
            let i = choose|i: int| 0 <= i < less.len() && less[i] == last;
            assert(active[i] == active[count - 1]);
        }
        assert(!before.contains(last));
        assert forall|k: usize| #[trigger]
            list.contains(k) <==> (active.take(count).contains(k) && name == FieldName::Plain(
                overrides[k as int].path@[depth],
            )) by {
            assert(before.contains(k) <==> (active.take(count - 1).contains(k) && name
                == FieldName::Plain(overrides[k as int].path@[depth])));
            lemma_contains_one_more(active, count, k);
            if list.len() > before.len() {
                lemma_pushed(before, last, k);
            }
        }
    }
}

proof fn lemma_contains_one_more(active: Seq<usize>, count: int, k: usize)
    requires
        0 < count <= active.len(),
    ensures
        active.take(count).contains(k) <==> (active.take(count - 1).contains(k) || active[count - 1]
            == k),
{
    let more = active.take(count);
    let less = active.take(count - 1);
    assert(more =~= less.push(active[count - 1]));
    lemma_pushed(less, active[count - 1], k);
}

proof fn lemma_pushed(list: Seq<usize>, last: usize, k: usize)
    ensures
        list.push(last).contains(k) <==> (list.contains(k) || last == k),
{
    let more = list.push(last);
    if list.contains(k) {
        let i = choose|i: int| 0 <= i < list.len() && list[i] == k;
        assert(more[i] == k);
    }
    if last == k {
        assert(more[list.len() as int] == k);
    }
    if more.contains(k) {
        let i = choose|i: int| 0 <= i < more.len() && more[i] == k;
        if i < list.len() {
            assert(list[i] == k);
        }
    }
}

proof fn lemma_times_nowhere(
    types: &TypeTable,
    overrides: Seq<UpdateOverride>,
    id: StructId,
    active: Seq<usize>,
    depth: int,
    count: int,
    k: usize,
)
    requires
        0 <= count <= active.len(),
        active.no_duplicates(),
    ensures
        times(nowhere(types, overrides, id, active, depth, count), k) == if active.take(
            count,
        ).contains(k) && !starts_field(types.fields(id), overrides[k as int].path@[depth]) {
            1nat
        } else {
            0nat
        },
    decreases count,
{
    if count > 0 {
        lemma_times_nowhere(types, overrides, id, active, depth, count - 1, k);
        lemma_contains_one_more(active, count, k);
        let before = nowhere(types, overrides, id, active, depth, count - 1);
        let now = nowhere(types, overrides, id, active, depth, count);
        if now.len() > before.len() {
            assert(now.drop_last() =~= before);
        }
        if active[count - 1] == k && active.take(count - 1).contains(k) {
            let less = active.take(count - 1);
            let i = choose|i: int| 0 <= i < less.len() && less[i] == k;
            assert(active[i] == active[count - 1]);
        }
    }
}

proof fn lemma_ends_alone(
    overrides: Seq<UpdateOverride>,
    list: Seq<usize>,
    depth: int,
    from: int,
    limit: int,
)
    requires
        0 <= from,
        0 <= depth,
        active_at(overrides, list, depth, limit),
        apart_at(overrides, list, depth + 1),
        ending(overrides, list, depth, from) is Some,
    ensures
        list == seq![ending(overrides, list, depth, from)->0],
    decreases list.len() - from,
{
    if overrides[list[from] as int].path@.len() == depth + 1 {
        let short = overrides[list[from] as int].path@;
        if list.len() > 1 {
            let other: int = if from == 0 {
                1
            } else {
                0
            };
            let long = overrides[list[other] as int].path@;
            assert(list[other] < overrides.len());
            assert(long.len() > depth);
            assert(short.take(depth + 1) == long.take(depth + 1));
            assert(short.take(depth + 1) =~= short);
            assert(begins(short, long));
            assert(overlaps(
                overrides[list[from] as int].path@,
                overrides[list[other] as int].path@,
            ));
        }
        assert(list =~= seq![list[from]]);
    } else {
        lemma_ends_alone(overrides, list, depth, from + 1, limit);
    }
}

proof fn lemma_deeper(
    overrides: Seq<UpdateOverride>,
    active: Seq<usize>,
    list: Seq<usize>,
    depth: int,
    name: FieldName,
    limit: int,
)
    requires
        0 <= depth,
        active_at(overrides, active, depth, limit),
        apart_at(overrides, active, depth),
        list == matching(overrides, active, depth, name, active.len() as int),
    ensures
        active_at(overrides, list, depth, limit),
        apart_at(overrides, list, depth + 1),
        forall|k: usize| #[trigger]
            list.contains(k) <==> (active.contains(k) && name == FieldName::Plain(
                overrides[k as int].path@[depth],
            )),
{
    lemma_matching(overrides, active, depth, name, active.len() as int, limit);
    assert(active.take(active.len() as int) =~= active);
    assert forall|i: int, j: int| 0 <= i < list.len() && 0 <= j < list.len() implies (
    #[trigger] overrides[list[i] as int]).path@.take(depth + 1) == (
    #[trigger] overrides[list[j] as int]).path@.take(depth + 1) by {
        assert(list.contains(list[i]));
        assert(list.contains(list[j]));
        let a = choose|a: int| 0 <= a < active.len() && active[a] == list[i];
        let b = choose|b: int| 0 <= b < active.len() && active[b] == list[j];
        let left = overrides[active[a] as int].path@;
        let right = overrides[active[b] as int].path@;
        assert(left.take(depth) == right.take(depth));
        assert(list[i] < overrides.len() && list[j] < overrides.len());
        assert(left.take(depth + 1) =~= left.take(depth).push(left[depth]));
        assert(right.take(depth + 1) =~= right.take(depth).push(right[depth]));
    }
    assert forall|i: int, j: int|
        0 <= i < list.len() && 0 <= j < list.len() && i != j implies !overlaps(
        (#[trigger] overrides[list[i] as int]).path@,
        (#[trigger] overrides[list[j] as int]).path@,
    ) by {
        assert(list.contains(list[i]));
        assert(list.contains(list[j]));
        let a = choose|a: int| 0 <= a < active.len() && active[a] == list[i];
        let b = choose|b: int| 0 <= b < active.len() && active[b] == list[j];
        assert(list[i] != list[j]);
        assert(a != b);
        assert(!overlaps(
            overrides[active[a] as int].path@,
            overrides[active[b] as int].path@,
        ));
    }
}

proof fn lemma_times_fields(
    types: &TypeTable,
    fn_types: &FnTypeTable,
    overrides: Seq<UpdateOverride>,
    id: StructId,
    active: Seq<usize>,
    depth: int,
    count: int,
    limit: nat,
    k: usize,
)
    requires
        0 <= depth,
        fields_named_apart(types),
        active_at(overrides, active, depth, limit as int),
        apart_at(overrides, active, depth),
        0 <= count <= types.fields(id).len(),
    ensures
        times(
            field_order(types, fn_types, overrides, id, active, depth, count, limit),
            k,
        ) == if active.contains(k) && among(
            types.fields(id),
            count,
            overrides[k as int].path@[depth],
        ) {
            1nat
        } else {
            0nat
        },
    decreases limit, count,
{
    let fields = types.fields(id);
    let name = overrides[k as int].path@[depth];
    if count > 0 {
        lemma_times_fields(
            types,
            fn_types,
            overrides,
            id,
            active,
            depth,
            count - 1,
            limit,
            k,
        );
        let declared = fields[count - 1];
        let list = matching(overrides, active, depth, declared.name, active.len() as int);
        let before = field_order(
            types,
            fn_types,
            overrides,
            id,
            active,
            depth,
            count - 1,
            limit,
        );
        let now = field_order(types, fn_types, overrides, id, active, depth, count, limit);
        lemma_deeper(overrides, active, list, depth, declared.name, limit as int);
        assert(list.contains(k) <==> (active.contains(k) && declared.name == FieldName::Plain(
            name,
        )));
        // The field is the only one of its name.
        if among(fields, count - 1, name) {
            let f = choose|f: int|
                0 <= f < count - 1 && (#[trigger] fields[f]).name == FieldName::Plain(name);
            assert(types.fields(id)[f].name != types.fields(id)[count - 1].name);
            assert(among(fields, count, name));
        }
        if declared.name == FieldName::Plain(name) {
            assert(fields[count - 1].name == FieldName::Plain(name));
            assert(among(fields, count, name));
        }
        if among(fields, count, name) && declared.name != FieldName::Plain(name) {
            let f = choose|f: int|
                0 <= f < count && (#[trigger] fields[f]).name == FieldName::Plain(name);
            assert(f < count - 1);
        }
        if list.len() > 0 {
            match (ending(overrides, list, depth, 0), updatable(fn_types, declared.ty)) {
                (Some(found), _) => {
                    lemma_ends_alone(overrides, list, depth, 0, limit as int);
                    assert(now.drop_last() =~= before);
                    assert(list[0] == found);
                    assert(list.contains(k) <==> k == found);
                },
                (None, None) => {
                    let role = OverrideRole::Blocked {
                        ty: declared.ty,
                        from: (depth + 1) as usize,
                    };
                    lemma_times_add(before, alike(list, role), k);
                    lemma_times_alike(list, role, k);
                },
                (None, Some(nested)) => {
                    lemma_none_end(overrides, list, depth, 0, limit as int);
                    assert(list[0] < overrides.len());
                    assert(limit > 0);
                    let deep = (limit - 1) as nat;
                    assert(active_at(overrides, list, depth + 1, deep as int)) by {
                        assert forall|i: int| 0 <= i < list.len() implies (#[trigger] list[i])
                            < overrides.len() && depth + 1
                            < overrides[list[i] as int].path@.len() <= depth + 1 + deep by {
                            assert(overrides[list[i] as int].path@.len() > depth + 1);
                        }
                    }
                    let all = types.fields(nested).len() as int;
                    let inner = field_order(
                        types,
                        fn_types,
                        overrides,
                        nested,
                        list,
                        depth + 1,
                        all,
                        deep,
                    );
                    let behind = nowhere(
                        types,
                        overrides,
                        nested,
                        list,
                        depth + 1,
                        list.len() as int,
                    );
                    lemma_times_fields(
                        types,
                        fn_types,
                        overrides,
                        nested,
                        list,
                        depth + 1,
                        all,
                        deep,
                        k,
                    );
                    lemma_times_nowhere(
                        types,
                        overrides,
                        nested,
                        list,
                        depth + 1,
                        list.len() as int,
                        k,
                    );
                    assert(list.take(list.len() as int) =~= list);
                    lemma_times_add(before, inner, k);
                    lemma_times_add(before + inner, behind, k);
                    assert(now == before + inner + behind);
                    assert(times(inner, k) + times(behind, k) == if list.contains(k) {
                        1nat
                    } else {
                        0nat
                    });
                },
            }
        } else {
            assert(!list.contains(k));
        }
    }
}

proof fn lemma_none_end(
    overrides: Seq<UpdateOverride>,
    list: Seq<usize>,
    depth: int,
    from: int,
    limit: int,
)
    requires
        0 <= from,
        active_at(overrides, list, depth, limit),
        ending(overrides, list, depth, from) is None,
    ensures
        forall|i: int|
            from <= i < list.len() ==> overrides[(#[trigger] list[i]) as int].path@.len() > depth
                + 1,
    decreases list.len() - from,
{
    if from < list.len() {
        assert(list[from] < overrides.len());
        lemma_none_end(overrides, list, depth, from + 1, limit);
    }
}

proof fn lemma_longest(overrides: Seq<UpdateOverride>, count: int)
    requires
        0 <= count <= overrides.len(),
    ensures
        forall|k: int|
            0 <= k < count ==> (#[trigger] overrides[k]).path@.len() <= longest(overrides, count),
    decreases count,
{
    if count > 0 {
        lemma_longest(overrides, count - 1);
    }
}

/// The value of every override is analyzed exactly once, whether or not it is applied.
pub proof fn every_override_is_analyzed_once(
    types: &TypeTable,
    fn_types: &FnTypeTable,
    overrides: Seq<UpdateOverride>,
    ty: Type,
    invalid: Seq<bool>,
    k: usize,
)
    requires
        fields_named_apart(types),
        overrides.len() <= usize::MAX,
        forall|i: int| 0 <= i < overrides.len() ==> (#[trigger] overrides[i]).path@.len() > 0,
        invalid.len() == overrides.len(),
        forall|i: int|
            0 <= i < overrides.len() ==> #[trigger] invalid[i] == overlapped(
                overrides,
                i,
                overrides.len() as int,
            ),
        k < overrides.len(),
    ensures
        times(order_of(types, fn_types, overrides, ty, invalid), k) == 1,
{
    let all = invalid.len() as int;
    let kept = marked(invalid, false, all);
    let dropped = marked(invalid, true, all);
    lemma_marked(invalid, false, all);
    lemma_marked(invalid, true, all);
    assert(kept.no_duplicates());
    assert(dropped.no_duplicates());
    assert(kept.contains(k) <==> !invalid[k as int]) by {
        if kept.contains(k) {
            let i = choose|i: int| 0 <= i < kept.len() && kept[i] == k;
            assert(invalid[kept[i] as int] == false);
        }
    }
    assert(dropped.contains(k) <==> invalid[k as int]) by {
        if dropped.contains(k) {
            let i = choose|i: int| 0 <= i < dropped.len() && dropped[i] == k;
            assert(invalid[dropped[i] as int] == true);
        }
    }
    let behind = alike(dropped, OverrideRole::Unused);
    lemma_times_alike(dropped, OverrideRole::Unused, k);
    match updatable(fn_types, ty) {
        None => {
            lemma_times_alike(kept, OverrideRole::Unused, k);
            lemma_times_add(alike(kept, OverrideRole::Unused), behind, k);
        },
        Some(id) => {
            let limit = longest(overrides, overrides.len() as int);
            lemma_longest(overrides, overrides.len() as int);
            assert(active_at(overrides, kept, 0, limit as int)) by {
                assert forall|i: int| 0 <= i < kept.len() implies (#[trigger] kept[i])
                    < overrides.len() && 0 < overrides[kept[i] as int].path@.len() <= limit by {
                    assert(overrides[kept[i] as int].path@.len() > 0);
                }
            }
            assert(apart_at(overrides, kept, 0)) by {
                assert forall|i: int, j: int|
                    0 <= i < kept.len() && 0 <= j < kept.len() implies (
                #[trigger] overrides[kept[i] as int]).path@.take(0) == (
                #[trigger] overrides[kept[j] as int]).path@.take(0) by {
                    assert(overrides[kept[i] as int].path@.take(0)
                        =~= overrides[kept[j] as int].path@.take(0));
                }
                assert forall|i: int, j: int|
                    0 <= i < kept.len() && 0 <= j < kept.len() && i != j implies !overlaps(
                    (#[trigger] overrides[kept[i] as int]).path@,
                    (#[trigger] overrides[kept[j] as int]).path@,
                ) by {
                    let a = kept[i] as int;
                    let b = kept[j] as int;
                    assert(invalid[kept[i] as int] == false && invalid[kept[j] as int] == false);
                    if i < j {
                        kept_overrides_do_not_overlap(overrides, invalid, a, b);
                    } else {
                        kept_overrides_do_not_overlap(overrides, invalid, b, a);
                    }
                }
            }
            let count = types.fields(id).len() as int;
            let applied = field_order(types, fn_types, overrides, id, kept, 0, count, limit);
            let missing = nowhere(types, overrides, id, kept, 0, kept.len() as int);
            lemma_times_fields(types, fn_types, overrides, id, kept, 0, count, limit, k);
            lemma_times_nowhere(types, overrides, id, kept, 0, kept.len() as int, k);
            assert(kept.take(kept.len() as int) =~= kept);
            lemma_times_add(applied, missing, k);
            lemma_times_add(applied + missing, behind, k);
        },
    }
}

} // verus!
