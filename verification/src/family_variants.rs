//! The concrete declarations each construct family can hold.

use vstd::prelude::*;

use crate::dispatch_body::tags_are_places;
use crate::dispatch_tree::ConstructVariant;
use crate::families::{FamilyInfo, FamilyTable};
use crate::family_inherit::lemma_replaced;
use crate::names::Symbol;
use crate::symbol_map::lemma_row;
use crate::ty::{EnumId, StructId, Type, TypeTable, VariantDef};

verus! {

/// The variants of every family.
pub open spec fn variant_lists(table: &FamilyTable) -> Map<Symbol, Seq<ConstructVariant>> {
    Map::new(
        |key: Symbol| table.families@.contains_key(key),
        |key: Symbol| table.families@[key].variants@,
    )
}

/// The variant a declaration is of a family that has `count` of them.
pub open spec fn variant_at(ty: Type, name: Symbol, count: nat) -> ConstructVariant {
    ConstructVariant { tag: count as u32, ty, name }
}

/// The variants after a declaration joined the families filed under `keys`.
pub open spec fn variants_joined(
    lists: Map<Symbol, Seq<ConstructVariant>>,
    keys: Seq<Symbol>,
    ty: Type,
    name: Symbol,
) -> Map<Symbol, Seq<ConstructVariant>>
    decreases keys.len(),
{
    if keys.len() == 0 {
        lists
    } else {
        let before = variants_joined(lists, keys.drop_last(), ty, name);
        let key = keys.last();
        if before.contains_key(key) {
            before.insert(key, before[key].push(variant_at(ty, name, before[key].len())))
        } else {
            before
        }
    }
}

/// The enum and tag a declaration got in each of the families filed under `keys`.
pub open spec fn tags_joined(
    table: &FamilyTable,
    keys: Seq<Symbol>,
    ty: Type,
    name: Symbol,
) -> Seq<(EnumId, u32)>
    decreases keys.len(),
{
    if keys.len() == 0 {
        Seq::empty()
    } else {
        let before = variants_joined(variant_lists(table), keys.drop_last(), ty, name);
        let tags = tags_joined(table, keys.drop_last(), ty, name);
        let key = keys.last();
        if before.contains_key(key) {
            tags.push((table.families@[key].enum_id, before[key].len() as u32))
        } else {
            tags
        }
    }
}

/// Only the variants of families changed.
pub open spec fn only_variants(before: &FamilyTable, after: &FamilyTable) -> bool {
    &&& after.families@.dom() == before.families@.dom()
    &&& forall|key: Symbol| #[trigger]
        after.families@.contains_key(key) ==> after.families@[key] == (FamilyInfo {
            variants: after.families@[key].variants,
            ..before.families@[key]
        })
    &&& *after == (FamilyTable { families: after.families, ..*before })
}

/// The families a declaration backed by the one filed under `family` belongs to:
/// that one, then every family it extends.
pub open spec fn reachable_families(table: &FamilyTable, family: Symbol) -> Seq<Symbol> {
    seq![family] + match table.info(family) {
        Some(info) => info.parents@,
        None => Seq::empty(),
    }
}

/// Room for `count` more variants in every family.
pub open spec fn variant_room(table: &FamilyTable, count: int) -> bool {
    forall|key: Symbol|
        table.families@.contains_key(key) ==> (#[trigger] table.families@[key]).variants@.len()
            + count <= u32::MAX
}

/// Records the declaration that became `id` as a variant of `family` and of every
/// family it extends, returning the enum and tag for each.
///
/// `Any Parent` is an enum, and a value it cannot name is one it cannot hold, so
/// a declaration reachable through a parent is a variant of that parent.
pub fn register_family_variant(
    table: &mut FamilyTable,
    family: Symbol,
    id: StructId,
    name: Symbol,
) -> (registered: Vec<(EnumId, u32)>)
    requires
        old(table).wf(),
        variant_room(old(table), reachable_families(old(table), family).len() as int),
    ensures
        final(table).wf(),
        only_variants(old(table), final(table)),
        variant_lists(final(table)) == variants_joined(
            variant_lists(old(table)),
            reachable_families(old(table), family),
            Type::Struct(id),
            name,
        ),
        registered@ == tags_joined(
            old(table),
            reachable_families(old(table), family),
            Type::Struct(id),
            name,
        ),
{
    let ghost start = *table;
    let ghost all = reachable_families(table, family);
    let ghost ty = Type::Struct(id);
    let mut keys: Vec<Symbol> = Vec::new();
    keys.push(family);
    let ancestors = table.construct_family_ancestors(family);
    crate::lists::extend(&mut keys, &ancestors);
    assert(keys@ =~= all);
    let mut registered: Vec<(EnumId, u32)> = Vec::new();
    let mut i: usize = 0;
    assert(keys@.take(0) =~= Seq::empty());
    while i < keys.len()
        invariant
            i <= keys@.len(),
            start == *old(table),
            ty == Type::Struct(id),
            table.wf(),
            only_variants(&start, table),
            variant_room(table, keys@.len() - i),
            variant_lists(table) == variants_joined(
                variant_lists(&start),
                keys@.take(i as int),
                ty,
                name,
            ),
            registered@ == tags_joined(&start, keys@.take(i as int), ty, name),
        decreases keys@.len() - i,
    {
        let key = keys[i];
        proof {
            assert(keys@.take(i + 1).drop_last() =~= keys@.take(i as int));
            assert(keys@.take(i + 1).last() == key);
        }
        match table.families.find(key) {
            Some(at) => {
                let ghost before = *table;
                assert(before.families@[key].variants@.len() + (keys@.len() - i) <= u32::MAX);
                let tag: u32 = table.families.rows[at].1.variants.len() as u32;
                let enum_id = table.families.rows[at].1.enum_id;
                table.families.rows[at].1.variants.push(
                    ConstructVariant { tag, ty: Type::Struct(id), name },
                );
                registered.push((enum_id, tag));
                proof {
                    lemma_joined(&before, table, at as int, key);
                    assert(variant_lists(&before).contains_key(key));
                    assert(variant_lists(table) =~= variants_joined(
                        variant_lists(&start),
                        keys@.take(i + 1),
                        ty,
                        name,
                    ));
                    assert forall|k: Symbol| table.families@.contains_key(k) implies (
                    #[trigger] table.families@[k]).variants@.len() + (keys@.len() - (i + 1))
                        <= u32::MAX by {
                        assert(before.families@[k].variants@.len() + (keys@.len() - i) <= u32::MAX);
                    }
                }
            },
            None => {
                assert(!variant_lists(table).contains_key(key));
                assert forall|k: Symbol| table.families@.contains_key(k) implies (
                #[trigger] table.families@[k]).variants@.len() + (keys@.len() - (i + 1))
                    <= u32::MAX by {}
            },
        }
        i += 1;
    }
    assert(keys@.take(i as int) =~= keys@);
    registered
}

/// Growing one row's variants grows one family's.
proof fn lemma_joined(before: &FamilyTable, after: &FamilyTable, at: int, key: Symbol)
    requires
        before.wf(),
        0 <= at < before.families.rows@.len(),
        before.families.rows@[at].0 == key,
        after.families.rows@.len() == before.families.rows@.len(),
        forall|k: int|
            0 <= k < before.families.rows@.len() && k != at ==> #[trigger] after.families.rows@[k]
                == before.families.rows@[k],
        after.families.rows@[at].0 == key,
        after.families.rows@[at].1 == (FamilyInfo {
            variants: after.families.rows@[at].1.variants,
            ..before.families.rows@[at].1
        }),
        *after == (FamilyTable { families: after.families, ..*before }),
    ensures
        after.wf(),
        after.families@.dom() == before.families@.dom(),
        before.families@.contains_key(key),
        forall|k: Symbol| #[trigger]
            after.families@.contains_key(k) ==> after.families@[k] == if k == key {
                after.families.rows@[at].1
            } else {
                before.families@[k]
            },
        before.families@[key] == before.families.rows@[at].1,
{
    let rows = before.families.rows@;
    let changed = after.families.rows@;
    assert(crate::symbol_map::ordered(changed)) by {
        assert forall|i: int, j: int| 0 <= i < j < changed.len() implies (
        #[trigger] changed[i]).0.0 < (#[trigger] changed[j]).0.0 by {
            assert(rows[i].0.0 < rows[j].0.0);
        }
    }
    lemma_replaced(rows, changed, at);
    lemma_row(rows, at);
    assert(after.families@.dom() =~= before.families@.dom());
    assert forall|k: Symbol, name: Symbol|
        after.families@.contains_key(k) && after.families@[k].methods@.contains_key(name) implies (
    #[trigger] after.families@[k].methods@[name]).method < after.methods@.len() by {
        assert(before.families@[k].methods@[name].method < before.methods@.len());
    }
    assert forall|k: Symbol| after.families@.contains_key(k) implies (
    #[trigger] after.families@[k]).wf() by {
        assert(before.families@[k].wf());
    }
}

/// The enum variants a family's concrete declarations are.
pub open spec fn variant_defs(variants: Seq<ConstructVariant>) -> Seq<VariantDef> {
    variants.map_values(
        |variant: ConstructVariant| VariantDef { name: variant.name, payload: Some(variant.ty) },
    )
}

/// The variants of enum `id` once the first `count` families were closed: those
/// of the last of them that it stands for.
pub open spec fn closed_over(
    table: &FamilyTable,
    id: int,
    count: int,
    before: Seq<VariantDef>,
) -> Seq<VariantDef>
    decreases count,
{
    if count <= 0 {
        before
    } else {
        let info = table.families.rows@[count - 1].1;
        if info.enum_id.0 == id {
            variant_defs(info.variants@)
        } else {
            closed_over(table, id, count - 1, before)
        }
    }
}

fn list_variants(variants: &Vec<ConstructVariant>) -> (defs: Vec<VariantDef>)
    ensures
        defs@ == variant_defs(variants@),
{
    let mut defs: Vec<VariantDef> = Vec::new();
    let mut i: usize = 0;
    while i < variants.len()
        invariant
            i <= variants@.len(),
            defs@ == variant_defs(variants@.take(i as int)),
        decreases variants@.len() - i,
    {
        defs.push(VariantDef { name: variants[i].name, payload: Some(variants[i].ty) });
        i += 1;
        assert(defs@ =~= variant_defs(variants@.take(i as int)));
    }
    assert(variants@.take(i as int) =~= variants@);
    defs
}

/// Closes each family's enum over the concrete declarations registered for it.
pub fn finish_family_variants(types: &mut TypeTable, table: &FamilyTable)
    ensures
        *final(types) == (TypeTable { enums: final(types).enums, ..*old(types) }),
        final(types).enums@.len() == old(types).enums@.len(),
        forall|id: int|
            0 <= id < old(types).enums@.len() ==> {
                &&& (#[trigger] final(types).enums@[id]).name == old(types).enums@[id].name
                &&& final(types).enums@[id].owner == old(types).enums@[id].owner
                &&& final(types).enums@[id].module == old(types).enums@[id].module
                &&& final(types).enums@[id].variants@ == closed_over(
                    table,
                    id,
                    table.families.rows@.len() as int,
                    old(types).enums@[id].variants@,
                )
            },
{
    let mut i: usize = 0;
    while i < table.families.rows.len()
        invariant
            i <= table.families.rows@.len(),
            *types == (TypeTable { enums: types.enums, ..*old(types) }),
            types.enums@.len() == old(types).enums@.len(),
            forall|id: int|
                0 <= id < old(types).enums@.len() ==> {
                    &&& (#[trigger] types.enums@[id]).name == old(types).enums@[id].name
                    &&& types.enums@[id].owner == old(types).enums@[id].owner
                    &&& types.enums@[id].module == old(types).enums@[id].module
                    &&& types.enums@[id].variants@ == closed_over(
                        table,
                        id,
                        i as int,
                        old(types).enums@[id].variants@,
                    )
                },
        decreases table.families.rows@.len() - i,
    {
        let info = &table.families.rows[i].1;
        let at: usize = info.enum_id.0 as usize;
        if at < types.enums.len() {
            types.enums[at].variants = list_variants(&info.variants);
        }
        i += 1;
    }
}

/// A declaration is a variant of every family it can be seen through, and holds
/// there the tag that family's dispatch branches on.
pub proof fn a_declaration_is_a_variant_of_every_family(
    table: &FamilyTable,
    keys: Seq<Symbol>,
    ty: Type,
    name: Symbol,
    k: int,
)
    requires
        0 <= k < keys.len(),
        keys.no_duplicates(),
        table.families@.contains_key(keys[k]),
        variant_room(table, 1),
    ensures
        ({
            let held = table.families@[keys[k]].variants@;
            let after = variants_joined(variant_lists(table), keys, ty, name)[keys[k]];
            &&& after == held.push(variant_at(ty, name, held.len()))
            &&& tags_joined(table, keys, ty, name).contains(
                (table.families@[keys[k]].enum_id, held.len() as u32),
            )
        }),
    decreases keys.len(),
{
    let key = keys[k];
    let rest = keys.drop_last();
    let lists = variant_lists(table);
    if k == keys.len() - 1 {
        assert(!rest.contains(key));
        lemma_untouched(lists, rest, ty, name, key);
        let tags = tags_joined(table, keys, ty, name);
        assert(tags[tags.len() - 1] == (
            table.families@[key].enum_id,
            table.families@[key].variants@.len() as u32,
        ));
    } else {
        assert(rest[k] == key);
        assert(rest.no_duplicates());
        a_declaration_is_a_variant_of_every_family(table, rest, ty, name, k);
        assert(keys.last() != key);
        lemma_same_families(lists, rest, ty, name);
        let want = (table.families@[key].enum_id, table.families@[key].variants@.len() as u32);
        let before = tags_joined(table, rest, ty, name);
        let t = choose|t: int| 0 <= t < before.len() && before[t] == want;
        assert(tags_joined(table, keys, ty, name)[t] == want);
    }
}

/// Every family keeps its variants' tags their places as declarations join.
pub proof fn tags_stay_places(
    lists: Map<Symbol, Seq<ConstructVariant>>,
    keys: Seq<Symbol>,
    ty: Type,
    name: Symbol,
    key: Symbol,
)
    requires
        lists.contains_key(key),
        tags_are_places(lists[key]),
        lists[key].len() + keys.len() <= u32::MAX,
    ensures
        variants_joined(lists, keys, ty, name).contains_key(key),
        tags_are_places(variants_joined(lists, keys, ty, name)[key]),
        variants_joined(lists, keys, ty, name)[key].len() <= lists[key].len() + keys.len(),
    decreases keys.len(),
{
    if keys.len() > 0 {
        tags_stay_places(lists, keys.drop_last(), ty, name, key);
    }
}

proof fn lemma_untouched(
    lists: Map<Symbol, Seq<ConstructVariant>>,
    keys: Seq<Symbol>,
    ty: Type,
    name: Symbol,
    key: Symbol,
)
    requires
        !keys.contains(key),
        lists.contains_key(key),
    ensures
        variants_joined(lists, keys, ty, name).contains_key(key),
        variants_joined(lists, keys, ty, name)[key] == lists[key],
    decreases keys.len(),
{
    if keys.len() > 0 {
        assert(!keys.drop_last().contains(key)) by {
            if keys.drop_last().contains(key) {
                let i = choose|i: int|
                    0 <= i < keys.drop_last().len() && keys.drop_last()[i] == key;
                assert(keys[i] == key);
            }
        }
        assert(keys[keys.len() - 1] != key);
        lemma_untouched(lists, keys.drop_last(), ty, name, key);
    }
}

proof fn lemma_same_families(
    lists: Map<Symbol, Seq<ConstructVariant>>,
    keys: Seq<Symbol>,
    ty: Type,
    name: Symbol,
)
    ensures
        forall|key: Symbol| #[trigger]
            variants_joined(lists, keys, ty, name).contains_key(key) <==> lists.contains_key(key),
    decreases keys.len(),
{
    if keys.len() > 0 {
        let before = variants_joined(lists, keys.drop_last(), ty, name);
        lemma_same_families(lists, keys.drop_last(), ty, name);
        assert forall|key: Symbol| #[trigger]
            variants_joined(lists, keys, ty, name).contains_key(key) <==> lists.contains_key(
                key,
            ) by {
            assert(before.contains_key(key) <==> lists.contains_key(key));
        }
    }
}

/// A closed family's enum has one variant for each declaration of the family, in tag
/// order, under the declaration's name and holding a value of its type.
pub proof fn a_closed_enum_lists_its_declarations(variants: Seq<ConstructVariant>, k: int)
    requires
        0 <= k < variants.len(),
    ensures
        variant_defs(variants).len() == variants.len(),
        variant_defs(variants)[k].name == variants[k].name,
        variant_defs(variants)[k].payload == Some(variants[k].ty),
{
}

proof fn lemma_closed_over(table: &FamilyTable, id: int, count: int, before: Seq<VariantDef>, f: int)
    requires
        0 <= f < count <= table.families.rows@.len(),
        table.families.rows@[f].1.enum_id.0 == id,
        forall|g: int|
            f < g < count ==> (#[trigger] table.families.rows@[g]).1.enum_id.0 != id,
    ensures
        closed_over(table, id, count, before) == variant_defs(table.families.rows@[f].1.variants@),
    decreases count,
{
    if f < count - 1 {
        assert(table.families.rows@[count - 1].1.enum_id.0 != id);
        lemma_closed_over(table, id, count - 1, before, f);
    }
}

/// Closing the families gives each family's enum that family's declarations, and leaves
/// every other enum as it was.
pub proof fn closing_fills_each_familys_enum(
    table: &FamilyTable,
    id: int,
    before: Seq<VariantDef>,
    f: int,
)
    ensures
        0 <= f < table.families.rows@.len() && table.families.rows@[f].1.enum_id.0 == id && (forall|
            g: int,
        |
            f < g < table.families.rows@.len() ==> (#[trigger] table.families.rows@[g]).1.enum_id.0
                != id) ==> closed_over(table, id, table.families.rows@.len() as int, before).len()
            == table.families.rows@[f].1.variants@.len() && (forall|k: int|
            0 <= k < table.families.rows@[f].1.variants@.len() ==> (#[trigger] closed_over(
                table,
                id,
                table.families.rows@.len() as int,
                before,
            )[k]).payload == Some(table.families.rows@[f].1.variants@[k].ty)),
        (forall|g: int|
            0 <= g < table.families.rows@.len() ==> (#[trigger] table.families.rows@[g]).1.enum_id.0
                != id) ==> closed_over(table, id, table.families.rows@.len() as int, before)
            == before,
{
    if 0 <= f < table.families.rows@.len() && table.families.rows@[f].1.enum_id.0 == id && (forall|
        g: int,
    |
        f < g < table.families.rows@.len() ==> (#[trigger] table.families.rows@[g]).1.enum_id.0
            != id) {
        lemma_closed_over(table, id, table.families.rows@.len() as int, before, f);
    }
    if forall|g: int|
        0 <= g < table.families.rows@.len() ==> (#[trigger] table.families.rows@[g]).1.enum_id.0
            != id {
        lemma_closed_none(table, id, table.families.rows@.len() as int, before);
    }
}

proof fn lemma_closed_none(table: &FamilyTable, id: int, count: int, before: Seq<VariantDef>)
    requires
        0 <= count <= table.families.rows@.len(),
        forall|g: int|
            0 <= g < count ==> (#[trigger] table.families.rows@[g]).1.enum_id.0 != id,
    ensures
        closed_over(table, id, count, before) == before,
    decreases count,
{
    if count > 0 {
        assert(table.families.rows@[count - 1].1.enum_id.0 != id);
        lemma_closed_none(table, id, count - 1, before);
    }
}

/// A declaration belongs to the family it is backed by and to every family that one
/// extends, and to no other.
pub proof fn a_declaration_belongs_to_its_family_and_those_above(
    table: &FamilyTable,
    family: Symbol,
    key: Symbol,
)
    ensures
        reachable_families(table, family).contains(key) <==> key == family || (
        table.families@.contains_key(family) && table.families@[family].parents@.contains(key)),
        reachable_families(table, family)[0] == family,
{
    let all = reachable_families(table, family);
    if all.contains(key) {
        let k = choose|k: int| 0 <= k < all.len() && all[k] == key;
        if k > 0 {
            assert(table.families@[family].parents@[k - 1] == key);
        }
    }
    if key == family {
        assert(all[0] == key);
    }
    if table.families@.contains_key(family) && table.families@[family].parents@.contains(key) {
        let parents = table.families@[family].parents@;
        let k = choose|k: int| 0 <= k < parents.len() && parents[k] == key;
        assert(all[k + 1] == key);
    }
}

} // verus!
