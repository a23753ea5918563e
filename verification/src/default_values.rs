//! A well-typed value of a type, for a slot nothing reads.
//!
//! A struct cannot contain itself by value, but a type may still reach itself
//! through an enum. So the walk carries the types it is inside of, and an enum
//! picks the first variant that does not lead back into one of them.

use vstd::prelude::*;

use crate::graph::lemma_distinct_below;
use crate::hir::{HirExpr, HirExprId, HirProgram};
use crate::ty::{FieldDef, Type, TypeTable, VariantDef};

verus! {

/// How many types a value can be nested through.
pub open spec fn nestings(types: &TypeTable) -> nat {
    types.structs@.len() + types.enums@.len() + types.cells@.len()
}

/// Every enum's tags fit in a tag.
pub open spec fn tagged(types: &TypeTable) -> bool {
    forall|i: int|
        0 <= i < types.enums@.len() ==> (#[trigger] types.enums@[i]).variants@.len() <= u32::MAX
}

/// What a distinct type is made of.
pub open spec fn representation(types: &TypeTable, ty: Type) -> Type {
    match ty {
        Type::Distinct(row) => if row < types.distincts@.len()
            && !(types.distincts@[row as int] is Distinct) {
            types.distincts@[row as int]
        } else {
            Type::Error
        },
        _ => ty,
    }
}

/// What a cell type holds; `Error` for a row the table lacks.
pub open spec fn cell_content(types: &TypeTable, ty: Type) -> Type {
    match types.held(ty) {
        Some(inner) => inner,
        None => Type::Error,
    }
}

/// The variants of an enum, none for a row the table lacks.
pub open spec fn variants_of(types: &TypeTable, ty: Type) -> Seq<VariantDef> {
    match ty {
        Type::Enum(id) => if id.0 < types.enums@.len() {
            types.enums@[id.0 as int].variants@
        } else {
            Seq::empty()
        },
        _ => Seq::empty(),
    }
}

/// The fields of a struct type.
pub open spec fn fields_of(types: &TypeTable, ty: Type) -> Seq<FieldDef> {
    match ty {
        Type::Struct(id) => types.fields(id),
        _ => Seq::empty(),
    }
}

/// Whether a value of `ty` can be built without entering a type the walk is
/// inside of.
pub open spec fn terminates(types: &TypeTable, ty: Type, inside: Seq<Type>) -> bool
    decreases
            nestings(types) + 2 - inside.len(),
            if ty is Distinct {
                1int
            } else {
                0int
            },
{
    if inside.contains(ty) || inside.len() > nestings(types) + 1 {
        false
    } else {
        match ty {
            Type::Distinct(_) => terminates(types, representation(types, ty), inside),
            Type::Struct(_) => forall|i: int|
                0 <= i < fields_of(types, ty).len() ==> terminates(
                    types,
                    (#[trigger] fields_of(types, ty)[i]).ty,
                    inside.push(ty),
                ),
            Type::Enum(_) => exists|i: int|
                0 <= i < variants_of(types, ty).len() && match (#[trigger] variants_of(
                    types,
                    ty,
                )[i]).payload {
                    None => true,
                    Some(payload) => terminates(types, payload, inside.push(ty)),
                },
            Type::Cell(_) => terminates(types, cell_content(types, ty), inside.push(ty)),
            _ => true,
        }
    }
}

/// Whether variant `i` of `ty` can be built.
pub open spec fn variant_terminates(
    types: &TypeTable,
    ty: Type,
    inside: Seq<Type>,
    i: int,
) -> bool {
    match variants_of(types, ty)[i].payload {
        None => true,
        Some(payload) => terminates(types, payload, inside.push(ty)),
    }
}

/// At most how many nodes building a value of `ty` adds, attempts that lead
/// nowhere counted.
pub open spec fn cost(types: &TypeTable, ty: Type, inside: Seq<Type>) -> nat
    decreases
            nestings(types) + 2 - inside.len(),
            if ty is Distinct {
                1int
            } else {
                0int
            },
            1int,
            0nat,
{
    if inside.contains(ty) || inside.len() > nestings(types) + 1 {
        0
    } else {
        match ty {
            Type::Distinct(_) => 1 + cost(types, representation(types, ty), inside),
            Type::Struct(_) => 1 + fields_cost(
                types,
                ty,
                inside,
                fields_of(types, ty).len(),
            ),
            Type::Enum(_) => 1 + variants_cost(
                types,
                ty,
                inside,
                variants_of(types, ty).len(),
            ),
            Type::Cell(_) => 1 + cost(types, cell_content(types, ty), inside.push(ty)),
            _ => 1,
        }
    }
}

/// What the first `count` fields add.
pub open spec fn fields_cost(types: &TypeTable, ty: Type, inside: Seq<Type>, count: nat) -> nat
    decreases nestings(types) + 2 - inside.len(), 0int, 0int, count,
    when inside.len() <= nestings(types) + 1
{
    if count == 0 {
        0
    } else {
        fields_cost(types, ty, inside, (count - 1) as nat) + cost(
            types,
            fields_of(types, ty)[count - 1].ty,
            inside.push(ty),
        )
    }
}

/// What trying the first `count` variants adds.
pub open spec fn variants_cost(types: &TypeTable, ty: Type, inside: Seq<Type>, count: nat) -> nat
    decreases nestings(types) + 2 - inside.len(), 0int, 0int, count,
    when inside.len() <= nestings(types) + 1
{
    if count == 0 {
        0
    } else {
        variants_cost(types, ty, inside, (count - 1) as nat) + match variants_of(
            types,
            ty,
        )[count - 1].payload {
            None => 0,
            Some(payload) => cost(types, payload, inside.push(ty)),
        }
    }
}

/// `id` is the value built for `ty`: zero words, empty text and arrays, every
/// field of a struct, the first variant of an enum that can be built, the content
/// of a cell, and a distinct type's representation. Every node of it stands at
/// `from` or after.
pub open spec fn built(
    program: &HirProgram,
    types: &TypeTable,
    id: HirExprId,
    ty: Type,
    inside: Seq<Type>,
    from: int,
) -> bool
    decreases
            nestings(types) + 2 - inside.len(),
            if ty is Distinct {
                1int
            } else {
                0int
            },
{
    &&& program.has_expr(id)
    &&& from <= id.0
    &&& inside.len() <= nestings(types) + 1
    &&& match ty {
        Type::Distinct(_) => program.at(id) matches HirExpr::Distinct { value, ty: declared }
            && declared == ty && built(program, types, value, representation(types, ty), inside, from),
        Type::Float(_) => program.at(id) == HirExpr::Float(0),
        Type::Bool => program.at(id) == HirExpr::Bool(false),
        Type::Text => program.at(id) == HirExpr::Str(None),
        Type::Array(_) => program.at(id) matches HirExpr::ArrayNew { ty: declared, elements }
            && declared == ty && elements@.len() == 0,
        Type::Struct(struct_id) => program.at(id) matches HirExpr::StructNew {
            struct_id: declared,
            fields,
        } && declared == struct_id && fields@.len() == fields_of(types, ty).len() && forall|i: int|
            0 <= i < fields@.len() ==> built(
                program,
                types,
                #[trigger] fields@[i],
                fields_of(types, ty)[i].ty,
                inside.push(ty),
                from,
            ),
        Type::Enum(enum_id) => program.at(id) matches HirExpr::EnumNew {
            enum_id: declared,
            tag,
            payload,
        } && declared == enum_id && tag < variants_of(types, ty).len() && variant_terminates(
            types,
            ty,
            inside,
            tag as int,
        ) && (forall|i: int|
            0 <= i < tag ==> !#[trigger] variant_terminates(types, ty, inside, i)) && match (
            variants_of(types, ty)[tag as int].payload,
            payload,
        ) {
            (None, None) => true,
            (Some(payload_ty), Some(value)) => built(
                program,
                types,
                value,
                payload_ty,
                inside.push(ty),
                from,
            ),
            _ => false,
        },
        Type::Cell(_) => program.at(id) matches HirExpr::CellNew { value, ty: declared }
            && declared == ty && built(
            program,
            types,
            value,
            cell_content(types, ty),
            inside.push(ty),
            from,
        ),
        _ => program.at(id) == HirExpr::Int(0),
    }
}

/// What was built stays built as long as its own nodes do.
pub proof fn lemma_built_kept(
    before: &HirProgram,
    after: &HirProgram,
    types: &TypeTable,
    id: HirExprId,
    ty: Type,
    inside: Seq<Type>,
    from: int,
    lower: int,
)
    requires
        lower <= from,
        before.exprs@.len() <= after.exprs@.len(),
        forall|i: int|
            0 <= i && from <= i < before.exprs@.len() ==> #[trigger] after.exprs@[i]
                == before.exprs@[i],
        built(before, types, id, ty, inside, from),
    ensures
        built(after, types, id, ty, inside, lower),
    decreases
            nestings(types) + 2 - inside.len(),
            if ty is Distinct {
                1int
            } else {
                0int
            },
{
    assert(after.at(id) == before.at(id));
    match ty {
        Type::Distinct(_) => {
            let value = before.at(id)->Distinct_value;
            lemma_built_kept(
                before,
                after,
                types,
                value,
                representation(types, ty),
                inside,
                from,
                lower,
            );
        },
        Type::Struct(_) => {
            let fields = before.at(id)->StructNew_fields@;
            assert forall|i: int| 0 <= i < fields.len() implies built(
                after,
                types,
                #[trigger] fields[i],
                fields_of(types, ty)[i].ty,
                inside.push(ty),
                lower,
            ) by {
                lemma_built_kept(
                    before,
                    after,
                    types,
                    fields[i],
                    fields_of(types, ty)[i].ty,
                    inside.push(ty),
                    from,
                    lower,
                );
            }
        },
        Type::Enum(_) => {
            let tag = before.at(id)->tag;
            let payload = before.at(id)->payload;
            match (variants_of(types, ty)[tag as int].payload, payload) {
                (Some(payload_ty), Some(value)) => lemma_built_kept(
                    before,
                    after,
                    types,
                    value,
                    payload_ty,
                    inside.push(ty),
                    from,
                    lower,
                ),
                _ => {},
            }
        },
        Type::Cell(_) => {
            let value = before.at(id)->CellNew_value;
            lemma_built_kept(
                before,
                after,
                types,
                value,
                cell_content(types, ty),
                inside.push(ty),
                from,
                lower,
            );
        },
        _ => {},
    }
}

/// The place of a nesting type among all of them.
pub open spec fn nesting(types: &TypeTable, ty: Type) -> int {
    match ty {
        Type::Struct(id) => id.0 as int,
        Type::Enum(id) => types.structs@.len() + id.0,
        Type::Cell(row) => types.structs@.len() + types.enums@.len() + row,
        _ => 0,
    }
}

/// `ty` has a row other types can be nested through.
pub open spec fn nests(types: &TypeTable, ty: Type) -> bool {
    match ty {
        Type::Struct(id) => id.0 < types.structs@.len(),
        Type::Enum(id) => id.0 < types.enums@.len(),
        Type::Cell(row) => row < types.cells@.len(),
        _ => false,
    }
}

/// The types a walk is inside of: distinct, and each with a row.
pub open spec fn walkable(types: &TypeTable, inside: Seq<Type>) -> bool {
    inside.no_duplicates() && forall|i: int|
        0 <= i < inside.len() ==> nests(types, #[trigger] inside[i])
}

proof fn lemma_walkable(types: &TypeTable, inside: Seq<Type>)
    requires
        walkable(types, inside),
    ensures
        inside.len() <= nestings(types),
{
    let places = inside.map_values(|ty: Type| nesting(types, ty));
    assert forall|i: int, j: int| 0 <= i < places.len() && 0 <= j < places.len() && i
        != j implies places[i] != places[j] by {
        assert(nests(types, inside[i]));
        assert(nests(types, inside[j]));
        assert(inside[i] != inside[j]);
    }
    assert forall|i: int| 0 <= i < places.len() implies 0 <= #[trigger] places[i] < nestings(
        types,
    ) by {
        assert(nests(types, inside[i]));
    }
    lemma_distinct_below(places, nestings(types) as int);
}

proof fn lemma_walk_further(types: &TypeTable, inside: Seq<Type>, ty: Type)
    requires
        walkable(types, inside),
        !inside.contains(ty),
        nests(types, ty),
    ensures
        walkable(types, inside.push(ty)),
{
    let more = inside.push(ty);
    assert forall|i: int| 0 <= i < more.len() implies nests(types, #[trigger] more[i]) by {
        if i < inside.len() {
            assert(more[i] == inside[i]);
        }
    }
}

fn type_listed(list: &Vec<Type>, ty: Type) -> (res: bool)
    ensures
        res == list@.contains(ty),
{
    let mut i: usize = 0;
    while i < list.len()
        invariant
            i <= list@.len(),
            forall|k: int| 0 <= k < i ==> list@[k] != ty,
        decreases list@.len() - i,
    {
        if list[i] == ty {
            return true;
        }
        i += 1;
    }
    false
}

/// The first fields cost no more than all of them.
proof fn lemma_fields_cost(types: &TypeTable, ty: Type, inside: Seq<Type>, some: nat, all: nat)
    requires
        some <= all,
        inside.len() <= nestings(types) + 1,
    ensures
        fields_cost(types, ty, inside, some) <= fields_cost(types, ty, inside, all),
    decreases all,
{
    if some < all {
        lemma_fields_cost(types, ty, inside, some, (all - 1) as nat);
    }
}

/// The first variants cost no more than all of them.
proof fn lemma_variants_cost(types: &TypeTable, ty: Type, inside: Seq<Type>, some: nat, all: nat)
    requires
        some <= all,
        inside.len() <= nestings(types) + 1,
    ensures
        variants_cost(types, ty, inside, some) <= variants_cost(types, ty, inside, all),
    decreases all,
{
    if some < all {
        lemma_variants_cost(types, ty, inside, some, (all - 1) as nat);
    }
}

/// A cell without a row is taken to hold an error, which one node stands for.
proof fn lemma_rowless_cell(types: &TypeTable, ty: Type, inside: Seq<Type>)
    requires
        ty is Cell,
        !nests(types, ty),
        walkable(types, inside),
        inside.len() <= nestings(types),
    ensures
        terminates(types, Type::Error, inside.push(ty)),
        cost(types, Type::Error, inside.push(ty)) == 1,
{
    let further = inside.push(ty);
    if further.contains(Type::Error) {
        let i = choose|i: int| 0 <= i < further.len() && further[i] == Type::Error;
        if i < inside.len() {
            assert(nests(types, inside[i]));
        }
    }
}

fn distinct_representation(types: &TypeTable, row: u32) -> (ty: Type)
    ensures
        ty == representation(types, Type::Distinct(row)),
{
    if (row as usize) < types.distincts.len() {
        match types.distincts[row as usize] {
            Type::Distinct(_) => Type::Error,
            ty => ty,
        }
    } else {
        Type::Error
    }
}

/// Builds a value of `ty`, entering no type the walk is inside of. `None` means
/// no finite value can be built along this path.
pub fn default_value_inside(
    program: &mut HirProgram,
    ty: Type,
    inside: &mut Vec<Type>,
) -> (value: Option<HirExprId>)
    requires
        walkable(&old(program).types, old(inside)@),
        tagged(&old(program).types),
        old(program).exprs@.len() + cost(&old(program).types, ty, old(inside)@) <= u32::MAX,
    ensures
        final(inside)@ == old(inside)@,
        final(program).built_on(old(program)),
        final(program).stmts == old(program).stmts,
        final(program).exprs@.len() <= old(program).exprs@.len() + cost(
            &old(program).types,
            ty,
            old(inside)@,
        ),
        value is Some <==> terminates(&old(program).types, ty, old(inside)@),
        value matches Some(id) ==> built(
            final(program),
            &old(program).types,
            id,
            ty,
            old(inside)@,
            old(program).exprs@.len() as int,
        ),
    decreases
            nestings(&old(program).types) + 2 - old(inside)@.len(),
            if ty is Distinct {
                1int
            } else {
                0int
            },
{
    if type_listed(inside, ty) {
        return None;
    }
    let ghost types = program.types;
    let ghost walk = inside@;
    let ghost start = program.exprs@.len() as int;
    proof {
        lemma_walkable(&types, walk);
    }
    match ty {
        Type::Distinct(row) => {
            let inner = distinct_representation(&program.types, row);
            match default_value_inside(program, inner, inside) {
                Some(value) => {
                    let ghost before = *program;
                    let id = program.add_expr(HirExpr::Distinct { value, ty });
                    proof {
                        lemma_built_kept(
                            &before,
                            program,
                            &types,
                            value,
                            representation(&types, ty),
                            walk,
                            start,
                            start,
                        );
                    }
                    Some(id)
                },
                None => None,
            }
        },
        Type::Float(_) => Some(program.add_expr(HirExpr::Float(0))),
        Type::Bool => Some(program.add_expr(HirExpr::Bool(false))),
        Type::Text => Some(program.add_expr(HirExpr::Str(None))),
        Type::Array(_) => Some(program.add_expr(HirExpr::ArrayNew { ty, elements: Vec::new() })),
        Type::Struct(id) => {
            if (id.0 as usize) >= program.types.structs.len() {
                let made = program.add_expr(
                    HirExpr::StructNew { struct_id: id, fields: Vec::new() },
                );
                return Some(made);
            }
            proof {
                lemma_walk_further(&types, walk, ty);
                lemma_walkable(&types, walk.push(ty));
            }
            inside.push(ty);
            let mut fields: Vec<HirExprId> = Vec::new();
            let count: usize = program.types.structs[id.0 as usize].fields.len();
            let ghost wanted = fields_of(&types, ty);
            let mut i: usize = 0;
            let mut finite: bool = true;
            while i < count && finite
                invariant
                    types == program.types,
                    tagged(&types),
                    types == old(program).types,
                    ty == Type::Struct(id),
                    id.0 < types.structs@.len(),
                    wanted == fields_of(&types, ty),
                    count == wanted.len(),
                    i <= count,
                    walk == old(inside)@,
                    start == old(program).exprs@.len(),
                    !walk.contains(ty),
                    walk.len() <= nestings(&types),
                    walkable(&types, walk.push(ty)),
                    inside@ == walk.push(ty),
                    program.built_on(old(program)),
                    program.stmts == old(program).stmts,
                    old(program).exprs@.len() + cost(&types, ty, walk) <= u32::MAX,
                    program.exprs@.len() <= old(program).exprs@.len() + fields_cost(
                        &types,
                        ty,
                        walk,
                        i as nat,
                    ),
                    finite ==> fields@.len() == i && forall|k: int|
                        0 <= k < i ==> terminates(&types, (#[trigger] wanted[k]).ty, walk.push(ty)),
                    finite ==> forall|k: int|
                        0 <= k < fields@.len() ==> built(
                            program,
                            &types,
                            #[trigger] fields@[k],
                            wanted[k].ty,
                            walk.push(ty),
                            start,
                        ),
                    !finite ==> i > 0 && !terminates(&types, wanted[i - 1].ty, walk.push(ty)),
                decreases count - i,
            {
                let field_ty = program.types.structs[id.0 as usize].fields[i].ty;
                assert(field_ty == wanted[i as int].ty);
                proof {
                    lemma_fields_cost(&types, ty, walk, (i + 1) as nat, count as nat);
                }
                let ghost before = *program;
                match default_value_inside(program, field_ty, inside) {
                    Some(field) => {
                        let ghost held = fields@;
                        fields.push(field);
                        proof {
                            lemma_built_kept(
                                program,
                                program,
                                &types,
                                field,
                                field_ty,
                                walk.push(ty),
                                before.exprs@.len() as int,
                                start,
                            );
                            assert forall|k: int| 0 <= k < fields@.len() implies built(
                                program,
                                &types,
                                #[trigger] fields@[k],
                                wanted[k].ty,
                                walk.push(ty),
                                start,
                            ) by {
                                if k < held.len() {
                                    assert(fields@[k] == held[k]);
                                    lemma_built_kept(
                                        &before,
                                        program,
                                        &types,
                                        held[k],
                                        wanted[k].ty,
                                        walk.push(ty),
                                        start,
                                        start,
                                    );
                                }
                            }
                        }
                    },
                    None => {
                        finite = false;
                    },
                }
                i += 1;
            }
            let _ = inside.pop();
            assert(inside@ =~= walk);
            if !finite {
                proof {
                    assert(!terminates(&types, wanted[i - 1].ty, walk.push(ty)));
                    lemma_fields_cost(&types, ty, walk, i as nat, count as nat);
                }
                return None;
            }
            let ghost before = *program;
            let ghost held = fields@;
            let made = program.add_expr(HirExpr::StructNew { struct_id: id, fields });
            proof {
                assert forall|k: int| 0 <= k < held.len() implies built(
                    program,
                    &types,
                    #[trigger] held[k],
                    wanted[k].ty,
                    walk.push(ty),
                    start,
                ) by {
                    lemma_built_kept(
                        &before,
                        program,
                        &types,
                        held[k],
                        wanted[k].ty,
                        walk.push(ty),
                        start,
                        start,
                    );
                }
            }
            Some(made)
        },
        Type::Enum(id) => {
            if (id.0 as usize) >= program.types.enums.len() {
                return None;
            }
            proof {
                lemma_walk_further(&types, walk, ty);
                lemma_walkable(&types, walk.push(ty));
            }
            inside.push(ty);
            let count: usize = program.types.enums[id.0 as usize].variants.len();
            let ghost wanted = variants_of(&types, ty);
            let mut chosen: Option<(u32, Option<HirExprId>)> = None;
            let mut i: usize = 0;
            while i < count && chosen.is_none()
                invariant
                    types == program.types,
                    tagged(&types),
                    types == old(program).types,
                    ty == Type::Enum(id),
                    id.0 < types.enums@.len(),
                    wanted == variants_of(&types, ty),
                    count == wanted.len(),
                    count <= u32::MAX,
                    i <= count,
                    walk == old(inside)@,
                    start == old(program).exprs@.len(),
                    !walk.contains(ty),
                    walk.len() <= nestings(&types),
                    walkable(&types, walk.push(ty)),
                    inside@ == walk.push(ty),
                    program.built_on(old(program)),
                    program.stmts == old(program).stmts,
                    old(program).exprs@.len() + cost(&types, ty, walk) <= u32::MAX,
                    program.exprs@.len() <= old(program).exprs@.len() + variants_cost(
                        &types,
                        ty,
                        walk,
                        i as nat,
                    ),
                    chosen is None ==> forall|k: int|
                        0 <= k < i ==> !#[trigger] variant_terminates(&types, ty, walk, k),
                    chosen matches Some((tag, payload)) ==> tag < wanted.len()
                        && variant_terminates(&types, ty, walk, tag as int) && (forall|k: int|
                        0 <= k < tag ==> !#[trigger] variant_terminates(&types, ty, walk, k))
                        && match (wanted[tag as int].payload, payload) {
                        (None, None) => true,
                        (Some(payload_ty), Some(value)) => built(
                            program,
                            &types,
                            value,
                            payload_ty,
                            walk.push(ty),
                            start,
                        ),
                        _ => false,
                    },
                decreases count - i,
            {
                let payload = program.types.enums[id.0 as usize].variants[i].payload;
                assert(payload == wanted[i as int].payload);
                proof {
                    lemma_variants_cost(&types, ty, walk, (i + 1) as nat, count as nat);
                }
                match payload {
                    None => {
                        chosen = Some((i as u32, None));
                    },
                    Some(payload_ty) => {
                        let ghost before = *program;
                        if let Some(value) = default_value_inside(program, payload_ty, inside) {
                            proof {
                                lemma_built_kept(
                                    program,
                                    program,
                                    &types,
                                    value,
                                    payload_ty,
                                    walk.push(ty),
                                    before.exprs@.len() as int,
                                    start,
                                );
                            }
                            chosen = Some((i as u32, Some(value)));
                        }
                    },
                }
                i += 1;
            }
            let _ = inside.pop();
            assert(inside@ =~= walk);
            proof {
                lemma_variants_cost(&types, ty, walk, i as nat, count as nat);
            }
            match chosen {
                Some((tag, payload)) => {
                    let ghost before = *program;
                    let made = program.add_expr(HirExpr::EnumNew { enum_id: id, tag, payload });
                    proof {
                        match (wanted[tag as int].payload, payload) {
                            (Some(payload_ty), Some(value)) => lemma_built_kept(
                                &before,
                                program,
                                &types,
                                value,
                                payload_ty,
                                walk.push(ty),
                                start,
                                start,
                            ),
                            _ => {},
                        }
                        assert(variant_terminates(&types, ty, walk, tag as int));
                    }
                    Some(made)
                },
                None => {
                    assert forall|k: int| 0 <= k < wanted.len() implies !(match (
                    #[trigger] variants_of(&types, ty)[k]).payload {
                        None => true,
                        Some(payload) => terminates(&types, payload, walk.push(ty)),
                    }) by {
                        assert(!variant_terminates(&types, ty, walk, k));
                    }
                    None
                },
            }
        },
        Type::Cell(row) => {
            if (row as usize) >= program.types.cells.len() {
                proof {
                    lemma_rowless_cell(&types, ty, walk);
                }
                let value = program.add_expr(HirExpr::Int(0));
                let made = program.add_expr(HirExpr::CellNew { value, ty });
                assert(built(program, &types, value, cell_content(&types, ty), walk.push(ty), start));
                return Some(made);
            }
            let inner = program.types.cells[row as usize];
            proof {
                lemma_walk_further(&types, walk, ty);
                lemma_walkable(&types, walk.push(ty));
            }
            inside.push(ty);
            let value = default_value_inside(program, inner, inside);
            let _ = inside.pop();
            assert(inside@ =~= walk);
            match value {
                Some(value) => {
                    let ghost before = *program;
                    let made = program.add_expr(HirExpr::CellNew { value, ty });
                    proof {
                        lemma_built_kept(
                            &before,
                            program,
                            &types,
                            value,
                            cell_content(&types, ty),
                            walk.push(ty),
                            start,
                            start,
                        );
                    }
                    Some(made)
                },
                None => None,
            }
        },
        _ => Some(program.add_expr(HirExpr::Int(0))),
    }
}

/// Whether a value of `ty` exists that nests at most `depth` deep: every field of
/// a struct, some variant of an enum, the content of a cell, what represents a
/// distinct type.
pub open spec fn inhabited(types: &TypeTable, ty: Type, depth: nat) -> bool
    decreases depth,
{
    depth > 0 && match ty {
        Type::Distinct(_) => inhabited(types, representation(types, ty), (depth - 1) as nat),
        Type::Struct(_) => forall|i: int|
            0 <= i < fields_of(types, ty).len() ==> inhabited(
                types,
                (#[trigger] fields_of(types, ty)[i]).ty,
                (depth - 1) as nat,
            ),
        Type::Enum(_) => exists|i: int|
            0 <= i < variants_of(types, ty).len() && match (#[trigger] variants_of(
                types,
                ty,
            )[i]).payload {
                None => true,
                Some(payload) => inhabited(types, payload, (depth - 1) as nat),
            },
        Type::Cell(_) => inhabited(types, cell_content(types, ty), (depth - 1) as nat),
        _ => true,
    }
}

/// Whether a finite value of `ty` exists.
pub open spec fn finite(types: &TypeTable, ty: Type) -> bool {
    exists|depth: nat| inhabited(types, ty, depth)
}

/// A value that nests less deep also nests at most that deep.
proof fn lemma_deeper(types: &TypeTable, ty: Type, depth: nat, more: nat)
    requires
        inhabited(types, ty, depth),
        depth <= more,
    ensures
        inhabited(types, ty, more),
    decreases depth,
{
    match ty {
        Type::Distinct(_) => lemma_deeper(
            types,
            representation(types, ty),
            (depth - 1) as nat,
            (more - 1) as nat,
        ),
        Type::Struct(_) => {
            assert forall|i: int| 0 <= i < fields_of(types, ty).len() implies inhabited(
                types,
                (#[trigger] fields_of(types, ty)[i]).ty,
                (more - 1) as nat,
            ) by {
                lemma_deeper(
                    types,
                    fields_of(types, ty)[i].ty,
                    (depth - 1) as nat,
                    (more - 1) as nat,
                );
            }
        },
        Type::Enum(_) => {
            let i = choose|i: int|
                0 <= i < variants_of(types, ty).len() && match (#[trigger] variants_of(
                    types,
                    ty,
                )[i]).payload {
                    None => true,
                    Some(payload) => inhabited(types, payload, (depth - 1) as nat),
                };
            if let Some(payload) = variants_of(types, ty)[i].payload {
                lemma_deeper(types, payload, (depth - 1) as nat, (more - 1) as nat);
            }
        },
        Type::Cell(_) => lemma_deeper(
            types,
            cell_content(types, ty),
            (depth - 1) as nat,
            (more - 1) as nat,
        ),
        _ => {},
    }
}

/// What the walk can build exists.
proof fn lemma_built_exists(types: &TypeTable, ty: Type, inside: Seq<Type>) -> (depth: nat)
    requires
        terminates(types, ty, inside),
    ensures
        inhabited(types, ty, depth),
    decreases
            nestings(types) + 2 - inside.len(),
            if ty is Distinct {
                1int
            } else {
                0int
            },
            1int,
            0nat,
{
    match ty {
        Type::Distinct(_) => 1 + lemma_built_exists(types, representation(types, ty), inside),
        Type::Struct(_) => 1 + lemma_fields_exist(
            types,
            ty,
            inside,
            fields_of(types, ty).len(),
        ),
        Type::Enum(_) => {
            let i = choose|i: int|
                0 <= i < variants_of(types, ty).len() && match (#[trigger] variants_of(
                    types,
                    ty,
                )[i]).payload {
                    None => true,
                    Some(payload) => terminates(types, payload, inside.push(ty)),
                };
            match variants_of(types, ty)[i].payload {
                None => 1,
                Some(payload) => 1 + lemma_built_exists(types, payload, inside.push(ty)),
            }
        },
        Type::Cell(_) => 1 + lemma_built_exists(types, cell_content(types, ty), inside.push(ty)),
        _ => 1,
    }
}

proof fn lemma_fields_exist(types: &TypeTable, ty: Type, inside: Seq<Type>, count: nat) -> (depth:
    nat)
    requires
        inside.len() <= nestings(types) + 1,
        count <= fields_of(types, ty).len(),
        forall|i: int|
            0 <= i < fields_of(types, ty).len() ==> terminates(
                types,
                (#[trigger] fields_of(types, ty)[i]).ty,
                inside.push(ty),
            ),
    ensures
        forall|i: int|
            0 <= i < count ==> inhabited(types, (#[trigger] fields_of(types, ty)[i]).ty, depth),
    decreases nestings(types) + 2 - inside.len(), 0int, 0int, count,
{
    if count == 0 {
        0
    } else {
        let before = lemma_fields_exist(types, ty, inside, (count - 1) as nat);
        let last = lemma_built_exists(types, fields_of(types, ty)[count - 1].ty, inside.push(ty));
        assert forall|i: int| 0 <= i < count implies inhabited(
            types,
            (#[trigger] fields_of(types, ty)[i]).ty,
            before + last,
        ) by {
            if i < count - 1 {
                lemma_deeper(types, fields_of(types, ty)[i].ty, before, before + last);
            } else {
                lemma_deeper(types, fields_of(types, ty)[i].ty, last, before + last);
            }
        }
        before + last
    }
}

/// A type whose shallowest value is shallower than that of everything the walk
/// is inside of can be built.
proof fn lemma_shallow_builds(types: &TypeTable, ty: Type, inside: Seq<Type>, depth: nat)
    requires
        walkable(types, inside),
        inhabited(types, ty, depth),
        forall|i: int|
            0 <= i < inside.len() ==> !inhabited(types, #[trigger] inside[i], depth),
    ensures
        terminates(types, ty, inside),
    decreases depth,
{
    lemma_walkable(types, inside);
    if inhabited(types, ty, (depth - 1) as nat) {
        assert forall|i: int| 0 <= i < inside.len() implies !inhabited(
            types,
            #[trigger] inside[i],
            (depth - 1) as nat,
        ) by {
            if inhabited(types, inside[i], (depth - 1) as nat) {
                lemma_deeper(types, inside[i], (depth - 1) as nat, depth);
            }
        }
        lemma_shallow_builds(types, ty, inside, (depth - 1) as nat);
    } else {
        let less = (depth - 1) as nat;
        assert(!inside.contains(ty));
        let further = inside.push(ty);
        assert forall|i: int| 0 <= i < further.len() implies !inhabited(
            types,
            #[trigger] further[i],
            less,
        ) by {
            if i < inside.len() {
                assert(further[i] == inside[i]);
                if inhabited(types, inside[i], less) {
                    lemma_deeper(types, inside[i], less, depth);
                }
            }
        }
        match ty {
            Type::Distinct(_) => {
                assert forall|i: int| 0 <= i < inside.len() implies !inhabited(
                    types,
                    #[trigger] inside[i],
                    less,
                ) by {
                    assert(further[i] == inside[i]);
                }
                lemma_shallow_builds(types, representation(types, ty), inside, less);
            },
            Type::Struct(_) => {
                assert forall|i: int| 0 <= i < fields_of(types, ty).len() implies terminates(
                    types,
                    (#[trigger] fields_of(types, ty)[i]).ty,
                    further,
                ) by {
                    lemma_walk_further(types, inside, ty);
                    lemma_shallow_builds(types, fields_of(types, ty)[i].ty, further, less);
                }
            },
            Type::Enum(_) => {
                lemma_walk_further(types, inside, ty);
                let i = choose|i: int|
                    0 <= i < variants_of(types, ty).len() && match (#[trigger] variants_of(
                        types,
                        ty,
                    )[i]).payload {
                        None => true,
                        Some(payload) => inhabited(types, payload, less),
                    };
                if let Some(payload) = variants_of(types, ty)[i].payload {
                    lemma_shallow_builds(types, payload, further, less);
                }
                assert(variant_terminates(types, ty, inside, i));
            },
            Type::Cell(_) => {
                if nests(types, ty) {
                    lemma_walk_further(types, inside, ty);
                    lemma_shallow_builds(types, cell_content(types, ty), further, less);
                } else {
                    lemma_rowless_cell(types, ty, inside);
                }
            },
            _ => {},
        }
    }
}

/// A value can be built exactly where a finite one exists, whatever order the
/// variants are tried in.
pub proof fn built_exactly_where_finite(types: &TypeTable, ty: Type)
    ensures
        terminates(types, ty, Seq::empty()) <==> finite(types, ty),
{
    if terminates(types, ty, Seq::empty()) {
        let depth = lemma_built_exists(types, ty, Seq::empty());
        assert(inhabited(types, ty, depth));
    }
    if finite(types, ty) {
        let depth = choose|depth: nat| inhabited(types, ty, depth);
        lemma_shallow_builds(types, ty, Seq::empty(), depth);
    }
}

/// What a slot of type `ty` that nothing reads is filled with: a value of it, or
/// the error node where no finite one exists.
/// Every node of it stands at `from` or after.
pub open spec fn filler(
    program: &HirProgram,
    types: &TypeTable,
    id: HirExprId,
    ty: Type,
    from: int,
) -> bool {
    program.has_expr(id) && from <= id.0 && if finite(types, ty) {
        built(program, types, id, ty, Seq::empty(), from)
    } else {
        program.at(id) == HirExpr::Error
    }
}

/// What filled a slot still fills it as long as its own nodes stay.
pub proof fn lemma_filler_kept(
    before: &HirProgram,
    after: &HirProgram,
    types: &TypeTable,
    id: HirExprId,
    ty: Type,
    from: int,
    lower: int,
)
    requires
        lower <= from,
        before.exprs@.len() <= after.exprs@.len(),
        forall|i: int|
            0 <= i && from <= i < before.exprs@.len() ==> #[trigger] after.exprs@[i]
                == before.exprs@[i],
        filler(before, types, id, ty, from),
    ensures
        filler(after, types, id, ty, lower),
{
    if finite(types, ty) {
        lemma_built_kept(before, after, types, id, ty, Seq::empty(), from, lower);
    }
}

/// At most how many nodes [`default_value`] adds.
pub open spec fn filler_cost(types: &TypeTable, ty: Type) -> nat {
    1 + cost(types, ty, Seq::empty())
}

/// A well-typed value of `ty`, for a slot nothing reads.
pub fn default_value(program: &mut HirProgram, ty: Type) -> (id: HirExprId)
    requires
        tagged(&old(program).types),
        old(program).exprs@.len() + filler_cost(&old(program).types, ty) <= u32::MAX,
    ensures
        filler(
            final(program),
            &old(program).types,
            id,
            ty,
            old(program).exprs@.len() as int,
        ),
        final(program).built_on(old(program)),
        final(program).stmts == old(program).stmts,
        final(program).exprs@.len() <= old(program).exprs@.len() + filler_cost(
            &old(program).types,
            ty,
        ),
{
    let mut inside: Vec<Type> = Vec::new();
    proof {
        assert(inside@ =~= Seq::empty());
        built_exactly_where_finite(&program.types, ty);
    }
    match default_value_inside(program, ty, &mut inside) {
        Some(value) => value,
        None => program.add_expr(HirExpr::Error),
    }
}

/// Whether a finite value of `ty` can be built at all, answered by building one
/// and discarding it.
pub fn has_finite_value(program: &mut HirProgram, ty: Type) -> (res: bool)
    requires
        tagged(&old(program).types),
        old(program).exprs@.len() + filler_cost(&old(program).types, ty) <= u32::MAX,
    ensures
        res == finite(&old(program).types, ty),
        final(program).built_on(old(program)),
        final(program).stmts == old(program).stmts,
        final(program).exprs@.len() <= old(program).exprs@.len() + filler_cost(
            &old(program).types,
            ty,
        ),
{
    let mut inside: Vec<Type> = Vec::new();
    proof {
        assert(inside@ =~= Seq::empty());
        built_exactly_where_finite(&program.types, ty);
    }
    default_value_inside(program, ty, &mut inside).is_some()
}

proof fn lemma_all_deep(types: &TypeTable, fields: Seq<FieldDef>, count: nat) -> (depth: nat)
    requires
        count <= fields.len(),
        forall|i: int| 0 <= i < fields.len() ==> finite(types, (#[trigger] fields[i]).ty),
    ensures
        forall|i: int| 0 <= i < count ==> inhabited(types, (#[trigger] fields[i]).ty, depth),
    decreases count,
{
    if count == 0 {
        0
    } else {
        let before = lemma_all_deep(types, fields, (count - 1) as nat);
        assert(finite(types, fields[count - 1].ty));
        let ty = fields[count - 1].ty;
        let last = choose|last: nat| inhabited(types, ty, last);
        assert forall|i: int| 0 <= i < count implies inhabited(
            types,
            (#[trigger] fields[i]).ty,
            before + last,
        ) by {
            if i < count - 1 {
                lemma_deeper(types, fields[i].ty, before, before + last);
            } else {
                lemma_deeper(types, fields[i].ty, last, before + last);
            }
        }
        before + last
    }
}

/// What has a finite value: a struct exactly if each of its fields does, an enum exactly
/// if some variant has no payload or one that does, a cell and a distinct type exactly if
/// what they hold does, and everything else always.
pub proof fn what_has_a_finite_value(types: &TypeTable, ty: Type)
    ensures
        ty matches Type::Struct(id) ==> (finite(types, ty) <==> forall|i: int|
            0 <= i < types.fields(id).len() ==> finite(types, (#[trigger] types.fields(id)[i]).ty)),
        ty matches Type::Enum(id) ==> (id.0 < types.enums@.len() ==> (finite(types, ty) <==> exists|
            i: int,
        |
            0 <= i < types.enums@[id.0 as int].variants@.len() && ((
            #[trigger] types.enums@[id.0 as int].variants@[i]).payload matches Some(payload)
                ==> finite(types, payload)))),
        ty is Cell ==> (types.held(ty) matches Some(inner) ==> (finite(types, ty) <==> finite(
            types,
            inner,
        ))),
        ty matches Type::Distinct(row) ==> (row < types.distincts@.len()
            && !(types.distincts@[row as int] is Distinct) ==> (finite(types, ty) <==> finite(
            types,
            types.distincts@[row as int],
        ))),
        !(ty is Struct) && !(ty is Enum) && !(ty is Cell) && !(ty is Distinct) ==> finite(types, ty),
{
    match ty {
        Type::Struct(id) => {
            let fields = types.fields(id);
            if finite(types, ty) {
                let depth = choose|depth: nat| inhabited(types, ty, depth);
                assert forall|i: int| 0 <= i < fields.len() implies finite(
                    types,
                    (#[trigger] fields[i]).ty,
                ) by {
                    assert(inhabited(types, fields_of(types, ty)[i].ty, (depth - 1) as nat));
                }
            }
            if forall|i: int| 0 <= i < fields.len() ==> finite(types, (#[trigger] fields[i]).ty) {
                let depth = lemma_all_deep(types, fields, fields.len());
                assert(inhabited(types, ty, depth + 1));
            }
        },
        Type::Enum(id) => {
            if id.0 < types.enums@.len() {
                let variants = types.enums@[id.0 as int].variants@;
                if finite(types, ty) {
                    let depth = choose|depth: nat| inhabited(types, ty, depth);
                    let i = choose|i: int|
                        0 <= i < variants_of(types, ty).len() && match (#[trigger] variants_of(
                            types,
                            ty,
                        )[i]).payload {
                            None => true,
                            Some(payload) => inhabited(types, payload, (depth - 1) as nat),
                        };
                    assert(variants[i] == variants_of(types, ty)[i]);
                }
                if exists|i: int|
                    0 <= i < variants.len() && ((#[trigger] variants[i]).payload matches Some(
                        payload,
                    ) ==> finite(types, payload)) {
                    let i = choose|i: int|
                        0 <= i < variants.len() && ((#[trigger] variants[i]).payload matches Some(
                            payload,
                        ) ==> finite(types, payload));
                    assert(variants_of(types, ty)[i] == variants[i]);
                    match variants[i].payload {
                        None => {
                            assert(inhabited(types, ty, 1));
                        },
                        Some(payload) => {
                            let depth = choose|depth: nat| inhabited(types, payload, depth);
                            assert(inhabited(types, ty, depth + 1));
                        },
                    }
                }
            }
        },
        Type::Cell(_) => {
            if let Some(inner) = types.held(ty) {
                if finite(types, ty) {
                    let depth = choose|depth: nat| inhabited(types, ty, depth);
                    assert(inhabited(types, inner, (depth - 1) as nat));
                }
                if finite(types, inner) {
                    let depth = choose|depth: nat| inhabited(types, inner, depth);
                    assert(inhabited(types, ty, depth + 1));
                }
            }
        },
        Type::Distinct(row) => {
            if row < types.distincts@.len() && !(types.distincts@[row as int] is Distinct) {
                let inner = types.distincts@[row as int];
                if finite(types, ty) {
                    let depth = choose|depth: nat| inhabited(types, ty, depth);
                    assert(inhabited(types, inner, (depth - 1) as nat));
                }
                if finite(types, inner) {
                    let depth = choose|depth: nat| inhabited(types, inner, depth);
                    assert(inhabited(types, ty, depth + 1));
                }
            }
        },
        _ => {
            assert(inhabited(types, ty, 1));
        },
    }
}

/// What fills a slot is a value of the slot's type: false, the empty text, an empty array
/// of that very type, a struct with every field, an enum value with a payload exactly
/// where its variant has one and of no later variant than the first without, and a new
/// cell. A type without a finite value is filled with the error node.
pub proof fn a_filler_is_a_value_of_its_type(
    program: &HirProgram,
    types: &TypeTable,
    id: HirExprId,
    ty: Type,
    from: int,
    k: int,
)
    requires
        filler(program, types, id, ty, from),
    ensures
        !finite(types, ty) ==> program.at(id) == HirExpr::Error,
        ty == Type::Bool ==> program.at(id) == HirExpr::Bool(false),
        ty == Type::Text ==> program.at(id) == HirExpr::Str(None),
        ty is Array ==> (program.at(id) matches HirExpr::ArrayNew { ty: made, elements } && made
            == ty && elements@.len() == 0),
        ty matches Type::Struct(of) ==> (finite(types, ty) ==> (
        program.at(id) matches HirExpr::StructNew { struct_id, fields } && struct_id == of
            && fields@.len() == types.fields(of).len() && (0 <= k < fields@.len()
            && types.fields(of)[k].ty == Type::Bool ==> program.at(fields@[k]) == HirExpr::Bool(
            false,
        )) && (0 <= k < fields@.len() && types.fields(of)[k].ty == Type::Text ==> program.at(
            fields@[k],
        ) == HirExpr::Str(None)))),
        ty matches Type::Enum(of) ==> (finite(types, ty) && of.0 < types.enums@.len() ==> (
        program.at(id) matches HirExpr::EnumNew { enum_id, tag, payload } && enum_id == of && tag
            < types.enums@[of.0 as int].variants@.len() && (payload is Some
            <==> types.enums@[of.0 as int].variants@[tag as int].payload is Some) && (0 <= k
            < types.enums@[of.0 as int].variants@.len()
            && types.enums@[of.0 as int].variants@[k].payload is None ==> tag <= k))),
        ty is Cell ==> (finite(types, ty) ==> (program.at(id) matches HirExpr::CellNew {
            ty: made,
            ..
        } && made == ty)),
        ty is Distinct ==> (finite(types, ty) ==> (program.at(id) matches HirExpr::Distinct {
            ty: made,
            ..
        } && made == ty)),
{
    what_has_a_finite_value(types, ty);
    let start = Seq::<Type>::empty();
    if let Type::Struct(of) = ty {
        if finite(types, ty) {
            if let HirExpr::StructNew { fields, .. } = program.at(id) {
                if 0 <= k < fields@.len() {
                    assert(built(
                        program,
                        types,
                        fields@[k],
                        fields_of(types, ty)[k].ty,
                        start.push(ty),
                        from,
                    ));
                }
            }
        }
    }
    if let Type::Enum(of) = ty {
        if finite(types, ty) && of.0 < types.enums@.len() {
            if 0 <= k < types.enums@[of.0 as int].variants@.len()
                && types.enums@[of.0 as int].variants@[k].payload is None {
                assert(variant_terminates(types, ty, start, k));
            }
        }
    }
}

} // verus!
