//! Finishing function values once every body is analyzed.
//!
//! Both halves depend on facts that are only final then: how many literals each
//! function type has, and how wide its representation struct grew.

use vstd::prelude::*;

use crate::default_values::{default_value, filler, filler_cost, lemma_filler_kept, tagged};
use crate::hir::{HirExpr, HirExprId, HirProgram};
use crate::lift::ClosureSite;
use crate::ty::{FieldDef, Type, TypeTable};

verus! {

/// Where `field` stands among a value's captured fields, the first time.
pub open spec fn capture_slot(fields: Seq<u32>, field: u32) -> Option<int>
    decreases fields.len(),
{
    if fields.len() == 0 {
        None
    } else if fields[0] == field {
        Some(0)
    } else {
        match capture_slot(fields.drop_first(), field) {
            Some(i) => Some(i + 1),
            None => None,
        }
    }
}

fn find_slot(fields: &Vec<u32>, field: u32) -> (slot: Option<usize>)
    ensures
        match slot {
            Some(i) => capture_slot(fields@, field) == Some(i as int) && i < fields@.len(),
            None => capture_slot(fields@, field) is None,
        },
{
    let mut i: usize = 0;
    assert(fields@.skip(0) =~= fields@);
    while i < fields.len()
        invariant
            i <= fields@.len(),
            capture_slot(fields@, field) == match capture_slot(fields@.skip(i as int), field) {
                Some(k) => Some(k + i),
                None => None,
            },
        decreases fields@.len() - i,
    {
        assert(fields@.skip(i as int).drop_first() =~= fields@.skip(i + 1));
        if fields[i] == field {
            return Some(i);
        }
        i += 1;
    }
    None
}

/// What field `index` of the value at `site` holds: its tag, a captured value of
/// its own, or a stand-in for a field another literal of the type owns. A cell
/// that is not this literal's is empty.
pub open spec fn completed_field(
    program: &HirProgram,
    types: &TypeTable,
    site: ClosureSite,
    index: int,
    id: HirExprId,
    from: int,
) -> bool {
    let ty = types.fields(site.repr)[index].ty;
    if index == 0 {
        program.has_expr(id) && from <= id.0 && program.at(id) == HirExpr::Int(site.tag as i64)
    } else {
        match capture_slot(site.capture_fields@, index as u32) {
            Some(slot) => id == site.capture_values@[slot],
            None => if ty is Cell {
                program.has_expr(id) && from <= id.0 && program.at(id) == (HirExpr::CellNull { ty })
            } else {
                filler(program, types, id, ty, from)
            },
        }
    }
}

/// `fields` is everything the value at `site` holds.
pub open spec fn completed(
    program: &HirProgram,
    types: &TypeTable,
    site: ClosureSite,
    fields: Seq<HirExprId>,
    from: int,
) -> bool {
    fields.len() == types.fields(site.repr).len() && forall|i: int|
        0 <= i < fields.len() ==> completed_field(
            program,
            types,
            site,
            i,
            #[trigger] fields[i],
            from,
        )
}

/// At most how many nodes the first `count` fields of a value take.
pub open spec fn site_cost(types: &TypeTable, fields: Seq<FieldDef>, count: int) -> nat
    decreases count,
{
    if count <= 0 {
        0
    } else {
        site_cost(types, fields, count - 1) + filler_cost(types, fields[count - 1].ty)
    }
}

/// At most how many nodes the first `count` values take.
pub open spec fn sites_cost(types: &TypeTable, sites: Seq<ClosureSite>, count: int) -> nat
    decreases count,
{
    if count <= 0 {
        0
    } else {
        sites_cost(types, sites, count - 1) + site_cost(
            types,
            types.fields(sites[count - 1].repr),
            types.fields(sites[count - 1].repr).len() as int,
        )
    }
}

proof fn lemma_site_cost(types: &TypeTable, fields: Seq<FieldDef>, some: int, all: int)
    requires
        0 <= some <= all,
    ensures
        site_cost(types, fields, some) <= site_cost(types, fields, all),
    decreases all,
{
    if some < all {
        lemma_site_cost(types, fields, some, all - 1);
    }
}

proof fn lemma_sites_cost(types: &TypeTable, sites: Seq<ClosureSite>, some: int, all: int)
    requires
        0 <= some <= all,
    ensures
        sites_cost(types, sites, some) <= sites_cost(types, sites, all),
    decreases all,
{
    if some < all {
        lemma_sites_cost(types, sites, some, all - 1);
    }
}

/// A completed value stays one as long as the nodes made for it do.
proof fn lemma_completed_kept(
    before: &HirProgram,
    after: &HirProgram,
    types: &TypeTable,
    site: ClosureSite,
    fields: Seq<HirExprId>,
    from: int,
    lower: int,
)
    requires
        0 <= lower <= from,
        before.exprs@.len() <= after.exprs@.len(),
        forall|i: int|
            from <= i < before.exprs@.len() ==> #[trigger] after.exprs@[i] == before.exprs@[i],
        completed(before, types, site, fields, from),
    ensures
        completed(after, types, site, fields, lower),
{
    assert forall|i: int| 0 <= i < fields.len() implies completed_field(
        after,
        types,
        site,
        i,
        #[trigger] fields[i],
        lower,
    ) by {
        assert(completed_field(before, types, site, i, fields[i], from));
        let ty = types.fields(site.repr)[i].ty;
        if i > 0 && capture_slot(site.capture_fields@, i as u32) is None && !(ty is Cell) {
            lemma_filler_kept(before, after, types, fields[i], ty, from, lower);
        }
    }
}

/// Everything the value at `site` holds, each part not captured made anew.
fn complete_fields(program: &mut HirProgram, site: &ClosureSite) -> (fields: Vec<HirExprId>)
    requires
        site.repr.0 < old(program).types.structs@.len(),
        site.capture_values@.len() == site.capture_fields@.len(),
        old(program).types.fields(site.repr).len() <= u32::MAX,
        tagged(&old(program).types),
        old(program).exprs@.len() + site_cost(
            &old(program).types,
            old(program).types.fields(site.repr),
            old(program).types.fields(site.repr).len() as int,
        ) <= u32::MAX,
    ensures
        final(program).built_on(old(program)),
        final(program).stmts == old(program).stmts,
        final(program).exprs@.len() <= old(program).exprs@.len() + site_cost(
            &old(program).types,
            old(program).types.fields(site.repr),
            old(program).types.fields(site.repr).len() as int,
        ),
        completed(
            final(program),
            &old(program).types,
            *site,
            fields@,
            old(program).exprs@.len() as int,
        ),
{
    let ghost types = program.types;
    let ghost from = program.exprs@.len() as int;
    let ghost defs = types.fields(site.repr);
    let count: usize = program.types.structs[site.repr.0 as usize].fields.len();
    let mut fields: Vec<HirExprId> = Vec::new();
    let mut i: usize = 0;
    while i < count
        invariant
            i <= count,
            count == defs.len(),
            count <= u32::MAX,
            types == program.types,
            types == old(program).types,
            tagged(&types),
            defs == types.fields(site.repr),
            site.repr.0 < types.structs@.len(),
            site.capture_values@.len() == site.capture_fields@.len(),
            from == old(program).exprs@.len(),
            from + site_cost(&types, defs, count as int) <= u32::MAX,
            program.built_on(old(program)),
            program.stmts == old(program).stmts,
            program.exprs@.len() <= from + site_cost(&types, defs, i as int),
            fields@.len() == i,
            forall|k: int|
                0 <= k < i ==> completed_field(
                    program,
                    &types,
                    *site,
                    k,
                    #[trigger] fields@[k],
                    from,
                ),
        decreases count - i,
    {
        proof {
            lemma_site_cost(&types, defs, i + 1, count as int);
        }
        let ty = program.types.structs[site.repr.0 as usize].fields[i].ty;
        assert(ty == defs[i as int].ty);
        let ghost before = *program;
        let ghost held = fields@;
        let id = if i == 0 {
            program.add_expr(HirExpr::Int(site.tag as i64))
        } else {
            match find_slot(&site.capture_fields, i as u32) {
                Some(slot) => site.capture_values[slot],
                None => match ty {
                    Type::Cell(_) => program.add_expr(HirExpr::CellNull { ty }),
                    _ => {
                        let id = default_value(program, ty);
                        proof {
                            lemma_filler_kept(
                                program,
                                program,
                                &types,
                                id,
                                ty,
                                before.exprs@.len() as int,
                                from,
                            );
                        }
                        id
                    },
                },
            }
        };
        fields.push(id);
        proof {
            assert forall|k: int| 0 <= k < i + 1 implies completed_field(
                program,
                &types,
                *site,
                k,
                #[trigger] fields@[k],
                from,
            ) by {
                if k < i {
                    assert(fields@[k] == held[k]);
                    let kty = types.fields(site.repr)[k].ty;
                    if k > 0 && capture_slot(site.capture_fields@, k as u32) is None && !(
                    kty is Cell) {
                        lemma_filler_kept(&before, program, &types, held[k], kty, from, from);
                    }
                }
            }
        }
        i += 1;
    }
    fields
}

/// Whether the value at `site` is one that can be completed.
pub open spec fn completable(program: &HirProgram, site: ClosureSite) -> bool {
    program.has_expr(site.expr) && site.repr.0 < program.types.structs@.len() && program.at(
        site.expr,
    ) is StructNew
}

/// The fields of a struct literal, none for anything else.
pub open spec fn literal_fields(node: HirExpr) -> Seq<HirExprId> {
    match node {
        HirExpr::StructNew { fields, .. } => fields@,
        _ => Seq::empty(),
    }
}

/// `after` is the struct literal `before` with its fields replaced.
pub open spec fn refilled(before: HirExpr, after: HirExpr) -> bool {
    match (before, after) {
        (
            HirExpr::StructNew { struct_id: held, .. },
            HirExpr::StructNew { struct_id, .. },
        ) => struct_id == held,
        _ => false,
    }
}

/// What the sites ask of a program.
pub open spec fn sites_ready(program: &HirProgram, sites: Seq<ClosureSite>) -> bool {
    &&& forall|i: int|
        0 <= i < sites.len() ==> {
            &&& program.has_expr((#[trigger] sites[i]).expr)
            &&& sites[i].capture_values@.len() == sites[i].capture_fields@.len()
            &&& program.types.fields(sites[i].repr).len() <= u32::MAX
        }
    &&& forall|i: int, j: int|
        0 <= i < j < sites.len() ==> (#[trigger] sites[i]).expr != (#[trigger] sites[j]).expr
}

/// The program after the first `count` values were completed.
pub open spec fn values_completed(
    before: &HirProgram,
    after: &HirProgram,
    sites: Seq<ClosureSite>,
    count: int,
) -> bool {
    let from = before.exprs@.len() as int;
    &&& from <= after.exprs@.len()
    &&& *after == (HirProgram { exprs: after.exprs, ..*before })
    &&& forall|e: int|
        0 <= e < from && (forall|i: int|
            0 <= i < count ==> (#[trigger] sites[i]).expr.0 != e || !completable(before, sites[i]))
            ==> #[trigger] after.exprs@[e] == before.exprs@[e]
    &&& forall|i: int|
        0 <= i < count && completable(before, #[trigger] sites[i]) ==> refilled(
            before.at(sites[i].expr),
            after.at(sites[i].expr),
        ) && completed(
            after,
            &before.types,
            sites[i],
            literal_fields(after.at(sites[i].expr)),
            from,
        )
}

/// Completes every function value: each gets the full field list of its
/// representation struct.
pub fn finalize_closure_values(program: &mut HirProgram, sites: &Vec<ClosureSite>)
    requires
        sites_ready(old(program), sites@),
        tagged(&old(program).types),
        old(program).exprs@.len() + sites_cost(
            &old(program).types,
            sites@,
            sites@.len() as int,
        ) <= u32::MAX,
    ensures
        values_completed(old(program), final(program), sites@, sites@.len() as int),
        final(program).exprs@.len() <= old(program).exprs@.len() + sites_cost(
            &old(program).types,
            sites@,
            sites@.len() as int,
        ),
{
    let ghost start = *program;
    let ghost from = program.exprs@.len() as int;
    let mut i: usize = 0;
    while i < sites.len()
        invariant
            i <= sites@.len(),
            start == *old(program),
            from == start.exprs@.len(),
            tagged(&start.types),
            sites_ready(&start, sites@),
            from + sites_cost(&start.types, sites@, sites@.len() as int) <= u32::MAX,
            program.exprs@.len() <= from + sites_cost(&start.types, sites@, i as int),
            values_completed(&start, program, sites@, i as int),
        decreases sites@.len() - i,
    {
        let site = &sites[i];
        proof {
            lemma_sites_cost(&start.types, sites@, i + 1, sites@.len() as int);
            assert(start.has_expr(sites@[i as int].expr));
        }
        if (site.repr.0 as usize) < program.types.structs.len() {
            let ghost before = *program;
            proof {
                assert(before.at(site.expr) == start.at(site.expr)) by {
                    assert forall|k: int| 0 <= k < i implies (#[trigger] sites@[k]).expr.0
                        != site.expr.0 by {
                        assert(sites@[k].expr != sites@[i as int].expr);
                    }
                }
            }
            let fields = complete_fields(program, site);
            let ghost listed = *program;
            let ghost list = fields@;
            let struct_id = match &program.exprs[site.expr.0 as usize] {
                HirExpr::StructNew { struct_id, .. } => Some(*struct_id),
                _ => None,
            };
            assert(listed.at(site.expr) == before.at(site.expr));
            if let Some(struct_id) = struct_id {
                program.exprs[site.expr.0 as usize] = HirExpr::StructNew { struct_id, fields };
            }
            proof {
                lemma_next_completed(
                    &start,
                    &before,
                    &listed,
                    program,
                    sites@,
                    i as int,
                    list,
                );
            }
        } else {
            assert(!completable(&start, sites@[i as int]));
        }
        i += 1;
    }
}

/// Completing one more value leaves those completed before as they were.
proof fn lemma_next_completed(
    start: &HirProgram,
    before: &HirProgram,
    listed: &HirProgram,
    after: &HirProgram,
    sites: Seq<ClosureSite>,
    i: int,
    list: Seq<HirExprId>,
)
    requires
        0 <= i < sites.len(),
        sites_ready(start, sites),
        values_completed(start, before, sites, i),
        listed.built_on(before),
        listed.stmts == before.stmts,
        sites[i].repr.0 < start.types.structs@.len(),
        completed(
            listed,
            &start.types,
            sites[i],
            list,
            before.exprs@.len() as int,
        ),
        before.at(sites[i].expr) == start.at(sites[i].expr),
        *after == (HirProgram { exprs: after.exprs, ..*listed }),
        if start.at(sites[i].expr) is StructNew {
            &&& after.exprs@.len() == listed.exprs@.len()
            &&& forall|e: int|
                0 <= e < listed.exprs@.len() && e != sites[i].expr.0 ==> #[trigger] after.exprs@[e]
                    == listed.exprs@[e]
            &&& refilled(start.at(sites[i].expr), after.at(sites[i].expr))
            &&& literal_fields(after.at(sites[i].expr)) == list
        } else {
            after.exprs@ == listed.exprs@
        },
    ensures
        values_completed(start, after, sites, i + 1),
{
    let from = start.exprs@.len() as int;
    assert(start.has_expr(sites[i].expr));
    assert forall|k: int|
        0 <= k < i + 1 && completable(start, #[trigger] sites[k]) implies refilled(
        start.at(sites[k].expr),
        after.at(sites[k].expr),
    ) && completed(
        after,
        &start.types,
        sites[k],
        literal_fields(after.at(sites[k].expr)),
        from,
    ) by {
        if k < i {
            assert(sites[k].expr != sites[i].expr);
            assert(start.has_expr(sites[k].expr));
            let fields = literal_fields(before.at(sites[k].expr));
            assert(listed.at(sites[k].expr) == before.at(sites[k].expr));
            assert(after.at(sites[k].expr) == before.at(sites[k].expr));
            assert forall|e: int| from <= e < before.exprs@.len() implies #[trigger] after.exprs@[e]
                == before.exprs@[e] by {
                assert(listed.exprs@[e] == before.exprs@[e]);
            }
            lemma_completed_kept(before, after, &start.types, sites[k], fields, from, from);
        } else {
            assert forall|e: int|
                before.exprs@.len() <= e < listed.exprs@.len() implies #[trigger] after.exprs@[e]
                == listed.exprs@[e] by {}
            lemma_completed_kept(
                listed,
                after,
                &start.types,
                sites[i],
                list,
                before.exprs@.len() as int,
                from,
            );
        }
    }
    assert forall|e: int|
        0 <= e < from && (forall|k: int|
            0 <= k < i + 1 ==> (#[trigger] sites[k]).expr.0 != e || !completable(
                start,
                sites[k],
            )) implies #[trigger] after.exprs@[e] == start.exprs@[e] by {
        assert(before.exprs@[e] == start.exprs@[e]);
        assert(listed.exprs@[e] == before.exprs@[e]);
        assert(sites[i].expr.0 != e || !completable(start, sites[i]));
    }
}

/// Every captured value arrives in the field its closure reads it from.
pub proof fn captures_arrive(
    program: &HirProgram,
    types: &TypeTable,
    site: ClosureSite,
    fields: Seq<HirExprId>,
    from: int,
    slot: int,
)
    requires
        completed(program, types, site, fields, from),
        0 <= slot < site.capture_fields@.len(),
        site.capture_fields@.no_duplicates(),
        0 < site.capture_fields@[slot] < fields.len(),
    ensures
        fields[site.capture_fields@[slot] as int] == site.capture_values@[slot],
{
    let index = site.capture_fields@[slot] as int;
    assert(completed_field(program, types, site, index, fields[index], from));
    lemma_capture_slot(site.capture_fields@, slot);
}

proof fn lemma_capture_slot(fields: Seq<u32>, slot: int)
    requires
        0 <= slot < fields.len(),
        fields.no_duplicates(),
    ensures
        capture_slot(fields, fields[slot]) == Some(slot),
    decreases fields.len(),
{
    if slot > 0 {
        assert(fields[0] != fields[slot]);
        assert(fields.drop_first()[slot - 1] == fields[slot]);
        lemma_capture_slot(fields.drop_first(), slot - 1);
    }
}

proof fn lemma_no_capture_slot(fields: Seq<u32>, field: u32)
    ensures
        capture_slot(fields, field) is None <==> !fields.contains(field),
        capture_slot(fields, field) matches Some(i) ==> 0 <= i < fields.len() && fields[i] == field,
    decreases fields.len(),
{
    if fields.len() > 0 {
        let rest = fields.drop_first();
        lemma_no_capture_slot(rest, field);
        if fields[0] == field {
            assert(fields.contains(field));
        } else {
            if rest.contains(field) {
                let i = choose|i: int| 0 <= i < rest.len() && rest[i] == field;
                assert(fields[i + 1] == field);
            }
            if fields.contains(field) {
                let i = choose|i: int| 0 <= i < fields.len() && fields[i] == field;
                assert(rest[i - 1] == field);
            }
        }
    }
}

/// A completed function value carries its own tag in its first field, and in each field
/// another literal of the type owns a stand-in: an empty cell where the field holds a
/// cell, and a default value otherwise.
pub proof fn a_completed_value_carries_its_tag(
    program: &HirProgram,
    types: &TypeTable,
    site: ClosureSite,
    fields: Seq<HirExprId>,
    from: int,
    i: int,
)
    requires
        completed(program, types, site, fields, from),
        0 <= i < fields.len(),
        types.fields(site.repr).len() <= u32::MAX,
    ensures
        fields.len() == types.fields(site.repr).len(),
        i == 0 ==> program.at(fields[i]) == HirExpr::Int(site.tag as i64),
        i > 0 && !site.capture_fields@.contains(i as u32) && types.fields(site.repr)[i].ty is Cell
            ==> program.at(fields[i]) == (HirExpr::CellNull { ty: types.fields(site.repr)[i].ty }),
        i > 0 && !site.capture_fields@.contains(i as u32) && !(types.fields(site.repr)[i].ty
            is Cell) ==> filler(program, types, fields[i], types.fields(site.repr)[i].ty, from),
        i > 0 && site.capture_fields@.contains(i as u32) ==> exists|slot: int|
            0 <= slot < site.capture_fields@.len() && #[trigger] site.capture_fields@[slot] == i
                && fields[i] == site.capture_values@[slot],
{
    assert(completed_field(program, types, site, i, fields[i], from));
    lemma_no_capture_slot(site.capture_fields@, i as u32);
}

/// Completing the function values rebuilds each of them as a value of the very struct it
/// was, with a value for every field of its type's struct, and changes no other
/// expression.
pub proof fn every_function_value_is_completed(
    before: &HirProgram,
    after: &HirProgram,
    sites: Seq<ClosureSite>,
    i: int,
    e: int,
)
    requires
        values_completed(before, after, sites, sites.len() as int),
    ensures
        0 <= i < sites.len() && before.has_expr(sites[i].expr) && sites[i].repr.0
            < before.types.structs@.len() ==> (before.at(sites[i].expr) matches HirExpr::StructNew {
            struct_id: held,
            ..
        } ==> (after.at(sites[i].expr) matches HirExpr::StructNew { struct_id, fields } && struct_id
            == held && fields@.len() == before.types.fields(sites[i].repr).len())),
        0 <= e < before.exprs@.len() && (forall|j: int|
            0 <= j < sites.len() ==> (#[trigger] sites[j]).expr.0 != e) ==> after.exprs@[e]
            == before.exprs@[e],
{
    if 0 <= i < sites.len() {
        assert(sites[i].expr == sites[i].expr);
        if before.has_expr(sites[i].expr) && sites[i].repr.0 < before.types.structs@.len()
            && before.at(sites[i].expr) is StructNew {
            assert(completable(before, sites[i]));
        }
    }
}

/// What completes each field of a function value: the tag in the first, what was captured
/// in a field that a capture of this very value travels in, an empty cell in any other
/// field that holds one, and otherwise a filler of the field's type.
pub proof fn what_completes_a_field(
    program: &HirProgram,
    types: &TypeTable,
    site: ClosureSite,
    index: int,
    id: HirExprId,
    from: int,
    k: int,
)
    requires
        completed_field(program, types, site, index, id, from),
        0 <= index <= u32::MAX,
    ensures
        index == 0 ==> program.at(id) == HirExpr::Int(site.tag as i64),
        index > 0 && 0 <= k < site.capture_fields@.len() && site.capture_fields@[k] == index && (
        forall|j: int| 0 <= j < k ==> (#[trigger] site.capture_fields@[j]) != index) ==> id
            == site.capture_values@[k],
        index > 0 && (forall|j: int|
            0 <= j < site.capture_fields@.len() ==> (#[trigger] site.capture_fields@[j]) != index)
            ==> if types.fields(site.repr)[index].ty is Cell {
            program.at(id) == (HirExpr::CellNull { ty: types.fields(site.repr)[index].ty })
        } else {
            filler(program, types, id, types.fields(site.repr)[index].ty, from)
        },
{
    lemma_capture_at(site.capture_fields@, index as u32);
    if 0 <= k < site.capture_fields@.len() && site.capture_fields@[k] == index && (forall|j: int|
        0 <= j < k ==> (#[trigger] site.capture_fields@[j]) != index) {
        if let Some(slot) = capture_slot(site.capture_fields@, index as u32) {
            if slot < k {
                assert(site.capture_fields@[slot] != index);
            }
            if k < slot {
                assert(site.capture_fields@[k] != index as u32);
            }
        } else {
            assert(site.capture_fields@[k] != index as u32);
        }
    }
    if forall|j: int|
        0 <= j < site.capture_fields@.len() ==> (#[trigger] site.capture_fields@[j]) != index {
        if let Some(slot) = capture_slot(site.capture_fields@, index as u32) {
            assert(site.capture_fields@[slot] != index);
        }
    }
}

proof fn lemma_capture_at(fields: Seq<u32>, field: u32)
    ensures
        match capture_slot(fields, field) {
            Some(slot) => 0 <= slot < fields.len() && fields[slot] == field && forall|j: int|
                0 <= j < slot ==> (#[trigger] fields[j]) != field,
            None => forall|j: int| 0 <= j < fields.len() ==> (#[trigger] fields[j]) != field,
        },
    decreases fields.len(),
{
    if fields.len() > 0 && fields[0] != field {
        let rest = fields.drop_first();
        lemma_capture_at(rest, field);
        assert forall|j: int| 0 < j < fields.len() implies #[trigger] fields[j] == rest[j - 1] by {}
    }
}

} // verus!
