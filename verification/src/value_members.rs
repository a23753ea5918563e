//! Reading a construct family's value members off a family value.
//!
//! A family states a value obligation, and a backed declaration discharges it
//! however it likes: a stored field or a computed member. A read through the
//! family value is therefore a synthesized tag dispatcher whose arms differ from
//! one another.

use vstd::prelude::*;

use crate::arguments::carried;
use crate::closure_calls::{field_named, find_field};
use crate::coercion::coerce_into;
use crate::default_values::{default_value, filler, filler_cost, lemma_filler_kept, tagged};
use crate::dispatch_body::tags_are_places;
use crate::dispatch_tree::{reads_local, ConstructVariant};
use crate::families::{ConstructTable, FamilyField, FamilyInfo, FamilyTable};
use crate::family_calls::{coerce_construct_value, family_crossing};
use crate::family_inherit::lemma_replaced;
use crate::hir::{
    Callee, FuncId, FunctionName, HirBinaryOp, HirExpr, HirExprId, HirFunction, HirProgram, HirStmt,
    HirStmtId, LocalId,
};
use crate::lattice::Lattice;
use crate::method_lookup::{find_method, method_of};
use crate::names::Symbol;
use crate::scope::{declared_local, FnCtx};
use crate::signatures::{CallableSignature, FuncSig, SigTable};
use crate::source::Span;
use crate::symbol_map::{lemma_row, ordered};
use crate::synth::SynthTable;
use crate::ty::{EnumId, Execution, FieldName, OwnershipMode, Type, TypeTable};

verus! {

/// Only one value member of one family changed.
pub open spec fn member_replaced(
    before: &FamilyTable,
    after: &FamilyTable,
    key: Symbol,
    name: Symbol,
    member: FamilyField,
) -> bool {
    &&& after.families@.dom() == before.families@.dom()
    &&& forall|k: Symbol|
        before.families@.contains_key(k) && k != key ==> #[trigger] after.families@[k]
            == before.families@[k]
    &&& after.families@[key] == (FamilyInfo {
        field_members: after.families@[key].field_members,
        ..before.families@[key]
    })
    &&& after.families@[key].field_members@ == before.families@[key].field_members@.insert(
        name,
        member,
    )
    &&& *after == (FamilyTable { families: after.families, ..*before })
}

/// Replacing one member's row replaces one member.
pub proof fn lemma_member_replaced(
    before: &FamilyTable,
    after: &FamilyTable,
    at: int,
    k: int,
    member: FamilyField,
)
    requires
        before.wf(),
        0 <= at < before.families.rows@.len(),
        after.families.rows@.len() == before.families.rows@.len(),
        forall|i: int|
            0 <= i < before.families.rows@.len() && i != at ==> #[trigger] after.families.rows@[i]
                == before.families.rows@[i],
        after.families.rows@[at].0 == before.families.rows@[at].0,
        ({
            let old_info = before.families.rows@[at].1;
            let info = after.families.rows@[at].1;
            &&& info == (FamilyInfo { field_members: info.field_members, ..old_info })
            &&& 0 <= k < old_info.field_members.rows@.len()
            &&& info.field_members.rows@ == old_info.field_members.rows@.update(
                k,
                (old_info.field_members.rows@[k].0, member),
            )
        }),
        *after == (FamilyTable { families: after.families, ..*before }),
    ensures
        after.wf(),
        member_replaced(
            before,
            after,
            before.families.rows@[at].0,
            before.families.rows@[at].1.field_members.rows@[k].0,
            member,
        ),
{
    let rows = before.families.rows@;
    let changed = after.families.rows@;
    let key = rows[at].0;
    assert(ordered(changed)) by {
        assert forall|i: int, j: int| 0 <= i < j < changed.len() implies (
        #[trigger] changed[i]).0.0 < (#[trigger] changed[j]).0.0 by {
            assert(rows[i].0.0 < rows[j].0.0);
        }
    }
    lemma_replaced(rows, changed, at);
    lemma_row(rows, at);
    lemma_row(changed, at);
    assert(after.families@.dom() =~= before.families@.dom());
    let old_info = rows[at].1;
    let info = changed[at].1;
    assert(before.families@[key].wf());
    let inner = old_info.field_members.rows@;
    let replaced = info.field_members.rows@;
    assert(ordered(replaced)) by {
        assert forall|i: int, j: int| 0 <= i < j < replaced.len() implies (
        #[trigger] replaced[i]).0.0 < (#[trigger] replaced[j]).0.0 by {
            assert(inner[i].0.0 < inner[j].0.0);
        }
    }
    lemma_replaced(inner, replaced, k);
    lemma_row(inner, k);
    lemma_row(replaced, k);
    assert(info.field_members@ =~= old_info.field_members@.insert(inner[k].0, member));
    assert forall|f: Symbol, n: Symbol|
        after.families@.contains_key(f) && after.families@[f].methods@.contains_key(n) implies (
    #[trigger] after.families@[f].methods@[n]).method < after.methods@.len() by {
        assert(before.families@[f].methods@[n].method < before.methods@.len());
    }
    assert forall|f: Symbol| after.families@.contains_key(f) implies (
    #[trigger] after.families@[f]).wf() by {
        assert(before.families@[f].wf());
    }
}

/// The tables after the dispatcher of a family's value member was asked for: its
/// id, reserved on first need.
pub open spec fn field_dispatcher_known(
    table: &FamilyTable,
    table_after: &FamilyTable,
    synth: &SynthTable,
    synth_after: &SynthTable,
    family: EnumId,
    name: Symbol,
    id: FuncId,
) -> bool {
    let member = table.field_member(family, name)->0;
    match member.dispatcher {
        Some(known) => id == known && *table_after == *table && *synth_after == *synth,
        None => {
            &&& id.0 == synth.base + synth.rows@.len()
            &&& synth_after.base == synth.base
            &&& synth_after.rows@ == synth.rows@.push(None)
            &&& member_replaced(
                table,
                table_after,
                table.key_of(family)->0,
                name,
                FamilyField { dispatcher: Some(id), ..member },
            )
        },
    }
}

/// The dispatcher that reads a family's value member, reserving its id on first
/// need.
pub fn family_field_dispatcher_for(
    table: &mut FamilyTable,
    synth: &mut SynthTable,
    family: EnumId,
    name: Symbol,
) -> (id: FuncId)
    requires
        old(table).wf(),
        old(synth).wf(),
        old(synth).base + old(synth).rows@.len() < u32::MAX,
        old(table).field_member(family, name) is Some,
    ensures
        final(table).wf(),
        final(synth).wf(),
        field_dispatcher_known(
            old(table),
            final(table),
            old(synth),
            final(synth),
            family,
            name,
            id,
        ),
        final(table).field_member(family, name) == Some(
            (FamilyField { dispatcher: Some(id), ..old(table).field_member(family, name)->0 }),
        ),
{
    let at: usize = match table.find_family(family) {
        Some(at) => at,
        None => 0,
    };
    proof {
        lemma_row(table.families.rows@, at as int);
        assert(table.families@[table.families.rows@[at as int].0].wf());
    }
    let k: usize = match table.families.rows[at].1.field_members.find(name) {
        Some(k) => k,
        None => 0,
    };
    proof {
        lemma_row(table.families.rows@[at as int].1.field_members.rows@, k as int);
    }
    let member: FamilyField = table.families.rows[at].1.field_members.rows[k].1;
    if let Some(known) = member.dispatcher {
        return known;
    }
    let ghost before = *table;
    let id = synth.reserve_synth();
    let replaced = FamilyField { dispatcher: Some(id), ..member };
    table.families.rows[at].1.field_members.rows[k] = (name, replaced);
    proof {
        lemma_member_replaced(&before, table, at as int, k as int, replaced);
    }
    id
}

/// Reads a family's value member off a family value: a call to the member's
/// dispatcher.
pub fn analyze_construct_family_field(
    program: &mut HirProgram,
    table: &mut FamilyTable,
    synth: &mut SynthTable,
    receiver: HirExprId,
    family: EnumId,
    name: Symbol,
    result: Type,
) -> (id: HirExprId)
    requires
        old(table).wf(),
        old(synth).wf(),
        old(synth).base + old(synth).rows@.len() < u32::MAX,
        old(program).exprs@.len() < u32::MAX,
        old(table).field_member(family, name) is Some,
    ensures
        final(table).wf(),
        final(synth).wf(),
        id.0 == old(program).exprs@.len(),
        final(program).exprs@.drop_last() == old(program).exprs@,
        *final(program) == (HirProgram { exprs: final(program).exprs, ..*old(program) }),
        (final(program).at(id) matches HirExpr::Call { callee, args, ty, writebacks }
            && callee is User && field_dispatcher_known(
            old(table),
            final(table),
            old(synth),
            final(synth),
            family,
            name,
            callee->User_0,
        ) && args@ == seq![receiver] && ty == result && writebacks@.len() == 0),
{
    let dispatcher = family_field_dispatcher_for(table, synth, family, name);
    let mut args: Vec<HirExprId> = Vec::new();
    args.push(receiver);
    assert(args@ =~= seq![receiver]);
    let id = program.add_expr(
        HirExpr::Call {
            callee: Callee::User(dispatcher),
            args,
            ty: result,
            writebacks: Vec::new(),
        },
    );
    assert(program.exprs@.drop_last() =~= old(program).exprs@);
    id
}

/// `id` takes the concrete declaration out of the family value.
pub open spec fn takes_payload(
    program: &HirProgram,
    id: HirExprId,
    family: EnumId,
    variant: ConstructVariant,
) -> bool {
    &&& program.has_expr(id)
    &&& (program.at(id) matches HirExpr::EnumPayload { value, ty } && ty == variant.ty
        && reads_local(program, value, LocalId(0), Type::Enum(family)))
}

/// `id` is the member the way one declaration presents it: a call of its computed
/// member, a read of its stored field, or the default where it has neither.
///
/// A computed member wins over a stored field of the same name: it is the member
/// the declaration wrote.
pub open spec fn presents(
    program: &HirProgram,
    types: &TypeTable,
    sigs: Seq<FuncSig>,
    id: HirExprId,
    family: EnumId,
    variant: ConstructVariant,
    member: Symbol,
    result: Type,
) -> bool {
    &&& program.has_expr(id)
    &&& match variant.ty {
        Type::Struct(of) => match method_of(sigs, variant.ty, variant.name, member) {
            Some(target) => (program.at(id) matches HirExpr::Call { callee, args, ty, writebacks }
                && callee == Callee::User(target) && args@.len() == 1 && takes_payload(
                program,
                args@[0],
                family,
                variant,
            ) && ty == sigs[target.0 as int].return_type && writebacks@.len() == 0),
            None => match field_named(types.fields(of), FieldName::Plain(member)) {
                Some(at) => (program.at(id) matches HirExpr::Field { base, index, ty }
                    && takes_payload(program, base, family, variant) && index == at as u32 && ty
                    == types.fields(of)[at].ty),
                None => filler(program, types, id, result, 0),
            },
        },
        _ => filler(program, types, id, result, 0),
    }
}

/// What an arm's member is wrapped in, where the family's result is itself a
/// family the member's type belongs to.
pub open spec fn wrapped_as(
    program: &HirProgram,
    families: &FamilyTable,
    constructs: &ConstructTable,
    raw: HirExprId,
    result: Type,
    wrapped: HirExprId,
) -> bool {
    match family_crossing(families, constructs, raw, program.at(raw), Some(result)) {
        Some(node) => program.has_expr(wrapped) && program.at(wrapped) == node,
        None => wrapped == raw,
    }
}

/// `value` is `raw`, through `wrapped`, as the family's result.
pub open spec fn carried_up(
    program: &HirProgram,
    families: &FamilyTable,
    constructs: &ConstructTable,
    lattice: &Lattice,
    raw: HirExprId,
    wrapped: HirExprId,
    value: HirExprId,
    result: Type,
) -> bool {
    &&& wrapped_as(program, families, constructs, raw, result, wrapped)
    &&& program.has_expr(wrapped)
    &&& carried(program, program, lattice, wrapped, result, value)
}

/// The tables a read of a value member goes by.
pub struct ReadTables<'a> {
    pub families: &'a FamilyTable,
    pub constructs: &'a ConstructTable,
    pub lattice: &'a Lattice,
    pub sigs: &'a SigTable,
}

/// `value` is the member as one declaration presents it, carried up to the
/// family's result; the default where the variant is no declaration.
pub open spec fn arm_value(
    program: &HirProgram,
    types: &TypeTable,
    tables: &ReadTables,
    value: HirExprId,
    family: EnumId,
    variant: ConstructVariant,
    member: Symbol,
    result: Type,
) -> bool {
    if variant.ty is Struct {
        exists|raw: HirExprId, wrapped: HirExprId|
            {
                &&& presents(
                    program,
                    types,
                    tables.sigs.sigs@,
                    raw,
                    family,
                    variant,
                    member,
                    result,
                )
                &&& #[trigger] carried_up(
                    program,
                    tables.families,
                    tables.constructs,
                    tables.lattice,
                    raw,
                    wrapped,
                    value,
                    result,
                )
            }
    } else {
        filler(program, types, value, result, 0)
    }
}

/// `stmt` gives back what one arm comes to.
pub open spec fn arm_returns(
    program: &HirProgram,
    types: &TypeTable,
    tables: &ReadTables,
    stmt: HirStmtId,
    family: EnumId,
    variant: ConstructVariant,
    member: Symbol,
    result: Type,
) -> bool {
    &&& stmt.0 < program.stmts@.len()
    &&& (program.stmts@[stmt.0 as int] matches HirStmt::Return { value: Some(value) }
        && arm_value(program, types, tables, value, family, variant, member, result))
}

/// `id` asks whether the family value is tagged `tag`.
pub open spec fn asks_variant(
    program: &HirProgram,
    id: HirExprId,
    family: EnumId,
    tag: u32,
) -> bool {
    &&& program.has_expr(id)
    &&& (program.at(id) matches HirExpr::Binary { op, lhs, rhs, ty } && op == HirBinaryOp::EqInt
        && ty == Type::Bool && program.has_expr(lhs) && program.has_expr(rhs)
        && program.at(rhs) == HirExpr::Int(tag as i64) && (
    program.at(lhs) matches HirExpr::EnumTag { value } && reads_local(
        program,
        value,
        LocalId(0),
        Type::Enum(family),
    )))
}

/// Statement `i` of a read over `variants`: the last arm unasked, every other
/// behind a test of its tag.
pub open spec fn read_step(
    program: &HirProgram,
    types: &TypeTable,
    tables: &ReadTables,
    stmt: HirStmtId,
    family: EnumId,
    variants: Seq<ConstructVariant>,
    i: int,
    member: Symbol,
    result: Type,
) -> bool {
    if i == variants.len() - 1 {
        arm_returns(program, types, tables, stmt, family, variants[i], member, result)
    } else {
        &&& stmt.0 < program.stmts@.len()
        &&& (program.stmts@[stmt.0 as int] matches HirStmt::If { cond, then_body, else_body }
            && asks_variant(program, cond, family, variants[i].tag) && then_body@.len() == 1
            && arm_returns(
            program,
            types,
            tables,
            then_body@[0],
            family,
            variants[i],
            member,
            result,
        ) && else_body@.len() == 0)
    }
}

/// `body` reads the member of whichever declaration the family value holds, or
/// gives back the default where there are none.
pub open spec fn reads_member(
    program: &HirProgram,
    types: &TypeTable,
    tables: &ReadTables,
    body: Seq<HirStmtId>,
    family: EnumId,
    variants: Seq<ConstructVariant>,
    member: Symbol,
    result: Type,
) -> bool {
    if variants.len() == 0 {
        &&& body.len() == 1
        &&& body[0].0 < program.stmts@.len()
        &&& (program.stmts@[body[0].0 as int] matches HirStmt::Return { value: Some(value) }
            && filler(program, types, value, result, 0))
    } else {
        &&& body.len() == variants.len()
        &&& forall|i: int|
            0 <= i < variants.len() ==> read_step(
                program,
                types,
                tables,
                #[trigger] body[i],
                family,
                variants,
                i,
                member,
                result,
            )
    }
}

/// `function` reads one value member of one family.
pub open spec fn is_reader(
    program: &HirProgram,
    types: &TypeTable,
    tables: &ReadTables,
    function: HirFunction,
    key: Symbol,
    family: EnumId,
    variants: Seq<ConstructVariant>,
    member: Symbol,
    result: Type,
) -> bool {
    &&& function.name == (FunctionName::FamilyRead { family: key, member })
    &&& function.param_count == 1
    &&& function.return_type == result
    &&& function.locals@ == seq![
        declared_local(None, Type::Enum(family), false, OwnershipMode::Owned),
    ]
    &&& !function.is_main
    &&& !function.is_main_thread
    &&& !function.is_async
    &&& function.execution == Execution::Inherited
    &&& !function.mutates_self
    &&& function.name_span == Span::nowhere()
    &&& function.signature.is_synthesized(function.return_type)
    &&& reads_member(program, types, tables, function.body@, family, variants, member, result)
}

proof fn lemma_presents_kept(
    before: &HirProgram,
    after: &HirProgram,
    types: &TypeTable,
    sigs: Seq<FuncSig>,
    id: HirExprId,
    family: EnumId,
    variant: ConstructVariant,
    member: Symbol,
    result: Type,
)
    requires
        after.built_on(before),
        presents(before, types, sigs, id, family, variant, member, result),
    ensures
        presents(after, types, sigs, id, family, variant, member, result),
{
    if filler(before, types, id, result, 0) {
        lemma_filler_kept(before, after, types, id, result, 0, 0);
    }
}

proof fn lemma_arm_returns_kept(
    before: &HirProgram,
    after: &HirProgram,
    types: &TypeTable,
    tables: &ReadTables,
    stmt: HirStmtId,
    family: EnumId,
    variant: ConstructVariant,
    member: Symbol,
    result: Type,
)
    requires
        after.built_on(before),
        arm_returns(before, types, tables, stmt, family, variant, member, result),
    ensures
        arm_returns(after, types, tables, stmt, family, variant, member, result),
{
    assert(after.stmts@[stmt.0 as int] == before.stmts@[stmt.0 as int]);
    if let HirStmt::Return { value: Some(value) } = before.stmts@[stmt.0 as int] {
        if variant.ty is Struct {
            let (raw, wrapped) = choose|raw: HirExprId, wrapped: HirExprId|
                {
                    &&& presents(
                        before,
                        types,
                        tables.sigs.sigs@,
                        raw,
                        family,
                        variant,
                        member,
                        result,
                    )
                    &&& #[trigger] carried_up(
                        before,
                        tables.families,
                        tables.constructs,
                        tables.lattice,
                        raw,
                        wrapped,
                        value,
                        result,
                    )
                };
            lemma_presents_kept(
                before,
                after,
                types,
                tables.sigs.sigs@,
                raw,
                family,
                variant,
                member,
                result,
            );
            assert(carried_up(
                after,
                tables.families,
                tables.constructs,
                tables.lattice,
                raw,
                wrapped,
                value,
                result,
            ));
        } else {
            lemma_filler_kept(before, after, types, value, result, 0, 0);
        }
    }
}

proof fn lemma_read_step_kept(
    before: &HirProgram,
    after: &HirProgram,
    types: &TypeTable,
    tables: &ReadTables,
    stmt: HirStmtId,
    family: EnumId,
    variants: Seq<ConstructVariant>,
    i: int,
    member: Symbol,
    result: Type,
)
    requires
        after.built_on(before),
        read_step(before, types, tables, stmt, family, variants, i, member, result),
    ensures
        read_step(after, types, tables, stmt, family, variants, i, member, result),
{
    if i == variants.len() - 1 {
        lemma_arm_returns_kept(
            before,
            after,
            types,
            tables,
            stmt,
            family,
            variants[i],
            member,
            result,
        );
    } else {
        assert(after.stmts@[stmt.0 as int] == before.stmts@[stmt.0 as int]);
        if let HirStmt::If { then_body, .. } = before.stmts@[stmt.0 as int] {
            lemma_arm_returns_kept(
                before,
                after,
                types,
                tables,
                then_body@[0],
                family,
                variants[i],
                member,
                result,
            );
        }
    }
}

/// A built reader stays one as the program grows.
pub proof fn lemma_reader_kept(
    before: &HirProgram,
    after: &HirProgram,
    types: &TypeTable,
    tables: &ReadTables,
    function: HirFunction,
    key: Symbol,
    family: EnumId,
    variants: Seq<ConstructVariant>,
    member: Symbol,
    result: Type,
)
    requires
        after.built_on(before),
        is_reader(before, types, tables, function, key, family, variants, member, result),
    ensures
        is_reader(after, types, tables, function, key, family, variants, member, result),
{
    let body = function.body@;
    if variants.len() == 0 {
        assert(after.stmts@[body[0].0 as int] == before.stmts@[body[0].0 as int]);
        if let HirStmt::Return { value: Some(value) } = before.stmts@[body[0].0 as int] {
            lemma_filler_kept(before, after, types, value, result, 0, 0);
        }
    } else {
        assert forall|i: int| 0 <= i < variants.len() implies read_step(
            after,
            types,
            tables,
            #[trigger] body[i],
            family,
            variants,
            i,
            member,
            result,
        ) by {
            lemma_read_step_kept(
                before,
                after,
                types,
                tables,
                body[i],
                family,
                variants,
                i,
                member,
                result,
            );
        }
    }
}

/// What one variant's part of a reader may take.
pub open spec fn read_cost(types: &TypeTable, result: Type) -> int {
    filler_cost(types, result) as int + 9
}

/// What a reader may take.
pub open spec fn reader_cost(types: &TypeTable, result: Type, variants: int) -> int {
    (variants + 1) * read_cost(types, result)
}

/// The member of a struct variant, as its declaration presents it.
fn present_member(
    program: &mut HirProgram,
    tables: &ReadTables,
    family: EnumId,
    variant: ConstructVariant,
    member: Symbol,
    result: Type,
) -> (raw: HirExprId)
    requires
        variant.ty is Struct,
        tagged(&old(program).types),
        tables.sigs.sigs@.len() <= u32::MAX,
        old(program).exprs@.len() + filler_cost(&old(program).types, result) + 3 <= u32::MAX,
    ensures
        final(program).built_on(old(program)),
        final(program).stmts == old(program).stmts,
        final(program).exprs@.len() <= old(program).exprs@.len() + filler_cost(
            &old(program).types,
            result,
        ) + 3,
        presents(
            final(program),
            &old(program).types,
            tables.sigs.sigs@,
            raw,
            family,
            variant,
            member,
            result,
        ),
{
    let ghost start = *program;
    let family_value = program.add_expr(
        HirExpr::Local { local: LocalId(0), ty: Type::Enum(family) },
    );
    let concrete = program.add_expr(
        HirExpr::EnumPayload { value: family_value, ty: variant.ty },
    );
    assert(takes_payload(program, concrete, family, variant));
    let ghost taken = *program;
    if let Some(target) = find_method(tables.sigs, variant.ty, variant.name, member) {
        let mut args: Vec<HirExprId> = Vec::new();
        args.push(concrete);
        let raw = program.add_expr(
            HirExpr::Call {
                callee: Callee::User(target),
                args,
                ty: tables.sigs.sigs[target.0 as usize].return_type,
                writebacks: Vec::new(),
            },
        );
        assert(takes_payload(program, concrete, family, variant));
        return raw;
    }
    if let Type::Struct(of) = variant.ty {
        if (of.0 as usize) < program.types.structs.len() {
            let fields = &program.types.structs[of.0 as usize].fields;
            if let Some(at) = find_field(fields, FieldName::Plain(member)) {
                let ty = fields[at].ty;
                let raw = program.add_expr(
                    HirExpr::Field { base: concrete, index: at as u32, ty },
                );
                assert(takes_payload(program, concrete, family, variant));
                return raw;
            }
        }
    }
    let raw = default_value(program, result);
    proof {
        lemma_filler_kept(
            program,
            program,
            &start.types,
            raw,
            result,
            taken.exprs@.len() as int,
            0,
        );
    }
    raw
}

/// One arm: take the concrete declaration out, read the member the way it
/// presents it, and carry it up to the family's result.
fn family_field_arm(
    program: &mut HirProgram,
    tables: &ReadTables,
    family: EnumId,
    variant: ConstructVariant,
    member: Symbol,
    result: Type,
) -> (stmt: HirStmtId)
    requires
        tagged(&old(program).types),
        tables.sigs.sigs@.len() <= u32::MAX,
        old(program).exprs@.len() + filler_cost(&old(program).types, result) + 5 <= u32::MAX,
        old(program).stmts@.len() < u32::MAX,
    ensures
        final(program).built_on(old(program)),
        final(program).exprs@.len() <= old(program).exprs@.len() + filler_cost(
            &old(program).types,
            result,
        ) + 5,
        final(program).stmts@.len() == old(program).stmts@.len() + 1,
        arm_returns(
            final(program),
            &old(program).types,
            tables,
            stmt,
            family,
            variant,
            member,
            result,
        ),
{
    let ghost start = *program;
    let is_struct = match variant.ty {
        Type::Struct(_) => true,
        _ => false,
    };
    if !is_struct {
        let _ = program.add_expr(HirExpr::Local { local: LocalId(0), ty: Type::Enum(family) });
        let value = default_value(program, result);
        let ghost valued = *program;
        let stmt = program.add_stmt(HirStmt::Return { value: Some(value) });
        proof {
            lemma_filler_kept(
                &valued,
                program,
                &start.types,
                value,
                result,
                start.exprs@.len() as int + 1,
                0,
            );
        }
        return stmt;
    }
    let raw = present_member(program, tables, family, variant, member, result);
    let ghost raised = *program;
    let wrapped = coerce_construct_value(
        program,
        tables.families,
        tables.constructs,
        raw,
        Some(result),
    );
    let ghost second = *program;
    let value = coerce_into(program, tables.lattice, wrapped, result);
    let ghost third = *program;
    let stmt = program.add_stmt(HirStmt::Return { value: Some(value) });
    proof {
        lemma_presents_kept(
            &raised,
            program,
            &start.types,
            tables.sigs.sigs@,
            raw,
            family,
            variant,
            member,
            result,
        );
        assert(program.at(raw) == raised.at(raw));
        assert(program.at(wrapped) == second.at(wrapped));
        assert(carried_up(
            program,
            tables.families,
            tables.constructs,
            tables.lattice,
            raw,
            wrapped,
            value,
            result,
        ));
        assert(arm_value(
            program,
            &start.types,
            tables,
            value,
            family,
            variant,
            member,
            result,
        ));
    }
    stmt
}

/// A test of whether the family value is tagged `tag`.
fn ask_variant(program: &mut HirProgram, family: EnumId, tag: u32) -> (cond: HirExprId)
    requires
        old(program).exprs@.len() + 4 <= u32::MAX,
    ensures
        final(program).built_on(old(program)),
        final(program).stmts == old(program).stmts,
        final(program).exprs@.len() == old(program).exprs@.len() + 4,
        asks_variant(final(program), cond, family, tag),
{
    let value = program.add_expr(HirExpr::Local { local: LocalId(0), ty: Type::Enum(family) });
    let lhs = program.add_expr(HirExpr::EnumTag { value });
    let rhs = program.add_expr(HirExpr::Int(tag as i64));
    program.add_expr(HirExpr::Binary { op: HirBinaryOp::EqInt, lhs, rhs, ty: Type::Bool })
}

proof fn lemma_read_room(done: int, variants: int, cost: int)
    requires
        0 <= done <= variants,
        cost >= 0,
    ensures
        (done + 1) * cost == done * cost + cost,
        (done + 1) * cost <= (variants + 1) * cost,
        0 * cost == 0,
{
    assert((done + 1) * cost == done * cost + cost) by (nonlinear_arith);
    assert((done + 1) * cost <= (variants + 1) * cost) by (nonlinear_arith)
        requires
            0 <= done <= variants,
            cost >= 0,
    ;
    assert(0 * cost == 0) by (nonlinear_arith);
}

/// Builds the tag dispatcher that reads one value member of a family.
///
/// A declaration presenting neither a computed member nor a field gives back the
/// result's default rather than falling through to another variant's answer.
pub fn construct_field_dispatcher_body(
    program: &mut HirProgram,
    tables: &ReadTables,
    key: Symbol,
    family: EnumId,
    variants: &Vec<ConstructVariant>,
    member: Symbol,
    result: Type,
) -> (function: HirFunction)
    requires
        tagged(&old(program).types),
        tables.sigs.sigs@.len() <= u32::MAX,
        old(program).room(
            reader_cost(&old(program).types, result, variants@.len() as int),
        ),
    ensures
        final(program).built_on(old(program)),
        final(program).exprs@.len() <= old(program).exprs@.len() + reader_cost(
            &old(program).types,
            result,
            variants@.len() as int,
        ),
        final(program).stmts@.len() <= old(program).stmts@.len() + reader_cost(
            &old(program).types,
            result,
            variants@.len() as int,
        ),
        is_reader(
            final(program),
            &old(program).types,
            tables,
            function,
            key,
            family,
            variants@,
            member,
            result,
        ),
{
    let ghost start = *program;
    let ghost types = program.types;
    let ghost cost = read_cost(&types, result);
    let mut ctx = FnCtx::new(result);
    let _ = ctx.declare_hidden(Type::Enum(family), false);
    assert(ctx.locals@ =~= seq![
        declared_local(None, Type::Enum(family), false, OwnershipMode::Owned),
    ]);
    let mut body: Vec<HirStmtId> = Vec::new();
    let mut i: usize = 0;
    proof {
        lemma_read_room(0, variants@.len() as int, cost);
    }
    while i < variants.len()
        invariant
            i <= variants@.len(),
            types == start.types,
            cost == read_cost(&types, result),
            tagged(&types),
            tables.sigs.sigs@.len() <= u32::MAX,
            start.exprs@.len() + (variants@.len() + 1) * cost <= u32::MAX,
            start.stmts@.len() + (variants@.len() + 1) * cost <= u32::MAX,
            program.built_on(&start),
            program.exprs@.len() <= start.exprs@.len() + i * cost,
            program.stmts@.len() <= start.stmts@.len() + i * cost,
            body@.len() == i,
            forall|k: int|
                0 <= k < i ==> read_step(
                    program,
                    &types,
                    tables,
                    #[trigger] body@[k],
                    family,
                    variants@,
                    k,
                    member,
                    result,
                ),
        decreases variants@.len() - i,
    {
        let ghost before = *program;
        let ghost held = body@;
        let variant = variants[i];
        proof {
            lemma_read_room(i as int, variants@.len() as int, cost);
        }
        let arm = family_field_arm(program, tables, family, variant, member, result);
        let ghost armed = *program;
        if i + 1 == variants.len() {
            body.push(arm);
        } else {
            let cond = ask_variant(program, family, variant.tag);
            let ghost asked = *program;
            let mut then_body: Vec<HirStmtId> = Vec::new();
            then_body.push(arm);
            body.push(
                program.add_stmt(HirStmt::If { cond, then_body, else_body: Vec::new() }),
            );
            proof {
                lemma_arm_returns_kept(
                    &armed,
                    program,
                    &types,
                    tables,
                    arm,
                    family,
                    variant,
                    member,
                    result,
                );
                assert(asks_variant(program, cond, family, variant.tag));
            }
        }
        proof {
            assert forall|k: int| 0 <= k < i + 1 implies read_step(
                program,
                &types,
                tables,
                #[trigger] body@[k],
                family,
                variants@,
                k,
                member,
                result,
            ) by {
                if k < i {
                    assert(body@[k] == held[k]);
                    lemma_read_step_kept(
                        &before,
                        program,
                        &types,
                        tables,
                        held[k],
                        family,
                        variants@,
                        k,
                        member,
                        result,
                    );
                }
            }
        }
        i += 1;
    }
    proof {
        lemma_read_room(i as int, variants@.len() as int, cost);
    }
    if body.len() == 0 {
        let value = default_value(program, result);
        let ghost valued = *program;
        body.push(program.add_stmt(HirStmt::Return { value: Some(value) }));
        proof {
            lemma_filler_kept(
                &valued,
                program,
                &types,
                value,
                result,
                start.exprs@.len() as int,
                0,
            );
        }
    }
    HirFunction {
        name: FunctionName::FamilyRead { family: key, member },
        param_count: 1,
        return_type: result,
        locals: ctx.locals,
        body,
        is_main: false,
        is_main_thread: false,
        is_async: false,
        execution: Execution::Inherited,
        mutates_self: false,
        name_span: Span::nowhere(),
        signature: CallableSignature::synthesized(result),
    }
}

/// The statement that gives back what a read of a value tagged `tag` comes to,
/// from statement `from` of a reader on.
pub open spec fn read_reaches(
    program: &HirProgram,
    body: Seq<HirStmtId>,
    tag: u32,
    from: int,
) -> HirStmtId
    decreases body.len() - from,
{
    if from < 0 || from >= body.len() - 1 {
        body.last()
    } else {
        match program.stmts@[body[from].0 as int] {
            HirStmt::If { cond, then_body, .. } => if crate::dispatch_tree::test_holds(
                program,
                cond,
                tag,
            ) {
                then_body@[0]
            } else {
                read_reaches(program, body, tag, from + 1)
            },
            _ => body[from],
        }
    }
}

/// A read through a family value gives what the declaration it holds presents: a
/// value tagged for a declaration reaches that declaration's own arm.
pub proof fn a_family_read_reaches_its_declaration(
    program: &HirProgram,
    types: &TypeTable,
    tables: &ReadTables,
    body: Seq<HirStmtId>,
    family: EnumId,
    variants: Seq<ConstructVariant>,
    member: Symbol,
    result: Type,
    k: int,
)
    requires
        tags_are_places(variants),
        variants.len() <= u32::MAX,
        reads_member(program, types, tables, body, family, variants, member, result),
        0 <= k < variants.len(),
    ensures
        arm_returns(
            program,
            types,
            tables,
            read_reaches(program, body, k as u32, 0),
            family,
            variants[k],
            member,
            result,
        ),
{
    lemma_read_from(program, types, tables, body, family, variants, member, result, k, 0);
}

proof fn lemma_read_from(
    program: &HirProgram,
    types: &TypeTable,
    tables: &ReadTables,
    body: Seq<HirStmtId>,
    family: EnumId,
    variants: Seq<ConstructVariant>,
    member: Symbol,
    result: Type,
    k: int,
    from: int,
)
    requires
        tags_are_places(variants),
        variants.len() <= u32::MAX,
        reads_member(program, types, tables, body, family, variants, member, result),
        0 <= from <= k < variants.len(),
    ensures
        arm_returns(
            program,
            types,
            tables,
            read_reaches(program, body, k as u32, from),
            family,
            variants[k],
            member,
            result,
        ),
    decreases k - from,
{
    assert(read_step(program, types, tables, body[from], family, variants, from, member, result));
    assert(variants[from].tag == from);
    if from < body.len() - 1 && from < k {
        lemma_read_from(
            program,
            types,
            tables,
            body,
            family,
            variants,
            member,
            result,
            k,
            from + 1,
        );
    }
}

/// What a declaration presents of a value member: a call of its computed member on the
/// declaration itself where it has one, and otherwise a read of the field it stores under
/// the name, at the field's own type.
pub proof fn a_declaration_presents_its_own_member(
    program: &HirProgram,
    types: &TypeTable,
    sigs: Seq<FuncSig>,
    id: HirExprId,
    family: EnumId,
    variant: ConstructVariant,
    of: crate::ty::StructId,
    member: Symbol,
    result: Type,
    at: int,
)
    requires
        presents(program, types, sigs, id, family, variant, member, result),
        variant.ty == Type::Struct(of),
        types.fields(of).len() <= u32::MAX,
    ensures
        method_of(sigs, variant.ty, variant.name, member) matches Some(target) ==> (
        program.at(id) matches HirExpr::Call { callee, args, ty, writebacks } && callee
            == Callee::User(target) && ty == sigs[target.0 as int].return_type
            && writebacks@.len() == 0 && args@.len() == 1 && (
        program.at(args@[0]) matches HirExpr::EnumPayload { value, ty: held } && held == variant.ty
            && program.at(value) == (HirExpr::Local {
            local: LocalId(0),
            ty: Type::Enum(family),
        }))),
        method_of(sigs, variant.ty, variant.name, member) is None && 0 <= at < types.fields(
            of,
        ).len() && types.fields(of)[at].name == FieldName::Plain(member) && (forall|k: int|
            0 <= k < at ==> (#[trigger] types.fields(of)[k]).name != FieldName::Plain(member))
            ==> (program.at(id) matches HirExpr::Field { base, index, ty } && index == at && ty
            == types.fields(of)[at].ty && (program.at(base) matches HirExpr::EnumPayload {
            value,
            ty: held,
        } && held == variant.ty && program.at(value) == (HirExpr::Local {
            local: LocalId(0),
            ty: Type::Enum(family),
        }))),
        method_of(sigs, variant.ty, variant.name, member) is None && (forall|k: int|
            0 <= k < types.fields(of).len() ==> (#[trigger] types.fields(of)[k]).name
                != FieldName::Plain(member)) ==> filler(program, types, id, result, 0),
{
    let fields = types.fields(of);
    let name = FieldName::Plain(member);
    if 0 <= at < fields.len() && fields[at].name == name && (forall|k: int|
        0 <= k < at ==> (#[trigger] fields[k]).name != name) {
        lemma_field_at(fields, name, at);
    }
    if forall|k: int| 0 <= k < fields.len() ==> (#[trigger] fields[k]).name != name {
        lemma_no_field(fields, name);
    }
}

/// A reader asks the family value's own tag, one declaration after the other, and only a
/// declaration's own tag leads to its arm; the last declaration is reached unasked.
pub proof fn a_reader_asks_each_declarations_tag(
    program: &HirProgram,
    types: &TypeTable,
    tables: &ReadTables,
    body: Seq<HirStmtId>,
    family: EnumId,
    variants: Seq<ConstructVariant>,
    member: Symbol,
    result: Type,
    i: int,
)
    requires
        reads_member(program, types, tables, body, family, variants, member, result),
        0 <= i < variants.len() - 1,
    ensures
        body.len() == variants.len(),
        program.stmts@[body[i].0 as int] matches HirStmt::If { cond, then_body, else_body }
            && else_body@.len() == 0 && then_body@.len() == 1 && (
        program.stmts@[then_body@[0].0 as int] matches HirStmt::Return { value: Some(_) }) && (
        program.at(cond) matches HirExpr::Binary { op, lhs, rhs, .. } && op == HirBinaryOp::EqInt
            && program.at(rhs) == HirExpr::Int(variants[i].tag as i64) && (
        program.at(lhs) matches HirExpr::EnumTag { value } && program.at(value) == (HirExpr::Local {
            local: LocalId(0),
            ty: Type::Enum(family),
        }))),
        program.stmts@[body[variants.len() - 1].0 as int] matches HirStmt::Return {
            value: Some(_),
        },
{
    assert(read_step(program, types, tables, body[i], family, variants, i, member, result));
    let last = variants.len() - 1;
    assert(read_step(
        program,
        types,
        tables,
        body[last],
        family,
        variants,
        last,
        member,
        result,
    ));
}

/// Asking for a value member's reader gives one and the same function however often it is
/// asked for, and changes no other member.
pub proof fn a_reader_is_reserved_once(
    table: &FamilyTable,
    first: &FamilyTable,
    second: &FamilyTable,
    synth: &SynthTable,
    synth_first: &SynthTable,
    synth_second: &SynthTable,
    family: EnumId,
    name: Symbol,
    other: Symbol,
    id: FuncId,
    again: FuncId,
)
    requires
        field_dispatcher_known(table, first, synth, synth_first, family, name, id),
        field_dispatcher_known(first, second, synth_first, synth_second, family, name, again),
        table.key_of(family) is Some,
        table.families@.contains_key(table.key_of(family)->0),
        table.families@[table.key_of(family)->0].field_members@.contains_key(name),
    ensures
        again == id,
        *second == *first,
        *synth_second == *synth_first,
        first.field_member(family, name) matches Some(member) && member.dispatcher == Some(id)
            && member.result == table.field_member(family, name)->0.result,
        other != name ==> first.field_member(family, other) == table.field_member(family, other),
        synth_first.rows@.len() <= synth.rows@.len() + 1,
{
    let key = table.key_of(family)->0;
    assert(first.names == table.names);
    assert(first.key_of(family) == table.key_of(family));
    assert(first.families@.contains_key(key));
}

proof fn lemma_field_at(fields: Seq<crate::ty::FieldDef>, name: FieldName, at: int)
    requires
        0 <= at < fields.len(),
        fields[at].name == name,
        forall|k: int| 0 <= k < at ==> (#[trigger] fields[k]).name != name,
    ensures
        field_named(fields, name) == Some(at),
    decreases fields.len(),
{
    if at > 0 {
        let rest = fields.drop_first();
        assert(fields[0].name != name);
        assert forall|k: int| 0 <= k < at - 1 implies (#[trigger] rest[k]).name != name by {
            assert(rest[k] == fields[k + 1]);
        }
        lemma_field_at(rest, name, at - 1);
    }
}

proof fn lemma_no_field(fields: Seq<crate::ty::FieldDef>, name: FieldName)
    requires
        forall|k: int| 0 <= k < fields.len() ==> (#[trigger] fields[k]).name != name,
    ensures
        field_named(fields, name) is None,
    decreases fields.len(),
{
    if fields.len() > 0 {
        let rest = fields.drop_first();
        assert(fields[0].name != name);
        assert forall|k: int| 0 <= k < rest.len() implies (#[trigger] rest[k]).name != name by {
            assert(rest[k] == fields[k + 1]);
        }
        lemma_no_field(rest, name);
    }
}

/// A reader is called with the family value alone and gives the member's type.
pub proof fn a_reader_takes_the_family_value(
    program: &HirProgram,
    types: &TypeTable,
    tables: &ReadTables,
    function: HirFunction,
    key: Symbol,
    family: EnumId,
    variants: Seq<ConstructVariant>,
    member: Symbol,
    result: Type,
)
    requires
        is_reader(program, types, tables, function, key, family, variants, member, result),
    ensures
        function.param_count == 1,
        function.return_type == result,
        function.locals@.len() == 1,
        function.locals@[0].ty == Type::Enum(family),
        !function.locals@[0].mutable,
        function.name == (FunctionName::FamilyRead { family: key, member }),
        reads_member(program, types, tables, function.body@, family, variants, member, result),
{
}

/// What a declaration presents is wrapped where the member promises a family: a value of a
/// declaration that is a variant of that family becomes that variant of it, under its tag;
/// anything else stays as it is.
pub proof fn a_presented_declaration_is_wrapped(
    program: &HirProgram,
    families: &FamilyTable,
    constructs: &ConstructTable,
    raw: HirExprId,
    result: Type,
    wrapped: HirExprId,
    family: EnumId,
    id: crate::ty::StructId,
    tag: u32,
)
    requires
        wrapped_as(program, families, constructs, raw, result, wrapped),
    ensures
        result == Type::Enum(family) && families.key_of(family) is Some && program.at(raw).ty()
            == Type::Struct(id) && constructs.info(id) is Some && crate::families::tag_in(
            constructs.info(id)->0.families@,
            family,
        ) == Some(tag) ==> program.at(wrapped) == (HirExpr::EnumNew {
            enum_id: family,
            tag,
            payload: Some(raw),
        }),
        !(result is Enum) || !(program.at(raw).ty() is Struct) ==> wrapped == raw,
{
}

} // verus!
