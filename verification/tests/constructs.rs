use kira_semantics::backed::{BackedField, BackedParam};
use kira_semantics::child_slots::{
    append_child, begin_branch, begin_built_list, begin_fill, content_as_slot, fill_empty_lists,
    fill_one, fill_slot_from_value, finish_branch, finish_built_list, fixed_list, next_branch,
    param_content, refuse_children, refuse_content, refuse_content_count, slot_content, SlotContent,
};
use kira_semantics::construction::{
    begin_field, bind_field, construct_input_slots, find_slot, finish_construction,
    finish_field_default, refuse_argument, route_arguments, settle_argument,
    settle_routed, ArgRoute, FieldStep, GivenArgument,
};
use kira_semantics::diagnostics::{Log, Problem};
use kira_semantics::families::{ConstructInfo, ConstructTable, ContentSlot, MethodParam};
use kira_semantics::family_calls::InitContent;
use kira_semantics::field_sweep::{begin_sweep, resume_sweep, sweep_fields, SweepStep};
use kira_semantics::fn_types::FnTypeTable;
use kira_semantics::hir::{
    FuncId, HirExpr, HirProgram, HirStmt, HirStmtId, LocalId,
};
use kira_semantics::inferred::{
    begin_member, begin_member_types, bind_member, finish_member, MemberStep,
};
use kira_semantics::inits::{
    header_takes_children, init_argument_types, pick_construction, primary_score,
    record_init_content, refuse_init_shadowing_the_header, Construction, Score,
};
use kira_semantics::lattice::Lattice;
use kira_semantics::member_sweep::{
    begin_members, finish_members, resume_members, sweep_members, MembersStep,
};
use kira_semantics::names::Symbol;
use kira_semantics::scope::FnCtx;
use kira_semantics::slot_fills::{
    begin_filling, finish_filling, route_fills, settle_fill, FillRoute, FillValue, SlotFill,
};
use kira_semantics::source::{SourceId, Span};
use kira_semantics::syntax::{ExprId, FieldDefault, TypeRefId, TypeRefs, WrittenType};
use kira_semantics::ty::{
    EnumId, FieldDef, FieldName, IntSpelling, StructDef, StructId, StructName, Type,
};
use kira_semantics::update_order::{
    begin_copy, complete_update, settle_override, update_order, OverrideRole,
};
use kira_semantics::updates::{
    begin_update, check_overlaps, construct_field_reads, is_prefix, kept_overrides,
    paths_overlap, read_update, refuse_base, refuse_update, route_update, split_label,
    update_struct_fields, UpdateArgument, UpdateOverride, UpdateRoute, UpdateStart, UpdateTables,
};

const INT: Type = Type::Int(IntSpelling::Int);
const AT: Span = Span { start: 4, end: 7 };
const LABEL_AT: Span = Span { start: 1, end: 2 };
const HERE: SourceId = SourceId(0);

const CARD: StructId = StructId(0);
const POINT: StructId = StructId(1);
const TITLE: Symbol = Symbol(20);
const KIDS: Symbol = Symbol(21);
const AT_POINT: Symbol = Symbol(22);
const X: Symbol = Symbol(23);
const Y: Symbol = Symbol(24);

fn log() -> Log {
    Log::new(HERE)
}

fn lattice() -> Lattice {
    Lattice {
        assignable: vec![(INT, INT), (Type::Text, Type::Text)],
        erasable: vec![],
        user_drop: vec![],
        not_copyable: vec![],
    }
}

fn field(name: Symbol, ty: Type) -> FieldDef {
    FieldDef { name: FieldName::Plain(name), ty, mutable: false }
}

fn kids() -> ContentSlot {
    ContentSlot {
        field_index: 1,
        name: KIDS,
        list: true,
        element_ty: Type::Enum(EnumId(0)),
        field_ty: Type::Array(0),
        has_default: false,
    }
}

/// `Card(title: Text, kids: [some View], at: Point)` and `Point { x: Int, y: Int }`.
fn world() -> (HirProgram, ConstructTable) {
    let mut program = HirProgram::new();
    program.types.arrays.push(Type::Enum(EnumId(0)));
    program.types.structs.push(StructDef {
        name: StructName::Declared(Symbol(1)),
        owner: None,
        module: None,
        fields: vec![
            field(TITLE, Type::Text),
            field(KIDS, Type::Array(0)),
            field(AT_POINT, Type::Struct(POINT)),
        ],
    });
    program.types.structs.push(StructDef {
        name: StructName::Declared(Symbol(2)),
        owner: None,
        module: None,
        fields: vec![field(X, INT), field(Y, INT)],
    });
    let mut constructs = ConstructTable::new();
    constructs.rows.push((
        CARD,
        ConstructInfo {
            computed: vec![],
            family: Symbol(9),
            members: vec![],
            own_methods: vec![],
            slots: vec![kids()],
            families: vec![],
        },
    ));
    (program, constructs)
}

#[test]
fn inputs_are_the_fields_that_are_no_slot() {
    let (program, constructs) = world();
    let list = construct_input_slots(&program.types, &constructs, CARD);
    assert_eq!(list.len(), 2);
    assert_eq!(list[0].field_index, 0);
    assert_eq!(list[1].field_index, 2);
    let slots = constructs.child_slots(CARD);
    assert_eq!(find_slot(&slots, KIDS), Some(0));
    assert_eq!(find_slot(&slots, TITLE), None);
    let taken = route_arguments(
        &list,
        &slots,
        &vec![None, Some(KIDS), Some(AT_POINT), Some(Symbol(88)), None, None],
    );
    assert_eq!(
        taken,
        vec![
            ArgRoute::Input(0),
            ArgRoute::Slot(0),
            ArgRoute::Input(1),
            ArgRoute::NoInput,
            ArgRoute::Input(1),
            ArgRoute::TooMany,
        ]
    );
}

#[test]
fn an_argument_without_an_input_is_refused() {
    let mut said = log();
    refuse_argument(ArgRoute::Input(0), CARD, None, None, 2, AT, &mut said);
    assert!(said.diagnostics.is_empty());
    refuse_argument(
        ArgRoute::NoInput,
        CARD,
        Some(Symbol(88)),
        Some(LABEL_AT),
        2,
        AT,
        &mut said,
    );
    assert!(matches!(
        said.diagnostics[0].problem,
        Problem::NoSuchInput { label: Symbol(88), .. }
    ));
    assert_eq!(said.diagnostics[0].at.span, LABEL_AT);
    refuse_argument(ArgRoute::TooMany, CARD, None, None, 2, AT, &mut said);
    assert!(matches!(said.diagnostics[1].problem, Problem::TooManyInputs { takes: 2, .. }));
}

#[test]
fn an_argument_fills_its_input_once() {
    let (mut program, constructs) = world();
    let list = construct_input_slots(&program.types, &constructs, CARD);
    let text = program.add_expr(HirExpr::Str(None));
    let number = program.add_expr(HirExpr::Int(1));
    let mut given = vec![None, None, None];
    let mut said = log();
    settle_argument(&mut program, &lattice(), CARD, list[0], text, &mut given, AT, &mut said);
    assert_eq!(given[0], Some(text));
    assert!(said.diagnostics.is_empty());
    settle_argument(&mut program, &lattice(), CARD, list[0], text, &mut given, AT, &mut said);
    assert!(matches!(said.diagnostics[0].problem, Problem::InputSetTwice { .. }));
    let mut given = vec![None, None, None];
    settle_argument(&mut program, &lattice(), CARD, list[0], number, &mut given, AT, &mut said);
    assert!(matches!(
        said.diagnostics[1].problem,
        Problem::InputMismatch { expected: Type::Text, found: INT, .. }
    ));
}

#[test]
fn a_field_is_given_defaulted_or_missing() {
    let (mut program, _) = world();
    let text = program.add_expr(HirExpr::Str(None));
    let name = FieldName::Plain(TITLE);
    let default = FieldDefault { syntax: ExprId(3), source: SourceId(2), resolved: None };
    let mut resolving = vec![];
    let mut said = log();
    let given = begin_field(
        &mut program, CARD, 0, name, Type::Text, Some(text), Some(default), LABEL_AT, AT,
        &mut resolving, &mut said,
    );
    assert!(matches!(given, FieldStep::Value(id) if id == text));
    let analyze = begin_field(
        &mut program, CARD, 0, name, Type::Text, None, Some(default), LABEL_AT, AT,
        &mut resolving, &mut said,
    );
    assert!(matches!(analyze, FieldStep::Analyze(_)));
    // Reached again while it is being filled.
    begin_field(
        &mut program, CARD, 0, name, Type::Text, None, Some(default), LABEL_AT, AT,
        &mut resolving, &mut said,
    );
    assert!(matches!(said.diagnostics[0].problem, Problem::EndlessMemberDefault));
    assert_eq!(said.diagnostics[0].at.source, SourceId(2));
    let number = program.add_expr(HirExpr::Int(1));
    finish_field_default(
        &mut program, &lattice(), CARD, 0, name, Type::Text, number, LABEL_AT, &mut resolving,
        &mut said,
    );
    assert!(resolving.is_empty());
    assert!(matches!(
        said.diagnostics[1].problem,
        Problem::MemberDefaultMismatch { expected: Type::Text, found: INT, .. }
    ));
    begin_field(
        &mut program, CARD, 0, name, Type::Text, None, None, LABEL_AT, AT, &mut resolving,
        &mut said,
    );
    assert!(matches!(said.diagnostics[2].problem, Problem::MissingInput { .. }));
}

#[test]
fn a_bound_field_is_visible_to_the_defaults_behind_it() {
    let (mut program, _) = world();
    let mut ctx = FnCtx::new(Type::Void);
    let value = program.add_expr(HirExpr::Str(None));
    let read = bind_field(&mut program, &mut ctx, TITLE, Type::Text, value);
    assert_eq!(ctx.resolve(TITLE), Some(LocalId(0)));
    assert!(matches!(
        program.exprs[read.0 as usize],
        HirExpr::Local { local: LocalId(0), ty: Type::Text }
    ));
    assert_eq!(ctx.take_pending_stmts().len(), 1);
    let id = finish_construction(&mut program, CARD, vec![read]);
    assert!(matches!(&program.exprs[id.0 as usize], HirExpr::StructNew { struct_id: CARD, .. }));
}

#[test]
fn children_are_sorted_by_what_the_slot_holds() {
    assert_eq!(slot_content(true, &vec![false, false]), SlotContent::Fixed);
    assert_eq!(slot_content(true, &vec![false, true]), SlotContent::Built);
    assert_eq!(slot_content(false, &vec![false]), SlotContent::One);
    assert_eq!(slot_content(false, &vec![false, true]), SlotContent::Builder(1));
    assert_eq!(slot_content(false, &vec![false, false]), SlotContent::Count(2));
    assert_eq!(slot_content(false, &vec![]), SlotContent::Count(0));
    // A content parameter takes the only child, a builder too.
    assert_eq!(param_content(false, &vec![true]), SlotContent::One);
    assert_eq!(param_content(false, &vec![false, true]), SlotContent::Count(2));
    assert_eq!(param_content(true, &vec![false, true]), SlotContent::Built);
    assert_eq!(param_content(true, &vec![]), SlotContent::Fixed);
}

#[test]
fn a_slot_is_filled_once_with_what_it_holds() {
    let (mut program, _) = world();
    let mut single = kids();
    single.list = false;
    single.field_ty = single.element_ty;
    let slots = vec![single];
    let mut filled = vec![false];
    let mut said = log();
    assert!(begin_fill(&slots, &mut filled, 0, CARD, AT, &mut said));
    assert!(!begin_fill(&slots, &mut filled, 0, CARD, AT, &mut said));
    assert!(matches!(said.diagnostics[0].problem, Problem::SlotFilledTwice { slot: KIDS, .. }));
    let mut given = vec![None, None, None];
    refuse_content(
        &mut program, CARD, &slots[0], SlotContent::Builder(0), LABEL_AT, AT, &mut given, &mut said,
    );
    assert!(matches!(said.diagnostics[1].problem, Problem::BuilderInSingleSlot { .. }));
    refuse_content(
        &mut program, CARD, &slots[0], SlotContent::Count(2), LABEL_AT, AT, &mut given, &mut said,
    );
    assert!(matches!(said.diagnostics[2].problem, Problem::SlotHoldsOne { found: 2, .. }));
    assert!(given[1].is_some());
    let text = program.add_expr(HirExpr::Str(None));
    fill_one(&program, &lattice(), CARD, &slots[0], text, AT, &mut given, &mut said);
    assert_eq!(given[1], Some(text));
    assert!(matches!(
        said.diagnostics[3].problem,
        Problem::ChildMismatch { found: Type::Text, .. }
    ));
    fill_slot_from_value(&program, &lattice(), CARD, &slots[0], text, AT, &mut given, &mut said);
    assert!(matches!(said.diagnostics[4].problem, Problem::FillMismatch { .. }));
    refuse_children(CARD, AT, &mut said);
    assert!(matches!(said.diagnostics[5].problem, Problem::NoChildSlot { .. }));
    let id = refuse_content_count(&mut program, 3, AT, &mut said);
    assert!(matches!(program.exprs[id.0 as usize], HirExpr::Error));
    assert!(matches!(said.diagnostics[6].problem, Problem::ContentHoldsOne { found: 3 }));
}

#[test]
fn an_unfilled_list_slot_is_empty() {
    let (mut program, _) = world();
    let mut given = vec![None, None, None];
    fill_empty_lists(&mut program, &vec![kids()], &vec![false], &mut given);
    let id = given[1].unwrap();
    assert!(matches!(
        &program.exprs[id.0 as usize],
        HirExpr::ArrayNew { elements, .. } if elements.is_empty()
    ));
    let mut given = vec![None, None, None];
    fill_empty_lists(&mut program, &vec![kids()], &vec![true], &mut given);
    assert_eq!(given[1], None);
}

#[test]
fn a_built_list_appends_in_the_order_written() {
    let (mut program, _) = world();
    let mut ctx = FnCtx::new(Type::Void);
    let (local, start) = begin_built_list(&mut program, &mut ctx, Type::Array(0));
    let mut out = vec![start];
    let a = program.add_expr(HirExpr::Error);
    ctx.hoist_stmt(HirStmtId(77));
    append_child(&mut program, &mut ctx, local, a, &mut out);
    assert_eq!(out[1], HirStmtId(77));
    assert!(matches!(program.stmts[out[2].0 as usize], HirStmt::Expr { .. }));
    let cond = program.add_expr(HirExpr::Bool(true));
    ctx.hoist_stmt(HirStmtId(78));
    begin_branch(&mut ctx, &mut out);
    assert_eq!(out[3], HirStmtId(78));
    assert!(ctx.pending_stmts.is_empty());
    ctx.declare(X, INT, false);
    let mut then_body = vec![];
    append_child(&mut program, &mut ctx, local, a, &mut then_body);
    next_branch(&mut ctx);
    assert_eq!(ctx.resolve(X), None);
    ctx.declare(Y, INT, false);
    finish_branch(&mut program, &mut ctx, cond, then_body, vec![], &mut out);
    assert_eq!(ctx.resolve(Y), None);
    assert!(matches!(
        &program.stmts[out[4].0 as usize],
        HirStmt::If { then_body, else_body, .. } if then_body.len() == 1 && else_body.is_empty()
    ));
    let read = finish_built_list(&mut program, &mut ctx, local, Type::Array(0), &out);
    assert!(matches!(program.exprs[read.0 as usize], HirExpr::Local { .. }));
    assert_eq!(ctx.take_pending_stmts(), out);
    let list = fixed_list(&mut program, Type::Array(0), vec![a]);
    assert_eq!(program.exprs[list.0 as usize].type_of(), Type::Array(0));
}

#[test]
fn content_is_a_slot_of_its_own() {
    let (mut program, _) = world();
    let one = InitContent { slot: 0, list: false, element: INT };
    let slot = content_as_slot(&mut program.types, one, Symbol(5));
    assert_eq!(slot.field_ty, INT);
    assert!(!slot.list);
    let many = InitContent { slot: 0, list: true, element: INT };
    let slot = content_as_slot(&mut program.types, many, Symbol(5));
    assert_eq!(program.types.element_of(slot.field_ty), Some(INT));
}

#[test]
fn the_later_of_overlapping_paths_is_refused() {
    assert!(is_prefix(&vec![X], &vec![X, Y]));
    assert!(!is_prefix(&vec![Y], &vec![X, Y]));
    assert!(paths_overlap(&vec![X, Y], &vec![X]));
    assert!(!paths_overlap(&vec![X], &vec![Y]));
    let over = |label: u32, path: Vec<Symbol>| UpdateOverride {
        label: Symbol(label),
        path,
        span: AT,
        label_span: LABEL_AT,
    };
    let mut said = log();
    let invalid = check_overlaps(
        &vec![over(1, vec![AT_POINT]), over(2, vec![TITLE]), over(3, vec![AT_POINT, X])],
        &mut said,
    );
    assert_eq!(invalid, vec![false, false, true]);
    assert!(matches!(
        said.diagnostics[0].problem,
        Problem::UpdatePathsOverlap { left: Symbol(1), right: Symbol(3) }
    ));
    assert_eq!(said.diagnostics.len(), 1);
}

#[test]
fn a_label_splits_at_its_dots() {
    assert_eq!(split_label("at.x"), vec!["at".to_owned(), "x".to_owned()]);
    assert_eq!(split_label("title"), vec!["title".to_owned()]);
}

#[test]
fn an_update_needs_a_path() {
    let slots = vec![kids()];
    assert_eq!(route_update(&slots, None, &vec![]), UpdateRoute::Unlabeled);
    assert_eq!(route_update(&slots, Some(KIDS), &vec![KIDS]), UpdateRoute::Slot(0));
    assert_eq!(route_update(&slots, Some(X), &vec![X]), UpdateRoute::Override);
    assert_eq!(route_update(&slots, Some(X), &vec![]), UpdateRoute::EmptyPath);
    let mut said = log();
    refuse_update(UpdateRoute::Unlabeled, AT, None, &mut said);
    refuse_update(UpdateRoute::EmptyPath, AT, Some(LABEL_AT), &mut said);
    assert!(matches!(said.diagnostics[0].problem, Problem::UpdateNeedsField));
    assert!(matches!(said.diagnostics[1].problem, Problem::UpdateEmptyPath));
}

#[test]
fn an_update_copies_what_it_does_not_name() {
    let (mut program, constructs) = world();
    let mut ctx = FnCtx::new(Type::Void);
    let card = ctx.declare(Symbol(70), Type::Struct(CARD), false);
    let number = ctx.declare(Symbol(71), INT, false);
    let mut said = log();
    assert!(matches!(
        begin_update(&mut program, &mut ctx, &constructs, number),
        UpdateStart::Refused
    ));
    let refused = refuse_base(&mut program, AT, &mut said);
    assert!(matches!(program.exprs[refused.0 as usize], HirExpr::Error));
    assert!(matches!(said.diagnostics[0].problem, Problem::UpdateNeedsConstruct));
    let base = match begin_update(&mut program, &mut ctx, &constructs, card) {
        UpdateStart::Copies(_, base) => base,
        other => panic!("refused: {other:?}"),
    };
    ctx.ownership[card.0 as usize].moved = Some(AT);
    assert!(matches!(
        begin_update(&mut program, &mut ctx, &constructs, card),
        UpdateStart::Moved
    ));
    let reads = construct_field_reads(&mut program, CARD, base);
    assert_eq!(reads.len(), 3);
    let seven = program.add_expr(HirExpr::Int(7));
    let overrides = vec![UpdateOverride {
        label: Symbol(60),
        path: vec![AT_POINT, X],
        span: AT,
        label_span: LABEL_AT,
    }];
    let fn_types = FnTypeTable::new();
    let table = lattice();
    let values = vec![seven];
    let tables = UpdateTables {
        fn_types: &fn_types,
        lattice: &table,
        overrides: &overrides,
        values: &values,
        settled: &values,
    };
    let id = update_struct_fields(&mut program, &tables, Type::Struct(CARD), &reads, &vec![0]);
    assert_eq!(said.diagnostics.len(), 1);
    let fields = match &program.exprs[id.0 as usize] {
        HirExpr::StructNew { fields, .. } => fields.clone(),
        other => panic!("not built: {other:?}"),
    };
    assert_eq!(fields[0], reads[0]);
    assert_eq!(fields[1], reads[1]);
    let inner = match &program.exprs[fields[2].0 as usize] {
        HirExpr::StructNew { struct_id: POINT, fields } => fields.clone(),
        other => panic!("not built: {other:?}"),
    };
    assert_eq!(inner[0], seven);
    assert!(matches!(program.exprs[inner[1].0 as usize], HirExpr::Field { index: 1, .. }));
}

#[test]
fn an_update_that_leads_nowhere_is_reported() {
    let (mut program, _) = world();
    let number = program.add_expr(HirExpr::Int(7));
    let over = |label: u32, path: Vec<Symbol>| UpdateOverride {
        label: Symbol(label),
        path,
        span: AT,
        label_span: LABEL_AT,
    };
    let overrides =
        vec![over(1, vec![TITLE]), over(2, vec![KIDS, X]), over(3, vec![Symbol(99)])];
    let fn_types = FnTypeTable::new();
    let order = update_order(
        &program.types, &fn_types, &overrides, Type::Struct(CARD), &vec![false, false, false],
    );
    assert_eq!(order.iter().map(|entry| entry.0).collect::<Vec<usize>>(), vec![0, 1, 2]);
    let mut said = log();
    for (k, role) in order {
        // Each override is reported before the next value is analyzed.
        settle_override(&mut program, &lattice(), &overrides[k], role, number, &mut said);
        assert_eq!(said.diagnostics.len(), k + 1);
    }
    assert_eq!(said.diagnostics[0].at.span, AT);
    assert!(matches!(
        said.diagnostics[0].problem,
        Problem::UpdateMismatch { expected: Type::Text, found: INT, .. }
    ));
    assert_eq!(said.diagnostics[1].at.span, LABEL_AT);
    assert!(matches!(
        said.diagnostics[1].problem,
        Problem::UpdateCannotDescend { label: Symbol(2), from: 1, .. }
    ));
    assert!(matches!(
        said.diagnostics[2].problem,
        Problem::UpdateNoPath { label: Symbol(3), from: 0, ty: Type::Struct(CARD) }
    ));
}

fn refs() -> TypeRefs {
    TypeRefs {
        rows: vec![
            WrittenType { ty: INT, list_of: None, some: false },
            WrittenType { ty: Type::Enum(EnumId(0)), list_of: None, some: true },
        ],
    }
}

fn param(ty: u32) -> MethodParam {
    MethodParam { name: X, name_span: AT, ty: TypeRefId(ty), default: None }
}

#[test]
fn an_init_takes_content_last() {
    let mut said = log();
    let there = SourceId(6);
    let content = record_init_content(&refs(), &vec![param(0), param(1)], true, there, &mut said);
    assert!(matches!(content, Some(InitContent { slot: 1, list: false, .. })));
    assert!(record_init_content(&refs(), &vec![param(0)], true, there, &mut said).is_none());
    assert!(said.diagnostics.is_empty());
    record_init_content(&refs(), &vec![param(1), param(0)], true, there, &mut said);
    assert_eq!(said.diagnostics[0].at.source, there);
    assert_eq!(said.source, there);
    assert!(matches!(said.diagnostics[0].problem, Problem::ContentNotLast));
}

#[test]
fn an_init_may_not_take_what_the_header_takes() {
    let (program, constructs) = world();
    let mut said = log();
    refuse_init_shadowing_the_header(
        &program.types,
        &constructs,
        CARD,
        &vec![INT],
        None,
        AT,
        &mut said,
    );
    assert!(said.diagnostics.is_empty());
    let element = Type::Array(0);
    let content = Some(InitContent { slot: 2, list: true, element });
    refuse_init_shadowing_the_header(
        &program.types,
        &constructs,
        CARD,
        &vec![Type::Text, Type::Struct(POINT), element],
        content,
        AT,
        &mut said,
    );
    assert!(matches!(said.diagnostics[0].problem, Problem::InitShadowsHeader { .. }));
    assert!(header_takes_children(&constructs, CARD, true));
    assert!(!header_takes_children(&constructs, POINT, true));
    assert!(header_takes_children(&constructs, POINT, false));
}

#[test]
fn the_best_fit_is_constructed() {
    let cheap = Score { conversions: 0, defaulted: 0 };
    let dear = Score { conversions: 1, defaulted: 0 };
    assert!(cheap.no_worse(dear));
    assert!(!dear.no_worse(cheap));
    assert_eq!(pick_construction(Some(cheap), &vec![(FuncId(1), Some(cheap))]), Construction::Primary);
    assert_eq!(
        pick_construction(Some(dear), &vec![(FuncId(1), None), (FuncId(2), Some(cheap))]),
        Construction::Init(FuncId(2))
    );
    assert_eq!(pick_construction(None, &vec![]), Construction::Primary);
}

#[test]
fn the_header_is_scored_by_what_it_takes() {
    let (program, constructs) = world();
    let list = construct_input_slots(&program.types, &constructs, CARD);
    let reaches = vec![(Type::Text, Type::Text), (Type::Struct(POINT), Type::Struct(POINT))];
    let exact = primary_score(
        &list,
        &vec![None, None],
        &vec![Type::Text, Type::Struct(POINT)],
        &reaches,
        &vec![false, false, false],
    );
    assert!(exact.is_some());
    let missing = primary_score(
        &list,
        &vec![None],
        &vec![Type::Text],
        &reaches,
        &vec![false, false, false],
    );
    assert!(missing.is_none());
    let defaulted = primary_score(
        &list,
        &vec![None],
        &vec![Type::Text],
        &reaches,
        &vec![false, false, true],
    );
    assert!(defaulted.is_some());
    assert!(exact.unwrap().no_worse(defaulted.unwrap()));
    let content = Some(InitContent { slot: 1, list: false, element: INT });
    assert_eq!(init_argument_types(&vec![Type::Text], false, None), Some(vec![Type::Text]));
    assert_eq!(init_argument_types(&vec![Type::Text], true, None), None);
    assert!(init_argument_types(&vec![Type::Text], true, content).is_some());
}

fn stored(ty: Option<TypeRefId>, default: Option<ExprId>) -> BackedField {
    BackedField { name: X, name_span: AT, ty, default, slot: false, mutable: false }
}

#[test]
fn a_stored_member_is_inferred_from_its_initializer() {
    let (mut program, _) = world();
    let mut said = log();
    let written = stored(Some(TypeRefId(0)), Some(ExprId(1)));
    let open = stored(None, Some(ExprId(1)));
    assert_eq!(begin_member(&written, INT, &mut said), MemberStep::Analyze(Some(INT)));
    assert_eq!(begin_member(&open, Type::Error, &mut said), MemberStep::Analyze(None));
    assert!(said.diagnostics.is_empty());
    assert_eq!(begin_member(&stored(None, None), INT, &mut said), MemberStep::Declared);
    assert!(matches!(said.diagnostics[0].problem, Problem::MemberNeedsType { member: X }));
    let mut settled = program.types.structs[1].fields.clone();
    let ty = finish_member(
        &mut settled, &lattice(), 0, &open, Type::Bool, false, AT, &mut said,
    );
    assert_eq!(ty, Type::Bool);
    assert_eq!(settled[0].ty, Type::Bool);
    finish_member(
        &mut settled, &lattice(), 0, &open, Type::Error, false, AT, &mut said,
    );
    assert!(matches!(said.diagnostics[1].problem, Problem::MemberTypeUnknown { member: X }));
    finish_member(
        &mut settled, &lattice(), 0, &open, Type::Error, true, AT, &mut said,
    );
    assert_eq!(said.diagnostics.len(), 2);
    finish_member(
        &mut settled, &lattice(), 1, &written, Type::Text, false, AT, &mut said,
    );
    assert!(matches!(
        said.diagnostics[2].problem,
        Problem::MemberMismatch { expected: INT, found: Type::Text, .. }
    ));
    let mut ctx = begin_member_types(
        &program.types,
        CARD,
        &vec![BackedParam { name: TITLE, name_span: AT, ty: TypeRefId(0), default: None }],
    );
    assert_eq!(ctx.resolve(TITLE), Some(LocalId(0)));
    bind_member(&mut ctx, X, INT);
    assert_eq!(ctx.resolve(X), Some(LocalId(1)));
}

#[test]
fn every_argument_is_settled_in_order() {
    let (mut program, constructs) = world();
    let list = construct_input_slots(&program.types, &constructs, CARD);
    let text = program.add_expr(HirExpr::Str(None));
    let number = program.add_expr(HirExpr::Int(1));
    let arg = |label: Option<Symbol>, value| GivenArgument { label, label_span: None, value };
    let args = vec![
        arg(None, text),
        arg(Some(KIDS), text),
        arg(Some(TITLE), text),
        arg(Some(Symbol(88)), text),
        arg(None, number),
        arg(None, number),
    ];
    let mut given = vec![None, None, None];
    let mut said = log();
    let labels = args.iter().map(|arg| arg.label).collect();
    for (k, route) in route_arguments(&list, &vec![kids()], &labels).into_iter().enumerate() {
        settle_routed(
            &mut program, &lattice(), CARD, &list, args[k], route, &mut given, AT, &mut said,
        );
    }
    assert_eq!(given, vec![Some(text), None, Some(number)]);
    assert_eq!(said.diagnostics.len(), 4);
    assert!(matches!(said.diagnostics[0].problem, Problem::InputSetTwice { .. }));
    assert!(matches!(
        said.diagnostics[1].problem,
        Problem::NoSuchInput { label: Symbol(88), .. }
    ));
    assert!(matches!(
        said.diagnostics[2].problem,
        Problem::InputMismatch { expected: Type::Struct(POINT), found: INT, .. }
    ));
    assert!(matches!(said.diagnostics[3].problem, Problem::TooManyInputs { takes: 2, .. }));
}

#[test]
fn fields_are_completed_in_declaration_order() {
    let (mut program, _) = world();
    let mut ctx = FnCtx::new(Type::Void);
    let outside = Symbol(70);
    ctx.declare(outside, INT, false);
    let value = program.add_expr(HirExpr::Int(3));
    let default = FieldDefault { syntax: ExprId(3), source: SourceId(2), resolved: None };
    let defaults = vec![vec![], vec![None, Some(default)]];
    let spans = vec![LABEL_AT, LABEL_AT];
    let mut resolving = vec![];
    let mut said = log();
    let mut sweep = begin_sweep(&mut ctx, &program.types, POINT, vec![Some(value), None]);
    let step = sweep_fields(
        &mut program, &mut ctx, &mut sweep, &defaults, &spans, AT, &mut resolving, &mut said,
    );
    assert_eq!(step, SweepStep::Analyze { default, ty: INT });
    assert_eq!(resolving, vec![(POINT.0, 1)]);
    // The default may name the field before it, and neither itself nor the caller's locals.
    assert_eq!(ctx.resolve(X), Some(LocalId(1)));
    assert_eq!(ctx.resolve(Y), None);
    assert_eq!(ctx.resolve(outside), None);
    let answer = program.add_expr(HirExpr::Local { local: LocalId(1), ty: INT });
    resume_sweep(
        &mut program, &mut ctx, &lattice(), &mut sweep, answer, LABEL_AT, &mut resolving,
        &mut said,
    );
    assert!(resolving.is_empty());
    let step = sweep_fields(
        &mut program, &mut ctx, &mut sweep, &defaults, &spans, AT, &mut resolving, &mut said,
    );
    let id = match step {
        SweepStep::Done(id) => id,
        _ => panic!("every field is complete"),
    };
    assert!(said.diagnostics.is_empty());
    assert_eq!(sweep.locals, vec![LocalId(1), LocalId(2)]);
    match &program.exprs[id.0 as usize] {
        HirExpr::StructNew { struct_id, fields } => {
            assert_eq!(*struct_id, POINT);
            assert_eq!(*fields, sweep.reads);
        }
        _ => panic!("a construction"),
    }
    assert_eq!(ctx.resolve(outside), Some(LocalId(0)));
    assert_eq!(ctx.resolve(X), None);
}

#[test]
fn a_field_without_a_value_is_reported_by_the_sweep() {
    let (mut program, _) = world();
    let mut ctx = FnCtx::new(Type::Void);
    let mut said = log();
    let mut sweep = begin_sweep(&mut ctx, &program.types, POINT, vec![None, None]);
    let step = sweep_fields(
        &mut program, &mut ctx, &mut sweep, &vec![], &vec![AT, AT], AT, &mut vec![], &mut said,
    );
    assert!(matches!(step, SweepStep::Done(_)));
    assert_eq!(said.diagnostics.len(), 2);
    assert!(matches!(
        said.diagnostics[1].problem,
        Problem::MissingInput { construct: POINT, field: FieldName::Plain(Y) }
    ));
}

#[test]
fn an_update_is_read_argument_by_argument() {
    let argument = |label: Option<Symbol>, path: Vec<Symbol>, label_span: Option<Span>| {
        UpdateArgument { label, path, span: AT, label_span }
    };
    let args = vec![
        argument(Some(TITLE), vec![TITLE], Some(LABEL_AT)),
        argument(Some(KIDS), vec![KIDS], None),
        argument(None, vec![], None),
        argument(Some(Symbol(50)), vec![], Some(LABEL_AT)),
        argument(Some(Symbol(51)), vec![AT_POINT, X], None),
    ];
    let mut said = log();
    let read = read_update(&vec![kids()], &args);
    let overrides = read.overrides;
    assert_eq!(overrides.len(), 2);
    assert_eq!(overrides[0].label_span, LABEL_AT);
    assert_eq!(overrides[1].path, vec![AT_POINT, X]);
    assert_eq!(overrides[1].label_span, AT);
    assert_eq!(read.restated, vec![(0, 1)]);
    assert_eq!(
        read.refused,
        vec![(2, UpdateRoute::Unlabeled), (3, UpdateRoute::EmptyPath)]
    );
    for (k, route) in read.refused {
        refuse_update(route, args[k].span, args[k].label_span, &mut said);
    }
    assert_eq!(said.diagnostics.len(), 2);
    assert!(matches!(said.diagnostics[0].problem, Problem::UpdateNeedsField));
    assert_eq!(said.diagnostics[0].at.span, AT);
    assert!(matches!(said.diagnostics[1].problem, Problem::UpdateEmptyPath));
    assert_eq!(said.diagnostics[1].at.span, LABEL_AT);
}

#[test]
fn a_construction_in_a_default_leaves_the_outer_one_going() {
    let (mut program, _) = world();
    let mut ctx = FnCtx::new(Type::Void);
    let value = program.add_expr(HirExpr::Int(3));
    let default = FieldDefault { syntax: ExprId(3), source: SourceId(2), resolved: None };
    let defaults = vec![vec![], vec![None, Some(default)]];
    let spans = vec![AT, AT];
    let mut resolving = vec![];
    let mut said = log();
    let mut outer = begin_sweep(&mut ctx, &program.types, POINT, vec![Some(value), None]);
    sweep_fields(
        &mut program, &mut ctx, &mut outer, &defaults, &spans, AT, &mut resolving, &mut said,
    );
    // The default constructs another point.
    let mut inner = begin_sweep(&mut ctx, &program.types, POINT, vec![Some(value), Some(value)]);
    assert_eq!(ctx.resolve(X), None);
    let step = sweep_fields(
        &mut program, &mut ctx, &mut inner, &defaults, &spans, AT, &mut resolving, &mut said,
    );
    assert!(matches!(step, SweepStep::Done(_)));
    assert_eq!(ctx.resolve(X), Some(LocalId(0)));
    resume_sweep(
        &mut program, &mut ctx, &lattice(), &mut outer, value, AT, &mut resolving, &mut said,
    );
    let step = sweep_fields(
        &mut program, &mut ctx, &mut outer, &defaults, &spans, AT, &mut resolving, &mut said,
    );
    assert!(matches!(step, SweepStep::Done(_)));
    assert!(said.diagnostics.is_empty());
}

#[test]
fn members_are_settled_in_declaration_order() {
    let (mut program, _) = world();
    program.types.structs[1].fields[0].ty = Type::Error;
    let member = |name: Symbol, ty: Option<TypeRefId>, default: Option<ExprId>| BackedField {
        name,
        name_span: AT,
        ty,
        default,
        slot: false,
        mutable: false,
    };
    let members =
        vec![member(X, None, Some(ExprId(1))), member(Y, Some(TypeRefId(0)), Some(ExprId(2)))];
    let params = vec![];
    let mut said = log();
    let (mut ctx, mut sweep) = begin_members(&program.types, POINT, &params, &members);
    let step = sweep_members(
        &program.types, &mut ctx, &mut sweep, &params, &members, HERE, &mut said,
    );
    assert_eq!(step, MembersStep::Analyze { initializer: ExprId(1), expected: None });
    assert_eq!(ctx.resolve(X), None);
    resume_members(
        &program.types, &mut ctx, &lattice(), &mut sweep, &params, &members, Type::Bool, false,
        AT, HERE, &mut said,
    );
    let step = sweep_members(
        &program.types, &mut ctx, &mut sweep, &params, &members, HERE, &mut said,
    );
    assert_eq!(step, MembersStep::Analyze { initializer: ExprId(2), expected: Some(INT) });
    assert_eq!(ctx.resolve(X), Some(LocalId(0)));
    assert_eq!(ctx.locals[0].ty, Type::Bool);
    // Nothing takes effect before every member is settled.
    assert_eq!(program.types.structs[1].fields[0].ty, Type::Error);
    resume_members(
        &program.types, &mut ctx, &lattice(), &mut sweep, &params, &members, Type::Text, false,
        AT, SourceId(4), &mut said,
    );
    let step = sweep_members(
        &program.types, &mut ctx, &mut sweep, &params, &members, HERE, &mut said,
    );
    assert_eq!(step, MembersStep::Done);
    finish_members(&mut program.types, &mut ctx, sweep, &params, &members);
    assert_eq!(program.types.structs[1].fields[0].ty, Type::Bool);
    assert_eq!(program.types.structs[1].fields[1].ty, INT);
    assert_eq!(said.diagnostics.len(), 1);
    assert!(matches!(
        said.diagnostics[0].problem,
        Problem::MemberMismatch { member: Y, expected: INT, found: Type::Text }
    ));
    assert_eq!(said.diagnostics[0].at.source, SourceId(4));
}

#[test]
fn a_member_with_neither_type_nor_initializer_is_reported_by_the_sweep() {
    let (program, _) = world();
    let members = vec![BackedField {
        name: X,
        name_span: LABEL_AT,
        ty: None,
        default: None,
        slot: false,
        mutable: false,
    }];
    let mut said = log();
    let (mut ctx, mut sweep) = begin_members(&program.types, POINT, &vec![], &members);
    let step = sweep_members(
        &program.types, &mut ctx, &mut sweep, &vec![], &members, SourceId(3), &mut said,
    );
    assert_eq!(step, MembersStep::Done);
    assert!(matches!(said.diagnostics[0].problem, Problem::MemberNeedsType { member: X }));
    assert_eq!(said.diagnostics[0].at.source, SourceId(3));
    assert_eq!(said.source, HERE);
}

#[test]
fn a_slot_takes_its_first_fill() {
    assert_eq!(
        route_fills(2, &vec![1, 1], true),
        vec![FillRoute::Fills(1), FillRoute::Again(1), FillRoute::Fills(0)]
    );
    assert_eq!(route_fills(1, &vec![0], true), vec![FillRoute::Fills(0), FillRoute::Again(0)]);
    assert_eq!(route_fills(0, &vec![], true), vec![FillRoute::NoSlot]);
    let (mut program, _) = world();
    let slots = vec![kids()];
    let list = program.add_expr(HirExpr::ArrayNew { ty: Type::Array(0), elements: vec![] });
    let other = program.add_expr(HirExpr::Int(1));
    let mut said = log();
    let mut filling = begin_filling(&slots, vec![Some(other), None, None]);
    for fill in [
        SlotFill { slot: 0, value: FillValue::List(list), at: LABEL_AT },
        SlotFill { slot: 0, value: FillValue::List(other), at: LABEL_AT },
        SlotFill { slot: 0, value: FillValue::List(other), at: AT },
    ] {
        settle_fill(&mut program, &lattice(), CARD, &slots, fill, &mut filling, &mut said);
    }
    let given = finish_filling(&mut program, &slots, filling);
    assert_eq!(given, vec![Some(other), Some(list), None]);
    assert_eq!(said.diagnostics.len(), 2);
    assert_eq!(said.diagnostics[0].at.span, LABEL_AT);
    assert_eq!(said.diagnostics[1].at.span, AT);
    assert!(matches!(
        said.diagnostics[1].problem,
        Problem::SlotFilledTwice { construct: CARD, slot: KIDS }
    ));
    // Nothing at all leaves the list slot empty.
    let filling = begin_filling(&slots, vec![None, None, None]);
    let given = finish_filling(&mut program, &slots, filling);
    assert_eq!(given[0], None);
    assert!(matches!(
        &program.exprs[given[1].unwrap().0 as usize],
        HirExpr::ArrayNew { ty: Type::Array(0), elements } if elements.is_empty()
    ));
    // A value the slot does not admit fills it all the same.
    let mut filling = begin_filling(&slots, vec![None, None, None]);
    let fill = SlotFill { slot: 0, value: FillValue::Value(other, AT), at: AT };
    settle_fill(&mut program, &lattice(), CARD, &slots, fill, &mut filling, &mut said);
    assert_eq!(filling.entries[1], Some(other));
    assert!(matches!(said.diagnostics[2].problem, Problem::FillMismatch { slot: KIDS, .. }));
}

#[test]
fn refused_content_leaves_an_error_in_its_slot() {
    let (mut program, _) = world();
    let mut single = kids();
    single.list = false;
    single.field_ty = single.element_ty;
    let slots = vec![single];
    let base = program.add_expr(HirExpr::Local { local: LocalId(0), ty: Type::Struct(CARD) });
    let entries = begin_copy(&mut program, CARD, base);
    let read = entries[1];
    let mut said = log();
    let mut filling = begin_filling(&slots, entries);
    let fill = SlotFill { slot: 0, value: FillValue::Refused(SlotContent::Count(2), AT), at: AT };
    settle_fill(&mut program, &lattice(), CARD, &slots, fill, &mut filling, &mut said);
    assert_eq!(said.diagnostics[0].at.span, AT);
    assert!(matches!(said.diagnostics[0].problem, Problem::SlotHoldsOne { found: 2, .. }));
    let again =
        SlotFill { slot: 0, value: FillValue::Refused(SlotContent::Builder(0), AT), at: LABEL_AT };
    settle_fill(&mut program, &lattice(), CARD, &slots, again, &mut filling, &mut said);
    assert!(matches!(said.diagnostics[1].problem, Problem::SlotFilledTwice { .. }));
    let entries = finish_filling(&mut program, &slots, filling);
    assert_ne!(entries[1], read);
    let fn_types = FnTypeTable::new();
    let table = lattice();
    let tables = UpdateTables {
        fn_types: &fn_types,
        lattice: &table,
        overrides: &vec![],
        values: &vec![],
        settled: &vec![],
    };
    let id = complete_update(&mut program, &tables, CARD, &entries, &vec![]);
    let fields = match &program.exprs[id.0 as usize] {
        HirExpr::StructNew { struct_id: CARD, fields } => fields.clone(),
        other => panic!("not built: {other:?}"),
    };
    assert!(matches!(program.exprs[fields[1].0 as usize], HirExpr::Error));
    assert!(matches!(program.exprs[fields[0].0 as usize], HirExpr::Field { index: 0, .. }));
}

#[test]
fn an_update_applies_what_no_earlier_override_overlaps() {
    let (mut program, _) = world();
    let over = |label: u32, path: Vec<Symbol>| UpdateOverride {
        label: Symbol(label),
        path,
        span: AT,
        label_span: LABEL_AT,
    };
    // Written as at.x, at, gone, at.y and title.
    let overrides = vec![
        over(1, vec![AT_POINT, X]),
        over(2, vec![AT_POINT]),
        over(3, vec![Symbol(99)]),
        over(4, vec![AT_POINT, Y]),
        over(5, vec![TITLE]),
    ];
    let mut said = log();
    let invalid = check_overlaps(&overrides, &mut said);
    assert_eq!(invalid, vec![false, true, false, true, false]);
    assert_eq!(said.diagnostics.len(), 2);
    assert_eq!(kept_overrides(&overrides, &invalid), vec![0, 2, 4]);
    let fn_types = FnTypeTable::new();
    let order = update_order(&program.types, &fn_types, &overrides, Type::Struct(CARD), &invalid);
    assert_eq!(
        order,
        vec![
            (4, OverrideRole::Writes { field: FieldName::Plain(TITLE), ty: Type::Text }),
            (0, OverrideRole::Writes { field: FieldName::Plain(X), ty: INT }),
            (2, OverrideRole::Missing { ty: Type::Struct(CARD), from: 0 }),
            (1, OverrideRole::Unused),
            (3, OverrideRole::Unused),
        ]
    );
    assert_eq!(order[0].1.expected(), Some(Type::Text));
    assert_eq!(order[2].1.expected(), None);
    let base = program.add_expr(HirExpr::Local { local: LocalId(0), ty: Type::Struct(CARD) });
    let number = program.add_expr(HirExpr::Int(7));
    let text = program.add_expr(HirExpr::Str(None));
    let list = program.add_expr(HirExpr::ArrayNew { ty: Type::Array(0), elements: vec![] });
    let table = lattice();
    let values = vec![number, number, number, number, text];
    let mut said = log();
    let entries = begin_copy(&mut program, CARD, base);
    let mut filling = begin_filling(&vec![kids()], entries);
    let fill = SlotFill { slot: 0, value: FillValue::List(list), at: AT };
    settle_fill(&mut program, &table, CARD, &vec![kids()], fill, &mut filling, &mut said);
    let entries = finish_filling(&mut program, &vec![kids()], filling);
    let mut settled = values.clone();
    for (k, role) in order {
        settled[k] =
            settle_override(&mut program, &table, &overrides[k], role, values[k], &mut said);
    }
    let tables = UpdateTables {
        fn_types: &fn_types,
        lattice: &table,
        overrides: &overrides,
        values: &values,
        settled: &settled,
    };
    let id = complete_update(&mut program, &tables, CARD, &entries, &invalid);
    assert_eq!(said.diagnostics.len(), 1);
    assert!(matches!(said.diagnostics[0].problem, Problem::UpdateNoPath { from: 0, .. }));
    let fields = match &program.exprs[id.0 as usize] {
        HirExpr::StructNew { struct_id: CARD, fields } => fields.clone(),
        other => panic!("not built: {other:?}"),
    };
    assert_eq!(fields[0], text);
    assert_eq!(fields[1], list);
    match &program.exprs[fields[2].0 as usize] {
        HirExpr::StructNew { struct_id: POINT, fields } => {
            assert_eq!(fields[0], number);
            assert!(matches!(
                program.exprs[fields[1].0 as usize],
                HirExpr::Field { index: 1, .. }
            ));
        }
        other => panic!("not built: {other:?}"),
    }
}
