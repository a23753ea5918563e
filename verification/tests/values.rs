use kira_semantics::arrays::{
    analyze_array_property, begin_array_method, check_append_arity, check_index_type,
    expected_element, finish_append, finish_array_literal, finish_index, settle_subscript_probe,
    unsupported_member, ArrayWords, IndexStep,
};
use kira_semantics::callables::{CallName, NameForm};
use kira_semantics::cells::{box_binding, cell_can_hold, cell_place, read_local};
use kira_semantics::coercion::{admits, coerce_into, int_literal};
use kira_semantics::diagnostics::{Log, Problem};
use kira_semantics::field_reads::{resolve_field, resolve_field_quietly};
use kira_semantics::fn_types::{function_type, FnTypeTable};
use kira_semantics::drop_reads::DropReads;
use kira_semantics::hir::{
    ConvertKind, FuncId, HirExpr, HirExprId, HirPlace, HirPlaceStep, HirProgram, HirStmt,
    HirStmtId, LocalId,
};
use kira_semantics::imports::ImportTable;
use kira_semantics::lattice::Lattice;
use kira_semantics::names::Symbol;
use kira_semantics::scope::FnCtx;
use kira_semantics::signatures::{CallableSignature, FuncSig, SigTable, ThreadAffinity};
use kira_semantics::source::{SourceId, Span};
use kira_semantics::ty::{
    Execution, FieldDef, FieldName, IntSpelling, OwnershipMode, StructDef, StructId, StructName, Type,
    TypeTable,
};

const INT: Type = Type::Int(IntSpelling::Int);
const AT: Span = Span { start: 4, end: 7 };
const WORDS: ArrayWords =
    ArrayWords { count: Symbol(1), append: Symbol(2), subscript: Symbol(3) };

fn no_lattice() -> Lattice {
    Lattice { assignable: vec![], erasable: vec![], user_drop: vec![], not_copyable: vec![] }
}

fn lattice(pairs: Vec<(Type, Type)>, erasable: Vec<Type>) -> Lattice {
    Lattice { assignable: pairs, erasable, user_drop: vec![], not_copyable: vec![] }
}

fn log() -> Log {
    Log::new(SourceId(0))
}

#[test]
fn the_lattice_alone_decides_what_is_admitted() {
    let table = lattice(vec![(INT, Type::Any)], vec![]);
    assert!(admits(&table, INT, Type::Any));
    assert!(!admits(&table, Type::Any, INT));
}

#[test]
fn an_erasable_value_is_wrapped_once() {
    let mut program = HirProgram::new();
    let value = program.add_expr(HirExpr::Bool(true));
    let table = lattice(vec![], vec![Type::Bool]);
    let wrapped = coerce_into(&mut program, &table, value, Type::Any);
    assert!(matches!(
        program.exprs[wrapped.0 as usize],
        HirExpr::IntoAny { value: HirExprId(0), from: Type::Bool }
    ));
    assert_eq!(coerce_into(&mut program, &table, wrapped, Type::Any), wrapped);
    assert_eq!(program.exprs.len(), 2);
}

#[test]
fn a_fitting_literal_and_a_wider_spelling_cross_as_they_are() {
    let mut program = HirProgram::new();
    let literal = program.add_expr(HirExpr::Int(255));
    let table = no_lattice();
    assert_eq!(coerce_into(&mut program, &table, literal, Type::Int(IntSpelling::U8)), literal);
    let narrow =
        program.add_expr(HirExpr::Local { local: LocalId(0), ty: Type::Int(IntSpelling::U8) });
    assert_eq!(coerce_into(&mut program, &table, narrow, INT), narrow);
    assert_eq!(program.exprs.len(), 2);
}

#[test]
fn a_value_that_may_not_fit_is_converted() {
    let mut program = HirProgram::new();
    let big = program.add_expr(HirExpr::Int(256));
    let result = coerce_into(&mut program, &no_lattice(), big, Type::Int(IntSpelling::U8));
    assert!(matches!(
        program.exprs[result.0 as usize],
        HirExpr::Convert {
            operand: HirExprId(0),
            kind: ConvertKind::IntToInt,
            ty: Type::Int(IntSpelling::U8)
        }
    ));
}

#[test]
fn a_literal_too_large_for_its_slot_is_refused() {
    let mut program = HirProgram::new();
    let mut said = log();
    let id = int_literal(&mut program, 300, AT, Some(Type::Int(IntSpelling::U8)), &mut said);
    assert!(matches!(program.exprs[id.0 as usize], HirExpr::Error));
    assert!(matches!(
        said.diagnostics[0].problem,
        Problem::LiteralDoesNotFit { value: 300, spelling: IntSpelling::U8 }
    ));
    assert_eq!(said.diagnostics[0].at.span, AT);
    // A hexadecimal literal is a bit pattern: as `U64` it names an unsigned value.
    let all = int_literal(&mut program, -1, AT, Some(Type::Int(IntSpelling::U64)), &mut said);
    assert!(matches!(program.exprs[all.0 as usize], HirExpr::Int(-1)));
    assert_eq!(said.diagnostics.len(), 1);
}

#[test]
fn integer_spellings_hold_their_ranges() {
    assert!(IntSpelling::I8.holds(-128));
    assert!(!IntSpelling::I8.holds(128));
    assert!(IntSpelling::U64.holds(18_446_744_073_709_551_615));
    assert!(IntSpelling::U32.widens_into(IntSpelling::Int));
    assert!(!IntSpelling::U64.widens_into(IntSpelling::I64));
}

#[test]
fn an_array_literal_takes_the_first_sound_type() {
    let mut program = HirProgram::new();
    let bad = program.add_expr(HirExpr::Error);
    let one = program.add_expr(HirExpr::Int(1));
    let text = program.add_expr(HirExpr::Str(None));
    let table = lattice(vec![(INT, INT), (Type::Error, INT)], vec![]);
    let mut said = log();
    let spans = vec![Span { start: 1, end: 2 }, Span { start: 3, end: 4 }, Span { start: 5, end: 6 }];
    let id = finish_array_literal(
        &mut program,
        &table,
        &vec![bad, one, text],
        &spans,
        None,
        AT,
        &mut said,
    );
    match &program.exprs[id.0 as usize] {
        HirExpr::ArrayNew { ty, elements } => {
            assert_eq!(*ty, Type::Array(0));
            assert_eq!(elements, &vec![bad, one, text]);
        }
        other => panic!("not an array: {other:?}"),
    }
    assert_eq!(program.types.arrays, vec![INT]);
    assert_eq!(said.diagnostics.len(), 1);
    assert!(matches!(
        said.diagnostics[0].problem,
        Problem::ArrayElementMismatch { element: INT, found: Type::Text }
    ));
    assert_eq!(said.diagnostics[0].at.span, spans[2]);
}

#[test]
fn two_bad_elements_report_twice() {
    let mut program = HirProgram::new();
    let a = program.add_expr(HirExpr::Bool(true));
    let b = program.add_expr(HirExpr::Str(None));
    let mut said = log();
    finish_array_literal(
        &mut program,
        &no_lattice(),
        &vec![a, b],
        &vec![AT, AT],
        Some(INT),
        AT,
        &mut said,
    );
    assert_eq!(said.diagnostics.len(), 2);
}

#[test]
fn an_empty_literal_needs_an_annotation() {
    let mut program = HirProgram::new();
    let mut said = log();
    let id = finish_array_literal(
        &mut program,
        &no_lattice(),
        &vec![],
        &vec![],
        None,
        AT,
        &mut said,
    );
    assert!(matches!(program.exprs[id.0 as usize], HirExpr::Error));
    assert!(matches!(said.diagnostics[0].problem, Problem::ArrayTypeUnknown));
    let known = program.types.array_of(INT);
    assert_eq!(expected_element(&program.types, Some(known)), Some(INT));
    assert_eq!(expected_element(&program.types, Some(INT)), None);
    let expected = expected_element(&program.types, Some(known));
    let id = finish_array_literal(
        &mut program,
        &no_lattice(),
        &vec![],
        &vec![],
        expected,
        AT,
        &mut said,
    );
    assert!(matches!(&program.exprs[id.0 as usize], HirExpr::ArrayNew { ty, .. } if *ty == known));
    assert_eq!(said.diagnostics.len(), 1);
}

#[test]
fn a_literal_of_failed_elements_stays_silent() {
    let mut program = HirProgram::new();
    let bad = program.add_expr(HirExpr::Error);
    let mut said = log();
    let id = finish_array_literal(
        &mut program,
        &no_lattice(),
        &vec![bad],
        &vec![AT],
        None,
        AT,
        &mut said,
    );
    assert!(matches!(program.exprs[id.0 as usize], HirExpr::Error));
    assert!(said.diagnostics.is_empty());
}

#[test]
fn indexing_reads_an_element() {
    let mut program = HirProgram::new();
    let array_ty = program.types.array_of(Type::Text);
    let base = program.add_expr(HirExpr::Local { local: LocalId(0), ty: array_ty });
    let index = program.add_expr(HirExpr::Int(0));
    let mut said = log();
    let step = finish_index(
        &mut program, &vec![], Symbol(9), &lattice(vec![], vec![]), base, index, AT, &mut DropReads::new(), &mut said,
    );
    assert_eq!(step, IndexStep::Read(HirExprId(2)));
    assert_eq!(program.exprs[2].type_of(), Type::Text);
    assert!(said.diagnostics.is_empty());
}

#[test]
fn only_an_array_can_be_indexed() {
    let mut program = HirProgram::new();
    let number = program.add_expr(HirExpr::Int(1));
    let broken = program.add_expr(HirExpr::Error);
    let packed =
        program.add_expr(HirExpr::Local { local: LocalId(0), ty: Type::Struct(StructId(5)) });
    let pointer =
        program.add_expr(HirExpr::Local { local: LocalId(1), ty: Type::ForeignPtr(8) });
    let mut said = log();
    let foreign = vec![StructId(5)];
    assert!(matches!(
        finish_index(
        &mut program, &foreign, Symbol(9), &lattice(vec![], vec![]), number, number, AT, &mut DropReads::new(), &mut said,
    ),
        IndexStep::Refused(_)
    ));
    assert!(matches!(said.diagnostics[0].problem, Problem::CannotIndex { ty: INT }));
    finish_index(
        &mut program, &foreign, Symbol(9), &lattice(vec![], vec![]), broken, number, AT, &mut DropReads::new(), &mut said,
    );
    assert_eq!(said.diagnostics.len(), 1);
    finish_index(
        &mut program, &foreign, Symbol(9), &lattice(vec![], vec![]), packed, number, AT, &mut DropReads::new(), &mut said,
    );
    assert!(matches!(
        said.diagnostics[1].problem,
        Problem::ForeignArrayIndexed { field: Symbol(9), .. }
    ));
    assert_eq!(
        finish_index(
        &mut program, &foreign, Symbol(9), &lattice(vec![], vec![]), pointer, number, AT, &mut DropReads::new(), &mut said,
    ),
        IndexStep::Foreign { pointer: 8 }
    );
}

#[test]
fn an_index_is_an_integer_of_any_width() {
    let mut program = HirProgram::new();
    let narrow =
        program.add_expr(HirExpr::Local { local: LocalId(0), ty: Type::Int(IntSpelling::U8) });
    let text = program.add_expr(HirExpr::Str(None));
    let broken = program.add_expr(HirExpr::Error);
    let mut said = log();
    check_index_type(&program, narrow, AT, &mut said);
    check_index_type(&program, broken, AT, &mut said);
    assert!(said.diagnostics.is_empty());
    check_index_type(&program, text, AT, &mut said);
    assert!(matches!(said.diagnostics[0].problem, Problem::IndexNotInteger { found: Type::Text }));
}

#[test]
fn the_array_surface_is_two_members() {
    let mut program = HirProgram::new();
    let array = program.add_expr(HirExpr::Error);
    let mut said = log();
    let count = analyze_array_property(
        &mut program, WORDS, array, Symbol(1), AT, &mut DropReads::new(), &mut said,
    );
    assert!(matches!(program.exprs[count.0 as usize], HirExpr::ArrayLen { array: HirExprId(0) }));
    analyze_array_property(
        &mut program, WORDS, array, Symbol(2), AT, &mut DropReads::new(), &mut said,
    );
    assert!(matches!(said.diagnostics[0].problem, Problem::AppendIsMethod));
    analyze_array_property(
        &mut program, WORDS, array, Symbol(7), AT, &mut DropReads::new(), &mut said,
    );
    assert!(matches!(said.diagnostics[1].problem, Problem::NoArrayMember { member: Symbol(7) }));
    assert!(begin_array_method(WORDS, Symbol(2), AT, &mut said));
    assert_eq!(said.diagnostics.len(), 2);
    assert!(!begin_array_method(WORDS, Symbol(1), AT, &mut said));
    assert!(matches!(said.diagnostics[2].problem, Problem::CountIsProperty));
    assert!(!begin_array_method(WORDS, Symbol(7), AT, &mut said));
    assert!(matches!(said.diagnostics[3].problem, Problem::NoArrayMember { .. }));
    assert_eq!(
        unsupported_member("push"),
        "an array has no `push`; an array has `.append(value)` and `.count`"
    );
}

#[test]
fn appending_writes_through_the_place() {
    let mut program = HirProgram::new();
    let ty = program.types.array_of(INT);
    let value = program.add_expr(HirExpr::Int(42));
    let table = lattice(vec![(INT, INT)], vec![]);
    let mut said = log();
    let place = HirPlace { local: LocalId(3), path: vec![HirPlaceStep::Field(1)] };
    let id = finish_append(&mut program, &table, place, ty, value, AT, AT, &mut said);
    match &program.exprs[id.0 as usize] {
        HirExpr::ArrayAppend { place, value } => {
            assert_eq!(place.local, LocalId(3));
            assert_eq!(place.path, vec![HirPlaceStep::Field(1)]);
            assert_eq!(*value, HirExprId(0));
        }
        other => panic!("not an append: {other:?}"),
    }
    assert!(said.diagnostics.is_empty());
}

#[test]
fn an_append_that_does_not_fit_is_refused() {
    let mut program = HirProgram::new();
    let ty = program.types.array_of(INT);
    let text = program.add_expr(HirExpr::Str(None));
    let mut said = log();
    let place = HirPlace { local: LocalId(0), path: vec![] };
    finish_append(&mut program, &no_lattice(), place, ty, text, AT, AT, &mut said);
    assert!(matches!(
        said.diagnostics[0].problem,
        Problem::AppendMismatch { element: INT, found: Type::Text }
    ));
    let place = HirPlace { local: LocalId(0), path: vec![] };
    let id = finish_append(&mut program, &no_lattice(), place, Type::Bool, text, AT, AT, &mut said);
    assert!(matches!(program.exprs[id.0 as usize], HirExpr::Error));
    assert!(matches!(said.diagnostics[1].problem, Problem::NoAppend { ty: Type::Bool }));
    let place = HirPlace { local: LocalId(0), path: vec![] };
    finish_append(&mut program, &no_lattice(), place, Type::Error, text, AT, AT, &mut said);
    assert_eq!(said.diagnostics.len(), 2);
    assert!(check_append_arity(1, AT, &mut said));
    assert!(!check_append_arity(2, AT, &mut said));
    assert!(matches!(said.diagnostics[2].problem, Problem::AppendArity { found: 2 }));
}

fn signature(form: NameForm) -> FuncSig {
    FuncSig {
        name: CallName { form, copies: vec![] },
        indexed: true,
        package: None,
        mangled: false,
        params: vec![],
        param_ownership: vec![],
        return_type: Type::Void,
        name_span: AT,
        source: SourceId(0),
        is_main: false,
        is_main_thread_lifecycle: false,
        is_main_thread: false,
        mutates_self: false,
        signature: CallableSignature {
            receiver: None,
            params: vec![],
            result: Type::Void,
            is_async: false,
            affinity: ThreadAffinity::Any,
            execution: Execution::Inherited,
        },
    }
}

#[test]
fn a_probe_for_a_subscript_is_undone_where_there_is_none() {
    let imports = ImportTable { packages: vec![], modules: vec![], imported: vec![], visible: vec![] };
    let table = SigTable {
        sigs: vec![signature(NameForm::Method { owner: Symbol(20), name: Symbol(3) })],
        param_defaults: vec![],
    };
    let mut ctx = FnCtx::new(Type::Void);
    let local = ctx.declare(Symbol(8), INT, false);
    let before = ctx.ownership_snapshot();
    ctx.mark_moved(local, AT);
    let mut said = log();
    said.emit(AT, Problem::ArrayTypeUnknown);
    let mut drops = DropReads { waiting: vec![(HirExprId(4), AT)] };
    let found = settle_subscript_probe(
        &table,
        &imports,
        WORDS,
        Type::Struct(StructId(0)),
        Symbol(20),
        0,
        before.clone(),
        vec![],
        &mut ctx,
        &mut drops,
        &mut said,
    );
    assert_eq!(found, Some(FuncId(0)));
    assert_eq!(drops.waiting.len(), 1);
    assert!(!ctx.ownership_of(local).is_live());
    assert_eq!(said.diagnostics.len(), 1);
    let found = settle_subscript_probe(
        &table,
        &imports,
        WORDS,
        Type::Struct(StructId(0)),
        Symbol(21),
        0,
        before,
        vec![],
        &mut ctx,
        &mut drops,
        &mut said,
    );
    assert_eq!(found, None);
    assert!(drops.waiting.is_empty());
    assert!(ctx.ownership_of(local).is_live());
    assert!(said.diagnostics.is_empty());
}

fn one_struct(fields: Vec<FieldDef>) -> TypeTable {
    let mut types = TypeTable::new();
    types.structs.push(StructDef {
        name: StructName::Declared(Symbol(30)),
        owner: None,
        module: None,
        fields,
    });
    types
}

#[test]
fn a_field_resolves_to_its_index_and_type() {
    let types = one_struct(vec![
        FieldDef { name: FieldName::Plain(Symbol(5)), ty: INT, mutable: false },
        FieldDef { name: FieldName::Plain(Symbol(6)), ty: Type::Bool, mutable: true },
    ]);
    let fn_types = FnTypeTable::new();
    let mut said = log();
    let ty = Type::Struct(StructId(0));
    assert_eq!(
        resolve_field(&types, &fn_types, ty, Symbol(6), AT, &mut said),
        Some((1, Type::Bool))
    );
    assert!(resolve_field_quietly(&types, &fn_types, ty, Symbol(6)));
    assert!(!resolve_field_quietly(&types, &fn_types, ty, Symbol(7)));
    assert!(said.diagnostics.is_empty());
    assert_eq!(resolve_field(&types, &fn_types, ty, Symbol(7), AT, &mut said), None);
    assert!(matches!(said.diagnostics[0].problem, Problem::NoSuchField { field: Symbol(7), .. }));
    assert_eq!(resolve_field(&types, &fn_types, INT, Symbol(7), AT, &mut said), None);
    assert!(matches!(said.diagnostics[1].problem, Problem::HasNoFields { ty: INT, .. }));
    assert_eq!(resolve_field(&types, &fn_types, Type::Error, Symbol(7), AT, &mut said), None);
    assert_eq!(said.diagnostics.len(), 2);
}

#[test]
fn a_function_value_publishes_no_members() {
    let mut program = HirProgram::new();
    let mut fn_types = FnTypeTable::new();
    let mut defaults = vec![];
    let ty = function_type(
        &mut program.types,
        &mut fn_types,
        &mut defaults,
        vec![INT],
        vec![],
        Type::Bool,
    );
    let mut said = log();
    assert_eq!(resolve_field(&program.types, &fn_types, ty, Symbol(0), AT, &mut said), None);
    assert!(matches!(said.diagnostics[0].problem, Problem::FunctionHasNoMembers { .. }));
    assert!(!resolve_field_quietly(&program.types, &fn_types, ty, Symbol(0)));
}

#[test]
fn a_scope_shadows_and_forgets() {
    let mut ctx = FnCtx::new(Type::Void);
    let outer = ctx.declare(Symbol(1), INT, false);
    ctx.push_scope();
    let inner = ctx.declare(Symbol(1), Type::Bool, true);
    assert_eq!(ctx.resolve(Symbol(1)), Some(inner));
    assert!(ctx.is_mutable(inner));
    assert_eq!(ctx.local_type(inner), Type::Bool);
    ctx.pop_scope();
    assert_eq!(ctx.resolve(Symbol(1)), Some(outer));
    assert_eq!(ctx.resolve(Symbol(2)), None);
}

#[test]
fn an_isolated_scope_sees_only_itself() {
    let mut ctx = FnCtx::new(Type::Void);
    ctx.declare(Symbol(1), INT, false);
    ctx.push_isolated_scope();
    assert_eq!(ctx.resolve(Symbol(1)), None);
    let own = ctx.declare(Symbol(2), INT, false);
    assert_eq!(ctx.resolve(Symbol(2)), Some(own));
}

#[test]
fn a_hidden_slot_has_no_name() {
    let mut ctx = FnCtx::new(Type::Void);
    let hidden = ctx.declare_hidden(INT, true);
    assert_eq!(ctx.local_name(hidden), None);
    assert_eq!(ctx.resolve(Symbol(0)), None);
}

#[test]
fn moves_on_either_branch_survive_the_join() {
    let mut ctx = FnCtx::new(Type::Void);
    let a = ctx.declare(Symbol(1), INT, false);
    let b = ctx.declare(Symbol(2), INT, false);
    let before = ctx.moved_state();
    ctx.mark_moved(a, AT);
    let after_then = ctx.moved_state();
    ctx.reset_moves(&before);
    assert!(ctx.ownership_of(a).is_live());
    ctx.mark_moved(b, AT);
    ctx.union_moves(&after_then);
    assert!(!ctx.ownership_of(a).is_live());
    assert!(!ctx.ownership_of(b).is_live());
    assert_eq!(ctx.moves_across(&before), vec![(a, AT), (b, AT)]);
    ctx.mark_live(a);
    assert!(ctx.ownership_of(a).is_live());
}

#[test]
fn statements_wait_where_they_were_queued() {
    let mut ctx = FnCtx::new(Type::Void);
    ctx.hoist_stmt(HirStmtId(1));
    ctx.hoist_stmt(HirStmtId(2));
    ctx.defer_stmt(HirStmtId(3));
    assert_eq!(ctx.take_pending_stmts(), vec![HirStmtId(1), HirStmtId(2)]);
    assert!(ctx.take_pending_stmts().is_empty());
    assert_eq!(ctx.take_deferred_stmts(), vec![HirStmtId(3)]);
}

#[test]
fn only_a_mentioned_var_is_boxed() {
    let mut ctx = FnCtx::new(Type::Void);
    ctx.set_closure_mentions(vec![Symbol(4)]);
    assert!(ctx.must_box(Symbol(4), true));
    assert!(!ctx.must_box(Symbol(4), false));
    assert!(!ctx.must_box(Symbol(5), true));
}

#[test]
fn a_handle_is_unfreed_until_it_is_handed_out() {
    let mut ctx = FnCtx::new(Type::Void);
    let handle = ctx.declare(Symbol(1), Type::NativeState(0), false);
    ctx.mark_native_state(handle, 0);
    ctx.note_binding_span(handle, AT);
    assert_eq!(ctx.unfreed_native_state_handles(), vec![(handle, Some(AT))]);
    ctx.mark_handed_out(handle);
    assert!(ctx.unfreed_native_state_handles().is_empty());
}

#[test]
fn a_boxed_binding_reads_as_its_value() {
    let mut program = HirProgram::new();
    let init = program.add_expr(HirExpr::Int(1));
    let (boxed, ty) = box_binding(&mut program, init, INT);
    assert!(matches!(
        program.exprs[boxed.0 as usize],
        HirExpr::CellNew { value: HirExprId(0), .. }
    ));
    assert_eq!(program.types.cell_inner(ty), Some(INT));
    let mut ctx = FnCtx::new(Type::Void);
    let local = ctx.declare(Symbol(1), ty, true);
    let read = read_local(&mut program, &ctx, local);
    assert!(matches!(program.exprs[read.0 as usize], HirExpr::CellGet { ty: INT, .. }));
    let plain = ctx.declare(Symbol(2), INT, false);
    let read = read_local(&mut program, &ctx, plain);
    assert!(matches!(program.exprs[read.0 as usize], HirExpr::Local { ty: INT, .. }));
    assert!(cell_can_hold(INT));
    assert!(!cell_can_hold(Type::Void));
}

#[test]
fn one_statement_writes_through_one_temporary() {
    let mut program = HirProgram::new();
    let cell = program.types.cell_of(INT);
    let mut ctx = FnCtx::new(Type::Void);
    let local = ctx.declare(Symbol(1), cell, true);
    let first = cell_place(&mut program, &mut ctx, local, true, false);
    let second = cell_place(&mut program, &mut ctx, local, true, false);
    let (first, ty) = first.unwrap();
    let (second, _) = second.unwrap();
    assert_eq!(ty, INT);
    assert_eq!(first.local, second.local);
    assert_ne!(first.local, local);
    assert_eq!(ctx.take_pending_stmts().len(), 1);
    assert!(matches!(program.stmts[0], HirStmt::Let { .. }));
    let plain = ctx.declare(Symbol(2), INT, true);
    assert!(cell_place(&mut program, &mut ctx, plain, true, false).is_none());
}

#[test]
fn a_declared_mode_is_kept() {
    let mut ctx = FnCtx::new(Type::Void);
    let lent = ctx.declare_param(Symbol(1), INT, false, OwnershipMode::BorrowRead);
    assert_eq!(ctx.ownership_of(lent).mode, OwnershipMode::BorrowRead);
    assert_eq!(ctx.locals[0].ownership, OwnershipMode::BorrowRead);
}

#[test]
fn isolation_nests() {
    let mut ctx = FnCtx::new(Type::Void);
    ctx.declare(Symbol(1), Type::Bool, false);
    ctx.push_isolated_scope();
    ctx.declare(Symbol(2), Type::Bool, false);
    ctx.push_isolated_scope();
    assert_eq!(ctx.resolve(Symbol(2)), None);
    ctx.push_scope();
    ctx.declare(Symbol(3), Type::Bool, false);
    ctx.pop_scope();
    assert_eq!(ctx.resolve(Symbol(3)), None);
    ctx.pop_scope();
    // The outer isolated scope is still open.
    assert_eq!(ctx.resolve(Symbol(1)), None);
    assert_eq!(ctx.resolve(Symbol(2)), Some(LocalId(1)));
    ctx.pop_scope();
    assert_eq!(ctx.resolve(Symbol(1)), Some(LocalId(0)));
    assert_eq!(ctx.locals.len(), 3);
}

#[test]
fn a_read_that_runs_a_drop_waits_to_be_excused() {
    let mut program = HirProgram::new();
    program.types.arrays.push(Type::Struct(StructId(0)));
    let table = Lattice {
        assignable: vec![],
        erasable: vec![],
        user_drop: vec![Type::Struct(StructId(0))],
        not_copyable: vec![],
    };
    let array = program.add_expr(HirExpr::Local { local: LocalId(0), ty: Type::Array(0) });
    let index = program.add_expr(HirExpr::Int(0));
    let mut drops = DropReads::new();
    let mut said = log();
    let read = match finish_index(
        &mut program, &vec![], Symbol(9), &table, array, index, AT, &mut drops, &mut said,
    ) {
        IndexStep::Read(read) => read,
        _ => panic!("an array is indexed"),
    };
    let held = drops.snapshot();
    assert_eq!(held, vec![(read, AT)]);
    drops.excuse(read);
    assert!(drops.waiting.is_empty());
    drops.restore(held);
    drops.excuse(array);
    assert_eq!(drops.take_unclaimed(), vec![(read, AT)]);
    assert!(drops.waiting.is_empty());
    // A count only borrows what it counts.
    drops.note(&program, &table, read, AT);
    analyze_array_property(
        &mut program, WORDS, read, Symbol(1), AT, &mut drops, &mut said,
    );
    assert!(drops.waiting.is_empty());
}
