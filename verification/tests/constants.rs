use kira_semantics::callables::{CallName, NameForm};
use kira_semantics::constant_moves::{apply_constant_order, order_constant_evaluation};
use kira_semantics::constant_order::{evaluation_cycle, solve_constant_order};
use kira_semantics::constant_values::{
    analyze_constant_closure_call, begin_constant, constant_init, constant_read, constant_slot,
    constant_type, finish_constant, refuse_constant_name_clashes, register_constants,
    settle_constant, ConstantDecl, ConstantStep, ConstantWork,
};
use kira_semantics::constants::{ConstantEntry, ConstantTable};
use kira_semantics::diagnostics::{Log, Problem};
use kira_semantics::fn_types::{function_type, FnTypeTable};
use kira_semantics::hir::{
    Callee, FuncId, FunctionName, HirConstant, HirExpr, HirFunction, HirProgram,
    HirStmt, HirStmtId, LocalId,
};
use kira_semantics::imports::ImportTable;
use kira_semantics::lattice::Lattice;
use kira_semantics::names::Symbol;
use kira_semantics::scope::FnCtx;
use kira_semantics::signatures::{CallableSignature, FuncSig, SigTable, ThreadAffinity};
use kira_semantics::source::{SourceId, Span};
use kira_semantics::symbol_map::SymbolMap;
use kira_semantics::synth::SynthTable;
use kira_semantics::ty::{Execution, IntSpelling, StructId, Type};

const INT: Type = Type::Int(IntSpelling::Int);
const AT: Span = Span { start: 4, end: 7 };
const HERE: SourceId = SourceId(0);

fn log() -> Log {
    Log::new(HERE)
}

fn imports() -> ImportTable {
    ImportTable { packages: vec![], modules: vec![], imported: vec![], visible: vec![(HERE, HERE)] }
}

fn decl(name: u32) -> ConstantDecl {
    ConstantDecl { source: HERE, name: Symbol(name), name_span: AT }
}

fn sig(name: u32) -> FuncSig {
    FuncSig {
        name: CallName { form: NameForm::Free { name: Symbol(name) }, copies: vec![] },
        indexed: true,
        package: None,
        mangled: false,
        params: vec![],
        param_ownership: vec![],
        return_type: Type::Void,
        name_span: AT,
        source: HERE,
        is_main: false,
        is_main_thread_lifecycle: false,
        is_main_thread: false,
        mutates_self: false,
        signature: CallableSignature {
            receiver: None,
            params: vec![],
            result: Type::Void,
            is_async: false,
            affinity: ThreadAffinity::Any,
            execution: Execution::Inherited,
        },
    }
}

#[test]
fn constants_and_functions_share_a_namespace() {
    let table = SigTable { sigs: vec![sig(1)], param_defaults: vec![] };
    let mut said = log();
    let kept = refuse_constant_name_clashes(
        &table,
        &vec![Symbol(2)],
        &vec![decl(1), decl(2), decl(3), decl(3), decl(4)],
        &mut said,
    );
    let names: Vec<u32> = kept.iter().map(|decl| decl.name.0).collect();
    assert_eq!(names, vec![3, 4]);
    assert!(matches!(
        said.diagnostics[0].problem,
        Problem::ConstantIsFunction { constant: Symbol(1) }
    ));
    assert!(matches!(
        said.diagnostics[1].problem,
        Problem::ConstantIsFunction { constant: Symbol(2) }
    ));
    assert!(matches!(
        said.diagnostics[2].problem,
        Problem::ConstantAlreadyDefined { constant: Symbol(3) }
    ));
}

struct World {
    table: ConstantTable,
    work: ConstantWork,
    program: HirProgram,
    synth: SynthTable,
}

fn registered(names: Vec<u32>) -> World {
    let mut w = World {
        table: ConstantTable { entries: vec![], index: SymbolMap::new() },
        work: ConstantWork { progress: vec![], stack: vec![] },
        program: HirProgram::new(),
        synth: SynthTable::new(0),
    };
    let kept: Vec<ConstantDecl> = names.into_iter().map(decl).collect();
    register_constants(&kept, &mut w.table, &mut w.work, &mut w.program, &mut w.synth);
    w
}

#[test]
fn slots_are_handed_out_in_declaration_order() {
    let w = registered(vec![5, 3]);
    assert_eq!(constant_slot(&w.table, Symbol(5)), Some(0));
    assert_eq!(constant_slot(&w.table, Symbol(3)), Some(1));
    assert_eq!(constant_slot(&w.table, Symbol(9)), None);
    assert_eq!(w.program.constants.len(), 2);
    assert_ne!(w.program.constants[0].init, w.program.constants[1].init);
    assert_eq!(w.synth.reserved_synth(), 2);
}

#[test]
fn a_constant_is_analyzed_once_and_a_cycle_is_refused() {
    let mut w = registered(vec![5, 3]);
    let mut said = log();
    assert_eq!(
        begin_constant(&mut w.work, &w.table, &w.program, 0, &mut said),
        ConstantStep::Analyze
    );
    assert_eq!(
        begin_constant(&mut w.work, &w.table, &w.program, 1, &mut said),
        ConstantStep::Analyze
    );
    assert_eq!(
        begin_constant(&mut w.work, &w.table, &w.program, 0, &mut said),
        ConstantStep::Cycle
    );
    assert!(matches!(
        &said.diagnostics[0].problem,
        Problem::ConstantCycle { members } if *members == vec![Symbol(5), Symbol(3)]
    ));
    finish_constant(&mut w.work, &mut w.table, &mut w.program, 1, INT);
    assert_eq!(
        begin_constant(&mut w.work, &w.table, &w.program, 1, &mut said),
        ConstantStep::Ready
    );
    assert_eq!(w.program.constants[1].ty, INT);
    assert_eq!(constant_type(&w.table, &imports(), HERE, Symbol(3)), Some(INT));
    let mut links = vec![];
    let read =
        constant_read(&mut w.program, &w.table, &imports(), HERE, Symbol(3), AT, &mut links)
            .unwrap();
    assert_eq!(links.len(), 1);
    assert_eq!(links[0].reference.span, AT);
    assert_eq!(links[0].definition.span, w.table.entries[1].name_span);
    assert!(matches!(
        w.program.exprs[read.0 as usize],
        HirExpr::ConstantGet { constant: 1, ty: INT }
    ));
    // Another package's file does not see it.
    assert_eq!(constant_type(&w.table, &imports(), SourceId(4), Symbol(3)), None);
}

#[test]
fn an_annotation_that_does_not_fit_is_refused() {
    let lattice = Lattice {
        assignable: vec![(INT, INT)],
        erasable: vec![],
        user_drop: vec![Type::Struct(StructId(0))],
        not_copyable: vec![],
    };
    let mut program = HirProgram::new();
    let text = program.add_expr(HirExpr::Str(None));
    let owner =
        program.add_expr(HirExpr::Local { local: LocalId(0), ty: Type::Struct(StructId(0)) });
    let one = program.add_expr(HirExpr::Int(1));
    let mut said = log();
    assert_eq!(settle_constant(&mut program, &lattice, None, one, AT, &mut said), (INT, one));
    assert_eq!(
        settle_constant(&mut program, &lattice, Some(INT), one, AT, &mut said),
        (INT, one)
    );
    settle_constant(&mut program, &lattice, Some(INT), text, AT, &mut said);
    assert!(matches!(
        said.diagnostics[0].problem,
        Problem::BindingMismatch { annotation: INT, found: Type::Text }
    ));
    settle_constant(&mut program, &lattice, None, owner, AT, &mut said);
    assert!(matches!(said.diagnostics[1].problem, Problem::ConstantRunsDrop { .. }));
}

#[test]
fn an_initializer_returns_its_value_after_what_it_deferred() {
    let mut program = HirProgram::new();
    let value = program.add_expr(HirExpr::Int(1));
    let mut ctx = FnCtx::new(INT);
    ctx.hoist_stmt(HirStmtId(40));
    ctx.defer_stmt(HirStmtId(41));
    let function = constant_init(&mut program, ctx, Symbol(5), INT, value, AT);
    assert_eq!(function.name, FunctionName::ConstantInit(Symbol(5)));
    assert_eq!(function.param_count, 0);
    assert_eq!(function.body[0], HirStmtId(40));
    assert_eq!(function.body.len(), 4);
    assert_eq!(function.body[2], HirStmtId(41));
    let last = *function.body.last().unwrap();
    assert!(matches!(program.stmts[last.0 as usize], HirStmt::Return { value: Some(_) }));
}

#[test]
fn a_constant_may_hold_a_function_value() {
    let mut w = registered(vec![5]);
    let mut fn_types = FnTypeTable::new();
    let mut defaults = vec![];
    let f = function_type(
        &mut w.program.types,
        &mut fn_types,
        &mut defaults,
        vec![],
        vec![],
        INT,
    );
    let mut said = log();
    begin_constant(&mut w.work, &w.table, &w.program, 0, &mut said);
    finish_constant(&mut w.work, &mut w.table, &mut w.program, 0, f);
    let found = analyze_constant_closure_call(
        &mut w.program,
        &w.table,
        &imports(),
        &fn_types,
        HERE,
        Symbol(5),
        AT,
        &mut vec![],
    );
    assert!(found.is_some());
    assert!(analyze_constant_closure_call(
        &mut w.program,
        &w.table,
        &imports(),
        &fn_types,
        HERE,
        Symbol(6),
        AT,
        &mut vec![],
    )
    .is_none());
}

fn function(body: Vec<HirStmtId>) -> HirFunction {
    HirFunction {
        name: FunctionName::Unreachable,
        param_count: 0,
        return_type: INT,
        locals: vec![],
        body,
        is_main: false,
        is_main_thread: false,
        is_async: false,
        execution: Execution::Inherited,
        mutates_self: false,
        name_span: AT,
        signature: CallableSignature::synthesized(INT),
    }
}

/// Constants 0 and 1, where each initializer returns `reads[slot]`: the constant
/// it reads, directly or through a call.
fn two_constants(reads: [Option<u32>; 2], through_a_call: bool) -> (HirProgram, ConstantTable) {
    let mut program = HirProgram::new();
    let mut table = ConstantTable { entries: vec![], index: SymbolMap::new() };
    for slot in 0..2u32 {
        program.constants.push(HirConstant {
            name: Symbol(10 + slot),
            ty: INT,
            init: FuncId(slot),
        });
        table.entries.push(ConstantEntry { ty: INT, source: HERE, name_span: AT });
        table.index.insert(Symbol(10 + slot), slot);
    }
    for slot in 0..2usize {
        let value = match reads[slot] {
            Some(other) if through_a_call => program.add_expr(HirExpr::Call {
                callee: Callee::User(FuncId(2 + other)),
                args: vec![],
                ty: INT,
                writebacks: vec![],
            }),
            Some(other) => program.add_expr(HirExpr::ConstantGet { constant: other, ty: INT }),
            None => program.add_expr(HirExpr::Int(0)),
        };
        let stmt = program.add_stmt(HirStmt::Return { value: Some(value) });
        program.functions.push(function(vec![stmt]));
    }
    for slot in 0..2u32 {
        let value = program.add_expr(HirExpr::ConstantGet { constant: slot, ty: INT });
        let stmt = program.add_stmt(HirStmt::Return { value: Some(value) });
        program.functions.push(function(vec![stmt]));
    }
    (program, table)
}

#[test]
fn a_constant_is_filled_after_what_it_reads() {
    for through_a_call in [false, true] {
        let (mut program, mut table) = two_constants([Some(1), None], through_a_call);
        let mut said = log();
        let solved = order_constant_evaluation(&mut program, &mut table, &mut said);
        assert_eq!(solved.order, vec![1, 0]);
        assert!(said.diagnostics.is_empty());
        assert_eq!(program.constants[0].name, Symbol(11));
        assert_eq!(program.constants[1].name, Symbol(10));
        assert_eq!(constant_slot(&table, Symbol(11)), Some(0));
        // Every read followed its constant.
        let last = program.exprs.len() - 1;
        assert!(matches!(program.exprs[last], HirExpr::ConstantGet { constant: 0, .. }));
    }
}

#[test]
fn an_evaluation_cycle_is_reported() {
    let (mut program, mut table) = two_constants([Some(1), Some(0)], false);
    let mut said = log();
    order_constant_evaluation(&mut program, &mut table, &mut said);
    assert_eq!(said.diagnostics.len(), 1);
    assert!(matches!(
        &said.diagnostics[0].problem,
        Problem::ConstantCycle { members } if members.len() == 2
    ));
}

#[test]
fn the_order_keeps_declaration_order_where_it_can() {
    let none = vec![false, false, false];
    let solved = solve_constant_order(&vec![none.clone(), none.clone(), none]);
    assert_eq!(solved.order, vec![0, 1, 2]);
    assert_eq!(solved.placed, 3);
    // 0 needs 2, 2 needs itself.
    let deps = vec![
        vec![false, false, true],
        vec![false, false, false],
        vec![false, false, true],
    ];
    let solved = solve_constant_order(&deps);
    assert_eq!(solved.placed, 1);
    assert_eq!(solved.order[0], 1);
    assert_eq!(solved.order.len(), 3);
    assert_eq!(evaluation_cycle(&deps, &vec![false, true, false], 0), vec![2]);
}

#[test]
fn moving_rows_moves_their_reads() {
    let (mut program, mut table) = two_constants([None, Some(0)], false);
    apply_constant_order(&vec![1, 0], &mut program, &mut table);
    assert_eq!(program.constants[0].name, Symbol(11));
    assert!(matches!(program.exprs[1], HirExpr::ConstantGet { constant: 1, .. }));
}
