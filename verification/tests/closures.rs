use kira_semantics::callables::{CallName, NameForm};
use kira_semantics::captures::{capture, capture_step, resolve_capturing, CaptureStep, Captured, OuterBinding};
use kira_semantics::closure_calls::{
    analyze_field_closure_call, analyze_local_closure_call, check_value_arity, dispatcher_for,
    finish_closure_call, ValueCallee,
};
use kira_semantics::closure_dispatchers::{finalize_closures, remap_synth_calls, remap_synth_id};
use kira_semantics::closure_finish::finalize_closure_values;
use kira_semantics::default_values::{default_value, has_finite_value};
use kira_semantics::diagnostics::{Log, Problem};
use kira_semantics::fn_types::{
    capture_is_trivially_copyable, capture_would_be_cyclic, function_type, is_trivially_copyable,
    mode_at, unique_impl_tag, ClosureImpl, FnTypeTable,
};
use kira_semantics::function_values::{dispatcher_body, dispatcher_execution};
use kira_semantics::hir::{
    Callee, FuncId, FunctionName, HirBinaryOp, HirExpr, HirFunction, HirProgram,
    HirStmt, LocalId, TaskTarget,
};
use kira_semantics::imports::ImportTable;
use kira_semantics::lattice::Lattice;
use kira_semantics::lift::{analyze_closure, begin_lift, finish_lift, ClosureSite, ClosureStart};
use kira_semantics::mentions::names_closures_mention;
use kira_semantics::named_values::{
    analyze_named_function_reference, decide_reference, named_function_value, NamedReference,
    ReferenceType,
};
use kira_semantics::names::Symbol;
use kira_semantics::scope::{ClosureCtx, FnCtx};
use kira_semantics::signatures::{CallableSignature, FuncSig, SigTable, ThreadAffinity};
use kira_semantics::source::{SourceId, Span};
use kira_semantics::syntax::{Expr, ExprId, FieldDefault, Stmt, StmtId, SyntaxTree};
use kira_semantics::synth::SynthTable;
use kira_semantics::ty::{
    EnumDef, EnumId, EnumName, Execution, FieldDef, FieldName, IntSpelling, OwnershipMode,
    StructDef, StructId, StructName, Type, VariantDef,
};

const INT: Type = Type::Int(IntSpelling::Int);
const AT: Span = Span { start: 4, end: 7 };

fn log() -> Log {
    Log::new(SourceId(0))
}

fn lattice() -> Lattice {
    Lattice {
        assignable: vec![(INT, INT)],
        erasable: vec![],
        user_drop: vec![Type::Struct(StructId(50))],
        not_copyable: vec![],
    }
}

struct World {
    program: HirProgram,
    fn_types: FnTypeTable,
    defaults: Vec<Vec<Option<FieldDefault>>>,
    synth: SynthTable,
    sites: Vec<ClosureSite>,
    log: Log,
}

fn world() -> World {
    World {
        program: HirProgram::new(),
        fn_types: FnTypeTable::new(),
        defaults: vec![],
        synth: SynthTable::new(0),
        sites: vec![],
        log: log(),
    }
}

impl World {
    fn function_type(&mut self, params: Vec<Type>, modes: Vec<OwnershipMode>, result: Type) -> Type {
        function_type(
            &mut self.program.types,
            &mut self.fn_types,
            &mut self.defaults,
            params,
            modes,
            result,
        )
    }
}

fn repr(ty: Type) -> StructId {
    match ty {
        Type::Struct(id) => id,
        other => panic!("not a struct: {other:?}"),
    }
}

fn empty_function(execution: Execution) -> HirFunction {
    HirFunction {
        name: FunctionName::Unreachable,
        param_count: 0,
        return_type: Type::Void,
        locals: vec![],
        body: vec![],
        is_main: false,
        is_main_thread: false,
        is_async: false,
        execution,
        mutates_self: false,
        name_span: AT,
        signature: CallableSignature::synthesized(Type::Void),
    }
}

#[test]
fn a_shape_is_one_type() {
    let mut w = world();
    let a = w.function_type(vec![INT], vec![OwnershipMode::Owned], Type::Bool);
    let b = w.function_type(vec![INT], vec![OwnershipMode::Owned], Type::Bool);
    let c = w.function_type(vec![INT], vec![OwnershipMode::BorrowRead], Type::Bool);
    assert_eq!(a, b);
    assert_ne!(a, c);
    assert_eq!(w.fn_types.as_function_type(a), Some(repr(a)));
    assert_eq!(w.fn_types.as_function_type(INT), None);
    assert_eq!(w.program.types.structs[repr(a).0 as usize].fields[0].name, FieldName::Tag);
    assert_eq!(w.function_type(vec![Type::Error], vec![], INT), Type::Error);
    assert_eq!(mode_at(&vec![OwnershipMode::Copy], 0), OwnershipMode::Copy);
    assert_eq!(mode_at(&vec![], 0), OwnershipMode::Owned);
}

#[test]
fn an_implementation_gets_a_tag_no_other_has() {
    let taken = vec![
        ClosureImpl { tag: 5, function: FuncId(0) },
        ClosureImpl { tag: 6, function: FuncId(1) },
    ];
    assert_eq!(unique_impl_tag(&taken, 4), 4);
    let fresh = unique_impl_tag(&taken, 5);
    assert!(fresh != 5 && fresh != 6);
}

#[test]
fn what_may_be_captured() {
    let mut w = world();
    let f = w.function_type(vec![], vec![], Type::Void);
    assert!(is_trivially_copyable(INT));
    assert!(!is_trivially_copyable(f));
    assert!(capture_is_trivially_copyable(&w.fn_types, f));
    assert!(capture_is_trivially_copyable(&w.fn_types, Type::Cell(0)));
    assert!(!capture_is_trivially_copyable(&w.fn_types, Type::Struct(StructId(77))));
    assert!(capture_would_be_cyclic(&w.program.types, repr(f), f));
    assert!(!capture_would_be_cyclic(&w.program.types, repr(f), INT));
}

fn binding(ty: Type, mutable: bool) -> OuterBinding {
    OuterBinding { local: LocalId(0), ty, mutable, live: true, span: None }
}

#[test]
fn a_capture_is_decided_by_what_is_captured() {
    let mut w = world();
    let f = w.function_type(vec![], vec![], Type::Void);
    let closure = Some(ClosureCtx { repr: repr(f), tag: 3, captures: vec![] });
    let types = &w.program.types;
    let decide = |ty: Type, mutable: bool| {
        capture_step(types, &w.fn_types, &lattice(), &closure, binding(ty, mutable), Symbol(1))
    };
    assert!(matches!(decide(INT, false), CaptureStep::Take { tag: 3, place: 0, boxed: false, .. }));
    assert!(matches!(
        decide(INT, true),
        CaptureStep::Refuse(Problem::CaptureHasNoSharedForm { ty: INT, .. })
    ));
    assert!(matches!(
        decide(Type::Struct(StructId(9)), false),
        CaptureStep::Refuse(Problem::CaptureNotCopyable { .. })
    ));
    assert!(matches!(decide(f, false), CaptureStep::Take { boxed: true, .. }));
    let mut moved = binding(INT, false);
    moved.live = false;
    assert!(matches!(
        capture_step(types, &w.fn_types, &lattice(), &closure, moved, Symbol(1)),
        CaptureStep::Moved
    ));
    assert!(matches!(
        capture_step(types, &w.fn_types, &lattice(), &None, binding(INT, false), Symbol(1)),
        CaptureStep::NotAClosure
    ));
}

#[test]
fn a_shared_var_that_runs_a_drop_body_is_refused() {
    let mut w = world();
    let f = w.function_type(vec![], vec![], Type::Void);
    let cell = w.program.types.cell_of(Type::Struct(StructId(50)));
    let mut inner = FnCtx::new(Type::Void);
    inner.closure = Some(ClosureCtx { repr: repr(f), tag: 0, captures: vec![] });
    let outcome = capture(
        &mut w.program.types,
        &w.fn_types,
        &lattice(),
        &mut inner,
        binding(cell, true),
        0,
        Symbol(1),
        AT,
        &mut w.log,
    );
    assert_eq!(outcome, Captured::Refused);
    assert!(matches!(w.log.diagnostics[0].problem, Problem::CaptureRunsDrop { .. }));
}

#[test]
fn a_name_two_frames_out_is_threaded_through_both() {
    let mut w = world();
    let f = w.function_type(vec![], vec![], Type::Void);
    let g = w.function_type(vec![], vec![], INT);
    let mut outer = FnCtx::new(Type::Void);
    outer.declare(Symbol(1), INT, false);
    let mut middle = FnCtx::new(Type::Void);
    middle.closure = Some(ClosureCtx { repr: repr(f), tag: 0, captures: vec![] });
    let mut inner = FnCtx::new(Type::Void);
    inner.closure = Some(ClosureCtx { repr: repr(g), tag: 0, captures: vec![] });
    let mut frames = vec![outer, middle, inner];
    let found = resolve_capturing(
        &mut w.program.types,
        &w.fn_types,
        &lattice(),
        &mut frames,
        2,
        Symbol(1),
        AT,
        &mut w.log,
    );
    assert_eq!(found, Captured::Local(LocalId(0)));
    assert_eq!(frames[1].closure.as_ref().unwrap().captures.len(), 1);
    assert_eq!(frames[2].closure.as_ref().unwrap().captures.len(), 1);
    let again = resolve_capturing(
        &mut w.program.types,
        &w.fn_types,
        &lattice(),
        &mut frames,
        2,
        Symbol(1),
        AT,
        &mut w.log,
    );
    assert_eq!(again, found);
    assert_eq!(frames[2].locals.len(), 1);
    let absent = resolve_capturing(
        &mut w.program.types,
        &w.fn_types,
        &lattice(),
        &mut frames,
        2,
        Symbol(2),
        AT,
        &mut w.log,
    );
    assert_eq!(absent, Captured::Absent);
    assert_eq!(
        w.program.types.structs[repr(g).0 as usize].fields[1].name,
        FieldName::Captured { name: Symbol(1), tag: 0, index: 0 }
    );
}

#[test]
fn literals_of_one_type_capture_into_fields_of_their_own() {
    let mut w = world();
    let f = w.function_type(vec![], vec![], Type::Void);
    for tag in [0, 5] {
        let mut outer = FnCtx::new(Type::Void);
        outer.declare(Symbol(1), INT, false);
        outer.declare(Symbol(2), INT, false);
        let mut inner = FnCtx::new(Type::Void);
        inner.closure = Some(ClosureCtx { repr: repr(f), tag, captures: vec![] });
        let mut frames = vec![outer, inner];
        for name in [Symbol(1), Symbol(2)] {
            resolve_capturing(
                &mut w.program.types,
                &w.fn_types,
                &lattice(),
                &mut frames,
                1,
                name,
                AT,
                &mut w.log,
            );
        }
    }
    let fields = &w.program.types.structs[repr(f).0 as usize].fields;
    assert_eq!(fields.len(), 5);
    for i in 0..fields.len() {
        for j in 0..i {
            assert_ne!(fields[i].name, fields[j].name);
        }
    }
}

#[test]
fn a_closure_needs_a_function_type() {
    let mut w = world();
    let f = w.function_type(vec![INT], vec![], Type::Void);
    let mut run = |declares: usize, expected: Option<Type>| {
        analyze_closure(&mut w.program, &w.fn_types, declares, AT, expected, &mut w.log)
    };
    assert!(matches!(run(1, Some(f)), ClosureStart::Lift(_)));
    assert!(matches!(run(1, Some(Type::Error)), ClosureStart::Refused(_)));
    assert!(matches!(run(1, None), ClosureStart::Refused(_)));
    assert!(matches!(run(1, Some(INT)), ClosureStart::Refused(_)));
    assert!(matches!(run(2, Some(f)), ClosureStart::Refused(_)));
    assert_eq!(w.log.diagnostics.len(), 3);
    assert!(matches!(
        w.log.diagnostics[0].problem,
        Problem::ClosureNeedsFunctionType { expected: None }
    ));
    assert!(matches!(
        w.log.diagnostics[1].problem,
        Problem::ClosureNeedsFunctionType { expected: Some(INT) }
    ));
    assert!(matches!(
        w.log.diagnostics[2].problem,
        Problem::ClosureArity { takes: 1, declares: 2, .. }
    ));
}

#[test]
fn a_lifted_closure_binds_its_captures_first() {
    let mut w = world();
    let f = w.function_type(vec![INT], vec![], INT);
    let mut outer = FnCtx::new(Type::Void);
    outer.declare(Symbol(1), INT, false);
    outer.set_main_thread(true);
    let (lifting, inner) = begin_lift(
        &mut w.synth,
        &mut w.fn_types,
        repr(f),
        &vec![Symbol(2)],
        &outer,
        7,
    );
    assert_eq!(lifting.tag, 7);
    assert!(inner.main_thread);
    assert_eq!(inner.resolve(Symbol(2)), Some(LocalId(1)));
    let mut frames = vec![outer, inner];
    resolve_capturing(
        &mut w.program.types,
        &w.fn_types,
        &lattice(),
        &mut frames,
        1,
        Symbol(1),
        AT,
        &mut w.log,
    );
    let inner = frames.pop().unwrap();
    let outer = frames.pop().unwrap();
    let function = lifting.function;
    let id = finish_lift(
        &mut w.program,
        &mut w.synth,
        &mut w.sites,
        &outer,
        inner,
        lifting,
        1,
        vec![],
        false,
        AT,
        Execution::Native,
        &mut w.log,
    );
    assert!(matches!(w.log.diagnostics[0].problem, Problem::ClosureMayNotReturn { ty: INT }));
    let lifted = w.synth.rows[function.0 as usize].as_ref().unwrap();
    assert_eq!(lifted.param_count, 2);
    assert_eq!(lifted.execution, Execution::Native);
    assert!(matches!(w.program.stmts[lifted.body[0].0 as usize], HirStmt::Let { .. }));
    assert_eq!(w.sites.len(), 1);
    assert_eq!(w.sites[0].expr, id);
    assert_eq!(w.sites[0].capture_fields, vec![1]);
    finalize_closure_values(&mut w.program, &w.sites);
    match &w.program.exprs[id.0 as usize] {
        HirExpr::StructNew { fields, .. } => {
            assert_eq!(fields.len(), 2);
            assert!(matches!(w.program.exprs[fields[0].0 as usize], HirExpr::Int(7)));
            assert_eq!(fields[1], w.sites[0].capture_values[0]);
        }
        other => panic!("not a value: {other:?}"),
    }
}

#[test]
fn calling_a_value_goes_through_its_types_dispatcher() {
    let mut w = world();
    let f = w.function_type(vec![INT], vec![], Type::Bool);
    let first = dispatcher_for(&mut w.synth, &mut w.fn_types, repr(f));
    assert_eq!(dispatcher_for(&mut w.synth, &mut w.fn_types, repr(f)), first);
    let callee = w.program.add_expr(HirExpr::Local { local: LocalId(0), ty: f });
    let one = w.program.add_expr(HirExpr::Int(1));
    let text = w.program.add_expr(HirExpr::Str(None));
    let info = w.fn_types.get(repr(f)).unwrap();
    let id = finish_closure_call(
        &mut w.program,
        &lattice(),
        info,
        first,
        callee,
        &vec![one],
        vec![],
        AT,
        &mut w.log,
    );
    match &w.program.exprs[id.0 as usize] {
        HirExpr::Call { callee: Callee::User(target), args, ty, .. } => {
            assert_eq!(*target, first);
            assert_eq!(args, &vec![callee, one]);
            assert_eq!(*ty, Type::Bool);
        }
        other => panic!("not a call: {other:?}"),
    }
    finish_closure_call(
        &mut w.program,
        &lattice(),
        info,
        first,
        callee,
        &vec![text],
        vec![],
        AT,
        &mut w.log,
    );
    assert!(matches!(
        w.log.diagnostics[0].problem,
        Problem::ArgumentMismatch { place: 1, expected: INT, found: Type::Text, .. }
    ));
    check_value_arity(info, 1, AT, &mut w.log);
    check_value_arity(info, 2, AT, &mut w.log);
    assert!(matches!(w.log.diagnostics[1].problem, Problem::CallArity { takes: 1, found: 2, .. }));
}

#[test]
fn a_local_or_a_field_may_hold_the_callee() {
    let mut w = world();
    let f = w.function_type(vec![], vec![], Type::Void);
    let mut ctx = FnCtx::new(Type::Void);
    ctx.declare(Symbol(1), f, false);
    ctx.declare(Symbol(2), INT, false);
    let mut frames = vec![ctx];
    let found = analyze_local_closure_call(
        &mut w.program,
        &w.fn_types,
        &lattice(),
        &mut frames,
        0,
        Symbol(1),
        AT,
        &mut w.log,
    );
    assert!(matches!(found, ValueCallee::Value { .. }));
    let none = analyze_local_closure_call(
        &mut w.program,
        &w.fn_types,
        &lattice(),
        &mut frames,
        0,
        Symbol(2),
        AT,
        &mut w.log,
    );
    assert!(matches!(none, ValueCallee::NotOne));
    w.program.types.structs.push(StructDef {
        name: StructName::Declared(Symbol(9)),
        owner: None,
        module: None,
        fields: vec![FieldDef { name: FieldName::Plain(Symbol(5)), ty: f, mutable: false }],
    });
    let holder = Type::Struct(StructId(1));
    let receiver = w.program.add_expr(HirExpr::Local { local: LocalId(0), ty: holder });
    let found =
        analyze_field_closure_call(&mut w.program, &w.fn_types, receiver, holder, Symbol(5));
    let (read, of) = found.unwrap();
    assert_eq!(of, repr(f));
    assert!(matches!(w.program.exprs[read.0 as usize], HirExpr::Field { index: 0, .. }));
    assert!(analyze_field_closure_call(&mut w.program, &w.fn_types, receiver, holder, Symbol(6))
        .is_none());
}

#[test]
fn a_dispatcher_asks_for_every_tag_but_the_last() {
    let mut w = world();
    let f = w.function_type(vec![INT], vec![], INT);
    for tag in [10, 20, 30] {
        let id = w.synth.reserve_synth();
        w.synth.fill_synth(id, empty_function(Execution::Inherited));
        let row = w.fn_types.find(repr(f)).unwrap();
        w.fn_types.rows[row].impls.push(ClosureImpl { tag, function: id });
    }
    let info = w.fn_types.get(repr(f)).unwrap();
    let function = dispatcher_body(&mut w.program, &w.synth, info);
    assert_eq!(function.name, FunctionName::ClosureCall(repr(f)));
    assert_eq!(function.param_count, 2);
    // Two branches, and the last implementation as the fallback.
    assert_eq!(function.body.len(), 3);
    let cond = match &w.program.stmts[function.body[0].0 as usize] {
        HirStmt::If { cond, .. } => *cond,
        other => panic!("not a branch: {other:?}"),
    };
    assert!(matches!(
        w.program.exprs[cond.0 as usize],
        HirExpr::Binary { op: HirBinaryOp::EqInt, .. }
    ));
    assert_eq!(dispatcher_execution(&w.synth, &info.impls), Execution::Inherited);
    w.synth.rows[1] = Some(empty_function(Execution::Native));
    assert_eq!(dispatcher_execution(&w.synth, &info.impls), Execution::Native);
}

#[test]
fn a_dispatcher_of_nothing_returns_a_filler() {
    let mut w = world();
    let f = w.function_type(vec![], vec![], Type::Bool);
    let info = w.fn_types.get(repr(f)).unwrap();
    let function = dispatcher_body(&mut w.program, &w.synth, info);
    match &w.program.stmts[function.body[0].0 as usize] {
        HirStmt::Return { value: Some(value) } => {
            assert!(matches!(w.program.exprs[value.0 as usize], HirExpr::Bool(false)));
        }
        other => panic!("not a return: {other:?}"),
    }
}

#[test]
fn synthesized_functions_land_behind_the_declared_ones() {
    let mut w = world();
    w.synth = SynthTable::new(2);
    let f = w.function_type(vec![], vec![], Type::Void);
    let dispatcher = dispatcher_for(&mut w.synth, &mut w.fn_types, repr(f));
    let hole = w.synth.reserve_synth();
    assert_eq!((dispatcher, hole), (FuncId(2), FuncId(3)));
    assert!(w.synth.synth_needs_body(hole));
    assert_eq!(w.synth.reserved_synth(), 2);
    for _ in 0..5 {
        w.program.functions.push(empty_function(Execution::Inherited));
    }
    let call = w.program.add_expr(HirExpr::Call {
        callee: Callee::User(dispatcher),
        args: vec![],
        ty: Type::Void,
        writebacks: vec![],
    });
    let spawn = w.program.add_expr(HirExpr::TaskSpawn {
        target: TaskTarget::Call(FuncId(1)),
        args: vec![],
        ty: Type::Void,
    });
    finalize_closures(&mut w.program, w.synth, &w.fn_types, &vec![]);
    assert_eq!(w.program.functions.len(), 7);
    assert_eq!(w.program.functions[5].name, FunctionName::ClosureCall(repr(f)));
    assert_eq!(w.program.functions[6].name, FunctionName::Unreachable);
    assert!(matches!(
        w.program.exprs[call.0 as usize],
        HirExpr::Call { callee: Callee::User(FuncId(5)), .. }
    ));
    assert!(matches!(
        w.program.exprs[spawn.0 as usize],
        HirExpr::TaskSpawn { target: TaskTarget::Call(FuncId(1)), .. }
    ));
}

#[test]
fn only_synthesized_ids_move() {
    assert_eq!(remap_synth_id(FuncId(4), 4, 2, 10), FuncId(10));
    assert_eq!(remap_synth_id(FuncId(5), 4, 2, 10), FuncId(11));
    assert_eq!(remap_synth_id(FuncId(6), 4, 2, 10), FuncId(6));
    assert_eq!(remap_synth_id(FuncId(3), 4, 2, 10), FuncId(3));
    let mut program = HirProgram::new();
    program.add_expr(HirExpr::TaskSpawn {
        target: TaskTarget::Call(FuncId(4)),
        args: vec![],
        ty: INT,
    });
    remap_synth_calls(&mut program, 4, 2, 10);
    assert!(matches!(
        program.exprs[0],
        HirExpr::TaskSpawn { target: TaskTarget::Call(FuncId(10)), .. }
    ));
}

fn sigs() -> SigTable {
    SigTable {
        sigs: vec![FuncSig {
            name: CallName { form: NameForm::Free { name: Symbol(1) }, copies: vec![] },
            indexed: true,
            package: None,
            mangled: false,
            params: vec![INT],
            param_ownership: vec![OwnershipMode::Owned],
            return_type: Type::Bool,
            name_span: AT,
            source: SourceId(0),
            is_main: false,
            is_main_thread_lifecycle: false,
            is_main_thread: false,
            mutates_self: false,
            signature: CallableSignature {
                receiver: None,
                params: vec![],
                result: Type::Bool,
                is_async: false,
                affinity: ThreadAffinity::Any,
                execution: Execution::Inherited,
            },
        }],
        param_defaults: vec![vec![None]],
    }
}

#[test]
fn a_named_function_has_its_own_function_type() {
    let mut w = world();
    let fits = w.function_type(vec![INT], vec![OwnershipMode::Owned], Type::Bool);
    let other = w.function_type(vec![], vec![], Type::Bool);
    let table = sigs();
    assert!(matches!(
        decide_reference(&w.fn_types, &table, FuncId(0), Some(fits)),
        ReferenceType::Use(id) if id == repr(fits)
    ));
    assert!(matches!(
        decide_reference(&w.fn_types, &table, FuncId(0), None),
        ReferenceType::Mint
    ));
    assert!(matches!(
        decide_reference(&w.fn_types, &table, FuncId(0), Some(Type::Error)),
        ReferenceType::Silent
    ));
    assert!(matches!(
        decide_reference(&w.fn_types, &table, FuncId(0), Some(other)),
        ReferenceType::Refuse(Problem::FunctionValueMismatch { .. })
    ));
    assert!(matches!(
        decide_reference(&w.fn_types, &table, FuncId(0), Some(INT)),
        ReferenceType::Refuse(Problem::FunctionValueUnexpected { .. })
    ));
    let imports =
        ImportTable { packages: vec![], modules: vec![], imported: vec![], visible: vec![(SourceId(0), SourceId(0))] };
    let mut links = vec![];
    let found = analyze_named_function_reference(
        &mut w.program,
        &mut w.fn_types,
        &mut w.defaults,
        &table,
        &imports,
        &CallName { form: NameForm::Free { name: Symbol(1) }, copies: vec![] },
        AT,
        None,
        &mut links,
        &mut w.log,
    );
    assert!(matches!(
        found,
        NamedReference::Value { target: FuncId(0), repr: of } if of == repr(fits)
    ));
    assert_eq!(links.len(), 1);
    let absent = analyze_named_function_reference(
        &mut w.program,
        &mut w.fn_types,
        &mut w.defaults,
        &table,
        &imports,
        &CallName { form: NameForm::Free { name: Symbol(2) }, copies: vec![] },
        AT,
        None,
        &mut links,
        &mut w.log,
    );
    assert!(matches!(absent, NamedReference::Absent));
}

#[test]
fn two_references_share_one_adapter() {
    let mut w = world();
    let f = w.function_type(vec![INT], vec![OwnershipMode::Owned], Type::Bool);
    let value = |w: &mut World| {
        named_function_value(
            &mut w.program,
            &mut w.synth,
            &mut w.fn_types,
            &mut w.sites,
            repr(f),
            FuncId(0),
            Symbol(1),
            8,
            Execution::Inherited,
        )
    };
    w.synth = SynthTable::new(1);
    value(&mut w);
    value(&mut w);
    assert_eq!(w.synth.rows.len(), 1);
    assert_eq!(w.fn_types.get(repr(f)).unwrap().impls.len(), 1);
    assert_eq!(w.sites.len(), 2);
    assert_eq!(w.sites[0].tag, w.sites[1].tag);
    assert!(matches!(
        w.synth.rows[0].as_ref().unwrap().name,
        FunctionName::Reference { name: Symbol(1), .. }
    ));
}

#[test]
fn only_names_inside_closures_are_mentioned() {
    let tree = SyntaxTree {
        exprs: vec![
            Expr::Name { symbol: Symbol(1) },
            Expr::Name { symbol: Symbol(2) },
            Expr::Closure { body: vec![StmtId(0)] },
            Expr::Binary { lhs: ExprId(0), rhs: ExprId(2) },
            Expr::Call { callee: Symbol(3), args: vec![ExprId(1)], children: vec![] },
            Expr::Call { callee: Symbol(4), args: vec![ExprId(0)], children: vec![] },
        ],
        stmts: vec![
            Stmt::Expr { expr: ExprId(4) },
            Stmt::Return { value: Some(ExprId(3)) },
            Stmt::Expr { expr: ExprId(5) },
        ],
    };
    // A called name counts as a read one does, and only inside the literal.
    let mut found = names_closures_mention(&tree, &vec![StmtId(1), StmtId(2)]);
    found.sort_by_key(|name| name.0);
    assert_eq!(found, vec![Symbol(2), Symbol(3)]);
    assert!(names_closures_mention(&tree, &vec![StmtId(0)]).is_empty());
}

#[test]
fn a_filler_exists_exactly_where_a_value_is_finite() {
    let mut program = HirProgram::new();
    program.types.structs.push(StructDef {
        name: StructName::Declared(Symbol(1)),
        owner: None,
        module: None,
        fields: vec![
            FieldDef { name: FieldName::Plain(Symbol(2)), ty: INT, mutable: false },
            FieldDef {
                name: FieldName::Plain(Symbol(3)),
                ty: Type::Enum(EnumId(0)),
                mutable: false,
            },
        ],
    });
    // A list: its first variant holds a list again, its second ends it.
    program.types.enums.push(EnumDef {
        name: EnumName::Declared(Symbol(4)),
        owner: None,
        module: None,
        variants: vec![
            VariantDef { name: Symbol(5), payload: Some(Type::Enum(EnumId(0))) },
            VariantDef { name: Symbol(6), payload: None },
        ],
    });
    program.types.structs.push(StructDef {
        name: StructName::Declared(Symbol(7)),
        owner: None,
        module: None,
        fields: vec![FieldDef {
            name: FieldName::Plain(Symbol(2)),
            ty: Type::Struct(StructId(1)),
            mutable: false,
        }],
    });
    assert!(has_finite_value(&mut program, Type::Struct(StructId(0))));
    assert!(!has_finite_value(&mut program, Type::Struct(StructId(1))));
    let id = default_value(&mut program, Type::Struct(StructId(0)));
    match &program.exprs[id.0 as usize] {
        HirExpr::StructNew { fields, .. } => {
            assert!(matches!(program.exprs[fields[0].0 as usize], HirExpr::Int(0)));
            assert!(matches!(
                program.exprs[fields[1].0 as usize],
                HirExpr::EnumNew { tag: 1, payload: None, .. }
            ));
        }
        other => panic!("not a value: {other:?}"),
    }
}
