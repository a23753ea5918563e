use kira_semantics::aliases::{
    collect_type_aliases, finish_alias, resolve_alias_name, AliasDecl, AliasForm, AliasStep,
    TakenNames,
};
use kira_semantics::arguments::carry_arguments;
use kira_semantics::build_kind::BuildKind;
use kira_semantics::callables::{
    CallName, Callable, ClassRef, FunctionDecl, NameForm, Owner, ParamDecl, ReceiverDecl,
};
use kira_semantics::classes::ClassTable;
use kira_semantics::diagnostics::{CalleeName, Log, NameClash, Problem};
use kira_semantics::function_bodies::{begin_function, finish_function};
use kira_semantics::hir::{
    FuncId, FunctionName, HirExpr, HirExprId, HirProgram, HirStmtId, LocalId,
};
use kira_semantics::imports::ImportTable;
use kira_semantics::jobs::{add_job, Job};
use kira_semantics::lattice::Lattice;
use kira_semantics::method_lookup::{find_method, mutates_self};
use kira_semantics::names::{comes_before, same_text, starts_with, Names, Symbol};
use kira_semantics::schedule::{first_pass, next_pass, Pass};
use kira_semantics::sig_lookup::{
    begin_param_default, check_main, finish_param_default, link_function, lookup_function,
    lookup_method_for_receiver, visible_overloads, DefaultStep,
};
use kira_semantics::signatures::{collect_signatures, SigTable, ThreadAffinity};
use kira_semantics::source::{SourceId, Span};
use kira_semantics::spelling::{member_key, spell_code, Spelling};
use kira_semantics::symbol_map::SymbolMap;
use kira_semantics::syntax::{ExprId, MemberKey, TypeRefId};
use kira_semantics::ty::{
    EnumDef, EnumId, EnumName, Execution, FieldName, IntSpelling, OwnershipMode, StructDef,
    StructId, StructName, Type, TypeTable,
};
use kira_semantics::visibility::{
    lookup_owned_enum, visible_enum, visible_struct, visible_struct_qualified, DeclaredIn,
};

const INT: Type = Type::Int(IntSpelling::Int);
const AT: Span = Span { start: 4, end: 7 };
const HERE: SourceId = SourceId(0);

fn log() -> Log {
    Log::new(HERE)
}

fn imports() -> ImportTable {
    ImportTable { packages: vec![], modules: vec![], imported: vec![], visible: vec![(HERE, HERE)] }
}

fn lattice() -> Lattice {
    Lattice {
        assignable: vec![(INT, INT)],
        erasable: vec![],
        user_drop: vec![],
        not_copyable: vec![(Type::Text, Symbol(9))],
    }
}

fn function(name: u32, params: Vec<ParamDecl>, result: Option<Type>) -> FunctionDecl {
    FunctionDecl {
        name: Symbol(name),
        name_span: AT,
        key: MemberKey { text: Symbol(1000 + name), name: Symbol(name) },
        receiver: None,
        params,
        return_type: result,
        is_main: false,
        is_main_thread: false,
        is_main_thread_lifecycle: false,
        is_async: false,
        execution: Execution::Inherited,
    }
}

fn param(name: u32, ty: Type, ownership: OwnershipMode) -> ParamDecl {
    ParamDecl {
        name: Symbol(name),
        name_span: Span { start: name, end: name + 1 },
        ty,
        class: None,
        ownership,
        default: None,
    }
}

fn free(index: usize) -> Callable {
    Callable {
        receiver: None,
        origin: None,
        specialize: vec![],
        initializes: None,
        function: index,
        source: HERE,
    }
}

fn collect(functions: &Vec<FunctionDecl>, callables: &Vec<Callable>, log: &mut Log) -> SigTable {
    collect_signatures(
        &imports(),
        &ClassTable::new(),
        &lattice(),
        functions,
        callables,
        true,
        log,
    )
}

fn called(name: u32) -> CallName {
    CallName { form: NameForm::Free { name: Symbol(name) }, copies: vec![] }
}

#[test]
fn a_signature_is_its_receiver_and_what_was_written() {
    let functions = vec![
        function(1, vec![param(5, INT, OwnershipMode::BorrowMut)], Some(Type::Bool)),
        function(2, vec![], None),
    ];
    let mut method = free(1);
    method.receiver = Some(Owner { ty: Type::Struct(StructId(3)), name: Symbol(7) });
    let mut said = log();
    let table = collect(&functions, &vec![free(0), method], &mut said);
    assert!(said.diagnostics.is_empty());
    assert_eq!(table.param_types(FuncId(0)), vec![INT]);
    assert_eq!(table.param_ownership(FuncId(0)), vec![OwnershipMode::BorrowMut]);
    assert_eq!(table.signature_return_type(FuncId(0)), Type::Bool);
    assert_eq!(table.param_types(FuncId(1)), vec![Type::Struct(StructId(3))]);
    assert_eq!(table.signature_return_type(FuncId(1)), Type::Void);
    assert_eq!(
        find_method(&table, Type::Struct(StructId(3)), Symbol(7), Symbol(2)),
        Some(FuncId(1))
    );
    assert_eq!(find_method(&table, Type::Struct(StructId(4)), Symbol(7), Symbol(2)), None);
    assert!(!mutates_self(&table, FuncId(1)));
    assert_eq!(
        lookup_method_for_receiver(&table, StructId(3), Symbol(7), Symbol(2)),
        Some(FuncId(1))
    );
    assert_eq!(lookup_method_for_receiver(&table, StructId(4), Symbol(7), Symbol(2)), None);
    assert_eq!(table.sigs[0].signature.affinity, ThreadAffinity::Any);
}

#[test]
fn two_types_of_one_name_keep_their_own_methods() {
    let functions = vec![function(2, vec![], None), function(2, vec![], None)];
    let mut first = free(0);
    first.receiver = Some(Owner { ty: Type::Struct(StructId(3)), name: Symbol(7) });
    let mut second = free(1);
    second.receiver = Some(Owner { ty: Type::Struct(StructId(4)), name: Symbol(7) });
    let table = collect(&functions, &vec![first, second], &mut log());
    assert_eq!(
        find_method(&table, Type::Struct(StructId(3)), Symbol(7), Symbol(2)),
        Some(FuncId(0))
    );
    assert_eq!(
        find_method(&table, Type::Struct(StructId(4)), Symbol(7), Symbol(2)),
        Some(FuncId(1))
    );
}

#[test]
fn overloads_share_a_name_and_twins_do_not() {
    let functions = vec![
        function(1, vec![param(5, INT, OwnershipMode::Owned)], None),
        function(1, vec![param(5, Type::Bool, OwnershipMode::Owned)], None),
        function(1, vec![param(6, INT, OwnershipMode::Owned)], None),
    ];
    let mut said = log();
    let table = collect(&functions, &vec![free(0), free(1), free(2)], &mut said);
    assert!(matches!(
        said.diagnostics[0].problem,
        Problem::AlreadyDefined { function: FuncId(2), is_method: false }
    ));
    assert_eq!(
        visible_overloads(&table, &imports(), HERE, &called(1)),
        vec![FuncId(0), FuncId(1)]
    );
    assert!(table.sigs[0].mangled && table.sigs[1].mangled);
    assert_eq!(lookup_function(&table, &imports(), HERE, &called(1)), Some(FuncId(0)));
    // A bare name reaches only the files the writing one sees.
    assert_eq!(lookup_function(&table, &imports(), SourceId(5), &called(1)), None);
    let mut links = vec![];
    link_function(&table, FuncId(0), AT, HERE, &mut links);
    assert_eq!(links.len(), 1);
}

#[test]
fn what_a_signature_may_not_say_is_reported() {
    let mut odd = function(1, vec![param(5, Type::Text, OwnershipMode::Copy)], Some(INT));
    odd.receiver = Some(ReceiverDecl { span: AT, mutable: false });
    odd.is_main = true;
    odd.is_main_thread = true;
    odd.is_main_thread_lifecycle = true;
    let mut second = function(2, vec![], None);
    second.is_main = true;
    let mut said = log();
    collect(&vec![odd, second], &vec![free(0), free(1)], &mut said);
    let has = |wanted: fn(&Problem) -> bool| {
        said.diagnostics.iter().any(|entry| wanted(&entry.problem))
    };
    assert!(has(|p| matches!(p, Problem::NotAMethod { function: FuncId(0) })));
    assert!(has(|p| matches!(
        p,
        Problem::CannotCopyParameter { param: Symbol(5), ty: Type::Text, reason: Symbol(9) }
    )));
    assert!(has(|p| matches!(p, Problem::EntrypointIsLifecycle)));
    assert!(has(|p| matches!(p, Problem::EntrypointIsMainThread)));
    assert!(has(|p| matches!(p, Problem::LifecycleTakesParameters)));
    assert!(has(|p| matches!(p, Problem::LifecycleReturnsValue)));
    assert!(has(|p| matches!(p, Problem::NoMainThread)));
    assert!(has(|p| matches!(p, Problem::SecondEntrypoint)));
}

#[test]
fn an_application_has_one_entrypoint_and_a_library_none() {
    let mut main = function(1, vec![], None);
    main.is_main = true;
    let plain = collect(&vec![function(2, vec![], None)], &vec![free(0)], &mut log());
    let entry = collect(&vec![main], &vec![free(0)], &mut log());
    let mut program = HirProgram::new();
    let mut said = log();
    check_main(BuildKind::Application, &plain, &mut program, &mut said);
    assert!(matches!(said.diagnostics[0].problem, Problem::NoEntrypoint));
    check_main(BuildKind::Library, &plain, &mut program, &mut said);
    assert_eq!(said.diagnostics.len(), 1);
    assert_eq!(program.main, None);
    check_main(BuildKind::Library, &entry, &mut program, &mut said);
    assert!(matches!(said.diagnostics[1].problem, Problem::LibraryHasEntrypoint));
    check_main(BuildKind::Application, &entry, &mut program, &mut said);
    assert_eq!(program.main, Some(FuncId(0)));
    let mut takes = function(1, vec![param(5, INT, OwnershipMode::Owned)], None);
    takes.is_main = true;
    let takes = collect(&vec![takes], &vec![free(0)], &mut log());
    check_main(BuildKind::Application, &takes, &mut program, &mut said);
    assert!(matches!(said.diagnostics[2].problem, Problem::EntrypointTakesParameters));
}

#[test]
fn a_parameter_default_is_resolved_once() {
    let mut with = param(5, INT, OwnershipMode::Owned);
    with.default = Some(ExprId(8));
    let mut table = collect(&vec![function(1, vec![with], None)], &vec![free(0)], &mut log());
    let mut program = HirProgram::new();
    let mut resolving = vec![];
    let mut said = log();
    let step = begin_param_default(
        &table, &mut resolving, FuncId(0), 0, AT, &mut program, &mut said,
    );
    assert_eq!(
        step,
        DefaultStep::Analyze { syntax: ExprId(8), source: HERE, expected: Some(INT) }
    );
    // A default that reaches itself has no finite value.
    begin_param_default(&table, &mut resolving, FuncId(0), 0, AT, &mut program, &mut said);
    assert!(matches!(said.diagnostics[0].problem, Problem::EndlessParameterDefault));
    finish_param_default(&mut table, &mut resolving, FuncId(0), 0, HirExprId(4));
    assert!(resolving.is_empty());
    assert_eq!(
        begin_param_default(&table, &mut resolving, FuncId(0), 0, AT, &mut program, &mut said),
        DefaultStep::Ready(HirExprId(4))
    );
    assert_eq!(
        begin_param_default(&table, &mut resolving, FuncId(0), 1, AT, &mut program, &mut said),
        DefaultStep::Absent
    );
}

#[test]
fn a_body_starts_with_its_receiver_and_parameters() {
    let functions = vec![function(
        1,
        vec![param(5, INT, OwnershipMode::BorrowMut), param(6, Type::Bool, OwnershipMode::Owned)],
        Some(INT),
    )];
    let mut method = free(0);
    method.receiver = Some(Owner { ty: Type::Struct(StructId(3)), name: Symbol(7) });
    method.source = SourceId(4);
    let callables = vec![method];
    let mut table = collect(&functions, &callables, &mut log());
    let mut said = log();
    let ctx = begin_function(
        &table, FuncId(0), &functions[0], &callables[0], Symbol(99), vec![Symbol(6)], &mut said,
    );
    assert_eq!(said.source, SourceId(4));
    assert_eq!(ctx.locals.len(), 3);
    assert_eq!(ctx.resolve(Symbol(99)), Some(LocalId(0)));
    assert_eq!(ctx.locals[0].ownership, OwnershipMode::BorrowRead);
    assert!(!ctx.locals[0].mutable);
    assert!(ctx.locals[1].mutable);
    assert!(!ctx.locals[2].mutable);
    assert_eq!(ctx.receiver, Some(StructId(3)));
    assert_eq!(ctx.binding_span(LocalId(2)), Some(Span { start: 6, end: 7 }));
    assert!(ctx.must_box(Symbol(6), true));
    table.sigs[0].mutates_self = true;
    let ctx = begin_function(
        &table, FuncId(0), &functions[0], &callables[0], Symbol(99), vec![], &mut said,
    );
    assert!(ctx.locals[0].mutable);
    assert_eq!(ctx.locals[0].ownership, OwnershipMode::Owned);
    let done = finish_function(
        &table,
        FuncId(0),
        &functions[0],
        &callables[0],
        ctx.locals,
        vec![HirStmtId(1)],
        true,
        &mut said,
    );
    assert_eq!(done.name, FunctionName::Declared(FuncId(0)));
    assert_eq!(done.param_count, 3);
    assert!(done.mutates_self);
    assert!(said.diagnostics.is_empty());
    finish_function(
        &table, FuncId(0), &functions[0], &callables[0], vec![], vec![], false, &mut said,
    );
    assert!(matches!(said.diagnostics[0].problem, Problem::MayNotReturn { function: FuncId(0) }));
}

#[test]
fn arguments_are_checked_and_carried() {
    let mut program = HirProgram::new();
    let one = program.add_expr(HirExpr::Int(1));
    let text = program.add_expr(HirExpr::Str(None));
    let mut said = log();
    let results = carry_arguments(
        &mut program,
        &lattice(),
        &vec![one, text, one],
        &vec![INT, INT],
        CalleeName::Value(INT),
        AT,
        &mut said,
    );
    assert_eq!(results, vec![one, text, one]);
    assert_eq!(said.diagnostics.len(), 1);
    assert!(matches!(
        said.diagnostics[0].problem,
        Problem::ArgumentMismatch { place: 2, expected: INT, found: Type::Text, .. }
    ));
}

fn alias(name: u32, form: AliasForm) -> AliasDecl {
    AliasDecl { source: HERE, name: Symbol(name), name_span: AT, form }
}

#[test]
fn an_alias_claims_a_free_name_once() {
    let mut table = SymbolMap::new();
    let taken = TakenNames {
        builtins: vec![Symbol(1)],
        declared: vec![(Symbol(2), NameClash::Struct), (Symbol(3), NameClash::Enum)],
    };
    let described = AliasForm::Pointer { yields: false, description: Some(Symbol(70)) };
    let mut said = log();
    collect_type_aliases(
        &mut table,
        &taken,
        &vec![
            alias(1, AliasForm::Type(TypeRefId(0))),
            alias(2, AliasForm::Type(TypeRefId(0))),
            alias(3, AliasForm::Type(TypeRefId(0))),
            alias(4, AliasForm::Type(TypeRefId(0))),
            alias(4, AliasForm::Type(TypeRefId(0))),
            alias(5, described),
            alias(5, described),
            alias(6, AliasForm::Foreign { target: None, yields: false, description: None }),
        ],
        &mut said,
    );
    let clashes: Vec<(u32, NameClash)> = said
        .diagnostics
        .iter()
        .filter_map(|entry| match entry.problem {
            Problem::AliasCollides { alias, with } => Some((alias.0, with)),
            _ => None,
        })
        .collect();
    assert_eq!(
        clashes,
        vec![
            (1, NameClash::Builtin),
            (2, NameClash::Struct),
            (3, NameClash::Enum),
            (4, NameClash::EarlierAlias),
        ]
    );
    assert!(said
        .diagnostics
        .iter()
        .any(|entry| matches!(entry.problem, Problem::AliasTargetMissing)));
    assert!(table.contains(Symbol(4)));
    assert!(table.contains(Symbol(5)));
    assert!(!table.contains(Symbol(6)));
}

#[test]
fn an_alias_resolves_once_and_a_cycle_ends() {
    let mut table = SymbolMap::new();
    let taken = TakenNames { builtins: vec![], declared: vec![] };
    let mut said = log();
    collect_type_aliases(
        &mut table,
        &taken,
        &vec![
            alias(4, AliasForm::Type(TypeRefId(7))),
            alias(5, AliasForm::Pointer { yields: false, description: None }),
        ],
        &mut said,
    );
    assert_eq!(
        resolve_alias_name(&mut table, Symbol(4), &mut said),
        AliasStep::Resolve(TypeRefId(7))
    );
    assert_eq!(
        resolve_alias_name(&mut table, Symbol(4), &mut said),
        AliasStep::Type(Type::Error)
    );
    assert!(matches!(said.diagnostics[0].problem, Problem::AliasCycle { alias: Symbol(4) }));
    resolve_alias_name(&mut table, Symbol(4), &mut said);
    assert_eq!(said.diagnostics.len(), 1);
    finish_alias(&mut table, Symbol(4), INT);
    assert_eq!(resolve_alias_name(&mut table, Symbol(4), &mut said), AliasStep::Type(INT));
    assert_eq!(
        resolve_alias_name(&mut table, Symbol(5), &mut said),
        AliasStep::Type(Type::RawPtr)
    );
    assert_eq!(resolve_alias_name(&mut table, Symbol(6), &mut said), AliasStep::NotOne);
}

#[test]
fn a_files_own_package_comes_first() {
    let mut types = TypeTable::new();
    for owner in [Some(Symbol(1)), Some(Symbol(2)), None] {
        types.structs.push(StructDef {
            name: StructName::Declared(Symbol(9)),
            owner,
            module: None,
            fields: vec![],
        });
    }
    types.enums.push(EnumDef {
        name: EnumName::Declared(Symbol(8)),
        owner: Some(Symbol(2)),
        module: None,
        variants: vec![],
    });
    let table = ImportTable {
        packages: vec![Some(Symbol(1)), Some(Symbol(3)), Some(Symbol(3))],
        modules: vec![],
        imported: vec![vec![], vec![Symbol(2)], vec![]],
        visible: vec![(SourceId(1), SourceId(1))],
    };
    let declared = DeclaredIn {
        structs: vec![Some(SourceId(0)), Some(SourceId(5)), Some(SourceId(9))],
        enums: vec![Some(SourceId(5))],
    };
    let seen = |file: u32| visible_struct(&types, &table, &declared, SourceId(file), Symbol(9));
    assert_eq!(seen(0), Some(StructId(0)));
    assert_eq!(seen(1), Some(StructId(1)));
    // Neither the package's own, nor seen, nor imported.
    assert_eq!(seen(2), None);
    assert_eq!(
        visible_struct_qualified(
            &types, &table, &declared, SourceId(2), Some(SourceId(0)), Symbol(9)
        ),
        Some(StructId(0))
    );
    assert_eq!(
        visible_enum(&types, &table, &declared, SourceId(1), Symbol(8)),
        Some(EnumId(0))
    );
    assert_eq!(lookup_owned_enum(&types, None, Symbol(8)), None);
}

#[test]
fn names_are_kept_in_text_order() {
    assert!(comes_before("ab", "abc"));
    assert!(comes_before("abc", "b"));
    assert!(!comes_before("b", "b"));
    assert!(starts_with("append", "app"));
    assert!(!same_text("app", "append"));
    assert!(Names::new(vec!["b".to_owned(), "a".to_owned()]).is_none());
    let names = Names::new(vec!["a".to_owned(), "b".to_owned()]).unwrap();
    assert_eq!(names.len(), 2);
    assert_eq!(names.resolve(Symbol(1)), "b");
}

#[test]
fn jobs_run_in_the_order_of_their_ids() {
    let mut jobs = vec![];
    for id in [5, 2, 9] {
        add_job(&mut jobs, Job { id: FuncId(id), family: 0, member: 0 });
    }
    let ids: Vec<u32> = jobs.iter().map(|job| job.id.0).collect();
    assert_eq!(ids, vec![2, 5, 9]);
}

#[test]
fn filling_repeats_until_nothing_is_reserved() {
    let mut pass = first_pass();
    let mut seen = vec![pass];
    let mut rounds = 0;
    loop {
        // The first round of filling reserves something new.
        let filled = if rounds == 0 { 4 } else { 5 };
        if pass == Pass::BuildConstructDispatchers {
            rounds += 1;
        }
        match next_pass(pass, 5, filled) {
            Some(next) => pass = next,
            None => break,
        }
        seen.push(pass);
    }
    assert_eq!(pass, Pass::FinalizeNativeStateTypeIds);
    assert_eq!(rounds, 2);
    let at = |wanted: Pass| seen.iter().position(|pass| *pass == wanted).unwrap();
    assert!(at(Pass::CollectTypeAliases) < at(Pass::CollectStructs));
    assert!(at(Pass::CollectSignatures) < at(Pass::AnalyzeBodies));
    assert!(at(Pass::AnalyzeBodies) < at(Pass::OrderConstants));
    assert_eq!(seen.iter().filter(|pass| **pass == Pass::BuildExtendMethods).count(), 2);
}

/// The names, in text order, that the spelling tests speak of.
fn words() -> Names {
    let texts = [
        "(Int) -> Bool", "Animal", "Bool", "Card", "Dog", "Int", "View", "at.x.y", "feed", "kira",
        "render", "some View", "speak",
    ];
    Names::new(texts.iter().map(|text| text.to_string()).collect()).unwrap()
}

#[test]
fn a_message_is_spelled_out() {
    let names = words();
    let types = vec![
        (INT, Symbol(5)),
        (Type::Bool, Symbol(2)),
        (Type::Struct(StructId(0)), Symbol(1)),
        (Type::Struct(StructId(1)), Symbol(4)),
    ];
    let identities = vec![(INT, Symbol(5)), (Type::Bool, Symbol(11))];
    let functions = vec![
        function(8, vec![param(0, INT, OwnershipMode::BorrowRead)], Some(Type::Bool)),
        function(8, vec![param(0, Type::Bool, OwnershipMode::Owned)], None),
    ];
    let mut copy = free(0);
    copy.specialize = vec![(0, ClassRef { id: StructId(1), name: Symbol(4) })];
    let sigs = collect(&functions, &vec![free(0), free(1), copy], &mut log());
    let spelling = Spelling { names: &names, types: &types, identities: &identities, sigs: &sigs };
    let said = |problem: Problem| spelling.spell_problem(&problem);
    assert_eq!(
        said(Problem::BindingMismatch { annotation: INT, found: Type::Bool }),
        "binding annotated `Int` cannot hold a value of type `Bool`"
    );
    assert_eq!(
        said(Problem::NoArrayMember { member: Symbol(8) }),
        "an array has no `feed`; an array has `.append(value)` and `.count`"
    );
    assert_eq!(
        said(Problem::ConstantCycle { members: vec![Symbol(8), Symbol(12)] }),
        "module constants form a dependency cycle: `feed` -> `speak` -> `feed`; no member has a value to start from"
    );
    assert_eq!(
        said(Problem::AmbiguousMethod {
            method: Symbol(12),
            owners: vec![StructId(0), StructId(1)]
        }),
        "`speak` is inherited from `Animal` and `Dog`; qualify it to say which method is meant"
    );
    assert_eq!(
        said(Problem::UpdateNoPath { ty: INT, label: Symbol(7), from: 1 }),
        "construct update type `Int` has no field path `x.y`"
    );
    assert_eq!(
        said(Problem::AliasCollides { alias: Symbol(3), with: NameClash::EarlierAlias }),
        "type alias `Card` collides with an earlier type alias `Card`"
    );
    assert_eq!(
        said(Problem::LiteralDoesNotFit { value: -305, spelling: IntSpelling::Int }),
        "the literal `-305` does not fit `Int`"
    );
    assert_eq!(
        said(Problem::CallArity {
            callee: CalleeName::Method { owner: INT, method: Symbol(10) },
            takes: 10,
            found: 0
        }),
        "`Int.render` takes 10 argument(s), found 0"
    );
    assert_eq!(
        said(Problem::AlreadyDefined { function: FuncId(1), is_method: false }),
        "function `feed` is already defined with these parameters"
    );
    assert_eq!(
        said(Problem::ClosureNeedsFunctionType { expected: None }),
        "a closure needs a function type to check against, but nothing here says what its parameters are"
    );
    assert_eq!(
        said(Problem::MissingInput {
            construct: StructId(0),
            field: FieldName::Captured { name: Symbol(8), tag: 2, index: 1 }
        }),
        "construction of `Animal` is missing input `feed$2_1`"
    );
    assert_eq!(spelling.function_type_name(FuncId(0)), "(borrow Int) -> Bool");
    assert_eq!(spelling.spell_function(FuncId(2)), "feed$0$Dog");
    // Overloads are told apart by what they take, with no space in the symbol.
    assert_eq!(spelling.spell_function_name(FunctionName::Declared(FuncId(0))), "feed$Int");
    assert_eq!(spelling.spell_function_name(FunctionName::Declared(FuncId(1))), "feed$some_View");
    assert_eq!(
        spelling.spell_function_name(FunctionName::DispatchTree {
            family: Symbol(6),
            method: Symbol(10),
            number: 12
        }),
        "Any View.render$dispatch_tree12"
    );
    assert_eq!(
        spelling.spell_function_name(FunctionName::FamilyRead {
            family: Symbol(6),
            member: Symbol(10)
        }),
        "some View.render$read"
    );
    assert_eq!(
        member_key("bump", &vec!["Int".to_owned(), "Text".to_owned()]),
        "bump(Int,Text)"
    );
    assert_eq!(member_key("bump", &vec![]), "bump()");
}

#[test]
fn a_code_has_three_digits() {
    assert_eq!(spell_code(Problem::UnknownParent { parent: Symbol(0) }.code()), "KSEM003");
    assert_eq!(spell_code(Problem::NoEntrypoint.code()), "KSEM011");
    assert_eq!(spell_code(Problem::LibraryHasEntrypoint.code()), "KSEM158");
    assert_eq!(spell_code(Problem::AppendArity { found: 0 }.code()), "KSEM103");
}

#[test]
fn a_path_is_spelled_by_its_segments() {
    let names = Names::new(
        [".a..b.", "Int", "a"].iter().map(|text| text.to_string()).collect(),
    )
    .unwrap();
    let types = vec![(INT, Symbol(1))];
    let identities = vec![];
    let sigs = collect(&vec![], &vec![], &mut log());
    let spelling = Spelling { names: &names, types: &types, identities: &identities, sigs: &sigs };
    assert_eq!(
        spelling.spell_problem(&Problem::UpdatePathsOverlap { left: Symbol(2), right: Symbol(0) }),
        "construct update paths `a` and `a.b` overlap"
    );
    assert_eq!(
        spelling.spell_problem(&Problem::UpdateNoPath { ty: INT, label: Symbol(0), from: 1 }),
        "construct update type `Int` has no field path `b`"
    );
}
