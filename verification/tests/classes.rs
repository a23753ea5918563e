use kira_semantics::callables::{
    callable_name, parameter_subclasses, same_name, specialize_callables, specialize_choices,
    CallName, Callable, ClassRef, FunctionDecl, NameForm, Owner, ParamDecl,
};
use kira_semantics::class_exprs::{
    analyze_parent_field, begin_class_new, begin_implicit_call, begin_parent_call, class_named,
    class_field_default, finish_class_new, next_open_slot, parent_call_name, parent_call_names,
    parent_qualifier_of, report_ambiguous_member, resolve_parent_qualifier, settle_class_argument,
    Qualifier, SelfCall,
};
use kira_semantics::class_fields::{bare_field, qualified_field};
use kira_semantics::class_fill::{
    class_callables, collect_classes, declare_class_headers, method_ast, ClassInputs, MethodHome,
};
use kira_semantics::class_methods::{is_most_derived, methods_of};
use kira_semantics::class_order::class_order;
use kira_semantics::classes::{
    admits_argument, ClassDecl, ClassFieldDecl, ClassMethodDecl, ClassTable, ExtendBlock,
    OverrideFieldDecl, ParentRef,
};
use kira_semantics::diagnostics::{Log, Problem};
use kira_semantics::drop_reads::DropReads;
use kira_semantics::hir::{HirExpr, HirExprId, HirProgram, LocalId};
use kira_semantics::imports::ImportTable;
use kira_semantics::lattice::Lattice;
use kira_semantics::names::Symbol;
use kira_semantics::scope::FnCtx;
use kira_semantics::signatures::{CallableSignature, FuncSig, SigTable, ThreadAffinity};
use kira_semantics::source::{SourceId, Span};
use kira_semantics::syntax::{Expr, ExprId, FieldDefault, MemberKey};
use kira_semantics::ty::{
    Execution, FieldName, IntSpelling, OwnershipMode, StructId, Type, TypeTable,
};
use kira_semantics::visibility::DeclaredIn;

const INT: Type = Type::Int(IntSpelling::Int);
const AT: Span = Span { start: 4, end: 7 };
const HERE: SourceId = SourceId(0);
const THIS: Symbol = Symbol(99);

// Animal, Dog, Puppy and Robot.
const ANIMAL: Symbol = Symbol(10);
const DOG: Symbol = Symbol(11);
const PUPPY: Symbol = Symbol(12);
const ROBOT: Symbol = Symbol(13);
const AGE: Symbol = Symbol(20);
const NAME: Symbol = Symbol(21);
const SPEAK: Symbol = Symbol(30);
const EAT: Symbol = Symbol(31);

fn log() -> Log {
    Log::new(HERE)
}

fn imports() -> ImportTable {
    ImportTable { packages: vec![], modules: vec![], imported: vec![], visible: vec![(HERE, HERE)] }
}

fn lattice() -> Lattice {
    Lattice {
        assignable: vec![(INT, INT)],
        erasable: vec![],
        user_drop: vec![],
        not_copyable: vec![],
    }
}

fn key(name: Symbol) -> MemberKey {
    MemberKey { text: Symbol(name.0 + 1000), name }
}

fn key_with(name: Symbol, text: u32) -> MemberKey {
    MemberKey { text: Symbol(text), name }
}

fn parent(name: Symbol) -> ParentRef {
    ParentRef { name, span: AT, instantiated: None }
}

fn field(name: Symbol, ty: Type, default: Option<ExprId>) -> ClassFieldDecl {
    ClassFieldDecl { name, name_span: AT, ty, mutable: true, default }
}

fn method(name: Symbol, is_override: bool) -> ClassMethodDecl {
    ClassMethodDecl { key: key(name), name_span: AT, is_override }
}

fn class(
    name: Symbol,
    parents: Vec<ParentRef>,
    fields: Vec<ClassFieldDecl>,
    methods: Vec<ClassMethodDecl>,
) -> ClassDecl {
    ClassDecl {
        name,
        name_span: AT,
        source: HERE,
        generic: false,
        parents,
        fields,
        overrides: vec![],
        methods,
    }
}

struct World {
    types: TypeTable,
    declared: DeclaredIn,
    classes: ClassTable,
    defaults: Vec<Vec<Option<FieldDefault>>>,
    log: Log,
    ids: Vec<Option<StructId>>,
}

fn build(decls: Vec<ClassDecl>, blocks: Vec<ExtendBlock>) -> World {
    let mut types = TypeTable::new();
    let mut declared = DeclaredIn { structs: vec![], enums: vec![] };
    let mut defaults = vec![];
    let mut said = log();
    let table = imports();
    let taken = vec![false; decls.len()];
    let ids = declare_class_headers(
        &decls,
        &taken,
        &table,
        &mut types,
        &mut declared,
        &mut defaults,
        &mut said,
    );
    let mut classes = ClassTable::new();
    let inputs = ClassInputs { imports: &table, declared: &declared, blocks: &blocks };
    collect_classes(&decls, &ids, &mut types, &mut classes, &mut defaults, &inputs, &mut said);
    World { types, declared, classes, defaults, log: said, ids }
}

fn animals() -> World {
    build(
        vec![
            class(
                PUPPY,
                vec![parent(DOG)],
                vec![],
                vec![],
            ),
            class(
                DOG,
                vec![parent(ANIMAL)],
                vec![field(NAME, Type::Text, Some(ExprId(7)))],
                vec![method(SPEAK, true)],
            ),
            class(
                ANIMAL,
                vec![],
                vec![field(AGE, INT, None)],
                vec![method(SPEAK, false), method(EAT, false)],
            ),
        ],
        vec![],
    )
}

#[test]
fn a_class_is_its_parents_fields_and_then_its_own() {
    let world = animals();
    assert!(world.log.diagnostics.is_empty());
    let dog = world.ids[1].unwrap();
    let fields = &world.types.structs[dog.0 as usize].fields;
    assert_eq!(fields.len(), 2);
    assert_eq!(fields[0].name, FieldName::Plain(AGE));
    assert_eq!(fields[1].name, FieldName::Plain(NAME));
    let puppy = world.ids[0].unwrap();
    assert_eq!(world.types.structs[puppy.0 as usize].fields.len(), 2);
    let animal = world.ids[2].unwrap();
    assert!(world.classes.has_ancestor(puppy, animal));
    assert!(world.classes.is_subclass_of(Type::Struct(puppy), Type::Struct(animal)));
    assert!(!world.classes.is_subclass_of(Type::Struct(animal), Type::Struct(puppy)));
    assert_eq!(world.classes.ancestors_of(dog), vec![dog, animal]);
    assert_eq!(
        world.defaults[dog.0 as usize],
        vec![None, Some(FieldDefault { syntax: ExprId(7), source: HERE, resolved: None })]
    );
}

#[test]
fn parents_are_flattened_before_children() {
    let decls = vec![
        class(PUPPY, vec![parent(DOG)], vec![], vec![]),
        class(DOG, vec![parent(ANIMAL)], vec![], vec![]),
        class(ANIMAL, vec![], vec![], vec![]),
    ];
    let mut said = log();
    let order = class_order(&decls, &mut said);
    assert_eq!(order.order, vec![2, 1, 0]);
    assert!(order.dropped.is_empty());
}

#[test]
fn a_cycle_of_classes_is_reported_and_dropped() {
    let decls = vec![
        class(DOG, vec![parent(PUPPY)], vec![], vec![]),
        class(PUPPY, vec![parent(DOG)], vec![], vec![]),
        class(ROBOT, vec![], vec![], vec![]),
    ];
    let mut said = log();
    let order = class_order(&decls, &mut said);
    assert_eq!(order.order, vec![2]);
    assert!(!order.dropped.is_empty());
    assert!(said
        .diagnostics
        .iter()
        .all(|entry| matches!(entry.problem, Problem::InheritsFromItself { .. })));
    assert!(!said.diagnostics.is_empty());
}

#[test]
fn an_override_shadows_only_what_it_overrides() {
    let world = animals();
    let (puppy, dog, animal) =
        (world.ids[0].unwrap(), world.ids[1].unwrap(), world.ids[2].unwrap());
    assert!(is_most_derived(&world.classes, puppy, dog, key(SPEAK)));
    assert!(!is_most_derived(&world.classes, puppy, animal, key(SPEAK)));
    assert!(is_most_derived(&world.classes, puppy, animal, key(EAT)));
    let mut found = methods_of(&world.classes, puppy);
    found.sort_by_key(|(owner, key)| (owner.0, key.text.0));
    assert_eq!(found.len(), 3);
}

#[test]
fn what_a_class_may_not_do_is_reported() {
    let world = build(
        vec![
            class(ANIMAL, vec![], vec![field(AGE, INT, None)], vec![method(SPEAK, false)]),
            class(
                DOG,
                vec![parent(ANIMAL), parent(ANIMAL), parent(Symbol(77))],
                vec![field(AGE, INT, None)],
                vec![
                    ClassMethodDecl {
                        key: key_with(SPEAK, 5555),
                        name_span: AT,
                        is_override: true,
                    },
                    method(EAT, true),
                ],
            ),
        ],
        vec![ExtendBlock { name: ANIMAL, source: HERE, methods: vec![method(SPEAK, false)] }],
    );
    let has = |wanted: fn(&Problem) -> bool| {
        world.log.diagnostics.iter().any(|entry| wanted(&entry.problem))
    };
    assert!(has(|p| matches!(p, Problem::ParentAlreadyNamed { parent: ANIMAL })));
    assert!(has(|p| matches!(p, Problem::UnknownParent { parent: Symbol(77) })));
    assert!(has(|p| matches!(p, Problem::FieldAlreadyInherited { field: AGE })));
    assert!(has(|p| matches!(p, Problem::OverrideMustMatch { method: SPEAK, .. })));
    assert!(has(|p| matches!(p, Problem::OverridesNoMethod { method: EAT })));
    assert!(has(|p| matches!(p, Problem::MethodAlreadyDeclared { class: ANIMAL, method: SPEAK })));
}

#[test]
fn an_override_let_gives_a_new_default() {
    let mut dog = class(DOG, vec![parent(ANIMAL)], vec![], vec![]);
    dog.overrides = vec![
        OverrideFieldDecl { name: AGE, name_span: AT, restated: None, default: ExprId(3) },
        OverrideFieldDecl { name: NAME, name_span: AT, restated: None, default: ExprId(4) },
        OverrideFieldDecl {
            name: AGE,
            name_span: AT,
            restated: Some((Type::Bool, AT)),
            default: ExprId(5),
        },
    ];
    let world =
        build(vec![class(ANIMAL, vec![], vec![field(AGE, INT, None)], vec![]), dog], vec![]);
    assert!(world
        .log
        .diagnostics
        .iter()
        .any(|entry| matches!(entry.problem, Problem::OverridesNoField { field: NAME })));
    assert!(world.log.diagnostics.iter().any(|entry| matches!(
        entry.problem,
        Problem::OverrideRestatesType { field: AGE, written: Type::Bool, inherited: INT }
    )));
    let dog = world.ids[1].unwrap();
    assert!(world.defaults[dog.0 as usize][0].is_some());
    let row = world.classes.find(dog).unwrap();
    assert!(world.classes.classes[row].required_slots.is_empty());
}

#[test]
fn two_parents_same_field_is_ambiguous() {
    let mut both = class(PUPPY, vec![parent(DOG), parent(ROBOT)], vec![], vec![]);
    both.overrides =
        vec![OverrideFieldDecl { name: AGE, name_span: AT, restated: None, default: ExprId(1) }];
    let world = build(
        vec![
            class(DOG, vec![], vec![field(AGE, INT, None)], vec![method(SPEAK, false)]),
            class(ROBOT, vec![], vec![field(AGE, INT, None)], vec![method(SPEAK, false)]),
            both,
        ],
        vec![],
    );
    assert!(matches!(
        world.log.diagnostics[0].problem,
        Problem::OverrideIsAmbiguous { field: AGE }
    ));
    let (dog, robot, puppy) =
        (world.ids[0].unwrap(), world.ids[1].unwrap(), world.ids[2].unwrap());
    let fields = &world.types.structs[puppy.0 as usize].fields;
    assert_eq!(fields[0].name, FieldName::Qualified { owner: dog, name: AGE });
    assert_eq!(fields[1].name, FieldName::Qualified { owner: robot, name: AGE });
    let row = world.classes.find(puppy).unwrap();
    let info = &world.classes.classes[row];
    assert_eq!(bare_field(info, FieldName::Plain(AGE)), vec![(dog, 0), (robot, 1)]);
    assert_eq!(qualified_field(info, robot, FieldName::Plain(AGE)), Some(1));
    assert_eq!(qualified_field(info, puppy, FieldName::Plain(AGE)), None);
    let mut said = log();
    assert!(report_ambiguous_member(&world.classes, puppy, AGE, AT, false, &mut said));
    assert!(matches!(
        &said.diagnostics[0].problem,
        Problem::AmbiguousField { field: AGE, owners } if *owners == vec![dog, robot]
    ));
    assert!(report_ambiguous_member(&world.classes, puppy, SPEAK, AT, true, &mut said));
    assert!(matches!(
        &said.diagnostics[1].problem,
        Problem::AmbiguousMethod { method: SPEAK, owners } if owners.len() == 2
    ));
    assert!(!report_ambiguous_member(&world.classes, dog, AGE, AT, false, &mut said));
    assert!(!report_ambiguous_member(&world.classes, dog, SPEAK, AT, true, &mut said));
    assert_eq!(said.diagnostics.len(), 2);
}

#[test]
fn a_class_name_is_given_once() {
    let mut types = TypeTable::new();
    let mut declared = DeclaredIn { structs: vec![], enums: vec![] };
    let mut defaults = vec![];
    let mut said = log();
    let ids = declare_class_headers(
        &vec![class(DOG, vec![], vec![], vec![]), class(DOG, vec![], vec![], vec![])],
        &vec![false, false],
        &imports(),
        &mut types,
        &mut declared,
        &mut defaults,
        &mut said,
    );
    assert_eq!(ids, vec![Some(StructId(0)), None]);
    assert!(matches!(said.diagnostics[0].problem, Problem::ClassAlreadyDefined { class: DOG }));
}

#[test]
fn a_class_argument_is_admitted_where_its_parent_is() {
    let world = animals();
    let (dog, animal) = (world.ids[1].unwrap(), world.ids[2].unwrap());
    assert!(admits_argument(
        &lattice(),
        &world.classes,
        Type::Struct(dog),
        Type::Struct(animal)
    ));
    assert!(!admits_argument(
        &lattice(),
        &world.classes,
        Type::Struct(animal),
        Type::Struct(dog)
    ));
}

#[test]
fn a_constructor_takes_the_fields_without_a_default() {
    let world = animals();
    let dog = world.ids[1].unwrap();
    let mut program = HirProgram::new();
    program.types = world.types;
    let five = program.add_expr(HirExpr::Int(5));
    let name = program.add_expr(HirExpr::Str(None));
    let mut said = log();
    let mut build = begin_class_new(&program.types, &world.classes, dog, 1, AT, &mut said);
    assert!(build.arity_matches);
    assert_eq!(build.required, vec![0]);
    settle_class_argument(&mut program, &lattice(), &mut build, 0, five, AT, &mut said);
    assert_eq!(next_open_slot(&build), Some(1));
    class_field_default(&mut program, &mut build, 1, Some(name), AT, &mut said);
    assert_eq!(next_open_slot(&build), None);
    let id = finish_class_new(&mut program, build);
    match &program.exprs[id.0 as usize] {
        HirExpr::StructNew { struct_id, fields } => {
            assert_eq!(*struct_id, dog);
            assert_eq!(fields, &vec![five, name]);
        }
        other => panic!("not a construction: {other:?}"),
    }
    assert!(said.diagnostics.is_empty());
}

#[test]
fn a_constructor_reports_what_it_was_given_wrong() {
    let world = animals();
    let dog = world.ids[1].unwrap();
    let mut program = HirProgram::new();
    program.types = world.types;
    let text = program.add_expr(HirExpr::Str(None));
    let mut said = log();
    let mut build = begin_class_new(&program.types, &world.classes, dog, 2, AT, &mut said);
    assert!(matches!(
        said.diagnostics[0].problem,
        Problem::ConstructorArity { takes: 1, found: 2, .. }
    ));
    settle_class_argument(&mut program, &lattice(), &mut build, 0, text, AT, &mut said);
    assert!(matches!(
        said.diagnostics[1].problem,
        Problem::ConstructorMismatch { place: 1, expected: INT, found: Type::Text, .. }
    ));
    settle_class_argument(&mut program, &lattice(), &mut build, 1, text, AT, &mut said);
    // The slot left over is the same mistake, so it is not reported again.
    assert_eq!(next_open_slot(&build), None);
    let id = finish_class_new(&mut program, build);
    match &program.exprs[id.0 as usize] {
        HirExpr::StructNew { fields, .. } => {
            assert_eq!(fields[0], text);
            assert!(matches!(program.exprs[fields[1].0 as usize], HirExpr::Error));
        }
        other => panic!("not a construction: {other:?}"),
    }
    assert_eq!(said.diagnostics.len(), 2);
    let mut build = begin_class_new(&program.types, &world.classes, dog, 1, AT, &mut said);
    settle_class_argument(&mut program, &lattice(), &mut build, 0, text, AT, &mut said);
    class_field_default(&mut program, &mut build, 1, None, AT, &mut said);
    assert!(build.initializers[1].is_some());
    assert!(matches!(
        said.diagnostics[3].problem,
        Problem::SlotHasNoValue { slot: 1, .. }
    ));
}

#[test]
fn a_parent_name_qualifies_inside_its_children() {
    let world = animals();
    let (dog, animal) = (world.ids[1].unwrap(), world.ids[2].unwrap());
    assert_eq!(
        class_named(&world.types, &imports(), &world.declared, &world.classes, HERE, DOG),
        Some(dog)
    );
    let mut ctx = FnCtx::new(Type::Void);
    let mut said = log();
    let name = Expr::Name { symbol: ANIMAL };
    assert_eq!(
        parent_qualifier_of(
            &world.types,
            &imports(),
            &world.declared,
            &world.classes,
            &ctx,
            &name,
            AT,
            &mut said
        ),
        Qualifier::Rejected
    );
    assert!(matches!(
        said.diagnostics[0].problem,
        Problem::CannotQualifyHere { parent: ANIMAL }
    ));
    ctx.receiver = Some(dog);
    assert_eq!(
        parent_qualifier_of(
            &world.types,
            &imports(),
            &world.declared,
            &world.classes,
            &ctx,
            &name,
            AT,
            &mut said
        ),
        Qualifier::Parent(animal)
    );
    assert_eq!(
        resolve_parent_qualifier(
            &world.types,
            &imports(),
            &world.declared,
            &world.classes,
            &ctx,
            PUPPY,
            AT,
            &mut said
        ),
        None
    );
    assert!(matches!(
        said.diagnostics[1].problem,
        Problem::DoesNotInherit { parent: PUPPY, .. }
    ));
    // A local of the same name wins.
    ctx.declare(ANIMAL, INT, false);
    assert_eq!(
        parent_qualifier_of(
            &world.types,
            &imports(),
            &world.declared,
            &world.classes,
            &ctx,
            &name,
            AT,
            &mut said
        ),
        Qualifier::NotAType
    );
    assert_eq!(
        parent_qualifier_of(
            &world.types,
            &imports(),
            &world.declared,
            &world.classes,
            &ctx,
            &Expr::Leaf,
            AT,
            &mut said
        ),
        Qualifier::NotAType
    );
    assert_eq!(said.diagnostics.len(), 2);
}

#[test]
fn a_parent_call_runs_on_this_instance() {
    let world = animals();
    let (dog, animal) = (world.ids[1].unwrap(), world.ids[2].unwrap());
    let mut program = HirProgram::new();
    program.types = world.types;
    let mut ctx = FnCtx::new(Type::Void);
    let this = ctx.declare(THIS, Type::Struct(dog), false);
    let mut said = log();
    let outside = begin_parent_call(
        &mut program,
        &world.classes,
        &ctx,
        animal,
        SPEAK,
        THIS,
        AT,
        &mut said,
    );
    assert_eq!(outside, SelfCall::Refused(HirExprId(0)));
    ctx.receiver = Some(dog);
    let step = begin_parent_call(
        &mut program,
        &world.classes,
        &ctx,
        animal,
        SPEAK,
        THIS,
        AT,
        &mut said,
    );
    assert_eq!(step, SelfCall::On { local: this, value: HirExprId(1) });
    assert!(said.diagnostics.is_empty());
    begin_parent_call(
        &mut program,
        &world.classes,
        &ctx,
        animal,
        Symbol(50),
        THIS,
        AT,
        &mut said,
    );
    assert!(matches!(
        said.diagnostics[0].problem,
        Problem::NoMethodToQualify { method: Symbol(50), .. }
    ));
    // `speak` was overridden, `eat` was not.
    assert_eq!(
        parent_call_names(&world.classes, dog, animal, SPEAK, DOG, ANIMAL),
        vec![NameForm::Shadowed { owner: DOG, origin: ANIMAL, name: SPEAK }]
    );
    assert_eq!(
        parent_call_names(&world.classes, dog, animal, EAT, DOG, ANIMAL),
        vec![NameForm::Method { owner: DOG, name: EAT }]
    );
}

#[test]
fn a_parent_call_picks_the_name_its_arguments_fit() {
    let plain = NameForm::Method { owner: DOG, name: SPEAK };
    let shadowed = NameForm::Shadowed { owner: DOG, origin: ANIMAL, name: SPEAK };
    assert_eq!(parent_call_name(&vec![shadowed], &vec![false], DOG, SPEAK), shadowed);
    assert_eq!(
        parent_call_name(&vec![plain, shadowed], &vec![false, true], DOG, SPEAK),
        shadowed
    );
    assert_eq!(
        parent_call_name(&vec![shadowed, plain], &vec![false, false], DOG, SPEAK),
        plain
    );
    assert_eq!(parent_call_name(&vec![], &vec![], DOG, SPEAK), plain);
}

#[test]
fn a_parent_field_is_read_off_this_instance() {
    let world = animals();
    let (dog, animal) = (world.ids[1].unwrap(), world.ids[2].unwrap());
    let mut program = HirProgram::new();
    program.types = world.types;
    let mut ctx = FnCtx::new(Type::Void);
    ctx.receiver = Some(dog);
    ctx.declare(THIS, Type::Struct(dog), false);
    let mut said = log();
    let table = Lattice {
        assignable: vec![],
        erasable: vec![],
        user_drop: vec![INT],
        not_copyable: vec![],
    };
    let mut drops = DropReads::new();
    let id = analyze_parent_field(
        &mut program,
        &world.classes,
        &table,
        &ctx,
        animal,
        AGE,
        THIS,
        AT,
        &mut drops,
        &mut said,
    );
    assert!(matches!(
        program.exprs[id.0 as usize],
        HirExpr::Field { base: HirExprId(0), index: 0, ty: INT }
    ));
    assert_eq!(drops.waiting, vec![(id, AT)]);
    assert!(matches!(program.exprs[0], HirExpr::Local { local: LocalId(0), .. }));
    let id = analyze_parent_field(
        &mut program,
        &world.classes,
        &table,
        &ctx,
        animal,
        NAME,
        THIS,
        AT,
        &mut drops,
        &mut said,
    );
    assert!(matches!(program.exprs[id.0 as usize], HirExpr::Error));
    assert!(matches!(
        said.diagnostics[0].problem,
        Problem::NoFieldToQualify { field: NAME, .. }
    ));
}

fn sig(form: NameForm) -> FuncSig {
    FuncSig {
        name: CallName { form, copies: vec![] },
        indexed: true,
        package: None,
        mangled: false,
        params: vec![],
        param_ownership: vec![],
        return_type: Type::Void,
        name_span: AT,
        source: HERE,
        is_main: false,
        is_main_thread_lifecycle: false,
        is_main_thread: false,
        mutates_self: false,
        signature: CallableSignature {
            receiver: None,
            params: vec![],
            result: Type::Void,
            is_async: false,
            affinity: ThreadAffinity::Any,
            execution: Execution::Inherited,
        },
    }
}

#[test]
fn a_bare_call_reaches_a_sibling_method() {
    let world = animals();
    let dog = world.ids[1].unwrap();
    let mut program = HirProgram::new();
    program.types = world.types;
    let mut ctx = FnCtx::new(Type::Void);
    let this = ctx.declare(THIS, Type::Struct(dog), false);
    let mut said = log();
    let mut table = SigTable {
        sigs: vec![sig(NameForm::Method { owner: DOG, name: EAT })],
        param_defaults: vec![],
    };
    let run = |program: &mut HirProgram, table: &SigTable, ctx: &FnCtx, name: Symbol, log: &mut Log| {
        begin_implicit_call(
            program,
            table,
            &imports(),
            &world.classes,
            ctx,
            name,
            DOG,
            THIS,
            AT,
            log,
        )
    };
    assert_eq!(run(&mut program, &table, &ctx, EAT, &mut said), SelfCall::NotOne);
    ctx.receiver = Some(dog);
    assert_eq!(
        run(&mut program, &table, &ctx, EAT, &mut said),
        SelfCall::On { local: this, value: HirExprId(0) }
    );
    assert_eq!(run(&mut program, &table, &ctx, SPEAK, &mut said), SelfCall::NotOne);
    // A free function of the same name wins.
    table.sigs.push(sig(NameForm::Free { name: EAT }));
    assert_eq!(run(&mut program, &table, &ctx, EAT, &mut said), SelfCall::NotOne);
    assert!(said.diagnostics.is_empty());
}

#[test]
fn a_method_body_is_found_where_it_was_written() {
    let world = animals();
    let homes = vec![
        MethodHome { name: DOG, source: HERE, methods: vec![(key(SPEAK), 3)] },
        MethodHome { name: ANIMAL, source: SourceId(2), methods: vec![(key(SPEAK), 1), (key(EAT), 2)] },
    ];
    assert_eq!(
        method_ast(&imports(), &homes, None, ANIMAL, key(EAT)),
        Some((2, SourceId(2)))
    );
    assert_eq!(method_ast(&imports(), &homes, None, DOG, key(EAT)), None);
    let (puppy, animal) = (world.ids[0].unwrap(), world.ids[2].unwrap());
    let found = class_callables(&world.types, &imports(), &vec![], &homes, &world.classes, puppy);
    assert_eq!(found.len(), 3);
    assert!(found.iter().all(|callable| callable.receiver == puppy));
    assert!(found
        .iter()
        .any(|callable| callable.origin == animal && callable.function == 2));
}

fn function(name: Symbol, params: Vec<ParamDecl>) -> FunctionDecl {
    FunctionDecl {
        name,
        name_span: AT,
        key: key(name),
        receiver: None,
        params,
        return_type: None,
        is_main: false,
        is_main_thread: false,
        is_main_thread_lifecycle: false,
        is_async: false,
        execution: Execution::Inherited,
    }
}

fn param(name: Symbol, class: Option<StructId>) -> ParamDecl {
    ParamDecl {
        name,
        name_span: AT,
        ty: class.map_or(INT, Type::Struct),
        class,
        ownership: OwnershipMode::Owned,
        default: None,
    }
}

fn free(index: usize) -> Callable {
    Callable {
        receiver: None,
        origin: None,
        specialize: vec![],
        initializes: None,
        function: index,
        source: HERE,
    }
}

#[test]
fn a_function_of_a_class_gets_a_copy_per_subclass() {
    let world = animals();
    let animal = world.ids[2].unwrap();
    let functions =
        vec![function(EAT, vec![param(AGE, Some(animal)), param(NAME, None)])];
    let choices = parameter_subclasses(&world.classes, &functions[0].params, false);
    assert_eq!(choices.len(), 1);
    assert_eq!(choices[0].0, 0);
    assert_eq!(choices[0].1.len(), 2);
    assert!(parameter_subclasses(&world.classes, &functions[0].params, true).is_empty());
    let mut callables = vec![free(0)];
    specialize_callables(&world.classes, &functions, &mut callables);
    assert_eq!(callables.len(), 3);
    assert!(callables[0].specialize.is_empty());
    assert_eq!(callables[1].specialize.len(), 1);
    let name = callable_name(&world.classes, &functions[0], &callables[1]);
    assert_eq!(name.form, NameForm::Free { name: EAT });
    assert_eq!(name.copies.len(), 1);
}

#[test]
fn two_class_parameters_specialize_on_both() {
    let a = ClassRef { id: StructId(1), name: DOG };
    let b = ClassRef { id: StructId(2), name: PUPPY };
    let found = specialize_choices(&vec![(0, vec![a]), (1, vec![b])]);
    assert_eq!(found.len(), 3);
    assert!(found.contains(&vec![(0, a), (1, b)]));
    // Past the limit the function is left as written.
    let many: Vec<ClassRef> = (0..70).map(|i| ClassRef { id: StructId(i), name: DOG }).collect();
    assert!(specialize_choices(&vec![(0, many)]).is_empty());
}

#[test]
fn a_callable_is_named_by_what_it_runs_on() {
    let world = animals();
    let (puppy, dog, animal) =
        (world.ids[0].unwrap(), world.ids[1].unwrap(), world.ids[2].unwrap());
    let speak = function(SPEAK, vec![]);
    let mut callable = free(0);
    callable.receiver = Some(Owner { ty: Type::Struct(puppy), name: PUPPY });
    callable.origin = Some(ClassRef { id: animal, name: ANIMAL });
    assert_eq!(
        callable_name(&world.classes, &speak, &callable).form,
        NameForm::Shadowed { owner: PUPPY, origin: ANIMAL, name: SPEAK }
    );
    callable.origin = Some(ClassRef { id: dog, name: DOG });
    let name = callable_name(&world.classes, &speak, &callable);
    assert_eq!(name.form, NameForm::Method { owner: PUPPY, name: SPEAK });
    callable.initializes = Some(ClassRef { id: dog, name: DOG });
    let init = callable_name(&world.classes, &speak, &callable);
    assert_eq!(init.form, NameForm::Initializer { owner: DOG });
    assert!(same_name(&name, &name));
    assert!(!same_name(&name, &init));
}
