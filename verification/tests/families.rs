use kira_semantics::backed::{BackedDecl, BackedField, BackedMethod, BackedParam};
use kira_semantics::callables::{CallName, NameForm};
use kira_semantics::classes::ClassTable;
use kira_semantics::construct_collect::{declare_constructs, define_constructs};
use kira_semantics::diagnostics::{Log, Problem};
use kira_semantics::dispatch_arm::{construct_dispatch_arm_function, ArmTarget};
use kira_semantics::dispatch_tree::{
    construct_dispatch_tree_function, ConstructVariant, DispatchMethod,
};
use kira_semantics::extend_blocks::{
    begin_extend_body, collect_extend_blocks, finish_extend_body, modifier_jobs,
    reserve_extend_bodies, ExtendDecl, ModifierDecl,
};
use kira_semantics::families::{ConstructTable, FamilyTable, MethodParam};
use kira_semantics::family_calls::{
    begin_family_call, coerce_construct_value, complete_family_call, construct_dispatcher_for,
    family_method_content, gather_arguments, settle_family_arguments, FamilyCall, ReceiverPlace,
};
use kira_semantics::family_conformance::check_construct_method_signatures;
use kira_semantics::family_dispatchers::method_jobs;
use kira_semantics::family_headers::{
    collect_construct_family_headers, FamilyDecl, FamilyFieldDecl, FamilyMethodDecl,
};
use kira_semantics::family_inherit::inherit_construct_families;
use kira_semantics::family_order::{collect_family_parents, family_inheritance_order};
use kira_semantics::family_overrides::{check_family_overrides, narrows_to};
use kira_semantics::family_readers::build_construct_dispatchers;
use kira_semantics::family_resolve::{
    begin_method_defaults, methods_with_defaults, needs_defaults, record_method_defaults,
    resolve_family_field_members, resolve_family_method_signatures,
};
use kira_semantics::family_variants::finish_family_variants;
use kira_semantics::hir::{
    Callee, FuncId, FunctionName, HirBinaryOp, HirExpr, HirExprId, HirPlace, HirProgram, HirStmt,
    HirStmtId, LocalId,
};
use kira_semantics::imports::ImportTable;
use kira_semantics::lattice::Lattice;
use kira_semantics::names::Symbol;
use kira_semantics::program_callables::{
    construct_callables, written_callables, CallableItem, ConstructItem, Declarations,
    WrittenMethod,
};
use kira_semantics::signatures::{CallableSignature, FuncSig, SigTable, ThreadAffinity};
use kira_semantics::source::{SourceId, Span};
use kira_semantics::syntax::{ExprId, FieldDefault, TypeRefId, TypeRefs, WrittenType};
use kira_semantics::synth::SynthTable;
use kira_semantics::ty::{
    EnumId, EnumName, Execution, FieldName, IntSpelling, OwnershipMode, StructId, Type,
};
use kira_semantics::value_members::{analyze_construct_family_field, ReadTables};
use kira_semantics::visibility::DeclaredIn;

const INT: Type = Type::Int(IntSpelling::Int);
const AT: Span = Span { start: 4, end: 7 };
const HERE: SourceId = SourceId(0);

// Families, declarations and their members.
const VIEW: Symbol = Symbol(10);
const CONTROL: Symbol = Symbol(11);
const BUTTON: Symbol = Symbol(12);
const LABEL: Symbol = Symbol(13);
const TITLE: Symbol = Symbol(20);
const KIDS: Symbol = Symbol(21);
const RENDER: Symbol = Symbol(30);
const PRESS: Symbol = Symbol(31);
const PADDED: Symbol = Symbol(32);

// What the written types mean: `Int`, `Text`, `[some View]`.
const AN_INT: TypeRefId = TypeRefId(0);
const A_TEXT: TypeRefId = TypeRefId(1);
const VIEWS: TypeRefId = TypeRefId(2);

fn log() -> Log {
    Log::new(HERE)
}

fn imports() -> ImportTable {
    ImportTable { packages: vec![], modules: vec![], imported: vec![], visible: vec![(HERE, HERE)] }
}

fn lattice() -> Lattice {
    Lattice {
        assignable: vec![(INT, INT), (Type::Text, Type::Text)],
        erasable: vec![],
        user_drop: vec![],
        not_copyable: vec![],
    }
}

fn refs() -> TypeRefs {
    TypeRefs {
        rows: vec![
            WrittenType { ty: INT, list_of: None, some: false },
            WrittenType { ty: Type::Text, list_of: None, some: false },
            WrittenType { ty: Type::Array(0), list_of: Some(Type::Enum(EnumId(0))), some: true },
        ],
    }
}

fn method(name: Symbol, required: bool, result: Option<TypeRefId>) -> FamilyMethodDecl {
    FamilyMethodDecl {
        name,
        name_span: AT,
        computed: false,
        required,
        result,
        mutates_self: false,
        execution: Execution::Inherited,
        params: vec![],
    }
}

fn family(
    key: Symbol,
    fields: Vec<FamilyFieldDecl>,
    methods: Vec<FamilyMethodDecl>,
    extends: Vec<Symbol>,
) -> FamilyDecl {
    FamilyDecl {
        source: HERE,
        name: key,
        name_span: AT,
        key,
        fields,
        methods,
        extends: extends.into_iter().map(|name| (name, AT)).collect(),
    }
}

fn member(name: Symbol, ty: Option<TypeRefId>, required: bool) -> FamilyFieldDecl {
    FamilyFieldDecl {
        name,
        name_span: AT,
        ty,
        default: None,
        required,
        slot: false,
        mutable: false,
    }
}

fn backed(
    name: Symbol,
    family: Symbol,
    key: Option<Symbol>,
    fields: Vec<BackedField>,
    methods: Vec<BackedMethod>,
) -> BackedDecl {
    BackedDecl {
        source: HERE,
        name,
        name_span: AT,
        family,
        family_span: AT,
        key,
        params: vec![BackedParam { name: TITLE, name_span: AT, ty: A_TEXT, default: None }],
        fields,
        methods,
        deferred: vec![],
    }
}

fn backed_method(name: Symbol, key: u32, required: bool) -> BackedMethod {
    BackedMethod { name, name_span: AT, key: Symbol(key), required, computed: false }
}

struct World {
    program: HirProgram,
    table: FamilyTable,
    constructs: ConstructTable,
    declared: DeclaredIn,
    defaults: Vec<Vec<Option<FieldDefault>>>,
    synth: SynthTable,
    log: Log,
    ids: Vec<Option<StructId>>,
}

/// `construct View { @Required let title: Text; @Required function render() -> Int }`,
/// `construct Control extends View { function press() -> Int { … } }`, and two
/// declarations of `Control` and `View`.
fn decls() -> Vec<FamilyDecl> {
    vec![
        family(
            CONTROL,
            vec![],
            vec![method(PRESS, false, Some(AN_INT))],
            vec![VIEW],
        ),
        family(
            VIEW,
            vec![member(TITLE, Some(A_TEXT), true)],
            vec![method(RENDER, true, Some(AN_INT))],
            vec![],
        ),
    ]
}

fn headers(decls: &Vec<FamilyDecl>) -> World {
    let mut w = World {
        program: HirProgram::new(),
        table: FamilyTable::new(),
        constructs: ConstructTable::new(),
        declared: DeclaredIn { structs: vec![], enums: vec![] },
        defaults: vec![],
        synth: SynthTable::new(10),
        log: log(),
        ids: vec![],
    };
    let mut enum_defaults = vec![];
    collect_construct_family_headers(
        &mut w.program.types,
        &mut w.table,
        &mut enum_defaults,
        &imports(),
        decls,
        &mut w.log,
    );
    w
}

fn world() -> World {
    let families = decls();
    let mut w = headers(&families);
    inherit_construct_families(&mut w.table, &families, &mut w.log);
    let modifier = ModifierDecl {
        method: method(PADDED, false, Some(AN_INT)),
        entrypoint: false,
        exported: None,
        foreign: None,
    };
    collect_extend_blocks(
        &mut w.table,
        &vec![extend(VIEW, false, vec![modifier])],
        &mut w.log,
    );
    let slot = BackedField {
        name: KIDS,
        name_span: AT,
        ty: Some(VIEWS),
        default: None,
        slot: true,
        mutable: false,
    };
    let declarations = vec![
        backed(BUTTON, CONTROL, Some(CONTROL), vec![slot], vec![backed_method(RENDER, 300, false)]),
        backed(LABEL, VIEW, Some(VIEW), vec![], vec![backed_method(RENDER, 300, false)]),
    ];
    w.ids = declare_constructs(
        &declarations,
        &imports(),
        &mut w.program.types,
        &mut w.declared,
        &mut w.defaults,
        &mut w.log,
    );
    define_constructs(
        &declarations,
        &w.ids,
        &refs(),
        &mut w.program.types,
        &mut w.defaults,
        &mut w.table,
        &mut w.constructs,
        &mut w.log,
    );
    finish_family_variants(&mut w.program.types, &w.table);
    let modes = vec![vec![]; w.table.methods.len()];
    resolve_family_method_signatures(&mut w.table, &refs(), &modes);
    resolve_family_field_members(&mut w.table, &refs());
    w
}

fn view_id(w: &World) -> EnumId {
    w.table.construct_family_type(VIEW).unwrap()
}

fn extend(key: Symbol, class: bool, methods: Vec<ModifierDecl>) -> ExtendDecl {
    ExtendDecl {
        source: HERE,
        name: key,
        name_span: AT,
        conforms: false,
        key,
        class,
        methods,
    }
}

fn sig(owner: Symbol, name: Symbol, receiver: StructId, result: Type) -> FuncSig {
    FuncSig {
        name: CallName { form: NameForm::Method { owner, name }, copies: vec![] },
        indexed: true,
        package: None,
        mangled: false,
        params: vec![Type::Struct(receiver)],
        param_ownership: vec![OwnershipMode::BorrowRead],
        return_type: result,
        name_span: AT,
        source: HERE,
        is_main: false,
        is_main_thread_lifecycle: false,
        is_main_thread: false,
        mutates_self: false,
        signature: CallableSignature {
            receiver: None,
            params: vec![],
            result,
            is_async: false,
            affinity: ThreadAffinity::Any,
            execution: Execution::Inherited,
        },
    }
}

fn implementations(w: &World) -> SigTable {
    let (button, label) = (w.ids[0].unwrap(), w.ids[1].unwrap());
    SigTable {
        sigs: vec![
            sig(BUTTON, RENDER, button, INT),
            sig(LABEL, RENDER, label, INT),
            sig(BUTTON, PRESS, button, INT),
        ],
        param_defaults: vec![vec![], vec![], vec![]],
    }
}

#[test]
fn a_family_is_an_enum_of_its_declarations() {
    let w = world();
    assert!(w.log.diagnostics.is_empty(), "{:?}", w.log.diagnostics);
    let view = view_id(&w);
    let control = w.table.construct_family_type(CONTROL).unwrap();
    assert_eq!(w.program.types.enums[view.0 as usize].name, EnumName::Family(VIEW));
    // A declaration of a family is a variant of every family it extends.
    assert_eq!(w.program.types.enums[view.0 as usize].variants.len(), 2);
    assert_eq!(w.program.types.enums[control.0 as usize].variants.len(), 1);
    assert!(w.table.is_construct_family_type(view));
    assert_eq!(w.table.find_key(view), Some(VIEW));
    assert_eq!(w.table.construct_family_ancestors(CONTROL), vec![VIEW]);
}

#[test]
fn a_child_presents_its_parents_surface() {
    let w = world();
    let control = w.table.construct_family_type(CONTROL).unwrap();
    assert!(w.table.find_entry(control, RENDER).is_some());
    assert!(w.table.find_entry(control, PRESS).is_some());
    assert!(w.table.find_entry(view_id(&w), PRESS).is_none());
    assert_eq!(w.table.construct_family_field_member(control, TITLE), Some(Type::Text));
    assert!(!w.table.construct_family_computed_member(control, RENDER));
}

#[test]
fn a_modifier_is_uniform_and_takes_no_name_away() {
    let mut w = world();
    let view = view_id(&w);
    assert!(w.table.family_method_is_uniform(view, PADDED));
    assert!(!w.table.family_method_is_uniform(view, RENDER));
    reserve_extend_bodies(&mut w.table, &mut w.synth);
    assert!(w.table.family_uniform_body(view, PADDED).is_some());
    let (button, label) = (w.ids[0].unwrap(), w.ids[1].unwrap());
    assert_eq!(w.constructs.family_uniform_method(&w.table, label, PADDED), Some(view));
    assert_eq!(w.constructs.family_uniform_method(&w.table, label, RENDER), None);
    assert_eq!(w.constructs.family_uniform_method(&w.table, button, PADDED), None);
    let clash = ModifierDecl {
        method: method(RENDER, false, None),
        entrypoint: true,
        exported: Some(AT),
        foreign: Some(AT),
    };
    let before = w.table.find_entry(view, RENDER);
    collect_extend_blocks(
        &mut w.table,
        &vec![
            extend(VIEW, false, vec![clash]),
            extend(Symbol(77), false, vec![]),
            extend(Symbol(78), true, vec![]),
        ],
        &mut w.log,
    );
    let has = |wanted: fn(&Problem) -> bool| {
        w.log.diagnostics.iter().any(|entry| wanted(&entry.problem))
    };
    assert!(has(|p| matches!(p, Problem::ModifierTaken { family: VIEW, method: RENDER })));
    assert!(has(|p| matches!(p, Problem::ExtendsNothing { name: Symbol(77) })));
    assert!(!has(|p| matches!(p, Problem::ExtendsNothing { name: Symbol(78) })));
    assert_eq!(w.table.find_entry(view, RENDER), before);
}

#[test]
fn a_modifier_carries_no_entry_annotations() {
    let mut w = world();
    let odd = ModifierDecl {
        method: method(Symbol(90), false, None),
        entrypoint: true,
        exported: Some(AT),
        foreign: Some(AT),
    };
    collect_extend_blocks(
        &mut w.table,
        &vec![extend(VIEW, false, vec![odd])],
        &mut w.log,
    );
    let has = |wanted: fn(&Problem) -> bool| {
        w.log.diagnostics.iter().any(|entry| wanted(&entry.problem))
    };
    assert!(has(|p| matches!(p, Problem::ModifierIsEntrypoint)));
    assert!(has(|p| matches!(p, Problem::ModifierIsExported)));
    assert!(has(|p| matches!(p, Problem::ModifierIsForeign)));
}

#[test]
fn a_block_that_claims_a_trait_extends_only_a_family() {
    let mut w = world();
    let view = view_id(&w);
    let far = SourceId(8);
    let claims = |key: Symbol, name: Symbol| ExtendDecl {
        source: far,
        conforms: true,
        ..extend(
            key,
            false,
            vec![ModifierDecl {
                method: method(name, false, None),
                entrypoint: false,
                exported: None,
                foreign: None,
            }],
        )
    };
    w.log.source = HERE;
    collect_extend_blocks(&mut w.table, &vec![claims(Symbol(77), Symbol(91))], &mut w.log);
    assert!(w.log.diagnostics.is_empty());
    assert_eq!(w.log.source, HERE);
    collect_extend_blocks(&mut w.table, &vec![claims(VIEW, Symbol(91))], &mut w.log);
    assert!(w.table.find_entry(view, Symbol(91)).unwrap().uniform);
    assert_eq!(w.log.source, far);
}

#[test]
fn a_modifier_waits_for_its_body_until_it_is_built() {
    let mut w = world();
    assert!(modifier_jobs(&w.table, &w.synth).is_empty());
    reserve_extend_bodies(&mut w.table, &mut w.synth);
    let jobs = modifier_jobs(&w.table, &w.synth);
    assert_eq!(jobs.len(), 1);
    let (key, info) = &w.table.families.rows[jobs[0].family];
    assert_eq!(*key, VIEW);
    assert_eq!(info.methods.rows[jobs[0].member].0, PADDED);
    assert_eq!(info.methods.rows[jobs[0].member].1.dispatcher, Some(jobs[0].id));
    let shape = &w.table.methods[info.methods.rows[jobs[0].member].1.method as usize];
    let function = finish_extend_body(
        VIEW, view_id(&w), PADDED, shape, false, vec![], vec![], true, &mut log(),
    );
    w.synth.fill_synth(jobs[0].id, function);
    assert!(modifier_jobs(&w.table, &w.synth).is_empty());
}

#[test]
fn a_modifiers_body_runs_on_the_family_value() {
    let w = world();
    let view = view_id(&w);
    let entry = w.table.find_entry(view, PADDED).unwrap();
    let shape = &w.table.methods[entry.method as usize];
    let mut said = log();
    let ctx = begin_extend_body(view, shape, Symbol(99), &mut said);
    assert_eq!(said.source, shape.source);
    assert_eq!(ctx.resolve(Symbol(99)), Some(LocalId(0)));
    assert_eq!(ctx.locals[0].ty, Type::Enum(view));
    assert_eq!(ctx.return_type, INT);
    let function = finish_extend_body(
        VIEW, view, PADDED, shape, false, ctx.locals, vec![], false, &mut said,
    );
    assert_eq!(function.signature.receiver.unwrap().ty, Type::Enum(view));
    assert_eq!(function.signature.result, INT);
    assert_eq!(function.name, FunctionName::Modifier { family: VIEW, method: PADDED });
    assert_eq!(function.param_count, 1);
    assert!(matches!(
        said.diagnostics[0].problem,
        Problem::ModifierMayNotReturn { family: VIEW, method: PADDED }
    ));
}

#[test]
fn what_a_family_may_not_write_is_reported() {
    let mut bad = family(
        VIEW,
        vec![member(TITLE, None, true), member(KIDS, Some(AN_INT), false)],
        vec![method(RENDER, true, None), method(RENDER, false, None)],
        vec![VIEW, Symbol(77), CONTROL, CONTROL],
    );
    bad.fields.push(member(Symbol(25), Some(AN_INT), false));
    let families = vec![bad, family(VIEW, vec![], vec![], vec![]), family(CONTROL, vec![], vec![], vec![])];
    let mut w = headers(&families);
    let rows = collect_family_parents(&w.table, &families, &mut w.log);
    let has = |wanted: fn(&Problem) -> bool| {
        w.log.diagnostics.iter().any(|entry| wanted(&entry.problem))
    };
    assert!(has(|p| matches!(p, Problem::RequiredMemberNeedsType { member: TITLE })));
    assert!(has(|p| matches!(p, Problem::FamilyMemberRepeated { member: RENDER, .. })));
    assert!(has(|p| matches!(p, Problem::FamilyAlreadyDefined { family: VIEW })));
    assert!(has(|p| matches!(p, Problem::FamilyExtendsItself { family: VIEW })));
    assert!(has(|p| matches!(p, Problem::ExtendsNoFamily { parent: Symbol(77), .. })));
    assert!(has(|p| matches!(p, Problem::FamilyExtendsTwice { parent: CONTROL, .. })));
    assert!(!rows.is_empty());
}

#[test]
fn families_that_extend_each_other_are_refused() {
    let families = vec![
        family(VIEW, vec![], vec![], vec![CONTROL]),
        family(CONTROL, vec![], vec![], vec![VIEW]),
        family(LABEL, vec![], vec![], vec![]),
    ];
    let mut w = headers(&families);
    let rows = collect_family_parents(&w.table, &families, &mut w.log);
    let order = family_inheritance_order(&rows, &mut w.log);
    assert!(!order.contains(&VIEW));
    assert!(!order.contains(&CONTROL));
    assert!(w
        .log
        .diagnostics
        .iter()
        .any(|entry| matches!(entry.problem, Problem::FamilyCycle { .. })));
    let families = decls();
    let mut w = headers(&families);
    let rows = collect_family_parents(&w.table, &families, &mut w.log);
    let order = family_inheritance_order(&rows, &mut w.log);
    let view = order.iter().position(|key| *key == VIEW);
    let control = order.iter().position(|key| *key == CONTROL).unwrap();
    assert!(view.map_or(true, |at| at < control));
}

#[test]
fn a_child_may_only_narrow_what_its_parent_promised() {
    let w = world();
    let classes = ClassTable::new();
    let view = Type::Enum(view_id(&w));
    let control = Type::Enum(w.table.construct_family_type(CONTROL).unwrap());
    let button = Type::Struct(w.ids[0].unwrap());
    let narrows =
        |written: Type, promised: Type| narrows_to(&w.table, &w.constructs, &classes, written, promised);
    assert!(narrows(control, view));
    assert!(!narrows(view, control));
    assert!(narrows(button, view));
    assert!(narrows(INT, Type::Any));
    assert!(!narrows(INT, Type::Text));
}

#[test]
fn a_broken_redeclaration_is_reported() {
    let mut child = family(
        CONTROL,
        vec![member(TITLE, Some(AN_INT), true)],
        vec![
            FamilyMethodDecl {
                params: vec![MethodParam { name: KIDS, name_span: AT, ty: AN_INT, default: None }],
                ..method(RENDER, true, Some(AN_INT))
            },
            method(PRESS, true, Some(A_TEXT)),
        ],
        vec![VIEW],
    );
    child.methods.push(FamilyMethodDecl {
        params: vec![MethodParam { name: KIDS, name_span: AT, ty: A_TEXT, default: None }],
        ..method(PADDED, true, Some(AN_INT))
    });
    let parent = family(
        VIEW,
        vec![member(TITLE, Some(A_TEXT), true)],
        vec![
            method(RENDER, true, Some(AN_INT)),
            method(PRESS, true, Some(AN_INT)),
            FamilyMethodDecl {
                params: vec![MethodParam { name: KIDS, name_span: AT, ty: AN_INT, default: None }],
                ..method(PADDED, true, Some(AN_INT))
            },
        ],
        vec![],
    );
    let families = vec![child, parent];
    let mut w = headers(&families);
    inherit_construct_families(&mut w.table, &families, &mut w.log);
    let modes: Vec<Vec<OwnershipMode>> = w
        .table
        .methods
        .iter()
        .map(|method| vec![OwnershipMode::Owned; method.written.len()])
        .collect();
    resolve_family_method_signatures(&mut w.table, &refs(), &modes);
    resolve_family_field_members(&mut w.table, &refs());
    check_family_overrides(
        &w.table,
        &w.constructs,
        &ClassTable::new(),
        &families,
        &mut w.log,
    );
    let has = |wanted: fn(&Problem) -> bool| {
        w.log.diagnostics.iter().any(|entry| wanted(&entry.problem))
    };
    assert!(has(|p| matches!(
        p,
        Problem::RedeclaredArity { member: RENDER, takes: 1, promised: 0, .. }
    )));
    assert!(has(|p| matches!(
        p,
        Problem::RedeclaredResult { member: PRESS, ty: Type::Text, promised: INT, .. }
    )));
    assert!(has(|p| matches!(
        p,
        Problem::RedeclaredParameter { member: PADDED, place: 1, ty: Type::Text, .. }
    )));
    assert!(has(|p| matches!(
        p,
        Problem::RedeclaredMember { member: TITLE, ty: INT, promised: Type::Text, .. }
    )));
}

#[test]
fn a_declaration_is_its_parameters_and_members() {
    let w = world();
    let button = w.ids[0].unwrap();
    let fields = &w.program.types.structs[button.0 as usize].fields;
    assert_eq!(fields[0].name, FieldName::Plain(TITLE));
    assert_eq!(fields[0].ty, Type::Text);
    assert_eq!(fields[1].name, FieldName::Plain(KIDS));
    let slots = w.constructs.child_slots(button);
    assert_eq!(slots.len(), 1);
    assert_eq!(slots[0].field_index, 1);
    assert!(slots[0].list);
    assert_eq!(w.constructs.concrete_construct_id(Type::Struct(button)), Some(button));
    assert_eq!(w.constructs.concrete_construct_id(INT), None);
}

#[test]
fn what_a_declaration_may_not_write_is_reported() {
    let families = decls();
    let mut w = headers(&families);
    let slot = BackedField {
        name: KIDS,
        name_span: AT,
        ty: None,
        default: None,
        slot: true,
        mutable: false,
    };
    let mut odd = backed(
        BUTTON,
        Symbol(70),
        None,
        vec![
            slot,
            BackedField {
                name: TITLE,
                name_span: AT,
                ty: Some(AN_INT),
                default: None,
                slot: false,
                mutable: false,
            },
        ],
        vec![
            backed_method(RENDER, 300, true),
            backed_method(PRESS, 310, false),
            backed_method(PRESS, 310, false),
        ],
    );
    odd.deferred = vec![(AT, Symbol(60))];
    let declarations = vec![odd, backed(BUTTON, VIEW, Some(VIEW), vec![], vec![])];
    let ids = declare_constructs(
        &declarations,
        &imports(),
        &mut w.program.types,
        &mut w.declared,
        &mut w.defaults,
        &mut w.log,
    );
    assert_eq!(ids, vec![Some(StructId(0)), None]);
    define_constructs(
        &declarations,
        &ids,
        &refs(),
        &mut w.program.types,
        &mut w.defaults,
        &mut w.table,
        &mut w.constructs,
        &mut w.log,
    );
    let has = |wanted: fn(&Problem) -> bool| {
        w.log.diagnostics.iter().any(|entry| wanted(&entry.problem))
    };
    assert!(has(|p| matches!(p, Problem::ConstructAlreadyDefined { declaration: BUTTON })));
    assert!(has(|p| matches!(p, Problem::UnknownFamily { family: Symbol(70), .. })));
    assert!(has(|p| matches!(p, Problem::SlotNeedsType { slot: KIDS })));
    assert!(has(|p| matches!(p, Problem::ConstructMemberRepeated { member: TITLE })));
    assert!(has(|p| matches!(p, Problem::RequirementInBacked { member: RENDER, .. })));
    assert!(has(|p| matches!(p, Problem::ConstructMethodRepeated { member: PRESS })));
    assert!(has(|p| matches!(p, Problem::DeferredMember { label: Symbol(60) })));
}

#[test]
fn conformance_sees_what_is_missing_or_different() {
    let w = world();
    let mut said = log();
    said.source = SourceId(9);
    let mut table = implementations(&w);
    check_construct_method_signatures(&w.constructs, &table, &w.table, &mut said);
    assert!(said.diagnostics.is_empty(), "{:?}", said.diagnostics);
    // The file of the last method checked is the one being read.
    assert_eq!(said.source, HERE);
    table.sigs[0].return_type = Type::Text;
    table.sigs[0].mutates_self = true;
    table.sigs[1].indexed = false;
    check_construct_method_signatures(&w.constructs, &table, &w.table, &mut said);
    let has = |wanted: fn(&Problem) -> bool| {
        said.diagnostics.iter().any(|entry| wanted(&entry.problem))
    };
    assert!(has(|p| matches!(
        p,
        Problem::VariantSignature { declaration: BUTTON, method: RENDER, .. }
    )));
    assert!(has(|p| matches!(
        p,
        Problem::VariantReceiver { declaration: BUTTON, method: RENDER, .. }
    )));
    assert!(has(|p| matches!(
        p,
        Problem::VariantLacksMethod { declaration: LABEL, method: RENDER, .. }
    )));
}

#[test]
fn a_declaration_becomes_a_value_of_its_family() {
    let mut w = world();
    let view = view_id(&w);
    let label = w.ids[1].unwrap();
    let value =
        w.program.add_expr(HirExpr::Local { local: LocalId(0), ty: Type::Struct(label) });
    let wrapped = coerce_construct_value(
        &mut w.program,
        &w.table,
        &w.constructs,
        value,
        Some(Type::Enum(view)),
    );
    match &w.program.exprs[wrapped.0 as usize] {
        HirExpr::EnumNew { enum_id, tag, payload } => {
            assert_eq!(*enum_id, view);
            assert_eq!(*payload, Some(value));
            let variant = w.table.find_family(view).unwrap();
            let variants = &w.table.families.rows[variant].1.variants;
            assert_eq!(variants[*tag as usize].name, LABEL);
        }
        other => panic!("not wrapped: {other:?}"),
    }
    assert_eq!(
        coerce_construct_value(&mut w.program, &w.table, &w.constructs, value, Some(INT)),
        value
    );
    assert_eq!(
        coerce_construct_value(&mut w.program, &w.table, &w.constructs, value, None),
        value
    );
}

#[test]
fn a_call_on_a_family_value_goes_through_one_dispatcher() {
    let mut w = world();
    let view = view_id(&w);
    let dispatcher = construct_dispatcher_for(&mut w.table, &mut w.synth, view, RENDER);
    let callee =
        match begin_family_call(&mut w.table, &mut w.synth, &refs(), view, RENDER, AT, &mut w.log) {
            FamilyCall::Calls(callee) => callee,
            other => panic!("refused: {other:?}"),
        };
    assert_eq!(callee.function, dispatcher);
    assert_eq!(callee.result, INT);
    let receiver =
        w.program.add_expr(HirExpr::Local { local: LocalId(0), ty: Type::Enum(view) });
    let values = gather_arguments(
        &mut w.program,
        &callee,
        receiver,
        &vec![],
        false,
        None,
        AT,
        &mut w.log,
    );
    assert_eq!(values, vec![receiver]);
    let args = settle_family_arguments(
        &mut w.program, &lattice(), &callee, values, AT, &mut w.log,
    );
    let id = complete_family_call(&mut w.program, &callee, args, ReceiverPlace::Own);
    match &w.program.exprs[id.0 as usize] {
        HirExpr::Call { callee: Callee::User(target), args, ty, writebacks } => {
            assert_eq!(*target, dispatcher);
            assert_eq!(args, &vec![receiver]);
            assert_eq!(*ty, INT);
            assert!(writebacks.is_empty());
        }
        other => panic!("not a call: {other:?}"),
    }
    assert!(w.log.diagnostics.is_empty());
    assert!(matches!(
        begin_family_call(
            &mut w.table,
            &mut w.synth,
            &refs(),
            view,
            Symbol(88),
            AT,
            &mut w.log
        ),
        FamilyCall::Refused
    ));
    assert!(matches!(
        w.log.diagnostics[0].problem,
        Problem::NoFamilyMethod { method: Symbol(88), .. }
    ));
    // Trailing content needs a parameter for it.
    let extra = w.program.add_expr(HirExpr::Int(1));
    let values = gather_arguments(
        &mut w.program,
        &callee,
        receiver,
        &vec![Some(extra)],
        true,
        None,
        AT,
        &mut w.log,
    );
    assert!(matches!(w.log.diagnostics[1].problem, Problem::TakesNoContent { .. }));
    settle_family_arguments(&mut w.program, &lattice(), &callee, values, AT, &mut w.log);
    assert!(matches!(
        w.log.diagnostics[2].problem,
        Problem::CallArity { takes: 0, found: 1, .. }
    ));
}

#[test]
fn a_requirement_without_a_result_has_no_call_type() {
    let families = vec![family(VIEW, vec![], vec![method(RENDER, true, None)], vec![])];
    let mut w = headers(&families);
    resolve_family_method_signatures(&mut w.table, &refs(), &vec![vec![]]);
    let view = view_id(&w);
    begin_family_call(&mut w.table, &mut w.synth, &refs(), view, RENDER, AT, &mut w.log);
    assert!(matches!(
        w.log.diagnostics[0].problem,
        Problem::FamilyCallHasNoType { method: RENDER, .. }
    ));
}

#[test]
fn a_mutating_call_carries_its_receiver_back() {
    let mut w = world();
    let view = view_id(&w);
    let row = w.table.find_entry(view, RENDER).unwrap().method as usize;
    w.table.methods[row].mutates_self = true;
    let callee =
        match begin_family_call(&mut w.table, &mut w.synth, &refs(), view, RENDER, AT, &mut w.log) {
            FamilyCall::Calls(callee) => callee,
            other => panic!("refused: {other:?}"),
        };
    assert!(callee.mutates);
    let receiver =
        w.program.add_expr(HirExpr::Local { local: LocalId(4), ty: Type::Enum(view) });
    let args = settle_family_arguments(
        &mut w.program, &lattice(), &callee, vec![receiver], AT, &mut w.log,
    );
    let place = HirPlace { local: LocalId(4), path: vec![] };
    let id = complete_family_call(
        &mut w.program, &callee, args, ReceiverPlace::Written(Some(place)),
    );
    match &w.program.exprs[id.0 as usize] {
        HirExpr::Call { writebacks, .. } => {
            assert_eq!(writebacks.len(), 1);
            assert_eq!(writebacks[0].param, 0);
            assert_eq!(writebacks[0].place.local, LocalId(4));
        }
        other => panic!("not a call: {other:?}"),
    }
}

#[test]
fn a_last_parameter_of_content_takes_the_children() {
    let w = world();
    let row = w.table.find_entry(view_id(&w), RENDER).unwrap().method as usize;
    assert!(family_method_content(&refs(), &w.table.methods[row]).is_none());
    let families = vec![family(
        VIEW,
        vec![],
        vec![FamilyMethodDecl {
            params: vec![MethodParam { name: KIDS, name_span: AT, ty: VIEWS, default: Some(ExprId(1)) }],
            ..method(PRESS, false, Some(AN_INT))
        }],
        vec![],
    )];
    let mut w = headers(&families);
    let content = family_method_content(&refs(), &w.table.methods[0]).unwrap();
    assert_eq!((content.slot, content.list), (0, true));
    assert_eq!(content.element, Type::Enum(EnumId(0)));
    assert!(needs_defaults(&w.table.methods[0]));
    assert_eq!(methods_with_defaults(&w.table), vec![0]);
    let mut said = Log::new(SourceId(9));
    assert_eq!(
        begin_method_defaults(&w.table.methods[0], &mut said),
        vec![(0, ExprId(1), None)]
    );
    assert_eq!(said.source, HERE);
    w.table.methods[0].params = vec![INT];
    assert_eq!(
        begin_method_defaults(&w.table.methods[0], &mut said),
        vec![(0, ExprId(1), Some(INT))]
    );
    record_method_defaults(&mut w.table, 0, vec![Some(HirExprId(3))]);
    assert_eq!(w.table.methods[0].defaults, vec![Some(HirExprId(3))]);
}

fn dispatch(family_id: EnumId) -> DispatchMethod {
    DispatchMethod {
        family: VIEW,
        method: RENDER,
        family_id,
        params: vec![INT],
        result: INT,
        mutates_self: false,
    }
}

/// Follows a selector down: which function a value of `tag` reaches.
fn reached(w: &World, at: FuncId, tag: i64) -> FuncId {
    path(w, at, tag).pop().unwrap()
}

// Every function a value tagged `tag` is handed on by, the one it ends at last.
fn path(w: &World, at: FuncId, tag: i64) -> Vec<FuncId> {
    let mut seen = vec![at];
    loop {
        let at = seen[seen.len() - 1];
        let row = match at.0.checked_sub(w.synth.base) {
            Some(row) => row as usize,
            None => return seen,
        };
        let next = match w.synth.rows.get(row) {
            Some(Some(function)) => follow(w, &function.body, tag),
            _ => None,
        };
        match next {
            Some(target) => seen.push(target),
            None => return seen,
        }
    }
}

fn follow(w: &World, body: &Vec<HirStmtId>, tag: i64) -> Option<FuncId> {
    for stmt in body {
        match &w.program.stmts[stmt.0 as usize] {
            HirStmt::If { cond, then_body, else_body } => {
                let holds = match &w.program.exprs[cond.0 as usize] {
                    HirExpr::Binary { op, rhs, .. } => {
                        let bound = match w.program.exprs[rhs.0 as usize] {
                            HirExpr::Int(bound) => bound,
                            _ => return None,
                        };
                        match op {
                            HirBinaryOp::LtInt => tag < bound,
                            HirBinaryOp::EqInt => tag == bound,
                            HirBinaryOp::Other(_) => return None,
                        }
                    }
                    _ => return None,
                };
                if holds {
                    return follow(w, then_body, tag);
                }
                if !else_body.is_empty() {
                    return follow(w, else_body, tag);
                }
            }
            HirStmt::Return { value: Some(value) } | HirStmt::Let { init: value, .. } => {
                if let HirExpr::Call { callee: Callee::User(target), .. } =
                    &w.program.exprs[value.0 as usize]
                {
                    return Some(*target);
                }
            }
            _ => {}
        }
    }
    None
}

#[test]
fn a_selector_reaches_the_arm_of_its_tag() {
    let mut w = world();
    let shape = dispatch(view_id(&w));
    let arms: Vec<(ConstructVariant, FuncId)> = (0..5u32)
        .map(|tag| (ConstructVariant { tag, ty: Type::Struct(StructId(tag)), name: LABEL }, FuncId(100 + tag)))
        .collect();
    let mut number: u32 = 0;
    let root = w.synth.reserve_synth();
    let function = construct_dispatch_tree_function(
        &mut w.program,
        &mut w.synth,
        &shape,
        &arms,
        0,
        5,
        FuncId(104),
        FunctionName::Dispatch { family: VIEW, method: RENDER },
        &mut number,
    );
    w.synth.fill_synth(root, function);
    for tag in 0..5u32 {
        assert_eq!(reached(&w, root, tag as i64), FuncId(100 + tag));
        // Five arms are halved three times, so at most four selectors run.
        assert!((2..=5).contains(&path(&w, root, tag as i64).len()));
    }
    // A tag no arm has falls through to the last one.
    assert_eq!(reached(&w, root, 77), FuncId(104));
}

#[test]
fn a_mutating_arm_writes_the_whole_value_back() {
    let mut w = world();
    let view = view_id(&w);
    let mut shape = dispatch(view);
    shape.mutates_self = true;
    let label = w.ids[1].unwrap();
    let arm = ArmTarget {
        variant: ConstructVariant { tag: 1, ty: Type::Struct(label), name: LABEL },
        target: FuncId(3),
        result: INT,
    };
    let sigs = implementations(&w);
    let tables = ReadTables {
        families: &w.table,
        constructs: &w.constructs,
        lattice: &lattice(),
        sigs: &sigs,
    };
    let function = construct_dispatch_arm_function(&mut w.program, &tables, &shape, arm);
    assert_eq!(
        function.name,
        FunctionName::DispatchArm { family: VIEW, method: RENDER, tag: 1 }
    );
    assert!(function.mutates_self);
    let assigned = function.body.iter().any(|stmt| {
        matches!(
            &w.program.stmts[stmt.0 as usize],
            HirStmt::Assign { place, value }
                if place.local == LocalId(0)
                    && matches!(w.program.exprs[value.0 as usize], HirExpr::EnumNew { tag: 1, .. })
        )
    });
    assert!(assigned);
}

#[test]
fn an_arm_carries_a_declaration_up_to_its_family() {
    let mut w = world();
    let view = view_id(&w);
    let mut shape = dispatch(view);
    shape.result = Type::Enum(view);
    let label = w.ids[1].unwrap();
    let arm = ArmTarget {
        variant: ConstructVariant { tag: 1, ty: Type::Struct(label), name: LABEL },
        target: FuncId(3),
        result: Type::Struct(label),
    };
    let sigs = implementations(&w);
    let tables = ReadTables {
        families: &w.table,
        constructs: &w.constructs,
        lattice: &lattice(),
        sigs: &sigs,
    };
    let function = construct_dispatch_arm_function(&mut w.program, &tables, &shape, arm);
    assert_eq!(function.signature.result, Type::Enum(view));
    let answered = function.body.iter().any(|stmt| {
        matches!(
            &w.program.stmts[stmt.0 as usize],
            HirStmt::Let { init, .. } if matches!(
                w.program.exprs[init.0 as usize],
                HirExpr::EnumNew { enum_id, tag: 1, payload: Some(call) }
                    if enum_id == view
                        && matches!(w.program.exprs[call.0 as usize], HirExpr::Call { .. })
            )
        )
    });
    assert!(answered);
}

#[test]
fn every_reserved_dispatcher_is_built() {
    let mut w = world();
    let view = view_id(&w);
    let render = construct_dispatcher_for(&mut w.table, &mut w.synth, view, RENDER);
    let receiver =
        w.program.add_expr(HirExpr::Local { local: LocalId(0), ty: Type::Enum(view) });
    let read = analyze_construct_family_field(
        &mut w.program,
        &mut w.table,
        &mut w.synth,
        receiver,
        view,
        TITLE,
        Type::Text,
    );
    assert_eq!(w.program.exprs[read.0 as usize].type_of(), Type::Text);
    assert_eq!(method_jobs(&w.table, &w.synth).len(), 1);
    let sigs = implementations(&w);
    let tables = ReadTables {
        families: &w.table,
        constructs: &w.constructs,
        lattice: &lattice(),
        sigs: &sigs,
    };
    build_construct_dispatchers(&mut w.program, &mut w.synth, &tables);
    assert!(w.synth.rows.iter().all(|row| row.is_some()));
    // Each tag's arm calls the implementation its declaration gave.
    let family_row = w.table.find_family(view).unwrap();
    for variant in &w.table.families.rows[family_row].1.variants {
        let arm = reached(&w, render, variant.tag as i64);
        let wanted = sigs
            .sigs
            .iter()
            .position(|sig| sig.name.form == NameForm::Method { owner: variant.name, name: RENDER })
            .unwrap();
        assert_eq!(arm, FuncId(wanted as u32));
    }
}

#[test]
fn a_declarations_callables_leave_requirements_out() {
    let w = world();
    let bodies: Vec<usize> = (0..w.table.methods.len()).map(|row| 50 + row).collect();
    let templates = vec![];
    let homes = vec![];
    let classes = ClassTable::new();
    let table = imports();
    let decls = Declarations {
        types: &w.program.types,
        imports: &table,
        classes: &classes,
        templates: &templates,
        homes: &homes,
        constructs: &w.constructs,
        families: &w.table,
        bodies: &bodies,
    };
    let item = ConstructItem {
        name: BUTTON,
        source: HERE,
        inits: vec![7],
        methods: vec![
            WrittenMethod { name: RENDER, required: false, function: 8 },
            WrittenMethod { name: Symbol(95), required: true, function: 9 },
        ],
        family: Some(CONTROL),
    };
    let found = construct_callables(&decls, &item);
    // The initializer, the written `render`, and `press` and `padded`, inherited.
    assert_eq!(found[0].initializes.unwrap().name, BUTTON);
    assert_eq!(found[1].function, 8);
    assert!(found.iter().all(|callable| callable.function != 9));
    let press = w.table.find_entry(w.table.construct_family_type(CONTROL).unwrap(), PRESS).unwrap();
    assert!(found.iter().any(|callable| callable.function == 50 + press.method as usize));
    let render =
        w.table.find_entry(w.table.construct_family_type(CONTROL).unwrap(), RENDER).unwrap();
    assert!(found.iter().all(|callable| callable.function != 50 + render.method as usize));
    let items = vec![
        CallableItem::Function { function: 1, source: HERE, foreign: false },
        CallableItem::Function { function: 2, source: HERE, foreign: true },
        CallableItem::Struct { name: LABEL, source: HERE, methods: vec![3] },
        CallableItem::Struct { name: Symbol(66), source: HERE, methods: vec![4] },
        CallableItem::Class { name: LABEL, source: HERE },
        CallableItem::Other,
        CallableItem::Construct(item),
    ];
    let all = written_callables(&decls, &items);
    assert_eq!(all.len(), 3 + found.len());
    assert_eq!(all[0].function, 1);
    assert_eq!(all[1].receiver.unwrap().ty, Type::Struct(w.ids[1].unwrap()));
    assert!(all[2].receiver.is_none());
}
