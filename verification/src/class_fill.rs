//! Declaring classes and filling the rows their headers reserve.

use vstd::prelude::*;

use crate::class_fields::{
    an_inherited_default_is_the_parents, first_parent_layout_is_a_prefix, flatten_fields, flattened,
    origin_of, overridden, FlatField,
};
use crate::class_methods::{
    bare_of, blocks_add, check_overrides, extended_methods, methods_ascend, nameable,
    override_problems, resolve_methods, Method,
};
use crate::class_order::{class_order, class_walk, cycle_reports, settled};
use crate::classes::{
    struct_listed, ClassDecl, ClassInfo, ClassMethodDecl, ClassTable, ExtendBlock, OwnMethods,
    ParentRef, SlotOrigin,
};
use crate::diagnostics::{blamed, noted, Log, Problem};
use crate::imports::ImportTable;
use crate::names::Symbol;
use crate::source::{SourceId, Span};
use crate::syntax::{FieldDefault, MemberKey};
use crate::ty::{FieldDef, StructDef, StructId, StructName, Type, TypeTable};
use crate::visibility::{
    lookup_owned_struct, owned_struct, struct_seen, visible_struct, DeclaredIn,
};

verus! {

/// What a written parent resolves to: a struct, or `Error` where nothing of that
/// name is visible.
pub open spec fn parent_type(
    types: &TypeTable,
    imports: &ImportTable,
    declared: &DeclaredIn,
    source: SourceId,
    parent: ParentRef,
) -> Type {
    match parent.instantiated {
        Some(ty) => ty,
        None => match struct_seen(
            types,
            imports,
            declared,
            source,
            imports.package(source),
            parent.name,
        ) {
            Some(id) => Type::Struct(id),
            None => Type::Error,
        },
    }
}

/// The parents among the first `count` written, in order, and what the others
/// report. A parent dropped for a cycle already has its report.
pub open spec fn parents_of(
    types: &TypeTable,
    imports: &ImportTable,
    declared: &DeclaredIn,
    dropped: Seq<Symbol>,
    source: SourceId,
    parents: Seq<ParentRef>,
    count: int,
) -> (Seq<StructId>, Seq<(Span, Problem)>)
    decreases count,
{
    if count <= 0 {
        (Seq::empty(), Seq::empty())
    } else {
        let (ids, problems) = parents_of(
            types,
            imports,
            declared,
            dropped,
            source,
            parents,
            count - 1,
        );
        let parent = parents[count - 1];
        match parent_type(types, imports, declared, source, parent) {
            Type::Struct(id) => if ids.contains(id) {
                (
                    ids,
                    problems.push(
                        (parent.span, Problem::ParentAlreadyNamed { parent: parent.name }),
                    ),
                )
            } else {
                (ids.push(id), problems)
            },
            Type::Error if !dropped.contains(parent.name) => (
                ids,
                problems.push((parent.span, Problem::UnknownParent { parent: parent.name })),
            ),
            _ => (ids, problems),
        }
    }
}

fn symbol_listed(names: &Vec<Symbol>, name: Symbol) -> (res: bool)
    ensures
        res == names@.contains(name),
{
    let mut i: usize = 0;
    while i < names.len()
        invariant
            i <= names@.len(),
            forall|k: int| 0 <= k < i ==> names@[k] != name,
        decreases names@.len() - i,
    {
        if names[i] == name {
            return true;
        }
        i += 1;
    }
    false
}

/// Resolves the `extends` list to ids, reporting unknown and duplicated parents.
pub fn resolve_parents(
    types: &TypeTable,
    imports: &ImportTable,
    declared: &DeclaredIn,
    dropped: &Vec<Symbol>,
    written: &Vec<ParentRef>,
    log: &mut Log,
) -> (parents: Vec<StructId>)
    requires
        types.structs@.len() <= u32::MAX,
    ensures
        parents@ == parents_of(
            types,
            imports,
            declared,
            dropped@,
            old(log).source,
            written@,
            written@.len() as int,
        ).0,
        final(log).source == old(log).source,
        final(log).diagnostics@ == old(log).diagnostics@ + noted(
            old(log).source,
            parents_of(
                types,
                imports,
                declared,
                dropped@,
                old(log).source,
                written@,
                written@.len() as int,
            ).1,
        ),
{
    let mut parents: Vec<StructId> = Vec::new();
    let ghost source = log.source;
    let mut i: usize = 0;
    assert(log.diagnostics@ =~= old(log).diagnostics@ + noted(
        source,
        Seq::<(Span, Problem)>::empty(),
    ));
    while i < written.len()
        invariant
            types.structs@.len() <= u32::MAX,
            source == old(log).source,
            log.source == source,
            i <= written@.len(),
            parents@ == parents_of(
                types,
                imports,
                declared,
                dropped@,
                source,
                written@,
                i as int,
            ).0,
            log.diagnostics@ == old(log).diagnostics@ + noted(
                source,
                parents_of(types, imports, declared, dropped@, source, written@, i as int).1,
            ),
        decreases written@.len() - i,
    {
        let parent = written[i];
        let ghost before = parents_of(
            types,
            imports,
            declared,
            dropped@,
            source,
            written@,
            i as int,
        ).1;
        let resolved = match parent.instantiated {
            Some(ty) => ty,
            None => match visible_struct(types, imports, declared, log.source, parent.name) {
                Some(id) => Type::Struct(id),
                None => Type::Error,
            },
        };
        match resolved {
            Type::Struct(id) => {
                if struct_listed(&parents, id) {
                    let problem = Problem::ParentAlreadyNamed { parent: parent.name };
                    assert(noted(source, before.push((parent.span, problem))) =~= noted(
                        source,
                        before,
                    ).push(blamed(source, parent.span, problem)));
                    log.emit(parent.span, problem);
                } else {
                    parents.push(id);
                }
            },
            Type::Error => {
                if !symbol_listed(dropped, parent.name) {
                    let problem = Problem::UnknownParent { parent: parent.name };
                    assert(noted(source, before.push((parent.span, problem))) =~= noted(
                        source,
                        before,
                    ).push(blamed(source, parent.span, problem)));
                    log.emit(parent.span, problem);
                }
            },
            _ => {},
        }
        i += 1;
    }
    parents
}

/// The ancestors the first `count` parents bring: each parent and what it
/// inherits from.
pub open spec fn all_ancestors(
    classes: &ClassTable,
    parents: Seq<StructId>,
    count: int,
) -> Seq<StructId>
    decreases count,
{
    if count <= 0 {
        Seq::empty()
    } else {
        all_ancestors(classes, parents, count - 1) + (seq![parents[count - 1]]
            + classes.ancestors(parents[count - 1]))
    }
}

/// The struct fields the slots become.
pub open spec fn stored_fields(flat: Seq<FlatField>) -> Seq<FieldDef> {
    flat.map_values(
        |field: FlatField| FieldDef { name: field.storage, ty: field.ty, mutable: field.mutable },
    )
}

/// Where each slot came from, the class's own from the class itself.
pub open spec fn slot_origins(flat: Seq<FlatField>, id: StructId) -> Seq<SlotOrigin> {
    flat.map_values(
        |field: FlatField|
            SlotOrigin {
                owner: match field.owner {
                    Some(owner) => owner,
                    None => id,
                },
                plain: field.plain,
            },
    )
}

/// The slots among the first `count` with no default, in order.
pub open spec fn required(flat: Seq<FlatField>, count: int) -> Seq<u32>
    decreases count,
{
    if count <= 0 {
        Seq::empty()
    } else if flat[count - 1].default is None {
        required(flat, count - 1).push((count - 1) as u32)
    } else {
        required(flat, count - 1)
    }
}

/// The keys of the methods a class body declares.
pub open spec fn body_keys(methods: Seq<ClassMethodDecl>) -> Seq<MemberKey> {
    methods.map_values(|method: ClassMethodDecl| method.key)
}

/// What filling a class reads.
pub struct ClassInputs<'a> {
    pub imports: &'a ImportTable,
    pub declared: &'a DeclaredIn,
    pub blocks: &'a Vec<ExtendBlock>,
}

/// Everything filling class `id` from `declaration` does, told from the tables
/// before and after.
pub open spec fn class_filled(
    types: &TypeTable,
    classes: &ClassTable,
    defaults: Seq<Vec<Option<FieldDefault>>>,
    log: &Log,
    inputs: ClassInputs,
    id: StructId,
    declaration: ClassDecl,
    types_after: &TypeTable,
    classes_after: &ClassTable,
    defaults_after: Seq<Vec<Option<FieldDefault>>>,
    log_after: &Log,
) -> bool {
    let source = log.source;
    let (parents, parent_problems) = parents_of(
        types,
        inputs.imports,
        inputs.declared,
        classes.unflattenable@,
        source,
        declaration.parents@,
        declaration.parents@.len() as int,
    );
    let ancestors = all_ancestors(classes, parents, parents.len() as int);
    let (flat, field_problems) = flattened(types, classes, defaults, declaration, parents, source);
    let (added, said, at) = blocks_add(
        declaration.name,
        inputs.blocks@,
        body_keys(declaration.methods@),
        source,
        inputs.blocks@.len() as int,
    );
    &&& types_after.structs@.len() == types.structs@.len()
    &&& types_after.structs@[id.0 as int].fields@ == stored_fields(flat)
    &&& types_after.structs@[id.0 as int].name == types.structs@[id.0 as int].name
    &&& types_after.structs@[id.0 as int].owner == types.structs@[id.0 as int].owner
    &&& types_after.structs@[id.0 as int].module == types.structs@[id.0 as int].module
    &&& forall|i: int|
        0 <= i < types.structs@.len() && i != id.0 ==> #[trigger] types_after.structs@[i]
            == types.structs@[i]
    &&& *types_after == (TypeTable { structs: types_after.structs, ..*types })
    &&& defaults_after.len() == defaults.len()
    &&& defaults_after[id.0 as int]@ == flat.map_values(|field: FlatField| field.default)
    &&& forall|i: int|
        0 <= i < defaults.len() && i != id.0 ==> #[trigger] defaults_after[i] == defaults[i]
    &&& classes_after.unflattenable == classes.unflattenable
    &&& classes_after.own_methods@.len() == classes.own_methods@.len() + 1
    &&& classes_after.own_methods@.drop_last() == classes.own_methods@
    &&& classes_after.own_methods@.last().id == id
    &&& classes_after.own_methods@.last().keys@ == body_keys(declaration.methods@) + added
    &&& classes_after.classes@.len() == classes.classes@.len() + 1
    &&& classes_after.classes@.drop_last() == classes.classes@
    &&& ({
        let info = classes_after.classes@.last();
        let with_own = ClassTable { own_methods: classes_after.own_methods, ..*classes };
        &&& info.id == id
        &&& info.name == declaration.name
        &&& info.ancestors@ == ancestors
        &&& info.slot_origin@ == slot_origins(flat, id)
        &&& info.required_slots@ == required(flat, flat.len() as int)
        &&& methods_ascend(info.qualified_methods@)
        &&& forall|method: Method| #[trigger]
            info.qualified_methods@.contains(method) <==> nameable(&with_own, id, parents, method)
        &&& bare_of(&with_own, id, ancestors, info.qualified_methods@, info.bare_methods@)
        &&& log_after.source == at
        &&& log_after.diagnostics@ == log.diagnostics@ + noted(source, parent_problems) + noted(
            source,
            field_problems,
        ) + said + noted(
            at,
            override_problems(
                info.qualified_methods@,
                id,
                declaration.methods@,
                declaration.methods@.len() as int,
            ),
        )
    })
}

/// Flattens one class into the row its header reserved.
pub fn fill_class(
    types: &mut TypeTable,
    classes: &mut ClassTable,
    defaults: &mut Vec<Vec<Option<FieldDefault>>>,
    inputs: &ClassInputs,
    id: StructId,
    declaration: &ClassDecl,
    log: &mut Log,
)
    requires
        old(types).structs@.len() <= u32::MAX,
        id.0 < old(types).structs@.len(),
        id.0 < old(defaults)@.len(),
    ensures
        class_filled(
            old(types),
            old(classes),
            old(defaults)@,
            old(log),
            *inputs,
            id,
            *declaration,
            final(types),
            final(classes),
            final(defaults)@,
            final(log),
        ),
{
    let parents = resolve_parents(
        types,
        inputs.imports,
        inputs.declared,
        &classes.unflattenable,
        &declaration.parents,
        log,
    );
    let mut ancestors: Vec<StructId> = Vec::new();
    let mut p: usize = 0;
    while p < parents.len()
        invariant
            p <= parents@.len(),
            ancestors@ == all_ancestors(classes, parents@, p as int),
        decreases parents@.len() - p,
    {
        let more = classes.ancestors_of(parents[p]);
        crate::lists::extend(&mut ancestors, &more);
        p += 1;
    }
    let flat = flatten_fields(types, classes, defaults, declaration, &parents, log);
    let mut fields: Vec<FieldDef> = Vec::new();
    let mut slots: Vec<Option<FieldDefault>> = Vec::new();
    let mut origins: Vec<SlotOrigin> = Vec::new();
    let mut required_slots: Vec<u32> = Vec::new();
    let mut i: usize = 0;
    while i < flat.len()
        invariant
            i <= flat@.len(),
            fields@ == stored_fields(flat@.take(i as int)),
            slots@ == flat@.take(i as int).map_values(|field: FlatField| field.default),
            origins@ == slot_origins(flat@.take(i as int), id),
            required_slots@ == required(flat@, i as int),
        decreases flat@.len() - i,
    {
        let field = flat[i];
        fields.push(FieldDef { name: field.storage, ty: field.ty, mutable: field.mutable });
        slots.push(field.default);
        let owner = match field.owner {
            Some(owner) => owner,
            None => id,
        };
        origins.push(SlotOrigin { owner, plain: field.plain });
        if field.default.is_none() {
            required_slots.push(i as u32);
        }
        i += 1;
        assert(fields@ =~= stored_fields(flat@.take(i as int)));
        assert(slots@ =~= flat@.take(i as int).map_values(|field: FlatField| field.default));
        assert(origins@ =~= slot_origins(flat@.take(i as int), id));
    }
    assert(flat@.take(i as int) =~= flat@);
    types.structs[id.0 as usize].fields = fields;
    defaults[id.0 as usize] = slots;
    let mut keys: Vec<MemberKey> = Vec::new();
    let mut m: usize = 0;
    while m < declaration.methods.len()
        invariant
            m <= declaration.methods@.len(),
            keys@ == body_keys(declaration.methods@.take(m as int)),
        decreases declaration.methods@.len() - m,
    {
        keys.push(declaration.methods[m].key);
        m += 1;
        assert(keys@ =~= body_keys(declaration.methods@.take(m as int)));
    }
    assert(declaration.methods@.take(m as int) =~= declaration.methods@);
    let added = extended_methods(declaration.name, inputs.blocks, &keys, log);
    crate::lists::extend(&mut keys, &added);
    classes.own_methods.push(OwnMethods { id, keys });
    let resolved = resolve_methods(classes, id, &parents, &ancestors);
    let ghost table = *classes;
    let ghost qualified = resolved.qualified@;
    check_overrides(&declaration.methods, &resolved.qualified, id, log);
    classes.classes.push(
        ClassInfo {
            id,
            name: declaration.name,
            ancestors,
            slot_origin: origins,
            qualified_methods: resolved.qualified,
            bare_methods: resolved.bare,
            required_slots,
        },
    );
    proof {
        assert(classes.own_methods@.drop_last() =~= old(classes).own_methods@);
        assert(classes.classes@.drop_last() =~= old(classes).classes@);
        assert(table == (ClassTable { own_methods: classes.own_methods, ..*old(classes) }));
    }
}

/// How many of the first `count` headers got an id.
pub open spec fn granted(ids: Seq<Option<StructId>>, count: int) -> int
    decreases count,
{
    if count <= 0 {
        0
    } else {
        granted(ids, count - 1) + if ids[count - 1] is Some {
            1int
        } else {
            0int
        }
    }
}

/// A declaration that asks for a row: it names a type, and no enum took its name.
pub open spec fn asks(decls: Seq<ClassDecl>, taken: Seq<bool>, i: int) -> bool {
    !decls[i].generic && !taken[i]
}

/// The row declaration `i` asks for: an empty struct under the declaring package.
pub open spec fn header_row(row: StructDef, imports: &ImportTable, decl: ClassDecl) -> bool {
    &&& row.name == StructName::Declared(decl.name)
    &&& row.owner == imports.package(decl.source)
    &&& row.module == imports.module(decl.source)
    &&& row.fields@.len() == 0
}

/// What the first `count` declarations report: the name is already its package's.
pub open spec fn header_reports(
    decls: Seq<ClassDecl>,
    taken: Seq<bool>,
    ids: Seq<Option<StructId>>,
    count: int,
) -> Seq<crate::diagnostics::Diagnostic>
    decreases count,
{
    if count <= 0 {
        Seq::empty()
    } else {
        let before = header_reports(decls, taken, ids, count - 1);
        let decl = decls[count - 1];
        if asks(decls, taken, count - 1) && ids[count - 1] is None {
            before.push(
                blamed(
                    decl.source,
                    decl.name_span,
                    Problem::ClassAlreadyDefined { class: decl.name },
                ),
            )
        } else {
            before
        }
    }
}

/// The file last read once the first `count` declarations were.
pub open spec fn header_source(decls: Seq<ClassDecl>, source: SourceId, count: int) -> SourceId
    decreases count,
{
    if count <= 0 {
        source
    } else if decls[count - 1].generic {
        header_source(decls, source, count - 1)
    } else {
        decls[count - 1].source
    }
}

/// The first `count` declarations got rows after those of `before`: each that
/// asks and whose name its package has not declared yet, in order.
pub open spec fn headers_granted(
    before: Seq<StructDef>,
    after: Seq<StructDef>,
    imports: &ImportTable,
    decls: Seq<ClassDecl>,
    taken: Seq<bool>,
    ids: Seq<Option<StructId>>,
    count: int,
) -> bool {
    &&& ids.len() == count
    &&& after.len() == before.len() + granted(ids, count)
    &&& after.take(before.len() as int) == before
    &&& forall|i: int|
        0 <= i < count ==> {
            let at = before.len() + granted(ids, i);
            match #[trigger] ids[i] {
                Some(id) => asks(decls, taken, i) && id.0 == at && at < after.len() && owned_struct(
                    after.take(at),
                    imports.package(decls[i].source),
                    decls[i].name,
                ) is None && header_row(after[at], imports, decls[i]),
                None => asks(decls, taken, i) ==> owned_struct(
                    after.take(at),
                    imports.package(decls[i].source),
                    decls[i].name,
                ) is Some,
            }
        }
}

proof fn lemma_granted(ids: Seq<Option<StructId>>, more: Seq<Option<StructId>>, count: int)
    requires
        0 <= count <= ids.len() <= more.len(),
        forall|i: int| 0 <= i < ids.len() ==> ids[i] == more[i],
    ensures
        granted(ids, count) == granted(more, count),
        0 <= granted(ids, count) <= count,
    decreases count,
{
    if count > 0 {
        lemma_granted(ids, more, count - 1);
    }
}

proof fn lemma_granted_grows(ids: Seq<Option<StructId>>, low: int, high: int)
    requires
        0 <= low <= high <= ids.len(),
    ensures
        granted(ids, low) <= granted(ids, high),
    decreases high - low,
{
    if low < high {
        lemma_granted_grows(ids, low, high - 1);
    }
}

/// Declares every class's name as an empty row in the struct table, in
/// declaration order.
///
/// `taken` says, by declaration, whether an enum already took the name. Returns
/// the id minted for each declaration, or `None` where the name lost a
/// collision.
pub fn declare_class_headers(
    decls: &Vec<ClassDecl>,
    taken: &Vec<bool>,
    imports: &ImportTable,
    types: &mut TypeTable,
    declared: &mut DeclaredIn,
    defaults: &mut Vec<Vec<Option<FieldDefault>>>,
    log: &mut Log,
) -> (ids: Vec<Option<StructId>>)
    requires
        taken@.len() == decls@.len(),
        old(types).structs@.len() + decls@.len() <= u32::MAX,
        old(declared).structs@.len() == old(types).structs@.len(),
        old(defaults)@.len() == old(types).structs@.len(),
    ensures
        headers_granted(
            old(types).structs@,
            final(types).structs@,
            imports,
            decls@,
            taken@,
            ids@,
            decls@.len() as int,
        ),
        *final(types) == (TypeTable { structs: final(types).structs, ..*old(types) }),
        final(declared).enums == old(declared).enums,
        final(declared).structs@.len() == final(types).structs@.len(),
        forall|i: int|
            0 <= i < old(declared).structs@.len() ==> #[trigger] final(declared).structs@[i] == old(
                declared,
            ).structs@[i],
        forall|i: int|
            0 <= i < decls@.len() ==> (#[trigger] ids@[i] matches Some(id)
                ==> final(declared).structs@[id.0 as int] == Some(decls@[i].source)),
        final(defaults)@.len() == final(types).structs@.len(),
        forall|i: int|
            0 <= i < final(defaults)@.len() ==> if i < old(defaults)@.len() {
                #[trigger] final(defaults)@[i] == old(defaults)@[i]
            } else {
                final(defaults)@[i]@.len() == 0
            },
        final(log).diagnostics@ == old(log).diagnostics@ + header_reports(
            decls@,
            taken@,
            ids@,
            decls@.len() as int,
        ),
        final(log).source == header_source(decls@, old(log).source, decls@.len() as int),
{
    let mut ids: Vec<Option<StructId>> = Vec::new();
    let ghost start = types.structs@;
    assert(types.structs@.take(start.len() as int) =~= start);
    assert(log.diagnostics@ =~= old(log).diagnostics@ + header_reports(decls@, taken@, ids@, 0));
    let mut i: usize = 0;
    while i < decls.len()
        invariant
            i <= decls@.len(),
            taken@.len() == decls@.len(),
            start == old(types).structs@,
            start.len() + decls@.len() <= u32::MAX,
            headers_granted(start, types.structs@, imports, decls@, taken@, ids@, i as int),
            types.structs@.len() <= start.len() + i,
            *types == (TypeTable { structs: types.structs, ..*old(types) }),
            old(declared).structs@.len() == start.len(),
            old(defaults)@.len() == start.len(),
            declared.enums == old(declared).enums,
            declared.structs@.len() == types.structs@.len(),
            forall|k: int|
                0 <= k < start.len() ==> #[trigger] declared.structs@[k] == old(
                    declared,
                ).structs@[k],
            forall|k: int|
                0 <= k < i ==> (#[trigger] ids@[k] matches Some(id)
                    ==> declared.structs@[id.0 as int] == Some(decls@[k].source)),
            defaults@.len() == types.structs@.len(),
            forall|k: int|
                0 <= k < defaults@.len() ==> if k < start.len() {
                    #[trigger] defaults@[k] == old(defaults)@[k]
                } else {
                    defaults@[k]@.len() == 0
                },
            log.diagnostics@ == old(log).diagnostics@ + header_reports(
                decls@,
                taken@,
                ids@,
                i as int,
            ),
            log.source == header_source(decls@, old(log).source, i as int),
        decreases decls@.len() - i,
    {
        let ghost rows = types.structs@;
        let ghost known = ids@;
        let ghost said = log.diagnostics@;
        let ghost was = declared.structs@;
        let mut id: Option<StructId> = None;
        if !decls[i].generic {
            log.source = decls[i].source;
            if !taken[i] {
                let owner = imports.package_of(decls[i].source);
                match lookup_owned_struct(types, owner, decls[i].name) {
                    Some(_) => log.emit(
                        decls[i].name_span,
                        Problem::ClassAlreadyDefined { class: decls[i].name },
                    ),
                    None => {
                        id = Some(StructId(types.structs.len() as u32));
                        types.structs.push(
                            StructDef {
                                name: StructName::Declared(decls[i].name),
                                owner,
                                module: imports.module_of(decls[i].source),
                                fields: Vec::new(),
                            },
                        );
                        declared.structs.push(Some(decls[i].source));
                        defaults.push(Vec::new());
                    },
                }
            }
        }
        ids.push(id);
        i += 1;
        proof {
            let n = i as int;
            assert(ids@ =~= known.push(id));
            lemma_granted(known, ids@, n - 1);
            assert(rows.take(rows.len() as int) =~= rows);
            assert(types.structs@.take(start.len() as int) =~= start) by {
                assert(rows.take(start.len() as int) == start);
                assert forall|k: int| 0 <= k < start.len() implies types.structs@[k]
                    == start[k] by {
                    assert(rows.take(start.len() as int)[k] == start[k]);
                }
            }
            assert(types.structs@.take(rows.len() as int) =~= rows);
            assert forall|k: int| 0 <= k < n implies ({
                let at = start.len() + granted(ids@, k);
                match #[trigger] ids@[k] {
                    Some(id) => asks(decls@, taken@, k) && id.0 == at && at < types.structs@.len()
                        && owned_struct(
                        types.structs@.take(at),
                        imports.package(decls@[k].source),
                        decls@[k].name,
                    ) is None && header_row(types.structs@[at], imports, decls@[k]),
                    None => asks(decls@, taken@, k) ==> owned_struct(
                        types.structs@.take(at),
                        imports.package(decls@[k].source),
                        decls@[k].name,
                    ) is Some,
                }
            }) by {
                lemma_granted(known, ids@, if k < n - 1 {
                    k
                } else {
                    n - 1
                });
                if k < n - 1 {
                    assert(known[k] == ids@[k]);
                    let at = start.len() + granted(known, k);
                    lemma_granted_grows(known, k, n - 1);
                    assert(types.structs@.take(at) =~= rows.take(at));
                }
            }
            lemma_header_reports(decls@, taken@, known, ids@, n - 1);
            assert(log.diagnostics@ =~= old(log).diagnostics@ + header_reports(
                decls@,
                taken@,
                ids@,
                n,
            ));
            assert forall|k: int| 0 <= k < n implies (#[trigger] ids@[k] matches Some(id)
                ==> declared.structs@[id.0 as int] == Some(decls@[k].source)) by {
                if k < n - 1 {
                    assert(known[k] == ids@[k]);
                    if known[k] is Some {
                        assert(was[(known[k]->0).0 as int] == Some(decls@[k].source));
                        lemma_granted_grows(known, k + 1, n - 1);
                    }
                }
            }
        }
    }
    ids
}

proof fn lemma_header_reports(
    decls: Seq<ClassDecl>,
    taken: Seq<bool>,
    ids: Seq<Option<StructId>>,
    more: Seq<Option<StructId>>,
    count: int,
)
    requires
        0 <= count <= ids.len() <= more.len(),
        forall|i: int| 0 <= i < ids.len() ==> ids[i] == more[i],
    ensures
        header_reports(decls, taken, ids, count) == header_reports(decls, taken, more, count),
    decreases count,
{
    if count > 0 {
        lemma_header_reports(decls, taken, ids, more, count - 1);
    }
}

/// The homes methods are written in, in the order of the files: structs, classes
/// and `extend` blocks alike.
#[derive(Debug)]
pub struct MethodHome {
    pub name: Symbol,
    pub source: SourceId,
    /// Each method's key and the function written there.
    pub methods: Vec<(MemberKey, u32)>,
}

/// The first method of a home keyed `key`.
pub open spec fn method_in(methods: Seq<(MemberKey, u32)>, key: MemberKey) -> Option<u32>
    decreases methods.len(),
{
    if methods.len() == 0 {
        None
    } else if methods[0].0 == key {
        Some(methods[0].1)
    } else {
        method_in(methods.drop_first(), key)
    }
}

/// The first home named `name`, of package `package`, with a method keyed `key`.
pub open spec fn written_method(
    imports: &ImportTable,
    homes: Seq<MethodHome>,
    package: Option<Symbol>,
    name: Symbol,
    key: MemberKey,
) -> Option<(u32, SourceId)>
    decreases homes.len(),
{
    if homes.len() == 0 {
        None
    } else {
        let home = homes[0];
        match method_in(home.methods@, key) {
            Some(function) if imports.package(home.source) == package && home.name == name => Some(
                (function, home.source),
            ),
            _ => written_method(imports, homes.drop_first(), package, name, key),
        }
    }
}

fn find_method(methods: &Vec<(MemberKey, u32)>, key: MemberKey) -> (found: Option<u32>)
    ensures
        found == method_in(methods@, key),
{
    let mut i: usize = 0;
    assert(methods@.skip(0) =~= methods@);
    while i < methods.len()
        invariant
            i <= methods@.len(),
            method_in(methods@, key) == method_in(methods@.skip(i as int), key),
        decreases methods@.len() - i,
    {
        assert(methods@.skip(i as int).drop_first() =~= methods@.skip(i + 1));
        let (found, function) = methods[i];
        if found == key {
            return Some(function);
        }
        i += 1;
    }
    None
}

/// The declaration of the method keyed `key` of the type `package` declared as
/// `name`, and the file it is written in.
///
/// The candidate must be written in the package that owns the receiver: two
/// packages may each declare a class of one name.
pub fn method_ast(
    imports: &ImportTable,
    homes: &Vec<MethodHome>,
    package: Option<Symbol>,
    name: Symbol,
    key: MemberKey,
) -> (found: Option<(u32, SourceId)>)
    ensures
        found == written_method(imports, homes@, package, name, key),
{
    let mut i: usize = 0;
    assert(homes@.skip(0) =~= homes@);
    while i < homes.len()
        invariant
            i <= homes@.len(),
            written_method(imports, homes@, package, name, key) == written_method(
                imports,
                homes@.skip(i as int),
                package,
                name,
                key,
            ),
        decreases homes@.len() - i,
    {
        assert(homes@.skip(i as int).drop_first() =~= homes@.skip(i + 1));
        assert(homes@.skip(i as int)[0] == homes@[i as int]);
        if imports.package_of(homes[i].source) == package && homes[i].name == name {
            if let Some(function) = find_method(&homes[i].methods, key) {
                return Some((function, homes[i].source));
            }
        }
        i += 1;
    }
    None
}

/// One method registered for a class: its receiver is always the class, whoever
/// wrote the body.
#[derive(Clone, Copy, PartialEq, Eq, Structural, Debug)]
pub struct ClassCallable {
    pub receiver: StructId,
    pub origin: StructId,
    pub key: MemberKey,
    pub function: u32,
    /// The file containing the body.
    pub source: SourceId,
}

/// The name and package a struct's methods are written under: those of its
/// template where it is an instance of one.
pub open spec fn home_name(
    types: &TypeTable,
    templates: Seq<(StructId, Symbol)>,
    owner: StructId,
) -> Option<Symbol>
    decreases templates.len(),
{
    if templates.len() == 0 {
        types.declared_name(owner)
    } else if templates[0].0 == owner {
        Some(templates[0].1)
    } else {
        home_name(types, templates.drop_first(), owner)
    }
}

fn find_home(
    types: &TypeTable,
    templates: &Vec<(StructId, Symbol)>,
    owner: StructId,
) -> (name: Option<Symbol>)
    ensures
        name == home_name(types, templates@, owner),
{
    let mut i: usize = 0;
    assert(templates@.skip(0) =~= templates@);
    while i < templates.len()
        invariant
            i <= templates@.len(),
            home_name(types, templates@, owner) == home_name(
                types,
                templates@.skip(i as int),
                owner,
            ),
        decreases templates@.len() - i,
    {
        assert(templates@.skip(i as int).drop_first() =~= templates@.skip(i + 1));
        let (id, name) = templates[i];
        if id == owner {
            return Some(name);
        }
        i += 1;
    }
    types.name_of(owner)
}

/// The callable of one `(owner, method)` pair of class `class`, when its body is
/// written somewhere.
pub open spec fn class_callable(
    types: &TypeTable,
    imports: &ImportTable,
    templates: Seq<(StructId, Symbol)>,
    homes: Seq<MethodHome>,
    class: StructId,
    method: Method,
) -> Option<ClassCallable> {
    match home_name(types, templates, method.0) {
        Some(name) => match written_method(
            imports,
            homes,
            types.owner(method.0),
            name,
            method.1,
        ) {
            Some((function, source)) => Some(
                ClassCallable {
                    receiver: class,
                    origin: method.0,
                    key: method.1,
                    function,
                    source,
                },
            ),
            None => None,
        },
        None => None,
    }
}

/// The callables of the first `count` methods, in order.
pub open spec fn callables_of(
    types: &TypeTable,
    imports: &ImportTable,
    templates: Seq<(StructId, Symbol)>,
    homes: Seq<MethodHome>,
    class: StructId,
    methods: Seq<Method>,
    count: int,
) -> Seq<ClassCallable>
    decreases count,
{
    if count <= 0 {
        Seq::empty()
    } else {
        let before = callables_of(types, imports, templates, homes, class, methods, count - 1);
        match class_callable(types, imports, templates, homes, class, methods[count - 1]) {
            Some(callable) => before.push(callable),
            None => before,
        }
    }
}

/// Registers one callable per method class `class` can name.
///
/// This is what makes inheritance work without a vtable: an inherited body is
/// registered again for each class that inherits it, with the receiver set to
/// that class, so `self` is statically the concrete class.
pub fn class_callables(
    types: &TypeTable,
    imports: &ImportTable,
    templates: &Vec<(StructId, Symbol)>,
    homes: &Vec<MethodHome>,
    classes: &ClassTable,
    class: StructId,
) -> (callables: Vec<ClassCallable>)
    ensures
        callables@ == match classes.info(class) {
            Some(info) => callables_of(
                types,
                imports,
                templates@,
                homes@,
                class,
                info.qualified_methods@,
                info.qualified_methods@.len() as int,
            ),
            None => Seq::empty(),
        },
{
    let mut callables: Vec<ClassCallable> = Vec::new();
    if let Some(row) = classes.find(class) {
        let ghost methods = classes.classes@[row as int].qualified_methods@;
        let mut i: usize = 0;
        while i < classes.classes[row].qualified_methods.len()
            invariant
                row < classes.classes@.len(),
                methods == classes.classes@[row as int].qualified_methods@,
                i <= methods.len(),
                callables@ == callables_of(
                    types,
                    imports,
                    templates@,
                    homes@,
                    class,
                    methods,
                    i as int,
                ),
            decreases methods.len() - i,
        {
            let (origin, key) = classes.classes[row].qualified_methods[i];
            if let Some(name) = find_home(types, templates, origin) {
                if let Some((function, source)) = method_ast(
                    imports,
                    homes,
                    types.owner_of(origin),
                    name,
                    key,
                ) {
                    callables.push(
                        ClassCallable { receiver: class, origin, key, function, source },
                    );
                }
            }
            i += 1;
        }
    }
    callables
}

/// Every callable of a class runs on the class itself, whoever wrote its body.
pub proof fn class_methods_run_on_the_class(
    types: &TypeTable,
    imports: &ImportTable,
    templates: Seq<(StructId, Symbol)>,
    homes: Seq<MethodHome>,
    class: StructId,
    methods: Seq<Method>,
    count: int,
    i: int,
)
    requires
        0 <= count <= methods.len(),
        0 <= i < callables_of(types, imports, templates, homes, class, methods, count).len(),
    ensures
        callables_of(types, imports, templates, homes, class, methods, count)[i].receiver == class,
        methods.contains(
            (
                callables_of(types, imports, templates, homes, class, methods, count)[i].origin,
                callables_of(types, imports, templates, homes, class, methods, count)[i].key,
            ),
        ),
    decreases count,
{
    if count > 0 {
        let before = callables_of(types, imports, templates, homes, class, methods, count - 1);
        if i < before.len() {
            class_methods_run_on_the_class(
                types,
                imports,
                templates,
                homes,
                class,
                methods,
                count - 1,
                i,
            );
        } else {
            assert(methods[count - 1] == methods[count - 1]);
        }
    }
}

/// The tables classes are filled into, at one moment.
pub struct ClassState {
    pub types: TypeTable,
    pub classes: ClassTable,
    pub defaults: Seq<Vec<Option<FieldDefault>>>,
    pub log: Log,
}

/// The log once it reads `source`.
pub open spec fn reading(log: Log, source: SourceId) -> Log {
    Log { source, ..log }
}

/// One declaration of the order: filled into the row of its header, in its own
/// file, or nothing where it has none.
pub open spec fn filled_next(
    before: ClassState,
    after: ClassState,
    inputs: ClassInputs,
    header: Option<StructId>,
    declaration: ClassDecl,
) -> bool {
    match header {
        Some(id) => class_filled(
            &before.types,
            &before.classes,
            before.defaults,
            &reading(before.log, declaration.source),
            inputs,
            id,
            declaration,
            &after.types,
            &after.classes,
            after.defaults,
            &after.log,
        ),
        None => after == before,
    }
}

/// `trace` fills the declarations `order` lists, one after the other.
pub open spec fn fills(
    trace: Seq<ClassState>,
    inputs: ClassInputs,
    headers: Seq<Option<StructId>>,
    decls: Seq<ClassDecl>,
    order: Seq<int>,
) -> bool {
    trace.len() == order.len() + 1 && forall|k: int|
        0 <= k < order.len() ==> filled_next(
            #[trigger] trace[k],
            trace[k + 1],
            inputs,
            headers[order[k]],
            decls[order[k]],
        )
}

/// Fills every declared class, each after its parents.
///
/// `headers` holds the id each declaration's header minted; one that minted none
/// stays undeclared.
pub fn collect_classes(
    decls: &Vec<ClassDecl>,
    headers: &Vec<Option<StructId>>,
    types: &mut TypeTable,
    classes: &mut ClassTable,
    defaults: &mut Vec<Vec<Option<FieldDefault>>>,
    inputs: &ClassInputs,
    log: &mut Log,
)
    requires
        headers@.len() == decls@.len(),
        old(types).structs@.len() <= u32::MAX,
        old(defaults)@.len() == old(types).structs@.len(),
        forall|i: int|
            0 <= i < headers@.len() ==> (#[trigger] headers@[i] matches Some(id) ==> id.0 < old(
                types,
            ).structs@.len()),
    ensures
        final(classes).unflattenable@.to_set() == settled(decls@).1,
        exists|trace: Seq<ClassState>|
            {
                &&& #[trigger] fills(trace, *inputs, headers@, decls@, settled(decls@).0)
                &&& trace[0].types == *old(types)
                &&& trace[0].classes == (ClassTable {
                    unflattenable: final(classes).unflattenable,
                    ..*old(classes)
                })
                &&& trace[0].defaults == old(defaults)@
                &&& trace[0].log.diagnostics@ == old(log).diagnostics@ + cycle_reports(
                    decls@,
                    class_walk(decls@).closed,
                )
                &&& trace.last() == (ClassState {
                    types: *final(types),
                    classes: *final(classes),
                    defaults: final(defaults)@,
                    log: *final(log),
                })
            },
{
    let sorted = class_order(decls, log);
    classes.unflattenable = sorted.dropped;
    let ghost order = settled(decls@).0;
    let ghost first = ClassState {
        types: *types,
        classes: *classes,
        defaults: defaults@,
        log: *log,
    };
    let ghost mut trace: Seq<ClassState> = seq![first];
    let mut k: usize = 0;
    while k < sorted.order.len()
        invariant
            headers@.len() == decls@.len(),
            order == sorted.order@.map_values(|n: usize| n as int),
            forall|j: int|
                0 <= j < sorted.order@.len() ==> #[trigger] sorted.order@[j] < decls@.len(),
            forall|i: int|
                0 <= i < headers@.len() ==> (#[trigger] headers@[i] matches Some(id) ==> id.0 < old(
                    types,
                ).structs@.len()),
            k <= sorted.order@.len(),
            classes.unflattenable == first.classes.unflattenable,
            types.structs@.len() == old(types).structs@.len(),
            types.structs@.len() <= u32::MAX,
            defaults@.len() == old(defaults)@.len(),
            old(defaults)@.len() == old(types).structs@.len(),
            trace.len() == k + 1,
            trace[0] == first,
            trace[k as int] == (ClassState {
                types: *types,
                classes: *classes,
                defaults: defaults@,
                log: *log,
            }),
            forall|j: int|
                0 <= j < k ==> filled_next(
                    #[trigger] trace[j],
                    trace[j + 1],
                    *inputs,
                    headers@[order[j]],
                    decls@[order[j]],
                ),
        decreases sorted.order@.len() - k,
    {
        let index: usize = sorted.order[k];
        let ghost before = trace[k as int];
        if let Some(id) = headers[index] {
            log.source = decls[index].source;
            fill_class(types, classes, defaults, inputs, id, &decls[index], log);
        }
        let ghost after = ClassState {
            types: *types,
            classes: *classes,
            defaults: defaults@,
            log: *log,
        };
        proof {
            let was = trace;
            trace = trace.push(after);
            assert(filled_next(
                before,
                after,
                *inputs,
                headers@[order[k as int]],
                decls@[order[k as int]],
            ));
            assert forall|j: int| 0 <= j < k + 1 implies filled_next(
                #[trigger] trace[j],
                trace[j + 1],
                *inputs,
                headers@[order[j]],
                decls@[order[j]],
            ) by {
                if j < k {
                    assert(was[j] == trace[j] && was[j + 1] == trace[j + 1]);
                }
            }
        }
        k += 1;
    }
    assert(fills(trace, *inputs, headers@, decls@, order));
}

proof fn lemma_required(flat: Seq<FlatField>, count: int)
    requires
        0 <= count <= flat.len() <= u32::MAX,
    ensures
        ({
            let slots = required(flat, count);
            &&& forall|k: int|
                0 <= k < slots.len() ==> (#[trigger] slots[k]) < count && flat[slots[k] as int].default
                    is None
            &&& forall|i: int, j: int|
                0 <= i < j < slots.len() ==> (#[trigger] slots[i]) < (#[trigger] slots[j])
            &&& forall|s: int|
                0 <= s < count && (#[trigger] flat[s]).default is None ==> slots.contains(s as u32)
        }),
    decreases count,
{
    if count > 0 {
        lemma_required(flat, count - 1);
        let before = required(flat, count - 1);
        let slots = required(flat, count);
        assert forall|s: int|
            0 <= s < count && (#[trigger] flat[s]).default is None implies slots.contains(
            s as u32,
        ) by {
            if s < count - 1 {
                let k = choose|k: int| 0 <= k < before.len() && before[k] == s as u32;
                assert(slots[k] == s as u32);
            } else {
                assert(slots[slots.len() - 1] == s as u32);
            }
        }
    }
}

/// A filled class records what its slots are: a field of the struct for each, of the
/// slot's type and mutability and under its storage name; the slot's default; who
/// declared it, the class itself where no parent did; and, ascending, the slots without
/// a default as those its constructor takes.
pub proof fn a_filled_class_records_its_slots(
    types: &TypeTable,
    classes: &ClassTable,
    defaults: Seq<Vec<Option<FieldDefault>>>,
    log: &Log,
    inputs: ClassInputs,
    id: StructId,
    declaration: ClassDecl,
    types_after: &TypeTable,
    classes_after: &ClassTable,
    defaults_after: Seq<Vec<Option<FieldDefault>>>,
    log_after: &Log,
    slot: int,
)
    requires
        class_filled(
            types,
            classes,
            defaults,
            log,
            inputs,
            id,
            declaration,
            types_after,
            classes_after,
            defaults_after,
            log_after,
        ),
        types_after.structs@[id.0 as int].fields@.len() <= u32::MAX,
        0 <= slot < types_after.structs@[id.0 as int].fields@.len(),
    ensures
        ({
            let parents = parents_of(
                types,
                inputs.imports,
                inputs.declared,
                classes.unflattenable@,
                log.source,
                declaration.parents@,
                declaration.parents@.len() as int,
            ).0;
            let flat = flattened(types, classes, defaults, declaration, parents, log.source).0;
            let stored = types_after.structs@[id.0 as int].fields@;
            let info = classes_after.classes@.last();
            &&& stored.len() == flat.len()
            &&& stored[slot].name == flat[slot].storage
            &&& stored[slot].ty == flat[slot].ty
            &&& stored[slot].mutable == flat[slot].mutable
            &&& defaults_after[id.0 as int]@.len() == flat.len()
            &&& defaults_after[id.0 as int]@[slot] == flat[slot].default
            &&& info.id == id
            &&& info.slot_origin@.len() == flat.len()
            &&& info.slot_origin@[slot].plain == flat[slot].plain
            &&& flat[slot].owner is Some ==> Some(info.slot_origin@[slot].owner)
                == flat[slot].owner
            &&& flat[slot].owner is None ==> info.slot_origin@[slot].owner == id
            &&& info.required_slots@.contains(slot as u32) <==> defaults_after[id.0 as int]@[slot]
                is None
            &&& forall|i: int, j: int|
                0 <= i < j < info.required_slots@.len() ==> (#[trigger] info.required_slots@[i])
                    < (#[trigger] info.required_slots@[j])
        }),
{
    let parents = parents_of(
        types,
        inputs.imports,
        inputs.declared,
        classes.unflattenable@,
        log.source,
        declaration.parents@,
        declaration.parents@.len() as int,
    ).0;
    let flat = flattened(types, classes, defaults, declaration, parents, log.source).0;
    lemma_required(flat, flat.len() as int);
    let slots = required(flat, flat.len() as int);
    if slots.contains(slot as u32) {
        let k = choose|k: int| 0 <= k < slots.len() && slots[k] == slot as u32;
        assert(flat[slots[k] as int].default is None);
    }
}

/// A slot a class inherits from its first parent and does not override is one its
/// constructor takes exactly if the parent gives it no default.
pub proof fn a_slot_is_required_as_in_the_parent(
    types: &TypeTable,
    classes: &ClassTable,
    defaults: Seq<Vec<Option<FieldDefault>>>,
    log: &Log,
    inputs: ClassInputs,
    id: StructId,
    declaration: ClassDecl,
    types_after: &TypeTable,
    classes_after: &ClassTable,
    defaults_after: Seq<Vec<Option<FieldDefault>>>,
    log_after: &Log,
    slot: int,
)
    requires
        class_filled(
            types,
            classes,
            defaults,
            log,
            inputs,
            id,
            declaration,
            types_after,
            classes_after,
            defaults_after,
            log_after,
        ),
        types_after.structs@[id.0 as int].fields@.len() <= u32::MAX,
        ({
            let parents = parents_of(
                types,
                inputs.imports,
                inputs.declared,
                classes.unflattenable@,
                log.source,
                declaration.parents@,
                declaration.parents@.len() as int,
            ).0;
            let flat = flattened(types, classes, defaults, declaration, parents, log.source).0;
            &&& parents.len() > 0
            &&& forall|i: int, j: int|
                0 <= i < j < types.fields(parents[0]).len() ==> #[trigger] origin_of(
                    types,
                    classes,
                    parents[0],
                    i,
                ) != #[trigger] origin_of(types, classes, parents[0], j)
            &&& 0 <= slot < types.fields(parents[0]).len()
            &&& !overridden(declaration.overrides@, flat[slot].plain)
        }),
    ensures
        ({
            let parent = parents_of(
                types,
                inputs.imports,
                inputs.declared,
                classes.unflattenable@,
                log.source,
                declaration.parents@,
                declaration.parents@.len() as int,
            ).0[0];
            let open = !(parent.0 < defaults.len() && slot < defaults[parent.0 as int]@.len()
                && defaults[parent.0 as int]@[slot] is Some);
            &&& classes_after.classes@.last().required_slots@.contains(slot as u32) <==> open
            &&& !open ==> defaults_after[id.0 as int]@[slot] == defaults[parent.0 as int]@[slot]
            &&& types_after.structs@[id.0 as int].fields@[slot].ty == types.fields(parent)[slot].ty
        }),
{
    let parents = parents_of(
        types,
        inputs.imports,
        inputs.declared,
        classes.unflattenable@,
        log.source,
        declaration.parents@,
        declaration.parents@.len() as int,
    ).0;
    an_inherited_default_is_the_parents(
        types,
        classes,
        defaults,
        declaration,
        parents,
        log.source,
        slot,
    );
    first_parent_layout_is_a_prefix(
        types,
        classes,
        defaults,
        declaration,
        parents,
        log.source,
        slot,
    );
    a_filled_class_records_its_slots(
        types,
        classes,
        defaults,
        log,
        inputs,
        id,
        declaration,
        types_after,
        classes_after,
        defaults_after,
        log_after,
        slot,
    );
}

proof fn lemma_ancestors(classes: &ClassTable, parents: Seq<StructId>, count: int, id: StructId)
    requires
        0 <= count <= parents.len(),
    ensures
        all_ancestors(classes, parents, count).contains(id) <==> exists|p: int|
            0 <= p < count && ((#[trigger] parents[p]) == id || classes.ancestors(
                parents[p],
            ).contains(id)),
    decreases count,
{
    if count > 0 {
        lemma_ancestors(classes, parents, count - 1, id);
        let before = all_ancestors(classes, parents, count - 1);
        let more = seq![parents[count - 1]] + classes.ancestors(parents[count - 1]);
        let all = all_ancestors(classes, parents, count);
        assert(all == before + more);
        if before.contains(id) {
            let k = choose|k: int| 0 <= k < before.len() && before[k] == id;
            assert(all[k] == id);
        }
        if parents[count - 1] == id {
            assert(all[before.len() as int] == id);
        }
        if classes.ancestors(parents[count - 1]).contains(id) {
            let theirs = classes.ancestors(parents[count - 1]);
            let k = choose|k: int| 0 <= k < theirs.len() && theirs[k] == id;
            assert(all[before.len() + 1 + k] == id);
        }
        if all.contains(id) {
            let k = choose|k: int| 0 <= k < all.len() && all[k] == id;
            if k < before.len() {
                assert(before[k] == id);
            } else if k == before.len() {
                assert(parents[count - 1] == id);
            } else {
                assert(classes.ancestors(parents[count - 1])[k - before.len() - 1] == id);
            }
        }
    }
}

/// A class inherits from exactly its parents and from what they inherit from.
pub proof fn ancestors_are_parents_and_theirs(
    classes: &ClassTable,
    parents: Seq<StructId>,
    id: StructId,
)
    ensures
        all_ancestors(classes, parents, parents.len() as int).contains(id) <==> exists|p: int|
            0 <= p < parents.len() && ((#[trigger] parents[p]) == id || classes.ancestors(
                parents[p],
            ).contains(id)),
{
    lemma_ancestors(classes, parents, parents.len() as int, id);
}

proof fn lemma_parents_of(
    types: &TypeTable,
    imports: &ImportTable,
    declared: &DeclaredIn,
    dropped: Seq<Symbol>,
    source: SourceId,
    parents: Seq<ParentRef>,
    count: int,
)
    requires
        0 <= count <= parents.len(),
    ensures
        ({
            let (ids, problems) = parents_of(
                types,
                imports,
                declared,
                dropped,
                source,
                parents,
                count,
            );
            &&& ids.no_duplicates()
            &&& forall|i: int|
                0 <= i < count ==> (parent_type(
                    types,
                    imports,
                    declared,
                    source,
                    #[trigger] parents[i],
                ) matches Type::Struct(id) ==> ids.contains(id))
            &&& problems.len() == 0 ==> forall|i: int|
                0 <= i < count ==> !dropped.contains((#[trigger] parents[i]).name) ==> parent_type(
                    types,
                    imports,
                    declared,
                    source,
                    parents[i],
                ) != Type::Error
            &&& problems.len() == 0 ==> forall|i: int, j: int|
                0 <= i < j < count && parent_type(
                    types,
                    imports,
                    declared,
                    source,
                    #[trigger] parents[i],
                ) is Struct ==> parent_type(types, imports, declared, source, parents[i])
                    != parent_type(types, imports, declared, source, #[trigger] parents[j])
        }),
    decreases count,
{
    if count > 0 {
        lemma_parents_of(types, imports, declared, dropped, source, parents, count - 1);
        let (before, problems) = parents_of(
            types,
            imports,
            declared,
            dropped,
            source,
            parents,
            count - 1,
        );
        let ids = parents_of(types, imports, declared, dropped, source, parents, count).0;
        assert forall|i: int| 0 <= i < count implies (parent_type(
            types,
            imports,
            declared,
            source,
            #[trigger] parents[i],
        ) matches Type::Struct(id) ==> ids.contains(id)) by {
            if let Type::Struct(id) = parent_type(types, imports, declared, source, parents[i]) {
                if before.contains(id) {
                    let k = choose|k: int| 0 <= k < before.len() && before[k] == id;
                    assert(ids[k] == id);
                } else {
                    assert(i == count - 1);
                    assert(ids[ids.len() - 1] == id);
                }
            }
        }
    }
}

/// Every parent a class names that resolves is one of its parents, each once. Where
/// resolving them reports nothing, none is named twice and each that was not already
/// refused for a cycle resolves.
pub proof fn every_named_parent_is_kept(
    types: &TypeTable,
    imports: &ImportTable,
    declared: &DeclaredIn,
    dropped: Seq<Symbol>,
    source: SourceId,
    parents: Seq<ParentRef>,
)
    ensures
        ({
            let (ids, problems) = parents_of(
                types,
                imports,
                declared,
                dropped,
                source,
                parents,
                parents.len() as int,
            );
            &&& ids.no_duplicates()
            &&& forall|i: int|
                0 <= i < parents.len() ==> ((#[trigger] parents[i]).instantiated matches Some(
                    Type::Struct(id),
                ) ==> ids.contains(id))
            &&& forall|i: int|
                0 <= i < parents.len() && (#[trigger] parents[i]).instantiated is None ==> (
                struct_seen(
                    types,
                    imports,
                    declared,
                    source,
                    imports.package(source),
                    parents[i].name,
                ) matches Some(id) ==> ids.contains(id))
            &&& problems.len() == 0 ==> forall|i: int|
                0 <= i < parents.len() && (#[trigger] parents[i]).instantiated is None
                    && !dropped.contains(parents[i].name) ==> struct_seen(
                    types,
                    imports,
                    declared,
                    source,
                    imports.package(source),
                    parents[i].name,
                ) is Some
            &&& problems.len() == 0 ==> forall|i: int, j: int|
                0 <= i < j < parents.len() && parent_type(
                    types,
                    imports,
                    declared,
                    source,
                    #[trigger] parents[i],
                ) is Struct ==> parent_type(types, imports, declared, source, parents[i])
                    != parent_type(types, imports, declared, source, #[trigger] parents[j])
        }),
{
    lemma_parents_of(
        types,
        imports,
        declared,
        dropped,
        source,
        parents,
        parents.len() as int,
    );
}

/// A declared class gets a row of its own, empty and under its name and its file's
/// package and module, exactly if it takes no type parameters, no enum took its name and
/// its package has no struct of that name yet; where it asked for one and got none, it is
/// reported.
pub proof fn a_free_class_name_gets_a_row(
    before: Seq<StructDef>,
    after: Seq<StructDef>,
    imports: &ImportTable,
    decls: Seq<ClassDecl>,
    taken: Seq<bool>,
    ids: Seq<Option<StructId>>,
    i: int,
)
    requires
        headers_granted(before, after, imports, decls, taken, ids, decls.len() as int),
        0 <= i < decls.len(),
    ensures
        decls[i].generic || taken[i] ==> ids[i] is None,
        ids[i] matches Some(id) ==> before.len() <= id.0 < after.len() && after[id.0 as int].name
            == StructName::Declared(decls[i].name) && after[id.0 as int].owner == imports.package(
            decls[i].source,
        ) && after[id.0 as int].module == imports.module(decls[i].source)
            && after[id.0 as int].fields@.len() == 0,
        header_reports(decls, taken, ids, decls.len() as int).len() == 0 && !decls[i].generic
            && !taken[i] ==> ids[i] is Some,
{
    lemma_header_silent(decls, taken, ids, decls.len() as int, i);
    lemma_granted_counts(ids, i);
}

proof fn lemma_granted_counts(ids: Seq<Option<StructId>>, count: int)
    ensures
        granted(ids, count) >= 0,
    decreases count,
{
    if count > 0 {
        lemma_granted_counts(ids, count - 1);
    }
}

proof fn lemma_header_silent(
    decls: Seq<ClassDecl>,
    taken: Seq<bool>,
    ids: Seq<Option<StructId>>,
    count: int,
    i: int,
)
    requires
        0 <= i < count,
    ensures
        header_reports(decls, taken, ids, count).len() == 0 && !decls[i].generic && !taken[i]
            ==> ids[i] is Some,
    decreases count,
{
    if i < count - 1 {
        lemma_header_silent(decls, taken, ids, count - 1, i);
    }
}

/// Flattening fills every class that has a row, in the order given: the class is recorded
/// under its struct and its declared name, its struct's name stays, and no other struct
/// changes. A class without a row changes nothing.
pub proof fn every_class_with_a_row_is_filled(
    trace: Seq<ClassState>,
    inputs: ClassInputs,
    headers: Seq<Option<StructId>>,
    decls: Seq<ClassDecl>,
    order: Seq<int>,
    k: int,
    other: int,
)
    requires
        fills(trace, inputs, headers, decls, order),
        0 <= k < order.len(),
    ensures
        trace.len() == order.len() + 1,
        headers[order[k]] matches Some(id) ==> {
            let before = trace[k];
            let after = trace[k + 1];
            &&& after.classes.classes@.len() == before.classes.classes@.len() + 1
            &&& after.classes.classes@.last().id == id
            &&& after.classes.classes@.last().name == decls[order[k]].name
            &&& after.classes.own_methods@.last().id == id
            &&& after.types.structs@[id.0 as int].name == before.types.structs@[id.0 as int].name
            &&& 0 <= other < before.types.structs@.len() && other != id.0
                ==> after.types.structs@[other] == before.types.structs@[other]
            &&& 0 <= other < before.defaults.len() && other != id.0 ==> after.defaults[other]
                == before.defaults[other]
        },
        headers[order[k]] is None ==> trace[k + 1] == trace[k],
{
    assert(filled_next(
        trace[k],
        trace[k + 1],
        inputs,
        headers[order[k]],
        decls[order[k]],
    ));
}

proof fn lemma_method_in(methods: Seq<(MemberKey, u32)>, key: MemberKey)
    ensures
        match method_in(methods, key) {
            Some(function) => methods.contains((key, function)),
            None => forall|i: int| 0 <= i < methods.len() ==> (#[trigger] methods[i]).0 != key,
        },
    decreases methods.len(),
{
    if methods.len() > 0 {
        if methods[0].0 == key {
            assert(methods[0] == (key, methods[0].1));
        } else {
            let rest = methods.drop_first();
            lemma_method_in(rest, key);
            match method_in(rest, key) {
                Some(function) => {
                    let i = choose|i: int| 0 <= i < rest.len() && rest[i] == (key, function);
                    assert(methods[i + 1] == (key, function));
                },
                None => {
                    assert forall|i: int| 0 <= i < methods.len() implies (#[trigger] methods[i]).0
                        != key by {
                        if i > 0 {
                            assert(methods[i] == rest[i - 1]);
                        }
                    }
                },
            }
        }
    }
}

/// A method's body is found where it was written: in a home of the owner's own package and
/// name that has a method of that key, in that home's file; and it is missing only where no
/// such home has one.
pub proof fn a_method_is_found_where_it_was_written(
    imports: &ImportTable,
    homes: Seq<MethodHome>,
    package: Option<Symbol>,
    name: Symbol,
    key: MemberKey,
)
    ensures
        match written_method(imports, homes, package, name, key) {
            Some((function, source)) => exists|i: int|
                0 <= i < homes.len() && (#[trigger] homes[i]).name == name && homes[i].source
                    == source && imports.package(source) == package && homes[i].methods@.contains(
                    (key, function),
                ),
            None => forall|i: int|
                0 <= i < homes.len() && (#[trigger] homes[i]).name == name && imports.package(
                    homes[i].source,
                ) == package ==> forall|j: int|
                    0 <= j < homes[i].methods@.len() ==> (#[trigger] homes[i].methods@[j]).0 != key,
        },
    decreases homes.len(),
{
    if homes.len() > 0 {
        let home = homes[0];
        let rest = homes.drop_first();
        lemma_method_in(home.methods@, key);
        a_method_is_found_where_it_was_written(imports, rest, package, name, key);
        if method_in(home.methods@, key) is Some && imports.package(home.source) == package
            && home.name == name {
            assert(homes[0].name == name);
        } else {
            match written_method(imports, rest, package, name, key) {
                Some((function, source)) => {
                    let i = choose|i: int|
                        0 <= i < rest.len() && (#[trigger] rest[i]).name == name && rest[i].source
                            == source && imports.package(source) == package
                            && rest[i].methods@.contains((key, function));
                    assert(homes[i + 1] == rest[i]);
                },
                None => {
                    assert forall|i: int|
                        0 <= i < homes.len() && (#[trigger] homes[i]).name == name
                            && imports.package(homes[i].source) == package implies forall|j: int|
                        0 <= j < homes[i].methods@.len() ==> (#[trigger] homes[i].methods@[j]).0
                            != key by {
                        if i > 0 {
                            assert(homes[i] == rest[i - 1]);
                        }
                    }
                },
            }
        }
    }
}

proof fn lemma_home_name(
    types: &TypeTable,
    templates: Seq<(StructId, Symbol)>,
    owner: StructId,
    i: int,
)
    requires
        0 <= i < templates.len(),
        templates[i].0 == owner,
        forall|j: int| 0 <= j < i ==> (#[trigger] templates[j]).0 != owner,
    ensures
        home_name(types, templates, owner) == Some(templates[i].1),
    decreases templates.len(),
{
    if i > 0 {
        let rest = templates.drop_first();
        assert(templates[0].0 != owner);
        assert forall|j: int| 0 <= j < i - 1 implies (#[trigger] rest[j]).0 != owner by {
            assert(rest[j] == templates[j + 1]);
        }
        lemma_home_name(types, rest, owner, i - 1);
    }
}

proof fn lemma_no_template(
    types: &TypeTable,
    templates: Seq<(StructId, Symbol)>,
    owner: StructId,
)
    requires
        forall|j: int| 0 <= j < templates.len() ==> (#[trigger] templates[j]).0 != owner,
    ensures
        home_name(types, templates, owner) == types.declared_name(owner),
    decreases templates.len(),
{
    if templates.len() > 0 {
        let rest = templates.drop_first();
        assert(templates[0].0 != owner);
        assert forall|j: int| 0 <= j < rest.len() implies (#[trigger] rest[j]).0 != owner by {
            assert(rest[j] == templates[j + 1]);
        }
        lemma_no_template(types, rest, owner);
    }
}

/// A struct's methods are written under the name of the template it was made from, where
/// it was made from one, and under its own declared name otherwise.
pub proof fn an_instances_methods_are_its_templates(
    types: &TypeTable,
    templates: Seq<(StructId, Symbol)>,
    owner: StructId,
    i: int,
)
    ensures
        0 <= i < templates.len() && templates[i].0 == owner && (forall|j: int|
            0 <= j < i ==> (#[trigger] templates[j]).0 != owner) ==> home_name(
            types,
            templates,
            owner,
        ) == Some(templates[i].1),
        (forall|j: int| 0 <= j < templates.len() ==> (#[trigger] templates[j]).0 != owner)
            ==> home_name(types, templates, owner) == types.declared_name(owner),
{
    if 0 <= i < templates.len() && templates[i].0 == owner && (forall|j: int|
        0 <= j < i ==> (#[trigger] templates[j]).0 != owner) {
        lemma_home_name(types, templates, owner, i);
    }
    if forall|j: int| 0 <= j < templates.len() ==> (#[trigger] templates[j]).0 != owner {
        lemma_no_template(types, templates, owner);
    }
}

/// No two classes get one row: the rows classes get stand in the order of the classes.
pub proof fn each_class_gets_its_own_row(
    before: Seq<StructDef>,
    after: Seq<StructDef>,
    imports: &ImportTable,
    decls: Seq<ClassDecl>,
    taken: Seq<bool>,
    ids: Seq<Option<StructId>>,
    i: int,
    j: int,
)
    requires
        headers_granted(before, after, imports, decls, taken, ids, decls.len() as int),
        0 <= i < j < decls.len(),
    ensures
        (ids[i], ids[j]) matches (Some(a), Some(b)) ==> a.0 < b.0,
{
    if ids[i] is Some && ids[j] is Some {
        lemma_granted_ascends(ids, i, j);
    }
}

proof fn lemma_granted_ascends(ids: Seq<Option<StructId>>, i: int, j: int)
    requires
        0 <= i < j,
        ids[i] is Some,
    ensures
        granted(ids, i) < granted(ids, j),
    decreases j,
{
    if i < j - 1 {
        lemma_granted_ascends(ids, i, j - 1);
    }
}

/// Filling a class adds its record behind those before it, which stay, and so do the
/// struct's owner and module; the methods it is said to declare begin with those of its
/// body, in order.
pub proof fn filling_a_class_keeps_the_rest(
    types: &TypeTable,
    classes: &ClassTable,
    defaults: Seq<Vec<Option<FieldDefault>>>,
    log: &Log,
    inputs: ClassInputs,
    id: StructId,
    declaration: ClassDecl,
    types_after: &TypeTable,
    classes_after: &ClassTable,
    defaults_after: Seq<Vec<Option<FieldDefault>>>,
    log_after: &Log,
    k: int,
)
    requires
        class_filled(
            types,
            classes,
            defaults,
            log,
            inputs,
            id,
            declaration,
            types_after,
            classes_after,
            defaults_after,
            log_after,
        ),
    ensures
        types_after.structs@.len() == types.structs@.len(),
        types_after.structs@[id.0 as int].owner == types.structs@[id.0 as int].owner,
        types_after.structs@[id.0 as int].module == types.structs@[id.0 as int].module,
        types_after.arrays == types.arrays,
        types_after.enums == types.enums,
        defaults_after.len() == defaults.len(),
        classes_after.unflattenable == classes.unflattenable,
        0 <= k < classes.classes@.len() ==> classes_after.classes@[k] == classes.classes@[k],
        0 <= k < classes.own_methods@.len() ==> classes_after.own_methods@[k]
            == classes.own_methods@[k],
        classes_after.own_methods@.last().keys@.len() >= declaration.methods@.len(),
        0 <= k < declaration.methods@.len() ==> classes_after.own_methods@.last().keys@[k]
            == declaration.methods@[k].key,
{
    if 0 <= k < classes.classes@.len() {
        assert(classes_after.classes@.drop_last()[k] == classes_after.classes@[k]);
    }
    if 0 <= k < classes.own_methods@.len() {
        assert(classes_after.own_methods@.drop_last()[k] == classes_after.own_methods@[k]);
    }
}

} // verus!
