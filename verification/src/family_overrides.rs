//! Checking what a child family redeclares against what its parent promised.

use vstd::prelude::*;

use crate::classes::ClassTable;
use crate::diagnostics::{
    lemma_noted_more, lemma_noted_none, lemma_noted_one, noted, Diagnostic, Log, Problem,
};
use crate::families::{find_tag, tag_in, ConstructTable, FamilyMethod, FamilyTable};
use crate::family_headers::{FamilyDecl, FamilyFieldDecl, FamilyMethodDecl};
use crate::family_order::{extending, read_of};
use crate::names::Symbol;
use crate::source::Span;
use crate::ty::{EnumId, OwnershipMode, Type};

verus! {

/// Whether one of `parents` is filed as the family `id` stands for.
pub open spec fn reaches_family(table: &FamilyTable, parents: Seq<Symbol>, id: EnumId) -> bool {
    exists|i: int|
        0 <= i < parents.len() && (table.info(#[trigger] parents[i]) matches Some(info)
            && info.enum_id == id)
}

/// Whether `written` is `promised` or something more specific.
///
/// Everything narrows `Any`. A family narrows to a family that extends it and to
/// any declaration backed by one.
pub open spec fn narrows(
    table: &FamilyTable,
    constructs: &ConstructTable,
    classes: &ClassTable,
    written: Type,
    promised: Type,
) -> bool {
    ||| written == promised
    ||| promised == Type::Any
    ||| written == Type::Error
    ||| classes.subclass(written, promised)
    ||| (promised matches Type::Enum(family) && table.key_of(family) is Some && match written {
        Type::Enum(id) => table.key_of(id) matches Some(key) && (table.info(key) matches Some(info)
            && reaches_family(table, info.parents@, family)),
        Type::Struct(id) => constructs.info(id) matches Some(info) && tag_in(
            info.families@,
            family,
        ) is Some,
        _ => false,
    })
}

/// Whether `written` is `promised` or something more specific.
pub fn narrows_to(
    table: &FamilyTable,
    constructs: &ConstructTable,
    classes: &ClassTable,
    written: Type,
    promised: Type,
) -> (res: bool)
    requires
        table.wf(),
    ensures
        res == narrows(table, constructs, classes, written, promised),
{
    if written == promised || promised == Type::Any || written == Type::Error {
        return true;
    }
    if classes.is_subclass_of(written, promised) {
        return true;
    }
    let family = match promised {
        Type::Enum(family) => family,
        _ => {
            return false;
        },
    };
    if !table.is_construct_family_type(family) {
        return false;
    }
    match written {
        Type::Enum(id) => match table.find_key(id) {
            Some(key) => {
                let parents = table.construct_family_ancestors(key);
                family_among(table, &parents, family)
            },
            None => false,
        },
        Type::Struct(id) => match constructs.find(id) {
            Some(i) => find_tag(&constructs.rows[i].1.families, family).is_some(),
            None => false,
        },
        _ => false,
    }
}

fn family_among(table: &FamilyTable, parents: &Vec<Symbol>, id: EnumId) -> (res: bool)
    requires
        table.wf(),
    ensures
        res == reaches_family(table, parents@, id),
{
    let mut i: usize = 0;
    while i < parents.len()
        invariant
            i <= parents@.len(),
            table.wf(),
            forall|k: int|
                0 <= k < i ==> !(table.info(#[trigger] parents@[k]) matches Some(info)
                    && info.enum_id == id),
        decreases parents@.len() - i,
    {
        if table.construct_family_type(parents[i]) == Some(id) {
            assert(table.info(parents@[i as int]) is Some);
            return true;
        }
        i += 1;
    }
    false
}

/// The mode of parameter `index`, if it has one.
pub open spec fn mode_written(modes: Seq<OwnershipMode>, index: int) -> Option<OwnershipMode> {
    if 0 <= index < modes.len() {
        Some(modes[index])
    } else {
        None
    }
}

/// The first of the parameters from `from` on that is not the promised one.
pub open spec fn differing_parameter(
    params: Seq<Type>,
    modes: Seq<OwnershipMode>,
    promised: Seq<Type>,
    promised_modes: Seq<OwnershipMode>,
    from: int,
) -> Option<int>
    decreases params.len() - from,
{
    if from >= params.len() {
        None
    } else if params[from] != promised[from] || mode_written(modes, from) != mode_written(
        promised_modes,
        from,
    ) {
        Some(from)
    } else {
        differing_parameter(params, modes, promised, promised_modes, from + 1)
    }
}

fn find_differing(
    params: &Vec<Type>,
    modes: &Vec<OwnershipMode>,
    promised: &Vec<Type>,
    promised_modes: &Vec<OwnershipMode>,
) -> (found: Option<usize>)
    requires
        params@.len() == promised@.len(),
    ensures
        match found {
            Some(i) => i < params@.len() && differing_parameter(
                params@,
                modes@,
                promised@,
                promised_modes@,
                0,
            ) == Some(i as int),
            None => differing_parameter(params@, modes@, promised@, promised_modes@, 0) is None,
        },
{
    let mut i: usize = 0;
    while i < params.len()
        invariant
            i <= params@.len(),
            params@.len() == promised@.len(),
            differing_parameter(params@, modes@, promised@, promised_modes@, 0)
                == differing_parameter(params@, modes@, promised@, promised_modes@, i as int),
        decreases params@.len() - i,
    {
        let mode = if i < modes.len() {
            Some(modes[i])
        } else {
            None
        };
        let promised_mode = if i < promised_modes.len() {
            Some(promised_modes[i])
        } else {
            None
        };
        if params[i] != promised[i] || mode != promised_mode {
            return Some(i);
        }
        i += 1;
    }
    None
}

/// What a redeclared method is refused for, if anything.
///
/// A parameter must not be narrowed: whoever holds the parent's value may pass
/// whatever the parent accepts. A result may be.
pub open spec fn method_refusal(
    table: &FamilyTable,
    constructs: &ConstructTable,
    classes: &ClassTable,
    child: Symbol,
    parent: Symbol,
    member: Symbol,
    written: FamilyMethod,
    promised: FamilyMethod,
) -> Option<Problem> {
    if written.params@.len() != promised.params@.len() {
        Some(
            Problem::RedeclaredArity {
                family: child,
                parent,
                member,
                takes: written.params@.len() as usize,
                promised: promised.params@.len() as usize,
            },
        )
    } else {
        match differing_parameter(
            written.params@,
            written.ownership@,
            promised.params@,
            promised.ownership@,
            0,
        ) {
            Some(i) => Some(
                Problem::RedeclaredParameter {
                    parent,
                    member,
                    place: (i + 1) as usize,
                    ty: written.params@[i],
                    promised: promised.params@[i],
                },
            ),
            None => match promised.promised_result() {
                Some(result) if !narrows(table, constructs, classes, written.result, result) => Some(
                    Problem::RedeclaredResult { parent, member, ty: written.result, promised: result },
                ),
                _ => None,
            },
        }
    }
}

/// The method a family calls `member`, by its key.
pub open spec fn method_of(table: &FamilyTable, key: Symbol, member: Symbol) -> Option<FamilyMethod> {
    match table.info(key) {
        Some(info) => if info.methods@.contains_key(member) {
            Some(table.methods@[info.methods@[member].method as int])
        } else {
            None
        },
        None => None,
    }
}

/// The type of the value a family calls `member`, by its key.
pub open spec fn member_type_of(table: &FamilyTable, key: Symbol, member: Symbol) -> Option<Type> {
    match table.info(key) {
        Some(info) => if info.field_members@.contains_key(member) {
            Some(info.field_members@[member].result)
        } else {
            None
        },
        None => None,
    }
}

fn find_method(table: &FamilyTable, key: Symbol, member: Symbol) -> (row: Option<usize>)
    requires
        table.wf(),
    ensures
        match row {
            Some(i) => i < table.methods@.len() && method_of(table, key, member) == Some(
                table.methods@[i as int],
            ),
            None => method_of(table, key, member) is None,
        },
{
    match table.families.find(key) {
        Some(i) => {
            let info = &table.families.rows[i].1;
            match info.methods.find(member) {
                Some(k) => Some(info.methods.rows[k].1.method as usize),
                None => None,
            }
        },
        None => None,
    }
}

fn find_member_type(table: &FamilyTable, key: Symbol, member: Symbol) -> (ty: Option<Type>)
    requires
        table.wf(),
    ensures
        ty == member_type_of(table, key, member),
{
    match table.families.find(key) {
        Some(i) => {
            let info = &table.families.rows[i].1;
            match info.field_members.find(member) {
                Some(k) => Some(info.field_members.rows[k].1.result),
                None => None,
            }
        },
        None => None,
    }
}

/// What redeclaring `member` as a method of `child` is refused for.
pub open spec fn method_problem(
    table: &FamilyTable,
    constructs: &ConstructTable,
    classes: &ClassTable,
    child: Symbol,
    parent: Symbol,
    member: Symbol,
) -> Option<Problem> {
    match (method_of(table, parent, member), method_of(table, child, member)) {
        (Some(promised), Some(written)) => method_refusal(
            table,
            constructs,
            classes,
            child,
            parent,
            member,
            written,
            promised,
        ),
        _ => None,
    }
}

/// What redeclaring `member` as a value of `child` is refused for.
pub open spec fn field_problem(
    table: &FamilyTable,
    constructs: &ConstructTable,
    classes: &ClassTable,
    child: Symbol,
    parent: Symbol,
    member: Symbol,
) -> Option<Problem> {
    match (member_type_of(table, parent, member), member_type_of(table, child, member)) {
        (Some(promised), Some(written)) => if narrows(
            table,
            constructs,
            classes,
            written,
            promised,
        ) {
            None
        } else {
            Some(Problem::RedeclaredMember { parent, member, ty: written, promised })
        },
        _ => None,
    }
}

/// Compares one redeclared method against the parent's signature.
pub fn check_method_override(
    table: &FamilyTable,
    constructs: &ConstructTable,
    classes: &ClassTable,
    child: Symbol,
    parent: Symbol,
    member: Symbol,
) -> (problem: Option<Problem>)
    requires
        table.wf(),
    ensures
        problem == method_problem(table, constructs, classes, child, parent, member),
{
    let promised = match find_method(table, parent, member) {
        Some(i) => &table.methods[i],
        None => {
            return None;
        },
    };
    let written = match find_method(table, child, member) {
        Some(i) => &table.methods[i],
        None => {
            return None;
        },
    };
    if written.params.len() != promised.params.len() {
        return Some(
            Problem::RedeclaredArity {
                family: child,
                parent,
                member,
                takes: written.params.len(),
                promised: promised.params.len(),
            },
        );
    }
    if let Some(i) = find_differing(
        &written.params,
        &written.ownership,
        &promised.params,
        &promised.ownership,
    ) {
        return Some(
            Problem::RedeclaredParameter {
                parent,
                member,
                place: i + 1,
                ty: written.params[i],
                promised: promised.params[i],
            },
        );
    }
    match promised.constrained_result() {
        Some(result) => {
            if narrows_to(table, constructs, classes, written.result, result) {
                None
            } else {
                Some(
                    Problem::RedeclaredResult {
                        parent,
                        member,
                        ty: written.result,
                        promised: result,
                    },
                )
            }
        },
        None => None,
    }
}

/// Compares one redeclared value member against the parent's type.
pub fn check_field_override(
    table: &FamilyTable,
    constructs: &ConstructTable,
    classes: &ClassTable,
    child: Symbol,
    parent: Symbol,
    member: Symbol,
) -> (problem: Option<Problem>)
    requires
        table.wf(),
    ensures
        problem == field_problem(table, constructs, classes, child, parent, member),
{
    match (find_member_type(table, parent, member), find_member_type(table, child, member)) {
        (Some(promised), Some(written)) => {
            if narrows_to(table, constructs, classes, written, promised) {
                None
            } else {
                Some(Problem::RedeclaredMember { parent, member, ty: written, promised })
            }
        },
        _ => None,
    }
}

/// What the first `count` methods of a declaration are refused for against one
/// parent.
pub open spec fn method_overrides(
    table: &FamilyTable,
    constructs: &ConstructTable,
    classes: &ClassTable,
    child: Symbol,
    parent: Symbol,
    methods: Seq<FamilyMethodDecl>,
    count: int,
) -> Seq<(Span, Problem)>
    decreases count,
{
    if count <= 0 {
        Seq::empty()
    } else {
        let before = method_overrides(
            table,
            constructs,
            classes,
            child,
            parent,
            methods,
            count - 1,
        );
        let method = methods[count - 1];
        match method_problem(table, constructs, classes, child, parent, method.name) {
            Some(problem) => before.push((method.name_span, problem)),
            None => before,
        }
    }
}

/// What the first `count` values of a declaration are refused for against one
/// parent.
pub open spec fn field_overrides(
    table: &FamilyTable,
    constructs: &ConstructTable,
    classes: &ClassTable,
    child: Symbol,
    parent: Symbol,
    fields: Seq<FamilyFieldDecl>,
    count: int,
) -> Seq<(Span, Problem)>
    decreases count,
{
    if count <= 0 {
        Seq::empty()
    } else {
        let before = field_overrides(
            table,
            constructs,
            classes,
            child,
            parent,
            fields,
            count - 1,
        );
        let field = fields[count - 1];
        match field_problem(table, constructs, classes, child, parent, field.name) {
            Some(problem) => before.push((field.name_span, problem)),
            None => before,
        }
    }
}

/// What a declaration is refused for against its first `count` parents.
pub open spec fn override_problems(
    table: &FamilyTable,
    constructs: &ConstructTable,
    classes: &ClassTable,
    decl: FamilyDecl,
    count: int,
) -> Seq<(Span, Problem)>
    decreases count,
{
    if count <= 0 {
        Seq::empty()
    } else {
        let parent = decl.extends@[count - 1].0;
        override_problems(table, constructs, classes, decl, count - 1) + (method_overrides(
            table,
            constructs,
            classes,
            decl.name,
            parent,
            decl.methods@,
            decl.methods@.len() as int,
        ) + field_overrides(
            table,
            constructs,
            classes,
            decl.name,
            parent,
            decl.fields@,
            decl.fields@.len() as int,
        ))
    }
}

/// What the first `count` declarations are refused for, each in its own file.
pub open spec fn all_overrides(
    table: &FamilyTable,
    constructs: &ConstructTable,
    classes: &ClassTable,
    decls: Seq<FamilyDecl>,
    count: int,
) -> Seq<Diagnostic>
    decreases count,
{
    if count <= 0 {
        Seq::empty()
    } else {
        let decl = decls[count - 1];
        all_overrides(table, constructs, classes, decls, count - 1) + noted(
            decl.source,
            override_problems(table, constructs, classes, decl, decl.extends@.len() as int),
        )
    }
}

fn check_methods(
    table: &FamilyTable,
    constructs: &ConstructTable,
    classes: &ClassTable,
    decl: &FamilyDecl,
    parent: Symbol,
    log: &mut Log,
)
    requires
        table.wf(),
    ensures
        final(log).source == old(log).source,
        final(log).diagnostics@ == old(log).diagnostics@ + noted(
            old(log).source,
            method_overrides(
                table,
                constructs,
                classes,
                decl.name,
                parent,
                decl.methods@,
                decl.methods@.len() as int,
            ),
        ),
{
    let ghost said = log.diagnostics@;
    let ghost source = log.source;
    let mut i: usize = 0;
    proof {
        lemma_noted_none(said, source);
    }
    while i < decl.methods.len()
        invariant
            i <= decl.methods@.len(),
            table.wf(),
            log.source == source,
            log.diagnostics@ == said + noted(
                source,
                method_overrides(
                    table,
                    constructs,
                    classes,
                    decl.name,
                    parent,
                    decl.methods@,
                    i as int,
                ),
            ),
        decreases decl.methods@.len() - i,
    {
        let method = &decl.methods[i];
        if let Some(problem) = check_method_override(
            table,
            constructs,
            classes,
            decl.name,
            parent,
            method.name,
        ) {
            proof {
                lemma_noted_one(
                    said,
                    source,
                    method_overrides(
                        table,
                        constructs,
                        classes,
                        decl.name,
                        parent,
                        decl.methods@,
                        i as int,
                    ),
                    method.name_span,
                    problem,
                );
            }
            log.emit(method.name_span, problem);
        }
        i += 1;
    }
}

fn check_fields(
    table: &FamilyTable,
    constructs: &ConstructTable,
    classes: &ClassTable,
    decl: &FamilyDecl,
    parent: Symbol,
    log: &mut Log,
)
    requires
        table.wf(),
    ensures
        final(log).source == old(log).source,
        final(log).diagnostics@ == old(log).diagnostics@ + noted(
            old(log).source,
            field_overrides(
                table,
                constructs,
                classes,
                decl.name,
                parent,
                decl.fields@,
                decl.fields@.len() as int,
            ),
        ),
{
    let ghost said = log.diagnostics@;
    let ghost source = log.source;
    let mut i: usize = 0;
    proof {
        lemma_noted_none(said, source);
    }
    while i < decl.fields.len()
        invariant
            i <= decl.fields@.len(),
            table.wf(),
            log.source == source,
            log.diagnostics@ == said + noted(
                source,
                field_overrides(
                    table,
                    constructs,
                    classes,
                    decl.name,
                    parent,
                    decl.fields@,
                    i as int,
                ),
            ),
        decreases decl.fields@.len() - i,
    {
        let field = decl.fields[i];
        if let Some(problem) = check_field_override(
            table,
            constructs,
            classes,
            decl.name,
            parent,
            field.name,
        ) {
            proof {
                lemma_noted_one(
                    said,
                    source,
                    field_overrides(
                        table,
                        constructs,
                        classes,
                        decl.name,
                        parent,
                        decl.fields@,
                        i as int,
                    ),
                    field.name_span,
                    problem,
                );
            }
            log.emit(field.name_span, problem);
        }
        i += 1;
    }
}

fn check_parents(
    table: &FamilyTable,
    constructs: &ConstructTable,
    classes: &ClassTable,
    decl: &FamilyDecl,
    log: &mut Log,
)
    requires
        table.wf(),
    ensures
        final(log).source == old(log).source,
        final(log).diagnostics@ == old(log).diagnostics@ + noted(
            old(log).source,
            override_problems(table, constructs, classes, *decl, decl.extends@.len() as int),
        ),
{
    let ghost said = log.diagnostics@;
    let ghost source = log.source;
    let mut i: usize = 0;
    proof {
        lemma_noted_none(said, source);
    }
    while i < decl.extends.len()
        invariant
            i <= decl.extends@.len(),
            table.wf(),
            log.source == source,
            log.diagnostics@ == said + noted(
                source,
                override_problems(table, constructs, classes, *decl, i as int),
            ),
        decreases decl.extends@.len() - i,
    {
        let parent = decl.extends[i].0;
        let ghost before = override_problems(table, constructs, classes, *decl, i as int);
        let ghost methods = method_overrides(
            table,
            constructs,
            classes,
            decl.name,
            parent,
            decl.methods@,
            decl.methods@.len() as int,
        );
        let ghost fields = field_overrides(
            table,
            constructs,
            classes,
            decl.name,
            parent,
            decl.fields@,
            decl.fields@.len() as int,
        );
        check_methods(table, constructs, classes, decl, parent, log);
        check_fields(table, constructs, classes, decl, parent, log);
        proof {
            lemma_noted_more(said, source, before, methods);
            lemma_noted_more(said, source, before + methods, fields);
            assert(before + methods + fields =~= before + (methods + fields));
        }
        i += 1;
    }
}

/// Checks every member a child family redeclares against each parent's.
///
/// A child may only make a promise more specific, never different.
pub fn check_family_overrides(
    table: &FamilyTable,
    constructs: &ConstructTable,
    classes: &ClassTable,
    decls: &Vec<FamilyDecl>,
    log: &mut Log,
)
    requires
        table.wf(),
    ensures
        final(log).diagnostics@ == old(log).diagnostics@ + all_overrides(
            table,
            constructs,
            classes,
            decls@,
            decls@.len() as int,
        ),
        final(log).source == read_of(
            decls@,
            extending(decls@, decls@.len() as int),
            old(log).source,
        ),
{
    let ghost said = log.diagnostics@;
    let mut i: usize = 0;
    assert(said + Seq::<Diagnostic>::empty() =~= said);
    while i < decls.len()
        invariant
            i <= decls@.len(),
            table.wf(),
            log.source == read_of(decls@, extending(decls@, i as int), old(log).source),
            log.diagnostics@ == said + all_overrides(
                table,
                constructs,
                classes,
                decls@,
                i as int,
            ),
        decreases decls@.len() - i,
    {
        let decl = &decls[i];
        let ghost before = all_overrides(table, constructs, classes, decls@, i as int);
        let ghost now = noted(
            decl.source,
            override_problems(table, constructs, classes, *decl, decl.extends@.len() as int),
        );
        if decl.extends.len() > 0 {
            log.source = decl.source;
            check_parents(table, constructs, classes, decl, log);
        }
        proof {
            assert(decl.extends@.len() == 0 ==> now =~= Seq::empty());
            assert(said + before + now =~= said + (before + now));
        }
        i += 1;
    }
}

/// A redeclaration that is not refused takes exactly what its parent's method
/// takes and returns what that promised, or something more specific.
pub proof fn a_kept_promise_is_narrower(
    table: &FamilyTable,
    constructs: &ConstructTable,
    classes: &ClassTable,
    child: Symbol,
    parent: Symbol,
    member: Symbol,
)
    requires
        method_of(table, parent, member) is Some,
        method_of(table, child, member) is Some,
        method_problem(table, constructs, classes, child, parent, member) is None,
    ensures
        ({
            let promised = method_of(table, parent, member)->0;
            let written = method_of(table, child, member)->0;
            &&& written.params@ == promised.params@
            &&& promised.promised_result() matches Some(result) ==> narrows(
                table,
                constructs,
                classes,
                written.result,
                result,
            )
        }),
{
    let promised = method_of(table, parent, member)->0;
    let written = method_of(table, child, member)->0;
    lemma_no_difference(
        written.params@,
        written.ownership@,
        promised.params@,
        promised.ownership@,
        0,
    );
    assert(written.params@ =~= promised.params@);
}

proof fn lemma_no_difference(
    params: Seq<Type>,
    modes: Seq<OwnershipMode>,
    promised: Seq<Type>,
    promised_modes: Seq<OwnershipMode>,
    from: int,
)
    requires
        0 <= from <= params.len(),
        differing_parameter(params, modes, promised, promised_modes, from) is None,
    ensures
        forall|i: int| from <= i < params.len() ==> params[i] == promised[i],
    decreases params.len() - from,
{
    if from < params.len() {
        lemma_no_difference(params, modes, promised, promised_modes, from + 1);
    }
}

proof fn lemma_differing(
    params: Seq<Type>,
    modes: Seq<OwnershipMode>,
    promised: Seq<Type>,
    promised_modes: Seq<OwnershipMode>,
    from: int,
)
    requires
        0 <= from,
        params.len() == promised.len(),
    ensures
        differing_parameter(params, modes, promised, promised_modes, from) is None <==> forall|
            k: int,
        |
            from <= k < params.len() ==> (#[trigger] params[k]) == promised[k] && mode_written(
                modes,
                k,
            ) == mode_written(promised_modes, k),
    decreases params.len() - from,
{
    if from < params.len() {
        lemma_differing(params, modes, promised, promised_modes, from + 1);
        assert(params[from] == params[from]);
    }
}

/// A redeclared method is accepted exactly if it takes what the parent's takes, type for
/// type and each in the same mode, and returns what that promised or something more
/// specific, where it promised anything.
pub proof fn a_redeclaration_keeps_the_parameters(
    table: &FamilyTable,
    constructs: &ConstructTable,
    classes: &ClassTable,
    child: Symbol,
    parent: Symbol,
    member: Symbol,
    written: FamilyMethod,
    promised: FamilyMethod,
)
    requires
        written.ownership@.len() == written.params@.len(),
        promised.ownership@.len() == promised.params@.len(),
    ensures
        method_refusal(table, constructs, classes, child, parent, member, written, promised) is None
            <==> {
            &&& written.params@ == promised.params@
            &&& written.ownership@ == promised.ownership@
            &&& promised.required && promised.written_result is None || narrows(
                table,
                constructs,
                classes,
                written.result,
                promised.result,
            )
        },
{
    let a = written.params@;
    let b = promised.params@;
    if a.len() == b.len() {
        lemma_differing(a, written.ownership@, b, promised.ownership@, 0);
        if differing_parameter(a, written.ownership@, b, promised.ownership@, 0) is None {
            assert(a =~= b);
            assert forall|k: int| 0 <= k < written.ownership@.len() implies #[trigger] written.ownership@[k]
                == promised.ownership@[k] by {
                assert(a[k] == b[k]);
                assert(mode_written(written.ownership@, k) == mode_written(
                    promised.ownership@,
                    k,
                ));
            }
            assert(written.ownership@ =~= promised.ownership@);
        }
    }
}

/// A type is what was promised, or more specific, in these ways and no other: it is the
/// promised type; anything was promised; it failed to resolve; it is a class that inherits
/// from the promised one; or a family was promised and it is one that extends that family
/// or a declaration that is a variant of it.
pub proof fn what_narrows_a_promise(
    table: &FamilyTable,
    constructs: &ConstructTable,
    classes: &ClassTable,
    written: Type,
    promised: Type,
)
    ensures
        written == promised || promised == Type::Any || written == Type::Error ==> narrows(
            table,
            constructs,
            classes,
            written,
            promised,
        ),
        !(promised is Enum) && !(promised is Struct) && promised != Type::Any && written
            != Type::Error && written != promised ==> !narrows(
            table,
            constructs,
            classes,
            written,
            promised,
        ),
        promised matches Type::Struct(base) ==> (written matches Type::Struct(id) ==> (id != base
            ==> (narrows(table, constructs, classes, written, promised) <==> classes.ancestors(
            id,
        ).contains(base)))),
        promised matches Type::Enum(family) ==> (written matches Type::Struct(id) ==> (narrows(
            table,
            constructs,
            classes,
            written,
            promised,
        ) <==> table.key_of(family) is Some && constructs.info(id) is Some && exists|i: int|
            0 <= i < constructs.info(id)->0.families@.len() && (#[trigger] constructs.info(
                id,
            )->0.families@[i]).0 == family)),
{
    if let (Type::Enum(family), Type::Struct(id)) = (promised, written) {
        if let Some(info) = constructs.info(id) {
            crate::families::a_variant_has_its_recorded_tag(info.families@, family);
        }
    }
}

proof fn lemma_method_overrides(
    table: &FamilyTable,
    constructs: &ConstructTable,
    classes: &ClassTable,
    child: Symbol,
    parent: Symbol,
    methods: Seq<FamilyMethodDecl>,
    count: int,
    m: int,
)
    requires
        0 <= m < count <= methods.len(),
        method_overrides(table, constructs, classes, child, parent, methods, count).len() == 0,
    ensures
        method_problem(table, constructs, classes, child, parent, methods[m].name) is None,
    decreases count,
{
    if m < count - 1 {
        lemma_method_overrides(
            table,
            constructs,
            classes,
            child,
            parent,
            methods,
            count - 1,
            m,
        );
    }
}

proof fn lemma_field_overrides(
    table: &FamilyTable,
    constructs: &ConstructTable,
    classes: &ClassTable,
    child: Symbol,
    parent: Symbol,
    fields: Seq<FamilyFieldDecl>,
    count: int,
    m: int,
)
    requires
        0 <= m < count <= fields.len(),
        field_overrides(table, constructs, classes, child, parent, fields, count).len() == 0,
    ensures
        field_problem(table, constructs, classes, child, parent, fields[m].name) is None,
    decreases count,
{
    if m < count - 1 {
        lemma_field_overrides(
            table,
            constructs,
            classes,
            child,
            parent,
            fields,
            count - 1,
            m,
        );
    }
}

proof fn lemma_override_problems(
    table: &FamilyTable,
    constructs: &ConstructTable,
    classes: &ClassTable,
    decl: FamilyDecl,
    count: int,
    p: int,
)
    requires
        0 <= p < count <= decl.extends@.len(),
        override_problems(table, constructs, classes, decl, count).len() == 0,
    ensures
        method_overrides(
            table,
            constructs,
            classes,
            decl.name,
            decl.extends@[p].0,
            decl.methods@,
            decl.methods@.len() as int,
        ).len() == 0,
        field_overrides(
            table,
            constructs,
            classes,
            decl.name,
            decl.extends@[p].0,
            decl.fields@,
            decl.fields@.len() as int,
        ).len() == 0,
    decreases count,
{
    if p < count - 1 {
        lemma_override_problems(table, constructs, classes, decl, count - 1, p);
    }
}

/// Where a family's redeclarations are refused for nothing, every method it redeclares
/// takes exactly what each parent's method takes, in the same modes, and every value it
/// redeclares is of the type each parent promised or a more specific one.
pub proof fn a_silent_redeclaration_keeps_every_promise(
    table: &FamilyTable,
    constructs: &ConstructTable,
    classes: &ClassTable,
    decl: FamilyDecl,
    p: int,
    m: int,
)
    requires
        override_problems(table, constructs, classes, decl, decl.extends@.len() as int).len() == 0,
        0 <= p < decl.extends@.len(),
    ensures
        0 <= m < decl.methods@.len() ==> ((
            method_of(table, decl.extends@[p].0, decl.methods@[m].name),
            method_of(table, decl.name, decl.methods@[m].name),
        ) matches (Some(promised), Some(written)) ==> written.params@.len()
            == promised.params@.len() && (forall|k: int|
            0 <= k < written.params@.len() ==> (#[trigger] written.params@[k])
                == promised.params@[k])),
        0 <= m < decl.fields@.len() ==> ((
            member_type_of(table, decl.extends@[p].0, decl.fields@[m].name),
            member_type_of(table, decl.name, decl.fields@[m].name),
        ) matches (Some(promised), Some(written)) ==> narrows(
            table,
            constructs,
            classes,
            written,
            promised,
        )),
{
    let parent = decl.extends@[p].0;
    lemma_override_problems(table, constructs, classes, decl, decl.extends@.len() as int, p);
    if 0 <= m < decl.methods@.len() {
        lemma_method_overrides(
            table,
            constructs,
            classes,
            decl.name,
            parent,
            decl.methods@,
            decl.methods@.len() as int,
            m,
        );
        let name = decl.methods@[m].name;
        if let (Some(promised), Some(written)) = (
            method_of(table, parent, name),
            method_of(table, decl.name, name),
        ) {
            lemma_differing(
                written.params@,
                written.ownership@,
                promised.params@,
                promised.ownership@,
                0,
            );
        }
    }
    if 0 <= m < decl.fields@.len() {
        lemma_field_overrides(
            table,
            constructs,
            classes,
            decl.name,
            parent,
            decl.fields@,
            decl.fields@.len() as int,
            m,
        );
    }
}

/// Where the redeclarations of a program are refused nothing, no family's are.
pub proof fn a_silent_program_keeps_every_promise(
    table: &FamilyTable,
    constructs: &ConstructTable,
    classes: &ClassTable,
    decls: Seq<FamilyDecl>,
    count: int,
    k: int,
)
    requires
        0 <= k < count <= decls.len(),
        all_overrides(table, constructs, classes, decls, count).len() == 0,
    ensures
        override_problems(
            table,
            constructs,
            classes,
            decls[k],
            decls[k].extends@.len() as int,
        ).len() == 0,
    decreases count,
{
    let decl = decls[count - 1];
    let before = all_overrides(table, constructs, classes, decls, count - 1);
    let own = noted(
        decl.source,
        override_problems(table, constructs, classes, decl, decl.extends@.len() as int),
    );
    assert(all_overrides(table, constructs, classes, decls, count).len() == before.len()
        + own.len());
    if k < count - 1 {
        a_silent_program_keeps_every_promise(table, constructs, classes, decls, count - 1, k);
    }
}

} // verus!
