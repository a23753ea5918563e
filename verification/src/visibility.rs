//! What a type name denotes in a file.
//!
//! Two packages may each declare a `Text`, so a table holds both and a name picks:
//! the file's own package first, then the declarations no package owns, then the
//! packages the file imports.

use vstd::prelude::*;

use crate::imports::ImportTable;
use crate::names::Symbol;
use crate::source::SourceId;
use crate::ty::{EnumDef, EnumId, EnumName, StructDef, StructId, StructName, TypeTable};

verus! {

/// The first struct `owner` declared as `name`.
pub open spec fn owned_struct(
    rows: Seq<StructDef>,
    owner: Option<Symbol>,
    name: Symbol,
) -> Option<StructId>
    decreases rows.len(),
{
    if rows.len() == 0 {
        None
    } else {
        match owned_struct(rows.drop_last(), owner, name) {
            Some(id) => Some(id),
            None => if rows.last().owner == owner && rows.last().name == StructName::Declared(
                name,
            ) {
                Some(StructId((rows.len() - 1) as u32))
            } else {
                None
            },
        }
    }
}

/// The first enum `owner` declared as `name`.
pub open spec fn owned_enum(
    rows: Seq<EnumDef>,
    owner: Option<Symbol>,
    name: Symbol,
) -> Option<EnumId>
    decreases rows.len(),
{
    if rows.len() == 0 {
        None
    } else {
        match owned_enum(rows.drop_last(), owner, name) {
            Some(id) => Some(id),
            None => if rows.last().owner == owner && rows.last().name == EnumName::Declared(name) {
                Some(EnumId((rows.len() - 1) as u32))
            } else {
                None
            },
        }
    }
}

/// The struct `owner` declared as `name`, if it did.
pub fn lookup_owned_struct(
    types: &TypeTable,
    owner: Option<Symbol>,
    name: Symbol,
) -> (found: Option<StructId>)
    requires
        types.structs@.len() <= u32::MAX,
    ensures
        found == owned_struct(types.structs@, owner, name),
        found matches Some(id) ==> id.0 < types.structs@.len(),
{
    let mut found: Option<StructId> = None;
    let mut i: usize = 0;
    while i < types.structs.len()
        invariant
            i <= types.structs@.len() <= u32::MAX,
            found == owned_struct(types.structs@.take(i as int), owner, name),
            found matches Some(id) ==> id.0 < i,
        decreases types.structs@.len() - i,
    {
        assert(types.structs@.take(i + 1).drop_last() =~= types.structs@.take(i as int));
        if found.is_none() && types.structs[i].owner == owner && types.structs[i].name
            == StructName::Declared(name) {
            found = Some(StructId(i as u32));
        }
        i += 1;
    }
    assert(types.structs@.take(i as int) =~= types.structs@);
    found
}

/// The enum `owner` declared as `name`, if it did.
pub fn lookup_owned_enum(
    types: &TypeTable,
    owner: Option<Symbol>,
    name: Symbol,
) -> (found: Option<EnumId>)
    requires
        types.enums@.len() <= u32::MAX,
    ensures
        found == owned_enum(types.enums@, owner, name),
        found matches Some(id) ==> id.0 < types.enums@.len(),
{
    let mut found: Option<EnumId> = None;
    let mut i: usize = 0;
    while i < types.enums.len()
        invariant
            i <= types.enums@.len() <= u32::MAX,
            found == owned_enum(types.enums@.take(i as int), owner, name),
            found matches Some(id) ==> id.0 < i,
        decreases types.enums@.len() - i,
    {
        assert(types.enums@.take(i + 1).drop_last() =~= types.enums@.take(i as int));
        if found.is_none() && types.enums[i].owner == owner && types.enums[i].name
            == EnumName::Declared(name) {
            found = Some(EnumId(i as u32));
        }
        i += 1;
    }
    assert(types.enums@.take(i as int) =~= types.enums@);
    found
}

/// The file each declared struct and enum was written in, by id; one the compiler
/// made was written in none.
#[derive(Debug)]
pub struct DeclaredIn {
    pub structs: Vec<Option<SourceId>>,
    pub enums: Vec<Option<SourceId>>,
}

/// The first of the packages that declares a struct `name`.
pub open spec fn first_package_struct(
    rows: Seq<StructDef>,
    packages: Seq<Symbol>,
    name: Symbol,
) -> Option<StructId>
    decreases packages.len(),
{
    if packages.len() == 0 {
        None
    } else {
        match owned_struct(rows, Some(packages[0]), name) {
            Some(id) => Some(id),
            None => first_package_struct(rows, packages.drop_first(), name),
        }
    }
}

/// The first of the packages that declares an enum `name`.
pub open spec fn first_package_enum(
    rows: Seq<EnumDef>,
    packages: Seq<Symbol>,
    name: Symbol,
) -> Option<EnumId>
    decreases packages.len(),
{
    if packages.len() == 0 {
        None
    } else {
        match owned_enum(rows, Some(packages[0]), name) {
            Some(id) => Some(id),
            None => first_package_enum(rows, packages.drop_first(), name),
        }
    }
}

/// A declaration written nowhere belongs to whoever asks; a written one needs the
/// asking file to see its file.
pub open spec fn reachable_from(
    imports: &ImportTable,
    written: Seq<Option<SourceId>>,
    id: u32,
    source: SourceId,
) -> bool {
    if id < written.len() {
        match written[id as int] {
            Some(declared) => imports.seen(source, declared),
            None => true,
        }
    } else {
        true
    }
}

/// What `name` denotes past the asking file's own package: the declarations no
/// package owns, then what the file's imports provide.
pub open spec fn struct_beyond(
    types: &TypeTable,
    imports: &ImportTable,
    declared: &DeclaredIn,
    source: SourceId,
    name: Symbol,
) -> Option<StructId> {
    let shared = owned_struct(types.structs@, None, name);
    if imports.package(source) is Some && (shared matches Some(id) && reachable_from(
        imports,
        declared.structs@,
        id.0,
        source,
    )) {
        shared
    } else {
        first_package_struct(types.structs@, imports.imports_of(source), name)
    }
}

/// What `name` denotes past the asking file's own package.
pub open spec fn enum_beyond(
    types: &TypeTable,
    imports: &ImportTable,
    declared: &DeclaredIn,
    source: SourceId,
    name: Symbol,
) -> Option<EnumId> {
    let shared = owned_enum(types.enums@, None, name);
    if imports.package(source) is Some && (shared matches Some(id) && reachable_from(
        imports,
        declared.enums@,
        id.0,
        source,
    )) {
        shared
    } else {
        first_package_enum(types.enums@, imports.imports_of(source), name)
    }
}

/// The struct `name` denotes in `source`, asked of `owner` first.
pub open spec fn struct_seen(
    types: &TypeTable,
    imports: &ImportTable,
    declared: &DeclaredIn,
    source: SourceId,
    owner: Option<Symbol>,
    name: Symbol,
) -> Option<StructId> {
    match owned_struct(types.structs@, owner, name) {
        Some(id) => Some(id),
        None => struct_beyond(types, imports, declared, source, name),
    }
}

/// The enum `name` denotes in `source`, asked of `owner` first.
pub open spec fn enum_seen(
    types: &TypeTable,
    imports: &ImportTable,
    declared: &DeclaredIn,
    source: SourceId,
    owner: Option<Symbol>,
    name: Symbol,
) -> Option<EnumId> {
    match owned_enum(types.enums@, owner, name) {
        Some(id) => Some(id),
        None => enum_beyond(types, imports, declared, source, name),
    }
}

fn first_of_packages_struct(
    types: &TypeTable,
    packages: &Vec<Symbol>,
    name: Symbol,
) -> (found: Option<StructId>)
    requires
        types.structs@.len() <= u32::MAX,
    ensures
        found == first_package_struct(types.structs@, packages@, name),
{
    let mut i: usize = 0;
    assert(packages@.skip(0) =~= packages@);
    while i < packages.len()
        invariant
            types.structs@.len() <= u32::MAX,
            i <= packages@.len(),
            first_package_struct(types.structs@, packages@, name) == first_package_struct(
                types.structs@,
                packages@.skip(i as int),
                name,
            ),
        decreases packages@.len() - i,
    {
        assert(packages@.skip(i as int).drop_first() =~= packages@.skip(i + 1));
        let found = lookup_owned_struct(types, Some(packages[i]), name);
        if found.is_some() {
            return found;
        }
        i += 1;
    }
    None
}

fn struct_beyond_own_package(
    types: &TypeTable,
    imports: &ImportTable,
    declared: &DeclaredIn,
    source: SourceId,
    name: Symbol,
) -> (found: Option<StructId>)
    requires
        types.structs@.len() <= u32::MAX,
    ensures
        found == struct_beyond(types, imports, declared, source, name),
{
    if imports.package_of(source).is_some() {
        if let Some(id) = lookup_owned_struct(types, None, name) {
            let seen = if (id.0 as usize) < declared.structs.len() {
                match declared.structs[id.0 as usize] {
                    Some(file) => imports.sees(source, file),
                    None => true,
                }
            } else {
                true
            };
            if seen {
                return Some(id);
            }
        }
    }
    first_of_packages_struct(types, &imports.imported_packages(source), name)
}

fn first_of_packages_enum(
    types: &TypeTable,
    packages: &Vec<Symbol>,
    name: Symbol,
) -> (found: Option<EnumId>)
    requires
        types.enums@.len() <= u32::MAX,
    ensures
        found == first_package_enum(types.enums@, packages@, name),
{
    let mut i: usize = 0;
    assert(packages@.skip(0) =~= packages@);
    while i < packages.len()
        invariant
            types.enums@.len() <= u32::MAX,
            i <= packages@.len(),
            first_package_enum(types.enums@, packages@, name) == first_package_enum(
                types.enums@,
                packages@.skip(i as int),
                name,
            ),
        decreases packages@.len() - i,
    {
        assert(packages@.skip(i as int).drop_first() =~= packages@.skip(i + 1));
        let found = lookup_owned_enum(types, Some(packages[i]), name);
        if found.is_some() {
            return found;
        }
        i += 1;
    }
    None
}

fn enum_beyond_own_package(
    types: &TypeTable,
    imports: &ImportTable,
    declared: &DeclaredIn,
    source: SourceId,
    name: Symbol,
) -> (found: Option<EnumId>)
    requires
        types.enums@.len() <= u32::MAX,
    ensures
        found == enum_beyond(types, imports, declared, source, name),
{
    if imports.package_of(source).is_some() {
        if let Some(id) = lookup_owned_enum(types, None, name) {
            let seen = if (id.0 as usize) < declared.enums.len() {
                match declared.enums[id.0 as usize] {
                    Some(file) => imports.sees(source, file),
                    None => true,
                }
            } else {
                true
            };
            if seen {
                return Some(id);
            }
        }
    }
    first_of_packages_enum(types, &imports.imported_packages(source), name)
}

/// The struct `name` denotes in `source`, or `None` when no declaration of that
/// name is visible from there.
pub fn visible_struct(
    types: &TypeTable,
    imports: &ImportTable,
    declared: &DeclaredIn,
    source: SourceId,
    name: Symbol,
) -> (found: Option<StructId>)
    requires
        types.structs@.len() <= u32::MAX,
    ensures
        found == struct_seen(types, imports, declared, source, imports.package(source), name),
{
    let home = imports.package_of(source);
    match lookup_owned_struct(types, home, name) {
        Some(id) => Some(id),
        None => struct_beyond_own_package(types, imports, declared, source, name),
    }
}

/// The struct a possibly module-qualified name denotes in `source`: the package
/// owning the qualified module gets first refusal instead of the file's own.
pub fn visible_struct_qualified(
    types: &TypeTable,
    imports: &ImportTable,
    declared: &DeclaredIn,
    source: SourceId,
    qualifier: Option<SourceId>,
    name: Symbol,
) -> (found: Option<StructId>)
    requires
        types.structs@.len() <= u32::MAX,
    ensures
        found == struct_seen(
            types,
            imports,
            declared,
            source,
            imports.package(
                match qualifier {
                    Some(module) => module,
                    None => source,
                },
            ),
            name,
        ),
{
    match qualifier {
        None => visible_struct(types, imports, declared, source, name),
        Some(module) => {
            let owner = imports.package_of(module);
            match lookup_owned_struct(types, owner, name) {
                Some(id) => Some(id),
                None => struct_beyond_own_package(types, imports, declared, source, name),
            }
        },
    }
}

/// The enum `name` denotes in `source`, or `None` when no declaration of that
/// name is visible from there.
pub fn visible_enum(
    types: &TypeTable,
    imports: &ImportTable,
    declared: &DeclaredIn,
    source: SourceId,
    name: Symbol,
) -> (found: Option<EnumId>)
    requires
        types.enums@.len() <= u32::MAX,
    ensures
        found == enum_seen(types, imports, declared, source, imports.package(source), name),
{
    let home = imports.package_of(source);
    match lookup_owned_enum(types, home, name) {
        Some(id) => Some(id),
        None => enum_beyond_own_package(types, imports, declared, source, name),
    }
}

/// The enum a possibly module-qualified name denotes in `source`.
pub fn visible_enum_qualified(
    types: &TypeTable,
    imports: &ImportTable,
    declared: &DeclaredIn,
    source: SourceId,
    qualifier: Option<SourceId>,
    name: Symbol,
) -> (found: Option<EnumId>)
    requires
        types.enums@.len() <= u32::MAX,
    ensures
        found == enum_seen(
            types,
            imports,
            declared,
            source,
            imports.package(
                match qualifier {
                    Some(module) => module,
                    None => source,
                },
            ),
            name,
        ),
{
    match qualifier {
        None => visible_enum(types, imports, declared, source, name),
        Some(module) => {
            let owner = imports.package_of(module);
            match lookup_owned_enum(types, owner, name) {
                Some(id) => Some(id),
                None => enum_beyond_own_package(types, imports, declared, source, name),
            }
        },
    }
}

/// An import cannot take a name away from the package that wrote it: a name the
/// file's own package declares denotes that declaration.
pub proof fn own_package_comes_first(
    types: &TypeTable,
    imports: &ImportTable,
    declared: &DeclaredIn,
    source: SourceId,
    name: Symbol,
    id: StructId,
)
    requires
        owned_struct(types.structs@, imports.package(source), name) == Some(id),
    ensures
        struct_seen(types, imports, declared, source, imports.package(source), name) == Some(id),
{
}

proof fn lemma_owned_struct(rows: Seq<StructDef>, owner: Option<Symbol>, name: Symbol)
    requires
        rows.len() <= u32::MAX,
    ensures
        owned_struct(rows, owner, name) matches Some(id) ==> id.0 < rows.len()
            && rows[id.0 as int].owner == owner && rows[id.0 as int].name == StructName::Declared(
            name,
        ),
    decreases rows.len(),
{
    if rows.len() > 0 {
        lemma_owned_struct(rows.drop_last(), owner, name);
    }
}

/// Visibility does not compose: what a bare name denotes is the file's own
/// package's, no package's, or a package's that this file itself imports.
pub proof fn visibility_does_not_compose(
    types: &TypeTable,
    imports: &ImportTable,
    declared: &DeclaredIn,
    source: SourceId,
    name: Symbol,
)
    requires
        types.structs@.len() <= u32::MAX,
    ensures
        struct_seen(types, imports, declared, source, imports.package(source), name) matches Some(
            id,
        ) ==> id.0 < types.structs@.len() && ({
            let owner = types.structs@[id.0 as int].owner;
            owner == imports.package(source) || owner is None || imports.imports_of(
                source,
            ).contains(owner->0)
        }),
{
    lemma_owned_struct(types.structs@, imports.package(source), name);
    lemma_owned_struct(types.structs@, None, name);
    lemma_first_package(types.structs@, imports.imports_of(source), name);
}

proof fn lemma_first_package(rows: Seq<StructDef>, packages: Seq<Symbol>, name: Symbol)
    requires
        rows.len() <= u32::MAX,
    ensures
        first_package_struct(rows, packages, name) matches Some(id) ==> id.0 < rows.len()
            && rows[id.0 as int].owner is Some && packages.contains(rows[id.0 as int].owner->0),
    decreases packages.len(),
{
    if packages.len() > 0 {
        lemma_owned_struct(rows, Some(packages[0]), name);
        lemma_first_package(rows, packages.drop_first(), name);
        assert(packages.contains(packages[0]));
        if first_package_struct(rows, packages.drop_first(), name) is Some {
            let id = first_package_struct(rows, packages.drop_first(), name)->0;
            let owner = rows[id.0 as int].owner->0;
            let j = choose|j: int| 0 <= j < packages.drop_first().len() && packages.drop_first()[j] == owner;
            assert(packages[j + 1] == owner);
        }
    }
}

proof fn lemma_owned_first(rows: Seq<StructDef>, owner: Option<Symbol>, name: Symbol)
    requires
        rows.len() <= u32::MAX,
    ensures
        match owned_struct(rows, owner, name) {
            Some(id) => id.0 < rows.len() && rows[id.0 as int].owner == owner
                && rows[id.0 as int].name == StructName::Declared(name) && forall|k: int|
                0 <= k < id.0 ==> !((#[trigger] rows[k]).owner == owner && rows[k].name
                    == StructName::Declared(name)),
            None => forall|k: int|
                0 <= k < rows.len() ==> !((#[trigger] rows[k]).owner == owner && rows[k].name
                    == StructName::Declared(name)),
        },
    decreases rows.len(),
{
    if rows.len() > 0 {
        let rest = rows.drop_last();
        lemma_owned_first(rest, owner, name);
        assert forall|k: int| 0 <= k < rest.len() implies #[trigger] rows[k] == rest[k] by {}
    }
}

/// A package's own declaration of a struct name is the first row the package declared
/// under it, and there is one exactly if some row is.
pub proof fn an_owned_struct_is_the_first_of_its_name(
    rows: Seq<StructDef>,
    owner: Option<Symbol>,
    name: Symbol,
)
    requires
        rows.len() <= u32::MAX,
    ensures
        match owned_struct(rows, owner, name) {
            Some(id) => id.0 < rows.len() && rows[id.0 as int].owner == owner
                && rows[id.0 as int].name == StructName::Declared(name) && forall|k: int|
                0 <= k < id.0 ==> !((#[trigger] rows[k]).owner == owner && rows[k].name
                    == StructName::Declared(name)),
            None => forall|k: int|
                0 <= k < rows.len() ==> !((#[trigger] rows[k]).owner == owner && rows[k].name
                    == StructName::Declared(name)),
        },
{
    lemma_owned_first(rows, owner, name);
}

/// A package's own declaration of an enum name is the first row the package declared
/// under it, and there is one exactly if some row is.
pub proof fn an_owned_enum_is_the_first_of_its_name(
    rows: Seq<EnumDef>,
    owner: Option<Symbol>,
    name: Symbol,
)
    requires
        rows.len() <= u32::MAX,
    ensures
        match owned_enum(rows, owner, name) {
            Some(id) => id.0 < rows.len() && rows[id.0 as int].owner == owner
                && rows[id.0 as int].name == EnumName::Declared(name) && forall|k: int|
                0 <= k < id.0 ==> !((#[trigger] rows[k]).owner == owner && rows[k].name
                    == EnumName::Declared(name)),
            None => forall|k: int|
                0 <= k < rows.len() ==> !((#[trigger] rows[k]).owner == owner && rows[k].name
                    == EnumName::Declared(name)),
        },
    decreases rows.len(),
{
    if rows.len() > 0 {
        let rest = rows.drop_last();
        an_owned_enum_is_the_first_of_its_name(rest, owner, name);
        assert forall|k: int| 0 <= k < rest.len() implies #[trigger] rows[k] == rest[k] by {}
    }
}

proof fn lemma_package_at(rows: Seq<StructDef>, packages: Seq<Symbol>, name: Symbol, k: int)
    requires
        0 <= k < packages.len(),
        forall|j: int|
            0 <= j < k ==> owned_struct(rows, Some(#[trigger] packages[j]), name) is None,
        owned_struct(rows, Some(packages[k]), name) is Some,
    ensures
        first_package_struct(rows, packages, name) == owned_struct(rows, Some(packages[k]), name),
    decreases packages.len(),
{
    if k > 0 {
        assert(owned_struct(rows, Some(packages[0]), name) is None);
        let rest = packages.drop_first();
        assert(rest[k - 1] == packages[k]);
        assert forall|j: int| 0 <= j < k - 1 implies owned_struct(
            rows,
            Some(#[trigger] rest[j]),
            name,
        ) is None by {
            assert(rest[j] == packages[j + 1]);
        }
        lemma_package_at(rows, rest, name, k - 1);
    }
}

proof fn lemma_no_package(rows: Seq<StructDef>, packages: Seq<Symbol>, name: Symbol)
    requires
        forall|j: int|
            0 <= j < packages.len() ==> owned_struct(rows, Some(#[trigger] packages[j]), name)
                is None,
    ensures
        first_package_struct(rows, packages, name) is None,
    decreases packages.len(),
{
    if packages.len() > 0 {
        let rest = packages.drop_first();
        assert(owned_struct(rows, Some(packages[0]), name) is None);
        assert forall|j: int| 0 <= j < rest.len() implies owned_struct(
            rows,
            Some(#[trigger] rest[j]),
            name,
        ) is None by {
            assert(rest[j] == packages[j + 1]);
        }
        lemma_no_package(rows, rest, name);
    }
}

/// A name the file's own package does not declare denotes what no package owns, where the
/// file sees the file that declares it, and otherwise what the first import that declares
/// the name provides; where none does, it denotes nothing.
pub proof fn an_imported_struct_is_the_first_imports(
    types: &TypeTable,
    imports: &ImportTable,
    declared: &DeclaredIn,
    source: SourceId,
    owner: Option<Symbol>,
    name: Symbol,
    k: int,
)
    requires
        owned_struct(types.structs@, owner, name) is None,
    ensures
        ({
            let shared = owned_struct(types.structs@, None, name);
            let seen = struct_seen(types, imports, declared, source, owner, name);
            let packages = imports.imports_of(source);
            let open = imports.package(source) is Some && (shared matches Some(id) && (id.0
                >= declared.structs@.len() || (declared.structs@[id.0 as int] matches Some(file)
                ==> imports.visible@.contains((source, file)))));
            &&& open ==> seen == shared
            &&& !open && 0 <= k < packages.len() && owned_struct(
                types.structs@,
                Some(packages[k]),
                name,
            ) is Some && (forall|j: int|
                0 <= j < k ==> owned_struct(types.structs@, Some(#[trigger] packages[j]), name)
                    is None) ==> seen == owned_struct(types.structs@, Some(packages[k]), name)
            &&& !open && (forall|j: int|
                0 <= j < packages.len() ==> owned_struct(
                    types.structs@,
                    Some(#[trigger] packages[j]),
                    name,
                ) is None) ==> seen is None
        }),
{
    let packages = imports.imports_of(source);
    if 0 <= k < packages.len() && owned_struct(types.structs@, Some(packages[k]), name) is Some && (
    forall|j: int|
        0 <= j < k ==> owned_struct(types.structs@, Some(#[trigger] packages[j]), name) is None) {
        lemma_package_at(types.structs@, packages, name, k);
    }
    if forall|j: int|
        0 <= j < packages.len() ==> owned_struct(types.structs@, Some(#[trigger] packages[j]), name)
            is None {
        lemma_no_package(types.structs@, packages, name);
    }
}

proof fn lemma_package_enum_at(rows: Seq<EnumDef>, packages: Seq<Symbol>, name: Symbol, k: int)
    requires
        0 <= k < packages.len(),
        forall|j: int|
            0 <= j < k ==> owned_enum(rows, Some(#[trigger] packages[j]), name) is None,
        owned_enum(rows, Some(packages[k]), name) is Some,
    ensures
        first_package_enum(rows, packages, name) == owned_enum(rows, Some(packages[k]), name),
    decreases packages.len(),
{
    if k > 0 {
        assert(owned_enum(rows, Some(packages[0]), name) is None);
        let rest = packages.drop_first();
        assert(rest[k - 1] == packages[k]);
        assert forall|j: int| 0 <= j < k - 1 implies owned_enum(
            rows,
            Some(#[trigger] rest[j]),
            name,
        ) is None by {
            assert(rest[j] == packages[j + 1]);
        }
        lemma_package_enum_at(rows, rest, name, k - 1);
    }
}

/// An enum's name denotes the own package's declaration where it has one, then what no
/// package owns, where the file sees the file that declares it, and then what the first
/// import that declares the name provides.
pub proof fn an_enum_name_is_looked_up_in_order(
    types: &TypeTable,
    imports: &ImportTable,
    declared: &DeclaredIn,
    source: SourceId,
    owner: Option<Symbol>,
    name: Symbol,
    k: int,
)
    ensures
        ({
            let own = owned_enum(types.enums@, owner, name);
            let shared = owned_enum(types.enums@, None, name);
            let seen = enum_seen(types, imports, declared, source, owner, name);
            let packages = imports.imports_of(source);
            let open = imports.package(source) is Some && (shared matches Some(id) && (id.0
                >= declared.enums@.len() || (declared.enums@[id.0 as int] matches Some(file)
                ==> imports.visible@.contains((source, file)))));
            &&& own is Some ==> seen == own
            &&& own is None && open ==> seen == shared
            &&& own is None && !open && 0 <= k < packages.len() && owned_enum(
                types.enums@,
                Some(packages[k]),
                name,
            ) is Some && (forall|j: int|
                0 <= j < k ==> owned_enum(types.enums@, Some(#[trigger] packages[j]), name) is None)
                ==> seen == owned_enum(types.enums@, Some(packages[k]), name)
        }),
{
    let packages = imports.imports_of(source);
    if 0 <= k < packages.len() && owned_enum(types.enums@, Some(packages[k]), name) is Some && (
    forall|j: int|
        0 <= j < k ==> owned_enum(types.enums@, Some(#[trigger] packages[j]), name) is None) {
        lemma_package_enum_at(types.enums@, packages, name, k);
    }
}

} // verus!
