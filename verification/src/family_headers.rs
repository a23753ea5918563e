//! Declaring construct families.
//!
//! Each family gets an empty enum before structs resolve, so that a field may
//! name it; its concrete variants are filled later.

use vstd::prelude::*;

use crate::diagnostics::{blamed, Diagnostic, Log, Problem};
use crate::families::{
    FamilyField, FamilyInfo, FamilyMethod, FamilyTable, MethodEntry, MethodParam, StoredField,
};
use crate::hir::grew;
use crate::imports::ImportTable;
use crate::lists::copied;
use crate::names::Symbol;
use crate::source::{SourceId, Span};
use crate::symbol_map::SymbolMap;
use crate::syntax::{ExprId, FieldDefault, TypeRefId};
use crate::ty::{EnumDef, EnumId, EnumName, Execution, Type, TypeTable};

verus! {

/// One `let` member of a construct family as written.
#[derive(Clone, Copy, PartialEq, Eq, Structural, Debug)]
pub struct FamilyFieldDecl {
    pub name: Symbol,
    pub name_span: Span,
    pub ty: Option<TypeRefId>,
    pub default: Option<ExprId>,
    pub required: bool,
    /// Whether it is a child slot.
    pub slot: bool,
    pub mutable: bool,
}

/// One method member of a construct family, or one modifier, as written.
#[derive(Debug)]
pub struct FamilyMethodDecl {
    pub name: Symbol,
    pub name_span: Span,
    pub computed: bool,
    pub required: bool,
    pub result: Option<TypeRefId>,
    pub mutates_self: bool,
    pub execution: Execution,
    pub params: Vec<MethodParam>,
}

/// One construct family as written.
#[derive(Debug)]
pub struct FamilyDecl {
    pub source: SourceId,
    pub name: Symbol,
    pub name_span: Span,
    /// The key it is filed under: its name, told apart by its package.
    pub key: Symbol,
    pub fields: Vec<FamilyFieldDecl>,
    pub methods: Vec<FamilyMethodDecl>,
    /// The families it extends, each with where that was written.
    pub extends: Vec<(Symbol, Span)>,
}

/// The names of the value members every backed declaration must present.
pub open spec fn required_names(fields: Seq<FamilyFieldDecl>) -> Seq<Symbol>
    decreases fields.len(),
{
    if fields.len() == 0 {
        Seq::empty()
    } else if fields.last().required {
        required_names(fields.drop_last()).push(fields.last().name)
    } else {
        required_names(fields.drop_last())
    }
}

/// Whether a `let` can be read through the family value: it has a type to be read
/// as, or is required to have one, and is no child slot.
pub open spec fn value_member(field: FamilyFieldDecl) -> bool {
    !field.slot && (field.required || field.ty is Some)
}

/// The value members of a family, their types still to be resolved.
pub open spec fn value_members(fields: Seq<FamilyFieldDecl>) -> Map<Symbol, FamilyField>
    decreases fields.len(),
{
    if fields.len() == 0 {
        Map::empty()
    } else if value_member(fields.last()) {
        value_members(fields.drop_last()).insert(
            fields.last().name,
            FamilyField { result: Type::Error, dispatcher: None },
        )
    } else {
        value_members(fields.drop_last())
    }
}

/// The stored fields every backed declaration takes on.
pub open spec fn stored(fields: Seq<FamilyFieldDecl>, source: SourceId) -> Seq<StoredField>
    decreases fields.len(),
{
    if fields.len() == 0 {
        Seq::empty()
    } else {
        let field = fields.last();
        let before = stored(fields.drop_last(), source);
        if field.required {
            before
        } else {
            before.push(
                StoredField {
                    name: field.name,
                    ty: field.ty,
                    default: field.default,
                    source,
                    slot: field.slot,
                    mutable: field.mutable,
                },
            )
        }
    }
}

/// The type each `let` was written with.
pub open spec fn field_types(fields: Seq<FamilyFieldDecl>, source: SourceId) -> Map<
    Symbol,
    (TypeRefId, SourceId),
>
    decreases fields.len(),
{
    if fields.len() == 0 {
        Map::empty()
    } else {
        let before = field_types(fields.drop_last(), source);
        match fields.last().ty {
            Some(ty) => before.insert(fields.last().name, (ty, source)),
            None => before,
        }
    }
}

/// The type each member was written with: every `let`, then every method that
/// wrote a result.
pub open spec fn written_types(
    fields: Seq<FamilyFieldDecl>,
    methods: Seq<FamilyMethodDecl>,
    source: SourceId,
) -> Map<Symbol, (TypeRefId, SourceId)>
    decreases methods.len(),
{
    if methods.len() == 0 {
        field_types(fields, source)
    } else {
        let before = written_types(fields, methods.drop_last(), source);
        match methods.last().result {
            Some(result) => before.insert(methods.last().name, (result, source)),
            None => before,
        }
    }
}

/// The required `let`s written without a type.
pub open spec fn untyped_requirements(fields: Seq<FamilyFieldDecl>) -> Seq<(Span, Problem)>
    decreases fields.len(),
{
    if fields.len() == 0 {
        Seq::empty()
    } else {
        let field = fields.last();
        let before = untyped_requirements(fields.drop_last());
        if field.required && field.ty is None {
            before.push(
                (field.name_span, Problem::RequiredMemberNeedsType { member: field.name }),
            )
        } else {
            before
        }
    }
}

/// Whether one of the first `count` methods is called `name`.
pub open spec fn method_named(methods: Seq<FamilyMethodDecl>, count: int, name: Symbol) -> bool {
    exists|i: int| 0 <= i < count && (#[trigger] methods[i]).name == name
}

/// How many of the first `count` methods were the first of their name.
pub open spec fn distinct_methods(methods: Seq<FamilyMethodDecl>, count: int) -> nat
    decreases count,
{
    if count <= 0 {
        0
    } else {
        distinct_methods(methods, count - 1) + if method_named(
            methods,
            count - 1,
            methods[count - 1].name,
        ) {
            0nat
        } else {
            1nat
        }
    }
}

/// The methods a family holds after its first `count` were read, the rows of
/// their methods counted from `base`. The first of a name keeps it.
pub open spec fn held_methods(methods: Seq<FamilyMethodDecl>, count: int, base: int) -> Map<
    Symbol,
    MethodEntry,
>
    decreases count,
{
    if count <= 0 {
        Map::empty()
    } else {
        let before = held_methods(methods, count - 1, base);
        if method_named(methods, count - 1, methods[count - 1].name) {
            before
        } else {
            before.insert(
                methods[count - 1].name,
                MethodEntry {
                    method: (base + distinct_methods(methods, count - 1)) as u32,
                    uniform: false,
                    dispatcher: None,
                },
            )
        }
    }
}

/// The methods repeating a name among the first `count`.
pub open spec fn repeated_methods(
    methods: Seq<FamilyMethodDecl>,
    count: int,
    family: Symbol,
) -> Seq<(Span, Problem)>
    decreases count,
{
    if count <= 0 {
        Seq::empty()
    } else {
        let before = repeated_methods(methods, count - 1, family);
        let method = methods[count - 1];
        if method_named(methods, count - 1, method.name) {
            before.push(
                (
                    method.name_span,
                    Problem::FamilyMemberRepeated { family, member: method.name },
                ),
            )
        } else {
            before
        }
    }
}

/// `method` is what was written, its types still to be resolved.
pub open spec fn method_read(method: FamilyMethod, decl: FamilyMethodDecl, source: SourceId) -> bool {
    &&& method.name_span == decl.name_span
    &&& method.source == source
    &&& method.computed == decl.computed
    &&& method.required == decl.required
    &&& method.written_result == decl.result
    &&& method.mutates_self == decl.mutates_self
    &&& method.execution == decl.execution
    &&& method.written@ == decl.params@
    &&& method.params@.len() == 0
    &&& method.ownership@.len() == 0
    &&& method.result == Type::Error
    &&& method.defaults@.len() == 0
}

/// The rows the first `count` methods added after `base`.
pub open spec fn rows_read(
    rows: Seq<FamilyMethod>,
    base: int,
    methods: Seq<FamilyMethodDecl>,
    count: int,
    source: SourceId,
) -> bool {
    forall|k: int|
        0 <= k < count && !method_named(methods, k, (#[trigger] methods[k]).name) ==> method_read(
            rows[base + distinct_methods(methods, k)],
            methods[k],
            source,
        )
}

/// `info` is what `decl` says of itself, with `enum_id` for its type and its
/// methods' rows from `base`.
pub open spec fn header_of(
    info: FamilyInfo,
    decl: FamilyDecl,
    enum_id: EnumId,
    base: int,
) -> bool {
    &&& info.wf()
    &&& info.name == decl.name
    &&& info.enum_id == enum_id
    &&& info.required@ == required_names(decl.fields@)
    &&& info.methods@ == held_methods(decl.methods@, decl.methods@.len() as int, base)
    &&& info.field_members@ == value_members(decl.fields@)
    &&& info.stored_fields@ == stored(decl.fields@, decl.source)
    &&& info.variants@.len() == 0
    &&& info.parents@.len() == 0
    &&& info.member_types@ == written_types(decl.fields@, decl.methods@, decl.source)
}

/// What a header is refused for member by member.
pub open spec fn header_problems(decl: FamilyDecl) -> Seq<(Span, Problem)> {
    untyped_requirements(decl.fields@) + repeated_methods(
        decl.methods@,
        decl.methods@.len() as int,
        decl.name,
    )
}

proof fn lemma_named_more(methods: Seq<FamilyMethodDecl>, count: int, name: Symbol)
    requires
        0 <= count < methods.len(),
    ensures
        method_named(methods, count + 1, name) <==> method_named(methods, count, name)
            || methods[count].name == name,
{
    if method_named(methods, count + 1, name) {
        let i = choose|i: int| 0 <= i < count + 1 && (#[trigger] methods[i]).name == name;
        if i < count {
            assert(method_named(methods, count, name));
        }
    }
    if method_named(methods, count, name) {
        let i = choose|i: int| 0 <= i < count && (#[trigger] methods[i]).name == name;
        assert(methods[i].name == name);
    }
    if methods[count].name == name {
        assert(methods[count].name == name);
    }
}

proof fn lemma_distinct_bound(methods: Seq<FamilyMethodDecl>, count: int)
    requires
        0 <= count,
    ensures
        distinct_methods(methods, count) <= count,
    decreases count,
{
    if count > 0 {
        lemma_distinct_bound(methods, count - 1);
    }
}

proof fn lemma_distinct_grows(methods: Seq<FamilyMethodDecl>, some: int, all: int)
    requires
        0 <= some < all,
        !method_named(methods, some, methods[some].name),
    ensures
        distinct_methods(methods, some) < distinct_methods(methods, all),
    decreases all,
{
    if some < all - 1 {
        lemma_distinct_grows(methods, some, all - 1);
    }
}

/// Exactly the names written are held.
proof fn lemma_held(methods: Seq<FamilyMethodDecl>, count: int, base: int)
    requires
        0 <= count <= methods.len(),
        0 <= base,
        base + count <= u32::MAX,
    ensures
        forall|name: Symbol| #[trigger]
            held_methods(methods, count, base).contains_key(name) <==> method_named(
                methods,
                count,
                name,
            ),
        forall|name: Symbol|
            held_methods(methods, count, base).contains_key(name) ==> base <= (
            #[trigger] held_methods(methods, count, base)[name]).method < base
                + distinct_methods(methods, count),
    decreases count,
{
    if count > 0 {
        lemma_held(methods, count - 1, base);
        lemma_distinct_bound(methods, count - 1);
        let before = held_methods(methods, count - 1, base);
        let after = held_methods(methods, count, base);
        assert forall|name: Symbol| #[trigger] after.contains_key(name) <==> method_named(
            methods,
            count,
            name,
        ) by {
            lemma_named_more(methods, count - 1, name);
            assert(before.contains_key(name) <==> method_named(methods, count - 1, name));
        }
        assert forall|name: Symbol| after.contains_key(name) implies base <= (
        #[trigger] after[name]).method < base + distinct_methods(methods, count) by {
            if before.contains_key(name) {
                assert(base <= before[name].method < base + distinct_methods(methods, count - 1));
            }
        }
    }
}

/// A method that repeats a name adds no row.
proof fn lemma_row_skipped(
    rows: Seq<FamilyMethod>,
    base: int,
    methods: Seq<FamilyMethodDecl>,
    i: int,
    source: SourceId,
)
    requires
        0 <= i < methods.len(),
        method_named(methods, i, methods[i].name),
        rows_read(rows, base, methods, i, source),
    ensures
        rows_read(rows, base, methods, i + 1, source),
{
}

/// A method that is the first of its name adds the next row.
proof fn lemma_row_read(
    before: Seq<FamilyMethod>,
    after: Seq<FamilyMethod>,
    base: int,
    methods: Seq<FamilyMethodDecl>,
    i: int,
    source: SourceId,
)
    requires
        0 <= i < methods.len(),
        0 <= base,
        !method_named(methods, i, methods[i].name),
        before.len() == base + distinct_methods(methods, i),
        after.len() == before.len() + 1,
        after.drop_last() == before,
        method_read(after.last(), methods[i], source),
        rows_read(before, base, methods, i, source),
    ensures
        rows_read(after, base, methods, i + 1, source),
{
    assert forall|k: int|
        0 <= k < i + 1 && !method_named(methods, k, (#[trigger] methods[k]).name) implies method_read(
        after[base + distinct_methods(methods, k)],
        methods[k],
        source,
    ) by {
        if k < i {
            lemma_distinct_grows(methods, k, i);
            let row = base + distinct_methods(methods, k);
            assert(after.drop_last()[row] == after[row]);
        }
    }
}

/// Reads a family's methods, adding a row for each first of its name.
fn read_methods(
    rows: &mut Vec<FamilyMethod>,
    decl: &FamilyDecl,
    log: &mut Log,
) -> (held: SymbolMap<MethodEntry>)
    requires
        old(rows)@.len() + decl.methods@.len() <= u32::MAX,
    ensures
        held.wf(),
        held@ == held_methods(
            decl.methods@,
            decl.methods@.len() as int,
            old(rows)@.len() as int,
        ),
        final(rows)@.len() == old(rows)@.len() + distinct_methods(
            decl.methods@,
            decl.methods@.len() as int,
        ),
        grew(old(rows)@, final(rows)@),
        rows_read(
            final(rows)@,
            old(rows)@.len() as int,
            decl.methods@,
            decl.methods@.len() as int,
            decl.source,
        ),
        final(log).source == old(log).source,
        final(log).diagnostics@ == old(log).diagnostics@ + crate::diagnostics::noted(
            old(log).source,
            repeated_methods(decl.methods@, decl.methods@.len() as int, decl.name),
        ),
{
    let ghost methods = decl.methods@;
    let ghost base = rows@.len() as int;
    let ghost said = log.diagnostics@;
    let mut held: SymbolMap<MethodEntry> = SymbolMap::new();
    let mut i: usize = 0;
    proof {
        crate::diagnostics::lemma_noted_none(said, log.source);
    }
    while i < decl.methods.len()
        invariant
            i <= methods.len(),
            methods == decl.methods@,
            base == old(rows)@.len(),
            base + methods.len() <= u32::MAX,
            held.wf(),
            held@ == held_methods(methods, i as int, base),
            rows@.len() == base + distinct_methods(methods, i as int),
            grew(old(rows)@, rows@),
            rows_read(rows@, base, methods, i as int, decl.source),
            log.source == old(log).source,
            log.diagnostics@ == said + crate::diagnostics::noted(
                old(log).source,
                repeated_methods(methods, i as int, decl.name),
            ),
        decreases methods.len() - i,
    {
        let method = &decl.methods[i];
        assert(held@.contains_key(method.name) <==> method_named(
            methods,
            i as int,
            method.name,
        )) by {
            lemma_held(methods, i as int, base);
        }
        assert(distinct_methods(methods, i as int) <= i) by {
            lemma_distinct_bound(methods, i as int);
        }
        if held.contains(method.name) {
            proof {
                lemma_row_skipped(rows@, base, methods, i as int, decl.source);
                crate::diagnostics::lemma_noted_one(
                    said,
                    log.source,
                    repeated_methods(methods, i as int, decl.name),
                    method.name_span,
                    Problem::FamilyMemberRepeated { family: decl.name, member: method.name },
                );
            }
            log.emit(
                method.name_span,
                Problem::FamilyMemberRepeated { family: decl.name, member: method.name },
            );
        } else {
            let row: u32 = rows.len() as u32;
            let ghost before = rows@;
            rows.push(
                FamilyMethod {
                    name_span: method.name_span,
                    source: decl.source,
                    computed: method.computed,
                    required: method.required,
                    written_result: method.result,
                    mutates_self: method.mutates_self,
                    execution: method.execution,
                    written: copied(&method.params),
                    params: Vec::new(),
                    ownership: Vec::new(),
                    result: Type::Error,
                    defaults: Vec::new(),
                },
            );
            held.insert(
                method.name,
                MethodEntry { method: row, uniform: false, dispatcher: None },
            );
            proof {
                assert(rows@.drop_last() =~= before);
                lemma_row_read(before, rows@, base, methods, i as int, decl.source);
            }
        }
        i += 1;
    }
    held
}

/// What a family's `let` members say.
struct ReadFields {
    required: Vec<Symbol>,
    members: SymbolMap<FamilyField>,
    stored_fields: Vec<StoredField>,
    types: SymbolMap<(TypeRefId, SourceId)>,
}

fn read_fields(decl: &FamilyDecl, log: &mut Log) -> (read: ReadFields)
    ensures
        read.required@ == required_names(decl.fields@),
        read.members.wf(),
        read.members@ == value_members(decl.fields@),
        read.stored_fields@ == stored(decl.fields@, decl.source),
        read.types.wf(),
        read.types@ == field_types(decl.fields@, decl.source),
        final(log).source == old(log).source,
        final(log).diagnostics@ == old(log).diagnostics@ + crate::diagnostics::noted(
            old(log).source,
            untyped_requirements(decl.fields@),
        ),
{
    let ghost said = log.diagnostics@;
    let mut required: Vec<Symbol> = Vec::new();
    let mut members: SymbolMap<FamilyField> = SymbolMap::new();
    let mut stored_fields: Vec<StoredField> = Vec::new();
    let mut types: SymbolMap<(TypeRefId, SourceId)> = SymbolMap::new();
    let mut i: usize = 0;
    proof {
        crate::diagnostics::lemma_noted_none(said, log.source);
        assert(decl.fields@.take(0) =~= Seq::empty());
    }
    while i < decl.fields.len()
        invariant
            i <= decl.fields@.len(),
            required@ == required_names(decl.fields@.take(i as int)),
            members.wf(),
            members@ == value_members(decl.fields@.take(i as int)),
            stored_fields@ == stored(decl.fields@.take(i as int), decl.source),
            types.wf(),
            types@ == field_types(decl.fields@.take(i as int), decl.source),
            log.source == old(log).source,
            log.diagnostics@ == said + crate::diagnostics::noted(
                old(log).source,
                untyped_requirements(decl.fields@.take(i as int)),
            ),
        decreases decl.fields@.len() - i,
    {
        let field = decl.fields[i];
        proof {
            assert(decl.fields@.take(i + 1).drop_last() =~= decl.fields@.take(i as int));
            assert(decl.fields@.take(i + 1).last() == field);
            crate::diagnostics::lemma_noted_one(
                said,
                log.source,
                untyped_requirements(decl.fields@.take(i as int)),
                field.name_span,
                Problem::RequiredMemberNeedsType { member: field.name },
            );
        }
        if field.required {
            required.push(field.name);
        } else {
            stored_fields.push(
                StoredField {
                    name: field.name,
                    ty: field.ty,
                    default: field.default,
                    source: decl.source,
                    slot: field.slot,
                    mutable: field.mutable,
                },
            );
        }
        if !field.slot && (field.required || field.ty.is_some()) {
            members.insert(field.name, FamilyField { result: Type::Error, dispatcher: None });
        }
        match field.ty {
            Some(ty) => types.insert(field.name, (ty, decl.source)),
            None => {
                if field.required {
                    log.emit(
                        field.name_span,
                        Problem::RequiredMemberNeedsType { member: field.name },
                    );
                }
            },
        }
        i += 1;
    }
    assert(decl.fields@.take(i as int) =~= decl.fields@);
    ReadFields { required, members, stored_fields, types }
}

fn read_results(decl: &FamilyDecl, types: &mut SymbolMap<(TypeRefId, SourceId)>)
    requires
        old(types).wf(),
        old(types)@ == field_types(decl.fields@, decl.source),
    ensures
        final(types).wf(),
        final(types)@ == written_types(decl.fields@, decl.methods@, decl.source),
{
    let mut i: usize = 0;
    assert(decl.methods@.take(0) =~= Seq::empty());
    while i < decl.methods.len()
        invariant
            i <= decl.methods@.len(),
            types.wf(),
            types@ == written_types(decl.fields@, decl.methods@.take(i as int), decl.source),
        decreases decl.methods@.len() - i,
    {
        proof {
            assert(decl.methods@.take(i + 1).drop_last() =~= decl.methods@.take(i as int));
            assert(decl.methods@.take(i + 1).last() == decl.methods@[i as int]);
        }
        if let Some(result) = decl.methods[i].result {
            types.insert(decl.methods[i].name, (result, decl.source));
        }
        i += 1;
    }
    assert(decl.methods@.take(i as int) =~= decl.methods@);
}

/// Reads one family's header.
fn read_header(
    rows: &mut Vec<FamilyMethod>,
    decl: &FamilyDecl,
    enum_id: EnumId,
    log: &mut Log,
) -> (info: FamilyInfo)
    requires
        old(rows)@.len() + decl.methods@.len() <= u32::MAX,
    ensures
        header_of(info, *decl, enum_id, old(rows)@.len() as int),
        final(rows)@.len() == old(rows)@.len() + distinct_methods(
            decl.methods@,
            decl.methods@.len() as int,
        ),
        grew(old(rows)@, final(rows)@),
        rows_read(
            final(rows)@,
            old(rows)@.len() as int,
            decl.methods@,
            decl.methods@.len() as int,
            decl.source,
        ),
        final(log).source == old(log).source,
        final(log).diagnostics@ == old(log).diagnostics@ + crate::diagnostics::noted(
            old(log).source,
            header_problems(*decl),
        ),
{
    let ghost said = log.diagnostics@;
    let read = read_fields(decl, log);
    let mut member_types = read.types;
    read_results(decl, &mut member_types);
    let methods = read_methods(rows, decl, log);
    proof {
        crate::diagnostics::lemma_noted_more(
            said,
            log.source,
            untyped_requirements(decl.fields@),
            repeated_methods(decl.methods@, decl.methods@.len() as int, decl.name),
        );
    }
    FamilyInfo {
        name: decl.name,
        enum_id,
        required: read.required,
        methods,
        field_members: read.members,
        stored_fields: read.stored_fields,
        variants: Vec::new(),
        parents: Vec::new(),
        member_types,
    }
}

/// The progress of declaring families.
pub ghost struct Headers {
    /// The keys families are filed under.
    pub keys: Set<Symbol>,
    /// The owner and name of every enum.
    pub enums: Seq<(Option<Symbol>, EnumName)>,
    /// How many family methods there are.
    pub rows: int,
    /// The declarations that became families: which, their enum, and where their
    /// methods' rows begin.
    pub accepted: Seq<(int, EnumId, int)>,
    pub said: Seq<Diagnostic>,
}

/// Declaring one more family. One key is one family, and one package has one enum
/// of a name.
pub open spec fn header_step(
    before: Headers,
    imports: &ImportTable,
    decls: Seq<FamilyDecl>,
    i: int,
) -> Headers {
    let decl = decls[i];
    let owner = imports.package(decl.source);
    let name = EnumName::Family(decl.name);
    if before.keys.contains(decl.key) {
        Headers {
            said: before.said.push(
                blamed(
                    decl.source,
                    decl.name_span,
                    Problem::FamilyAlreadyDefined { family: decl.name },
                ),
            ),
            ..before
        }
    } else if before.enums.contains((owner, name)) {
        Headers {
            said: before.said.push(
                blamed(
                    decl.source,
                    decl.name_span,
                    Problem::FamilyTypeAlreadyDefined { family: decl.name },
                ),
            ),
            ..before
        }
    } else {
        Headers {
            keys: before.keys.insert(decl.key),
            enums: before.enums.push((owner, name)),
            rows: before.rows + distinct_methods(decl.methods@, decl.methods@.len() as int),
            accepted: before.accepted.push(
                (i, EnumId(before.enums.len() as u32), before.rows),
            ),
            said: before.said + crate::diagnostics::noted(decl.source, header_problems(decl)),
        }
    }
}

/// Declaring the first `count` families.
pub open spec fn headers_after(
    start: Headers,
    imports: &ImportTable,
    decls: Seq<FamilyDecl>,
    count: int,
) -> Headers
    decreases count,
{
    if count <= 0 {
        start
    } else {
        header_step(headers_after(start, imports, decls, count - 1), imports, decls, count - 1)
    }
}

/// The owner and name of every enum.
pub open spec fn enum_names(enums: Seq<EnumDef>) -> Seq<(Option<Symbol>, EnumName)> {
    enums.map_values(|def: EnumDef| (def.owner, def.name))
}

/// Where declaring families begins.
pub open spec fn headers_before(types: &TypeTable, table: &FamilyTable, log: &Log) -> Headers {
    Headers {
        keys: table.families@.dom(),
        enums: enum_names(types.enums@),
        rows: table.methods@.len() as int,
        accepted: Seq::empty(),
        said: log.diagnostics@,
    }
}

/// How many methods the first `count` families write.
pub open spec fn methods_written(decls: Seq<FamilyDecl>, count: int) -> nat
    decreases count,
{
    if count <= 0 {
        0
    } else {
        methods_written(decls, count - 1) + decls[count - 1].methods@.len()
    }
}

/// The tables after families were declared as `headers` says.
pub open spec fn headers_filed(
    types: &TypeTable,
    types_after: &TypeTable,
    table: &FamilyTable,
    table_after: &FamilyTable,
    decls: Seq<FamilyDecl>,
    headers: Headers,
) -> bool {
    &&& *types_after == (TypeTable { enums: types_after.enums, ..*types })
    &&& grew(types.enums@, types_after.enums@)
    &&& enum_names(types_after.enums@) == headers.enums
    &&& forall|i: int|
        types.enums@.len() <= i < types_after.enums@.len() ==> (
        #[trigger] types_after.enums@[i]).variants@.len() == 0
    &&& table_after.families@.dom() == headers.keys
    &&& forall|key: Symbol| #[trigger]
        table.families@.contains_key(key) ==> table_after.families@.contains_key(key)
            && table_after.families@[key] == table.families@[key]
    &&& table_after.names@ == table.names@ + headers.accepted.map_values(
        |row: (int, EnumId, int)| (row.1, decls[row.0].key),
    )
    &&& table_after.methods@.len() == headers.rows
    &&& grew(table.methods@, table_after.methods@)
    &&& forall|k: int| 0 <= k < headers.accepted.len() ==> filed(
        table_after,
        decls,
        #[trigger] headers.accepted[k],
    )
}

/// The enum of every accepted declaration is recorded in the module that declares it.
pub open spec fn modules_recorded(
    types: &TypeTable,
    imports: &ImportTable,
    decls: Seq<FamilyDecl>,
    accepted: Seq<(int, EnumId, int)>,
) -> bool {
    forall|k: int|
        0 <= k < accepted.len() ==> (#[trigger] accepted[k]).1.0 < types.enums@.len()
            && types.enums@[accepted[k].1.0 as int].module == imports.module(
            decls[accepted[k].0].source,
        )
}

/// One accepted declaration is filed as what it says.
pub open spec fn filed(table: &FamilyTable, decls: Seq<FamilyDecl>, row: (int, EnumId, int)) -> bool {
    let decl = decls[row.0];
    &&& 0 <= row.0 < decls.len()
    &&& table.families@.contains_key(decl.key)
    &&& header_of(table.families@[decl.key], decl, row.1, row.2)
    &&& 0 <= row.2
    &&& row.2 + distinct_methods(decl.methods@, decl.methods@.len() as int) <= table.methods@.len()
    &&& rows_read(
        table.methods@,
        row.2,
        decl.methods@,
        decl.methods@.len() as int,
        decl.source,
    )
}

fn enum_taken(types: &TypeTable, owner: Option<Symbol>, name: EnumName) -> (res: bool)
    ensures
        res == enum_names(types.enums@).contains((owner, name)),
{
    let ghost names = enum_names(types.enums@);
    let mut i: usize = 0;
    while i < types.enums.len()
        invariant
            i <= types.enums@.len(),
            names == enum_names(types.enums@),
            forall|k: int| 0 <= k < i ==> names[k] != (owner, name),
        decreases types.enums@.len() - i,
    {
        if types.enums[i].owner == owner && types.enums[i].name == name {
            assert(names[i as int] == (owner, name));
            return true;
        }
        i += 1;
    }
    false
}

/// Declares one empty enum per construct family and files what each family says
/// of itself.
pub fn collect_construct_family_headers(
    types: &mut TypeTable,
    table: &mut FamilyTable,
    enum_defaults: &mut Vec<Vec<Option<FieldDefault>>>,
    imports: &ImportTable,
    decls: &Vec<FamilyDecl>,
    log: &mut Log,
)
    requires
        old(table).wf(),
        old(types).enums@.len() + decls@.len() <= u32::MAX,
        old(table).methods@.len() + methods_written(decls@, decls@.len() as int) <= u32::MAX,
        old(enum_defaults)@.len() == old(types).enums@.len(),
    ensures
        final(table).wf(),
        ({
            let headers = headers_after(
                headers_before(old(types), old(table), old(log)),
                imports,
                decls@,
                decls@.len() as int,
            );
            &&& headers_filed(
                old(types),
                final(types),
                old(table),
                final(table),
                decls@,
                headers,
            )
            &&& modules_recorded(final(types), imports, decls@, headers.accepted)
            &&& final(log).diagnostics@ == headers.said
        }),
        final(log).source == if decls@.len() > 0 {
            decls@.last().source
        } else {
            old(log).source
        },
        final(enum_defaults)@.len() == final(types).enums@.len(),
        grew(old(enum_defaults)@, final(enum_defaults)@),
        forall|i: int|
            old(enum_defaults)@.len() <= i < final(enum_defaults)@.len() ==> (
            #[trigger] final(enum_defaults)@[i])@.len() == 0,
{
    let ghost start = headers_before(types, table, log);
    let mut i: usize = 0;
    proof {
        assert(table.names@ + start.accepted.map_values(
            |row: (int, EnumId, int)| (row.1, decls@[row.0].key),
        ) =~= table.names@);
    }
    while i < decls.len()
        invariant
            i <= decls@.len(),
            start == headers_before(old(types), old(table), old(log)),
            table.wf(),
            old(types).enums@.len() + decls@.len() <= u32::MAX,
            types.enums@.len() <= old(types).enums@.len() + i,
            old(table).methods@.len() + methods_written(decls@, decls@.len() as int) <= u32::MAX,
            table.methods@.len() <= old(table).methods@.len() + methods_written(decls@, i as int),
            headers_filed(
                old(types),
                types,
                old(table),
                table,
                decls@,
                headers_after(start, imports, decls@, i as int),
            ),
            modules_recorded(
                types,
                imports,
                decls@,
                headers_after(start, imports, decls@, i as int).accepted,
            ),
            log.diagnostics@ == headers_after(start, imports, decls@, i as int).said,
            log.source == if i > 0 {
                decls@[i - 1].source
            } else {
                old(log).source
            },
            enum_defaults@.len() == types.enums@.len(),
            grew(old(enum_defaults)@, enum_defaults@),
            forall|k: int|
                old(enum_defaults)@.len() <= k < enum_defaults@.len() ==> (
                #[trigger] enum_defaults@[k])@.len() == 0,
        decreases decls@.len() - i,
    {
        let decl = &decls[i];
        let ghost headers = headers_after(start, imports, decls@, i as int);
        let ghost types_before = *types;
        let ghost table_before = *table;
        log.source = decl.source;
        proof {
            lemma_written_prefix(decls@, i + 1, decls@.len() as int);
            lemma_distinct_bound(decl.methods@, decl.methods@.len() as int);
        }
        if table.families.contains(decl.key) {
            log.emit(decl.name_span, Problem::FamilyAlreadyDefined { family: decl.name });
        } else {
            let owner = imports.package_of(decl.source);
            let name = EnumName::Family(decl.name);
            if enum_taken(types, owner, name) {
                log.emit(decl.name_span, Problem::FamilyTypeAlreadyDefined { family: decl.name });
            } else {
                let enum_id = EnumId(types.enums.len() as u32);
                types.enums.push(
                    EnumDef {
                        name,
                        owner,
                        module: imports.module_of(decl.source),
                        variants: Vec::new(),
                    },
                );
                enum_defaults.push(Vec::new());
                let info = read_header(&mut table.methods, decl, enum_id, log);
                table.names.push((enum_id, decl.key));
                table.families.insert(decl.key, info);
                proof {
                    assert(types.enums@.drop_last() =~= types_before.enums@);
                    let now = headers_after(start, imports, decls@, i + 1).accepted;
                    assert forall|k: int| 0 <= k < now.len() implies (#[trigger] now[k]).1.0
                        < types.enums@.len() && types.enums@[now[k].1.0 as int].module
                        == imports.module(decls@[now[k].0].source) by {
                        if k < headers.accepted.len() {
                            assert(now[k] == headers.accepted[k]);
                        } else {
                            assert(headers.enums.len() == types_before.enums@.len());
                        }
                    }
                    lemma_header_filed(
                        old(types),
                        &types_before,
                        types,
                        old(table),
                        &table_before,
                        table,
                        imports,
                        decls@,
                        headers,
                        i as int,
                        info,
                    );
                }
            }
        }
        i += 1;
    }
}

proof fn lemma_written_prefix(decls: Seq<FamilyDecl>, some: int, all: int)
    requires
        0 <= some <= all,
    ensures
        methods_written(decls, some) <= methods_written(decls, all),
    decreases all,
{
    if some < all {
        lemma_written_prefix(decls, some, all - 1);
    }
}

/// Filing one more family keeps what was filed.
proof fn lemma_header_filed(
    types: &TypeTable,
    types_before: &TypeTable,
    types_after: &TypeTable,
    table: &FamilyTable,
    before: &FamilyTable,
    after: &FamilyTable,
    imports: &ImportTable,
    decls: Seq<FamilyDecl>,
    headers: Headers,
    i: int,
    info: FamilyInfo,
)
    requires
        0 <= i < decls.len(),
        before.wf(),
        after.methods@.len() <= u32::MAX,
        before.methods@.len() + decls[i].methods@.len() <= u32::MAX,
        types_before.enums@.len() < u32::MAX,
        headers_filed(types, types_before, table, before, decls, headers),
        !headers.keys.contains(decls[i].key),
        !headers.enums.contains(
            (imports.package(decls[i].source), EnumName::Family(decls[i].name)),
        ),
        types_after.enums@.len() == types_before.enums@.len() + 1,
        types_after.enums@.drop_last() == types_before.enums@,
        types_after.enums@.last().owner == imports.package(decls[i].source),
        types_after.enums@.last().name == EnumName::Family(decls[i].name),
        types_after.enums@.last().variants@.len() == 0,
        *types_after == (TypeTable { enums: types_after.enums, ..*types_before }),
        header_of(
            info,
            decls[i],
            EnumId(types_before.enums@.len() as u32),
            before.methods@.len() as int,
        ),
        after.methods@.len() == before.methods@.len() + distinct_methods(
            decls[i].methods@,
            decls[i].methods@.len() as int,
        ),
        grew(before.methods@, after.methods@),
        rows_read(
            after.methods@,
            before.methods@.len() as int,
            decls[i].methods@,
            decls[i].methods@.len() as int,
            decls[i].source,
        ),
        after.names@ == before.names@.push(
            (EnumId(types_before.enums@.len() as u32), decls[i].key),
        ),
        after.families.wf(),
        after.families@ == before.families@.insert(decls[i].key, info),
    ensures
        after.wf(),
        headers_filed(
            types,
            types_after,
            table,
            after,
            decls,
            header_step(headers, imports, decls, i),
        ),
{
    let next = header_step(headers, imports, decls, i);
    let decl = decls[i];
    let row = (i, EnumId(types_before.enums@.len() as u32), before.methods@.len() as int);
    assert(headers.enums.len() == types_before.enums@.len());
    assert(enum_names(types_after.enums@) =~= next.enums) by {
        assert(types_after.enums@.drop_last() =~= types_before.enums@);
        assert forall|k: int| 0 <= k < types_before.enums@.len() implies enum_names(
            types_after.enums@,
        )[k] == headers.enums[k] by {
            assert(types_after.enums@.drop_last()[k] == types_after.enums@[k]);
            assert(enum_names(types_before.enums@)[k] == headers.enums[k]);
        }
    }
    assert forall|k: int| 0 <= k < types.enums@.len() implies types_after.enums@[k]
        == types.enums@[k] by {
        assert(types_after.enums@.drop_last()[k] == types_after.enums@[k]);
    }
    assert forall|k: int| types.enums@.len() <= k < types_after.enums@.len() implies (
    #[trigger] types_after.enums@[k]).variants@.len() == 0 by {
        if k < types_before.enums@.len() {
            assert(types_after.enums@.drop_last()[k] == types_after.enums@[k]);
        }
    }
    assert(after.families@.dom() =~= next.keys);
    assert(after.names@ =~= table.names@ + next.accepted.map_values(
        |row: (int, EnumId, int)| (row.1, decls[row.0].key),
    ));
    assert forall|k: int| 0 <= k < next.accepted.len() implies filed(
        after,
        decls,
        #[trigger] next.accepted[k],
    ) by {
        if k < headers.accepted.len() {
            let old_row = headers.accepted[k];
            assert(next.accepted[k] == old_row);
            assert(filed(before, decls, old_row));
            let old_decl = decls[old_row.0];
            assert(old_decl.key != decl.key);
            assert forall|m: int|
                0 <= m < old_decl.methods@.len() && !method_named(
                    old_decl.methods@,
                    m,
                    (#[trigger] old_decl.methods@[m]).name,
                ) implies method_read(
                after.methods@[old_row.2 + distinct_methods(old_decl.methods@, m)],
                old_decl.methods@[m],
                old_decl.source,
            ) by {
                lemma_distinct_grows(old_decl.methods@, m, old_decl.methods@.len() as int);
                let at = old_row.2 + distinct_methods(old_decl.methods@, m);
                assert(after.methods@[at] == before.methods@[at]);
            }
        } else {
            assert(next.accepted[k] == row);
        }
    }
    lemma_held(decl.methods@, decl.methods@.len() as int, before.methods@.len() as int);
    lemma_distinct_bound(decl.methods@, decl.methods@.len() as int);
    assert forall|key: Symbol, name: Symbol|
        after.families@.contains_key(key) && after.families@[key].methods@.contains_key(
            name,
        ) implies (#[trigger] after.families@[key].methods@[name]).method
        < after.methods@.len() by {
        if key != decl.key {
            assert(before.families@[key].methods@[name].method < before.methods@.len());
        }
    }
    assert forall|key: Symbol| after.families@.contains_key(key) implies (
    #[trigger] after.families@[key]).wf() by {
        if key != decl.key {
            assert(before.families@[key].wf());
        }
    }
}

proof fn lemma_fields_read(fields: Seq<FamilyFieldDecl>, source: SourceId, i: int)
    requires
        0 <= i < fields.len(),
    ensures
        fields[i].required ==> required_names(fields).contains(fields[i].name),
        !fields[i].slot && (fields[i].required || fields[i].ty is Some) ==> value_members(
            fields,
        ).contains_key(fields[i].name),
        !fields[i].required ==> stored(fields, source).contains(
            StoredField {
                name: fields[i].name,
                ty: fields[i].ty,
                default: fields[i].default,
                source,
                slot: fields[i].slot,
                mutable: fields[i].mutable,
            },
        ),
        fields[i].ty is Some ==> field_types(fields, source).contains_key(fields[i].name),
        untyped_requirements(fields).len() == 0 ==> !(fields[i].required && fields[i].ty is None),
    decreases fields.len(),
{
    let rest = fields.drop_last();
    let entry = StoredField {
        name: fields[i].name,
        ty: fields[i].ty,
        default: fields[i].default,
        source,
        slot: fields[i].slot,
        mutable: fields[i].mutable,
    };
    if i < rest.len() {
        lemma_fields_read(rest, source, i);
        assert(rest[i] == fields[i]);
        if fields[i].required {
            let before = required_names(rest);
            let k = choose|k: int| 0 <= k < before.len() && before[k] == fields[i].name;
            assert(required_names(fields)[k] == fields[i].name);
        } else {
            let before = stored(rest, source);
            let k = choose|k: int| 0 <= k < before.len() && before[k] == entry;
            assert(stored(fields, source)[k] == entry);
        }
    } else {
        if fields[i].required {
            let all = required_names(fields);
            assert(all[all.len() - 1] == fields[i].name);
        } else {
            let all = stored(fields, source);
            assert(all[all.len() - 1] == entry);
        }
    }
}

proof fn lemma_fields_only(fields: Seq<FamilyFieldDecl>, source: SourceId, name: Symbol)
    ensures
        required_names(fields).contains(name) ==> exists|i: int|
            0 <= i < fields.len() && (#[trigger] fields[i]).name == name && fields[i].required,
        value_members(fields).contains_key(name) ==> exists|i: int|
            0 <= i < fields.len() && (#[trigger] fields[i]).name == name && !fields[i].slot && (
            fields[i].required || fields[i].ty is Some),
        stored(fields, source).len() <= fields.len(),
        forall|k: int|
            #![trigger stored(fields, source)[k]]
            0 <= k < stored(fields, source).len() ==> exists|i: int|
                0 <= i < fields.len() && (#[trigger] fields[i]).name == stored(fields, source)[k].name
                    && !fields[i].required,
    decreases fields.len(),
{
    if fields.len() > 0 {
        let rest = fields.drop_last();
        lemma_fields_only(rest, source, name);
        assert forall|i: int| 0 <= i < rest.len() implies #[trigger] rest[i] == fields[i] by {}
        if required_names(fields).contains(name) {
            let all = required_names(fields);
            let k = choose|k: int| 0 <= k < all.len() && all[k] == name;
            if k < required_names(rest).len() {
                assert(required_names(rest)[k] == name);
                let i = choose|i: int|
                    0 <= i < rest.len() && (#[trigger] rest[i]).name == name && rest[i].required;
                assert(fields[i].name == name);
            } else {
                assert(fields[fields.len() - 1].name == name);
            }
        }
        if value_members(fields).contains_key(name) {
            if value_members(rest).contains_key(name) {
                let i = choose|i: int|
                    0 <= i < rest.len() && (#[trigger] rest[i]).name == name && !rest[i].slot && (
                    rest[i].required || rest[i].ty is Some);
                assert(fields[i].name == name);
            } else {
                assert(fields[fields.len() - 1].name == name);
            }
        }
        assert forall|k: int|
            #![trigger stored(fields, source)[k]]
            0 <= k < stored(fields, source).len() implies exists|i: int|
            0 <= i < fields.len() && (#[trigger] fields[i]).name == stored(fields, source)[k].name
                && !fields[i].required by {
            if k < stored(rest, source).len() {
                assert(stored(fields, source)[k] == stored(rest, source)[k]);
                let i = choose|i: int|
                    0 <= i < rest.len() && (#[trigger] rest[i]).name == stored(rest, source)[k].name
                        && !rest[i].required;
                assert(fields[i].name == rest[i].name);
            } else {
                assert(fields[fields.len() - 1].name == stored(fields, source)[k].name);
            }
        }
    }
}

/// A family's header records every `let` it writes: a required one as a name each backed
/// declaration must present, any other as a stored field with the type, default, slot mark
/// and mutability it was written with; and one that is no child slot as a value member,
/// where it is required or has a type. It records nothing else. A header that reports
/// nothing wrote a type for every required `let`.
pub proof fn a_header_records_every_let(
    info: FamilyInfo,
    decl: FamilyDecl,
    enum_id: EnumId,
    base: int,
    i: int,
    name: Symbol,
)
    requires
        header_of(info, decl, enum_id, base),
    ensures
        ({
            let fields = decl.fields@;
            &&& 0 <= i < fields.len() && fields[i].required ==> info.required@.contains(
                fields[i].name,
            )
            &&& 0 <= i < fields.len() && !fields[i].required ==> info.stored_fields@.contains(
                StoredField {
                    name: fields[i].name,
                    ty: fields[i].ty,
                    default: fields[i].default,
                    source: decl.source,
                    slot: fields[i].slot,
                    mutable: fields[i].mutable,
                },
            )
            &&& 0 <= i < fields.len() && !fields[i].slot && (fields[i].required || fields[i].ty
                is Some) ==> info.field_members@.contains_key(fields[i].name)
            &&& info.required@.contains(name) ==> exists|k: int|
                0 <= k < fields.len() && (#[trigger] fields[k]).name == name && fields[k].required
            &&& info.field_members@.contains_key(name) ==> exists|k: int|
                0 <= k < fields.len() && (#[trigger] fields[k]).name == name && !fields[k].slot && (
                fields[k].required || fields[k].ty is Some)
            &&& header_problems(decl).len() == 0 && 0 <= i < fields.len() && fields[i].required
                ==> fields[i].ty is Some
            &&& info.enum_id == enum_id
            &&& info.name == decl.name
        }),
{
    let fields = decl.fields@;
    lemma_fields_only(fields, decl.source, name);
    if 0 <= i < fields.len() {
        lemma_fields_read(fields, decl.source, i);
        let a = untyped_requirements(fields);
        let b = repeated_methods(decl.methods@, decl.methods@.len() as int, decl.name);
        assert((a + b).len() == a.len() + b.len());
    }
}

proof fn lemma_held_methods(methods: Seq<FamilyMethodDecl>, count: int, base: int, name: Symbol)
    requires
        0 <= count <= methods.len(),
    ensures
        held_methods(methods, count, base).contains_key(name) <==> exists|i: int|
            0 <= i < count && (#[trigger] methods[i]).name == name,
        held_methods(methods, count, base).contains_key(name) ==> !held_methods(
            methods,
            count,
            base,
        )[name].uniform && held_methods(methods, count, base)[name].dispatcher is None,
    decreases count,
{
    if count > 0 {
        lemma_held_methods(methods, count - 1, base, name);
        if methods[count - 1].name == name {
            assert(methods[count - 1].name == name);
            if method_named(methods, count - 1, name) {
                let i = choose|i: int| 0 <= i < count - 1 && (#[trigger] methods[i]).name == name;
                assert(methods[i].name == name);
            }
        }
    }
}

proof fn lemma_repeated(methods: Seq<FamilyMethodDecl>, count: int, family: Symbol, i: int, j: int)
    requires
        0 <= i < j < count <= methods.len(),
        methods[i].name == methods[j].name,
    ensures
        repeated_methods(methods, count, family).len() > 0,
    decreases count,
{
    if j < count - 1 {
        lemma_repeated(methods, count - 1, family, i, j);
    } else {
        assert(method_named(methods, count - 1, methods[count - 1].name));
    }
}

proof fn lemma_held_first(methods: Seq<FamilyMethodDecl>, count: int, base: int, k: int)
    requires
        0 <= k < count <= methods.len(),
        forall|i: int| 0 <= i < k ==> (#[trigger] methods[i]).name != methods[k].name,
    ensures
        held_methods(methods, count, base).contains_key(methods[k].name),
        held_methods(methods, count, base)[methods[k].name].method == (base + distinct_methods(
            methods,
            k,
        )) as u32,
    decreases count,
{
    if k < count - 1 {
        lemma_held_first(methods, count - 1, base, k);
        if methods[count - 1].name == methods[k].name {
            assert(methods[k].name == methods[count - 1].name);
            assert(method_named(methods, count - 1, methods[count - 1].name));
        }
    } else {
        assert(!method_named(methods, k, methods[k].name));
    }
}

/// A family that is filed holds every method it writes, the first of a repeated name, as
/// one each of its declarations implements; and the row of that method says of it what
/// was written.
pub proof fn a_filed_family_holds_its_methods(
    table: &FamilyTable,
    decls: Seq<FamilyDecl>,
    row: (int, EnumId, int),
    k: int,
)
    requires
        filed(table, decls, row),
        table.methods@.len() <= u32::MAX,
        0 <= k < decls[row.0].methods@.len(),
        forall|i: int|
            0 <= i < k ==> (#[trigger] decls[row.0].methods@[i]).name
                != decls[row.0].methods@[k].name,
    ensures
        ({
            let decl = decls[row.0];
            let written = decl.methods@[k];
            let held = table.families@[decl.key].methods@;
            let method = table.methods@[held[written.name].method as int];
            &&& held.contains_key(written.name)
            &&& !held[written.name].uniform
            &&& held[written.name].method < table.methods@.len()
            &&& method.required == written.required
            &&& method.computed == written.computed
            &&& method.written_result == written.result
            &&& method.mutates_self == written.mutates_self
            &&& method.written@ == written.params@
            &&& method.source == decl.source
            &&& header_problems(decl).len() == 0 ==> forall|j: int|
                0 <= j < decl.methods@.len() && j != k ==> (#[trigger] decl.methods@[j]).name
                    != written.name
        }),
{
    let decl = decls[row.0];
    let methods = decl.methods@;
    let count = methods.len() as int;
    lemma_held_first(methods, count, row.2, k);
    lemma_held_methods(methods, count, row.2, methods[k].name);
    lemma_distinct_within(methods, k, count);
    assert(!method_named(methods, k, methods[k].name));
    assert(method_read(
        table.methods@[row.2 + distinct_methods(methods, k)],
        methods[k],
        decl.source,
    ));
    if header_problems(decl).len() == 0 {
        let a = untyped_requirements(decl.fields@);
        let b = repeated_methods(methods, count, decl.name);
        assert((a + b).len() == a.len() + b.len());
        assert forall|j: int| 0 <= j < count && j != k implies (#[trigger] methods[j]).name
            != methods[k].name by {
            if methods[j].name == methods[k].name {
                if j < k {
                    lemma_repeated(methods, count, decl.name, j, k);
                } else {
                    lemma_repeated(methods, count, decl.name, k, j);
                }
            }
        }
    }
}

proof fn lemma_distinct_within(methods: Seq<FamilyMethodDecl>, k: int, count: int)
    requires
        0 <= k < count <= methods.len(),
        forall|i: int| 0 <= i < k ==> (#[trigger] methods[i]).name != methods[k].name,
    ensures
        distinct_methods(methods, k) < distinct_methods(methods, count),
    decreases count,
{
    if k < count - 1 {
        lemma_distinct_within(methods, k, count - 1);
    } else {
        assert(!method_named(methods, k, methods[k].name));
    }
}

/// A declared family is accepted exactly if no family is filed under its key and its
/// package has no enum under its name yet; it then gets the next enum, and otherwise it is
/// refused and changes nothing.
pub proof fn a_free_family_is_accepted(
    before: Headers,
    imports: &ImportTable,
    decls: Seq<FamilyDecl>,
    i: int,
)
    requires
        before.enums.len() < u32::MAX,
    ensures
        ({
            let decl = decls[i];
            let after = header_step(before, imports, decls, i);
            let free = !before.keys.contains(decl.key) && !before.enums.contains(
                (imports.package(decl.source), EnumName::Family(decl.name)),
            );
            &&& free ==> after.keys == before.keys.insert(decl.key)
            &&& free ==> after.accepted.len() == before.accepted.len() + 1
            &&& free ==> after.accepted.last().0 == i
            &&& free ==> after.accepted.last().1.0 == before.enums.len()
            &&& free ==> after.enums == before.enums.push(
                (imports.package(decl.source), EnumName::Family(decl.name)),
            )
            &&& !free ==> after.accepted == before.accepted && after.keys == before.keys
                && after.enums == before.enums && after.rows == before.rows && after.said.len()
                == before.said.len() + 1
        }),
{
}

proof fn lemma_headers(start: Headers, imports: &ImportTable, decls: Seq<FamilyDecl>, count: int)
    requires
        0 <= count <= decls.len(),
    ensures
        headers_after(start, imports, decls, count).said.len() >= start.said.len(),
        headers_after(start, imports, decls, count).accepted.len() + headers_after(
            start,
            imports,
            decls,
            count,
        ).said.len() >= start.accepted.len() + start.said.len() + count,
        headers_after(start, imports, decls, count).said.len() == start.said.len() ==> (forall|
            k: int,
        |
            0 <= k < count ==> (#[trigger] headers_after(start, imports, decls, count).accepted[
            start.accepted.len() + k]).0 == k) && headers_after(
            start,
            imports,
            decls,
            count,
        ).accepted.len() == start.accepted.len() + count,
    decreases count,
{
    if count > 0 {
        lemma_headers(start, imports, decls, count - 1);
    }
}

/// Every family the program declares is accepted or reported; and where nothing is
/// reported every one of them is accepted, in order.
pub proof fn every_family_is_accepted_or_reported(
    start: Headers,
    imports: &ImportTable,
    decls: Seq<FamilyDecl>,
    k: int,
)
    requires
        0 <= k < decls.len(),
    ensures
        ({
            let after = headers_after(start, imports, decls, decls.len() as int);
            &&& after.accepted.len() + after.said.len() >= start.accepted.len() + start.said.len()
                + decls.len()
            &&& after.said.len() == start.said.len() ==> after.accepted.len()
                == start.accepted.len() + decls.len() && after.accepted[start.accepted.len()
                + k].0 == k
        }),
{
    lemma_headers(start, imports, decls, decls.len() as int);
    let after = headers_after(start, imports, decls, decls.len() as int);
    if after.said.len() == start.said.len() {
        assert(after.accepted[start.accepted.len() + k].0 == k);
    }
}

/// An accepted family is filed under its key, as the enum it was given, and that enum
/// stands for it; families filed before stay as they were.
pub proof fn an_accepted_family_is_filed(
    types: &TypeTable,
    types_after: &TypeTable,
    table: &FamilyTable,
    table_after: &FamilyTable,
    decls: Seq<FamilyDecl>,
    headers: Headers,
    k: int,
    key: Symbol,
)
    requires
        headers_filed(types, types_after, table, table_after, decls, headers),
        0 <= k < headers.accepted.len(),
    ensures
        table_after.families@.contains_key(decls[headers.accepted[k].0].key),
        table_after.families@[decls[headers.accepted[k].0].key].enum_id == headers.accepted[k].1,
        table_after.names@.contains((headers.accepted[k].1, decls[headers.accepted[k].0].key)),
        table.families@.contains_key(key) ==> table_after.families@.contains_pair(
            key,
            table.families@[key],
        ),
{
    assert(filed(table_after, decls, headers.accepted[k]));
    assert(table_after.names@[table.names@.len() + k] == (
        headers.accepted[k].1,
        decls[headers.accepted[k].0].key,
    ));
}

/// A family's method is recorded as written, in its own file, with nothing of it resolved
/// yet.
pub proof fn a_family_method_is_recorded_as_written(
    method: FamilyMethod,
    decl: FamilyMethodDecl,
    source: SourceId,
    k: int,
)
    requires
        method_read(method, decl, source),
    ensures
        method.required == decl.required,
        method.computed == decl.computed,
        method.source == source,
        method.name_span == decl.name_span,
        method.written_result == decl.result,
        method.mutates_self == decl.mutates_self,
        method.execution == decl.execution,
        method.written@.len() == decl.params@.len(),
        0 <= k < decl.params@.len() ==> method.written@[k] == decl.params@[k],
        method.params@.len() == 0,
        method.defaults@.len() == 0,
        method.result == crate::ty::Type::Error,
{
}

/// A family begins without declarations and without anything above it.
pub proof fn a_new_family_is_alone(
    info: FamilyInfo,
    decl: FamilyDecl,
    enum_id: EnumId,
    base: int,
)
    requires
        header_of(info, decl, enum_id, base),
    ensures
        info.variants@.len() == 0,
        info.parents@.len() == 0,
        info.name == decl.name,
{
}

proof fn lemma_field_typed(fields: Seq<FamilyFieldDecl>, source: SourceId, i: int)
    requires
        0 <= i < fields.len(),
        fields[i].ty is Some,
        forall|j: int|
            i < j < fields.len() ==> (#[trigger] fields[j]).name != fields[i].name || fields[j].ty
                is None,
    ensures
        field_types(fields, source).contains_pair(fields[i].name, (fields[i].ty->0, source)),
    decreases fields.len(),
{
    if i < fields.len() - 1 {
        let rest = fields.drop_last();
        assert(rest[i] == fields[i]);
        assert forall|j: int| i < j < rest.len() implies (#[trigger] rest[j]).name != rest[i].name
            || rest[j].ty is None by {
            assert(rest[j] == fields[j]);
        }
        lemma_field_typed(rest, source, i);
        assert(fields[fields.len() - 1].name != fields[i].name || fields[fields.len() - 1].ty
            is None);
    }
}

proof fn lemma_member_typed(
    fields: Seq<FamilyFieldDecl>,
    methods: Seq<FamilyMethodDecl>,
    source: SourceId,
    name: Symbol,
    ty: TypeRefId,
)
    requires
        field_types(fields, source).contains_pair(name, (ty, source)),
        forall|j: int|
            0 <= j < methods.len() ==> (#[trigger] methods[j]).name != name || methods[j].result
                is None,
    ensures
        written_types(fields, methods, source).contains_pair(name, (ty, source)),
    decreases methods.len(),
{
    if methods.len() > 0 {
        let rest = methods.drop_last();
        assert forall|j: int| 0 <= j < rest.len() implies (#[trigger] rest[j]).name != name
            || rest[j].result is None by {
            assert(rest[j] == methods[j]);
        }
        lemma_member_typed(fields, rest, source, name, ty);
        assert(methods[methods.len() - 1].name != name || methods[methods.len() - 1].result
            is None);
    }
}

proof fn lemma_result_typed(
    fields: Seq<FamilyFieldDecl>,
    methods: Seq<FamilyMethodDecl>,
    source: SourceId,
    m: int,
)
    requires
        0 <= m < methods.len(),
        methods[m].result is Some,
        forall|j: int|
            m < j < methods.len() ==> (#[trigger] methods[j]).name != methods[m].name
                || methods[j].result is None,
    ensures
        written_types(fields, methods, source).contains_pair(
            methods[m].name,
            (methods[m].result->0, source),
        ),
    decreases methods.len(),
{
    if m < methods.len() - 1 {
        let rest = methods.drop_last();
        assert(rest[m] == methods[m]);
        assert forall|j: int| m < j < rest.len() implies (#[trigger] rest[j]).name != rest[m].name
            || rest[j].result is None by {
            assert(rest[j] == methods[j]);
        }
        lemma_result_typed(fields, rest, source, m);
        assert(methods[methods.len() - 1].name != methods[m].name
            || methods[methods.len() - 1].result is None);
    }
}

/// A family's header records the type each of its members was written with, in the
/// family's own file: a method's result, and a `let`'s type where no method of its name
/// states one.
pub proof fn a_header_records_written_types(
    info: FamilyInfo,
    decl: FamilyDecl,
    enum_id: EnumId,
    base: int,
    i: int,
)
    requires
        header_of(info, decl, enum_id, base),
    ensures
        ({
            let methods = decl.methods@;
            0 <= i < methods.len() && methods[i].result is Some && (forall|j: int|
                i < j < methods.len() ==> (#[trigger] methods[j]).name != methods[i].name
                    || methods[j].result is None) ==> info.member_types@.contains_pair(
                methods[i].name,
                (methods[i].result->0, decl.source),
            )
        }),
        ({
            let fields = decl.fields@;
            let methods = decl.methods@;
            0 <= i < fields.len() && fields[i].ty is Some && (forall|j: int|
                i < j < fields.len() ==> (#[trigger] fields[j]).name != fields[i].name
                    || fields[j].ty is None) && (forall|j: int|
                0 <= j < methods.len() ==> (#[trigger] methods[j]).name != fields[i].name
                    || methods[j].result is None) ==> info.member_types@.contains_pair(
                fields[i].name,
                (fields[i].ty->0, decl.source),
            )
        }),
{
    let fields = decl.fields@;
    let methods = decl.methods@;
    if 0 <= i < methods.len() && methods[i].result is Some && (forall|j: int|
        i < j < methods.len() ==> (#[trigger] methods[j]).name != methods[i].name
            || methods[j].result is None) {
        lemma_result_typed(fields, methods, decl.source, i);
    }
    if 0 <= i < fields.len() && fields[i].ty is Some && (forall|j: int|
        i < j < fields.len() ==> (#[trigger] fields[j]).name != fields[i].name || fields[j].ty
            is None) && (forall|j: int|
        0 <= j < methods.len() ==> (#[trigger] methods[j]).name != fields[i].name
            || methods[j].result is None) {
        lemma_field_typed(fields, decl.source, i);
        lemma_member_typed(fields, methods, decl.source, fields[i].name, fields[i].ty->0);
    }
}

/// An accepted family's enum belongs to the module of the file that declares the family.
pub proof fn a_familys_enum_has_its_module(
    types: &TypeTable,
    imports: &ImportTable,
    decls: Seq<FamilyDecl>,
    accepted: Seq<(int, EnumId, int)>,
    k: int,
)
    requires
        modules_recorded(types, imports, decls, accepted),
        0 <= k < accepted.len(),
    ensures
        accepted[k].1.0 < types.enums@.len(),
        types.enums@[accepted[k].1.0 as int].module == imports.module(decls[accepted[k].0].source),
{
    assert(accepted[k].1.0 < types.enums@.len());
}

} // verus!
