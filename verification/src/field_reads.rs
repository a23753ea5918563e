//! Resolving a field on a type.
//!
//! Quiet and loud resolution stand together so that the difference between them
//! stays one function apart: a speculative lookup must not report, and a real one
//! must.

use vstd::prelude::*;

use crate::diagnostics::{Log, Problem};
use crate::fn_types::FnTypeTable;
use crate::names::Symbol;
use crate::source::Span;
use crate::ty::{FieldDef, FieldName, Type, TypeTable};

verus! {

/// The first of `fields` from `from` on that is stored as `name`.
pub open spec fn field_from(fields: Seq<FieldDef>, name: Symbol, from: int) -> Option<u32>
    decreases fields.len() - from,
{
    if from < 0 || from >= fields.len() {
        None
    } else if fields[from].name == FieldName::Plain(name) {
        Some(from as u32)
    } else {
        field_from(fields, name, from + 1)
    }
}

/// The field `name` means on a value of type `ty`: none on a function value, whose
/// representation is nobody's to read.
pub open spec fn field_of(
    types: &TypeTable,
    fn_types: &FnTypeTable,
    ty: Type,
    name: Symbol,
) -> Option<u32> {
    match ty {
        Type::Struct(id) if fn_types.function_repr(ty) is None => field_from(
            types.fields(id),
            name,
            0,
        ),
        _ => None,
    }
}

fn find_field(fields: &Vec<FieldDef>, name: Symbol) -> (found: Option<u32>)
    requires
        fields@.len() <= u32::MAX,
    ensures
        found == field_from(fields@, name, 0),
        found matches Some(index) ==> index < fields@.len(),
{
    let mut i: usize = 0;
    while i < fields.len()
        invariant
            i <= fields@.len() <= u32::MAX,
            field_from(fields@, name, 0) == field_from(fields@, name, i as int),
        decreases fields@.len() - i,
    {
        if fields[i].name == FieldName::Plain(name) {
            return Some(i as u32);
        }
        i += 1;
    }
    None
}

/// Whether a value of type `ty` has a field `name`, reporting nothing.
///
/// For a diagnostic that needs to know, not for resolving one.
pub fn resolve_field_quietly(
    types: &TypeTable,
    fn_types: &FnTypeTable,
    ty: Type,
    name: Symbol,
) -> (res: bool)
    requires
        forall|i: int|
            0 <= i < types.structs@.len() ==> (#[trigger] types.structs@[i]).fields@.len()
                <= u32::MAX,
    ensures
        res == (field_of(types, fn_types, ty, name) is Some),
{
    if fn_types.as_function_type(ty).is_some() {
        return false;
    }
    match ty {
        Type::Struct(id) => if (id.0 as usize) < types.structs.len() {
            find_field(&types.structs[id.0 as usize].fields, name).is_some()
        } else {
            false
        },
        _ => false,
    }
}

/// What a field read that resolves to nothing is refused for.
pub open spec fn field_problem(fn_types: &FnTypeTable, ty: Type, field: Symbol) -> Option<Problem> {
    match ty {
        Type::Error => None,
        Type::Struct(_) => Some(
            if fn_types.function_repr(ty) is Some {
                Problem::FunctionHasNoMembers { ty }
            } else {
                Problem::NoSuchField { ty, field }
            },
        ),
        _ => Some(Problem::HasNoFields { ty, field }),
    }
}

/// Resolves `name` as a field of a value of type `ty`, giving its index and type.
///
/// A base that already failed stays silent, because whatever produced it spoke.
pub fn resolve_field(
    types: &TypeTable,
    fn_types: &FnTypeTable,
    ty: Type,
    name: Symbol,
    span: Span,
    log: &mut Log,
) -> (found: Option<(u32, Type)>)
    requires
        forall|i: int|
            0 <= i < types.structs@.len() ==> (#[trigger] types.structs@[i]).fields@.len()
                <= u32::MAX,
    ensures
        final(log).source == old(log).source,
        match field_of(types, fn_types, ty, name) {
            Some(index) => {
                &&& found == Some((index, types.fields(ty->Struct_0)[index as int].ty))
                &&& index < types.fields(ty->Struct_0).len()
                &&& final(log).quiet(old(log))
            },
            None => {
                &&& found is None
                &&& match field_problem(fn_types, ty, name) {
                    Some(problem) => final(log).reported(
                        old(log),
                        old(log).source,
                        span,
                        problem,
                    ),
                    None => final(log).quiet(old(log)),
                }
            },
        },
{
    match ty {
        Type::Struct(id) => {
            if fn_types.as_function_type(ty).is_some() {
                log.emit(span, Problem::FunctionHasNoMembers { ty });
                return None;
            }
            if (id.0 as usize) < types.structs.len() {
                let fields = &types.structs[id.0 as usize].fields;
                if let Some(index) = find_field(fields, name) {
                    return Some((index, fields[index as usize].ty));
                }
            }
            log.emit(span, Problem::NoSuchField { ty, field: name });
            None
        },
        Type::Error => None,
        _ => {
            log.emit(span, Problem::HasNoFields { ty, field: name });
            None
        },
    }
}

/// A function value has no members, whatever its representation stores: its fields
/// are never published as surface.
pub proof fn a_function_value_has_no_fields(
    types: &TypeTable,
    fn_types: &FnTypeTable,
    ty: Type,
    name: Symbol,
)
    requires
        fn_types.function_repr(ty) is Some,
    ensures
        field_of(types, fn_types, ty, name) is None,
        field_problem(fn_types, ty, name) == Some(Problem::FunctionHasNoMembers { ty }),
{
}

proof fn lemma_field_first(fields: Seq<FieldDef>, name: Symbol, from: int)
    requires
        0 <= from <= fields.len() <= u32::MAX,
    ensures
        match field_from(fields, name, from) {
            Some(at) => from <= at < fields.len() && fields[at as int].name == FieldName::Plain(
                name,
            ) && forall|k: int|
                from <= k < at ==> (#[trigger] fields[k]).name != FieldName::Plain(name),
            None => forall|k: int|
                from <= k < fields.len() ==> (#[trigger] fields[k]).name != FieldName::Plain(name),
        },
    decreases fields.len() - from,
{
    if from < fields.len() && fields[from].name != FieldName::Plain(name) {
        lemma_field_first(fields, name, from + 1);
    }
}

/// A field read reaches the first field stored under the name, on a struct that is no
/// function's; and it is refused exactly where there is none on a value that analyzed
/// cleanly.
pub proof fn a_field_is_the_first_of_its_name(
    types: &TypeTable,
    fn_types: &FnTypeTable,
    id: crate::ty::StructId,
    name: Symbol,
    k: int,
)
    requires
        fn_types.function_repr(Type::Struct(id)) is None,
        types.fields(id).len() <= u32::MAX,
    ensures
        match field_of(types, fn_types, Type::Struct(id), name) {
            Some(at) => at < types.fields(id).len() && types.fields(id)[at as int].name
                == FieldName::Plain(name) && (0 <= k < at ==> types.fields(id)[k].name
                != FieldName::Plain(name)),
            None => 0 <= k < types.fields(id).len() ==> types.fields(id)[k].name
                != FieldName::Plain(name),
        },
        field_problem(fn_types, Type::Struct(id), name) == Some(
            Problem::NoSuchField { ty: Type::Struct(id), field: name },
        ),
{
    lemma_field_first(types.fields(id), name, 0);
}

/// Only a struct has fields, and only an expression that failed already is refused in
/// silence.
pub proof fn only_a_struct_has_fields(
    types: &TypeTable,
    fn_types: &FnTypeTable,
    ty: Type,
    name: Symbol,
)
    requires
        !(ty is Struct),
    ensures
        field_of(types, fn_types, ty, name) is None,
        field_problem(fn_types, ty, name) is None <==> ty == Type::Error,
        ty != Type::Error ==> field_problem(fn_types, ty, name) == Some(
            Problem::HasNoFields { ty, field: name },
        ),
{
}

} // verus!
