//! Defining one construct-backed declaration as a struct: its construction
//! inputs, stored members, child slots, and the family surface it inherits.

use vstd::prelude::*;

use crate::diagnostics::{blamed, Diagnostic, Log, Problem};
use crate::families::{
    construct_row, names_list, ConstructInfo, ConstructTable, ContentSlot, FamilyInfo,
    FamilyMethod, FamilyTable, MethodEntry, StoredField,
};
use crate::family_variants::{
    only_variants, reachable_families, register_family_variant, tags_joined, variant_lists,
    variant_room, variants_joined,
};
use crate::lists::copied;
use crate::names::Symbol;
use crate::source::{SourceId, Span};
use crate::symbol_map::{lemma_row, SymbolMap};
use crate::syntax::{ExprId, FieldDefault, TypeRefId, TypeRefs};
use crate::ty::{interned, row_of, FieldDef, FieldName, StructId, Type, TypeTable};

verus! {

/// One construction input of a backed declaration as written.
#[derive(Clone, Copy, PartialEq, Eq, Structural, Debug)]
pub struct BackedParam {
    pub name: Symbol,
    pub name_span: Span,
    pub ty: TypeRefId,
    pub default: Option<ExprId>,
}

/// One `let` member of a backed declaration as written.
#[derive(Clone, Copy, PartialEq, Eq, Structural, Debug)]
pub struct BackedField {
    pub name: Symbol,
    pub name_span: Span,
    pub ty: Option<TypeRefId>,
    pub default: Option<ExprId>,
    /// Whether it is a child slot.
    pub slot: bool,
    pub mutable: bool,
}

/// One method member of a backed declaration as written.
#[derive(Clone, Copy, PartialEq, Eq, Structural, Debug)]
pub struct BackedMethod {
    pub name: Symbol,
    pub name_span: Span,
    /// The member's whole spelling: its name and what it takes.
    pub key: Symbol,
    pub required: bool,
    pub computed: bool,
}

/// One construct-backed declaration as written.
#[derive(Debug)]
pub struct BackedDecl {
    pub source: SourceId,
    pub name: Symbol,
    pub name_span: Span,
    /// The family as written.
    pub family: Symbol,
    pub family_span: Span,
    /// The key of the family that name reaches, when it reaches one.
    pub key: Option<Symbol>,
    pub params: Vec<BackedParam>,
    pub fields: Vec<BackedField>,
    pub methods: Vec<BackedMethod>,
    /// Members recorded and not executable yet, each with what it is called.
    pub deferred: Vec<(Span, Symbol)>,
}

impl BackedDecl {
    /// What every family table is asked with: the key, or the name as written.
    pub open spec fn family_name(&self) -> Symbol {
        match self.key {
            Some(key) => key,
            None => self.family,
        }
    }

    /// The family the declaration is backed by, where it reaches one.
    pub open spec fn surface(&self, table: &FamilyTable) -> Option<FamilyInfo> {
        match self.key {
            Some(key) => table.info(key),
            None => None,
        }
    }
}

/// The layout a declaration has been given so far.
#[verifier::ext_equal]
pub struct Layout {
    pub fields: Seq<FieldDef>,
    pub defaults: Seq<Option<FieldDefault>>,
    pub slots: Seq<ContentSlot>,
    /// The member names used so far, each once.
    pub seen: Seq<Symbol>,
    /// The array types of the program.
    pub arrays: Seq<Type>,
    pub said: Seq<Diagnostic>,
}

/// `names` with `name` among them.
pub open spec fn with_name(names: Seq<Symbol>, name: Symbol) -> Seq<Symbol> {
    if names.contains(name) {
        names
    } else {
        names.push(name)
    }
}

/// A layout that has taken the name of one more member, reporting it when the
/// declaration already used it.
pub open spec fn member_noted(
    layout: Layout,
    source: SourceId,
    name: Symbol,
    span: Span,
) -> Layout {
    Layout {
        seen: with_name(layout.seen, name),
        said: if layout.seen.contains(name) {
            layout.said.push(
                blamed(source, span, Problem::ConstructMemberRepeated { member: name }),
            )
        } else {
            layout.said
        },
        ..layout
    }
}

/// A default as written in `source`.
pub open spec fn default_in(default: Option<ExprId>, source: SourceId) -> Option<FieldDefault> {
    match default {
        Some(syntax) => Some(FieldDefault::written(syntax, source)),
        None => None,
    }
}

/// A layout with one more field.
pub open spec fn field_added(
    layout: Layout,
    name: Symbol,
    ty: Type,
    mutable: bool,
    default: Option<FieldDefault>,
) -> Layout {
    Layout {
        fields: layout.fields.push(FieldDef { name: FieldName::Plain(name), ty, mutable }),
        defaults: layout.defaults.push(default),
        ..layout
    }
}

/// The type a slot field stores: an array of the element where the slot was
/// written as a list, and the element itself otherwise.
pub open spec fn slot_type(layout: Layout, refs: &TypeRefs, written: TypeRefId) -> Type {
    let meaning = refs.meaning(written);
    match meaning.list_of {
        Some(element) => Type::Array(row_of(layout.arrays, element) as u32),
        None => meaning.ty,
    }
}

/// A layout that has one more child slot, its field still to be added.
pub open spec fn slot_recorded(
    layout: Layout,
    refs: &TypeRefs,
    written: TypeRefId,
    name: Symbol,
    has_default: bool,
) -> Layout {
    let meaning = refs.meaning(written);
    Layout {
        slots: layout.slots.push(
            ContentSlot {
                field_index: layout.fields.len() as u32,
                name,
                list: meaning.list_of is Some,
                element_ty: match meaning.list_of {
                    Some(element) => element,
                    None => meaning.ty,
                },
                field_ty: slot_type(layout, refs, written),
                has_default,
            },
        ),
        arrays: match meaning.list_of {
            Some(element) => interned(layout.arrays, element),
            None => layout.arrays,
        },
        ..layout
    }
}

/// The layout after one construction input.
pub open spec fn param_laid(
    layout: Layout,
    refs: &TypeRefs,
    source: SourceId,
    param: BackedParam,
) -> Layout {
    field_added(
        member_noted(layout, source, param.name, param.name_span),
        param.name,
        refs.meaning(param.ty).ty,
        false,
        default_in(param.default, source),
    )
}

/// The layout after one of the declaration's own `let` members.
pub open spec fn field_laid(
    layout: Layout,
    refs: &TypeRefs,
    source: SourceId,
    field: BackedField,
) -> Layout {
    let noted = member_noted(layout, source, field.name, field.name_span);
    let default = default_in(field.default, source);
    match (field.slot, field.ty) {
        (true, Some(written)) => field_added(
            slot_recorded(noted, refs, written, field.name, field.default is Some),
            field.name,
            slot_type(noted, refs, written),
            field.mutable,
            default,
        ),
        (true, None) => field_added(
            Layout {
                said: noted.said.push(
                    blamed(source, field.name_span, Problem::SlotNeedsType { slot: field.name }),
                ),
                ..noted
            },
            field.name,
            Type::Error,
            field.mutable,
            default,
        ),
        (false, Some(written)) => field_added(
            noted,
            field.name,
            refs.meaning(written).ty,
            field.mutable,
            default,
        ),
        (false, None) => field_added(noted, field.name, Type::Error, field.mutable, default),
    }
}

/// The layout after one stored member of the family: unchanged where the
/// declaration has a member of that name, and otherwise with the family's field
/// and its default.
pub open spec fn stored_laid(
    layout: Layout,
    refs: &TypeRefs,
    family: Symbol,
    family_span: Span,
    stored: StoredField,
) -> Layout {
    if layout.seen.contains(stored.name) {
        layout
    } else {
        let joined = Layout { seen: layout.seen.push(stored.name), ..layout };
        let default = default_in(stored.default, stored.source);
        match (stored.slot, stored.ty) {
            (true, Some(written)) => field_added(
                slot_recorded(joined, refs, written, stored.name, stored.default is Some),
                stored.name,
                slot_type(joined, refs, written),
                stored.mutable,
                default,
            ),
            (true, None) => field_added(
                Layout {
                    said: joined.said.push(
                        blamed(
                            stored.source,
                            family_span,
                            Problem::InheritedSlotNeedsType { slot: stored.name, family },
                        ),
                    ),
                    ..joined
                },
                stored.name,
                Type::Error,
                stored.mutable,
                default,
            ),
            (false, Some(written)) => field_added(
                joined,
                stored.name,
                refs.meaning(written).ty,
                stored.mutable,
                default,
            ),
            (false, None) => field_added(
                joined,
                stored.name,
                Type::Error,
                stored.mutable,
                default,
            ),
        }
    }
}

/// The layout after every construction input.
pub open spec fn params_laid(
    layout: Layout,
    refs: &TypeRefs,
    source: SourceId,
    params: Seq<BackedParam>,
) -> Layout
    decreases params.len(),
{
    if params.len() == 0 {
        layout
    } else {
        param_laid(
            params_laid(layout, refs, source, params.drop_last()),
            refs,
            source,
            params.last(),
        )
    }
}

/// The layout after every `let` member.
pub open spec fn fields_laid(
    layout: Layout,
    refs: &TypeRefs,
    source: SourceId,
    fields: Seq<BackedField>,
) -> Layout
    decreases fields.len(),
{
    if fields.len() == 0 {
        layout
    } else {
        field_laid(
            fields_laid(layout, refs, source, fields.drop_last()),
            refs,
            source,
            fields.last(),
        )
    }
}

/// The layout after every stored member of the family.
pub open spec fn all_stored_laid(
    layout: Layout,
    refs: &TypeRefs,
    family: Symbol,
    family_span: Span,
    stored: Seq<StoredField>,
) -> Layout
    decreases stored.len(),
{
    if stored.len() == 0 {
        layout
    } else {
        stored_laid(
            all_stored_laid(layout, refs, family, family_span, stored.drop_last()),
            refs,
            family,
            family_span,
            stored.last(),
        )
    }
}

/// What the method members of a declaration come to.
#[verifier::ext_equal]
pub struct Methods {
    /// The spellings taken so far, each once.
    pub keys: Seq<Symbol>,
    /// The member names used so far, fields included.
    pub seen: Seq<Symbol>,
    pub own: Seq<Symbol>,
    pub computed: Seq<Symbol>,
    pub said: Seq<Diagnostic>,
}

/// The method members after one more.
///
/// A requirement is refused, because only a family states one. A method is told
/// apart by what it takes, so a declaration may overload one; its plain name
/// still joins the members, which is what discharges a family requirement.
pub open spec fn method_laid(methods: Methods, decl: &BackedDecl, method: BackedMethod) -> Methods {
    if method.required {
        Methods {
            said: methods.said.push(
                blamed(
                    decl.source,
                    method.name_span,
                    Problem::RequirementInBacked {
                        declaration: decl.name,
                        family: decl.family_name(),
                        member: method.name,
                    },
                ),
            ),
            ..methods
        }
    } else if methods.keys.contains(method.key) {
        Methods {
            said: methods.said.push(
                blamed(
                    decl.source,
                    method.name_span,
                    Problem::ConstructMethodRepeated { member: method.name },
                ),
            ),
            ..methods
        }
    } else {
        Methods {
            keys: methods.keys.push(method.key),
            seen: with_name(methods.seen, method.name),
            own: with_name(methods.own, method.name),
            computed: if method.computed {
                with_name(methods.computed, method.name)
            } else {
                methods.computed
            },
            said: methods.said,
        }
    }
}

/// The method members after all of `list`.
pub open spec fn methods_laid(
    methods: Methods,
    decl: &BackedDecl,
    list: Seq<BackedMethod>,
) -> Methods
    decreases list.len(),
{
    if list.len() == 0 {
        methods
    } else {
        method_laid(methods_laid(methods, decl, list.drop_last()), decl, list.last())
    }
}

/// The computed members after the first `count` methods of the family: each
/// per-variant computed one the declaration does not implement itself.
pub open spec fn inherited_computed(
    computed: Seq<Symbol>,
    own: Seq<Symbol>,
    entries: Seq<(Symbol, MethodEntry)>,
    methods: Seq<FamilyMethod>,
    count: int,
) -> Seq<Symbol>
    decreases count,
{
    if count <= 0 {
        computed
    } else {
        let before = inherited_computed(computed, own, entries, methods, count - 1);
        let (name, entry) = entries[count - 1];
        if !entry.uniform && methods[entry.method as int].computed && !own.contains(name) {
            with_name(before, name)
        } else {
            before
        }
    }
}

/// What the declaration's deferred members are refused for.
pub open spec fn deferrals(source: SourceId, deferred: Seq<(Span, Symbol)>) -> Seq<Diagnostic> {
    deferred.map_values(
        |entry: (Span, Symbol)| blamed(
            source,
            entry.0,
            Problem::DeferredMember { label: entry.1 },
        ),
    )
}

/// Nothing laid out yet.
pub open spec fn layout_start(arrays: Seq<Type>, said: Seq<Diagnostic>) -> Layout {
    Layout {
        fields: Seq::empty(),
        defaults: Seq::empty(),
        slots: Seq::empty(),
        seen: Seq::empty(),
        arrays,
        said,
    }
}

/// The layout of what the declaration itself writes.
pub open spec fn own_layout(
    decl: &BackedDecl,
    refs: &TypeRefs,
    arrays: Seq<Type>,
    said: Seq<Diagnostic>,
) -> Layout {
    fields_laid(
        params_laid(layout_start(arrays, said), refs, decl.source, decl.params@),
        refs,
        decl.source,
        decl.fields@,
    )
}

/// The method members of the declaration, its fields laid out as `own`.
pub open spec fn own_methods(decl: &BackedDecl, own: Layout) -> Methods {
    methods_laid(
        Methods {
            keys: Seq::empty(),
            seen: own.seen,
            own: Seq::empty(),
            computed: Seq::empty(),
            said: own.said,
        },
        decl,
        decl.methods@,
    )
}

/// The whole layout: the declaration's own members, then the stored members of
/// its family that it did not override, or a refusal where there is no family.
pub open spec fn whole_layout(
    decl: &BackedDecl,
    table: &FamilyTable,
    refs: &TypeRefs,
    arrays: Seq<Type>,
    said: Seq<Diagnostic>,
) -> Layout {
    let own = own_layout(decl, refs, arrays, said);
    let methods = own_methods(decl, own);
    let joined = Layout { seen: methods.seen, said: methods.said, ..own };
    match decl.surface(table) {
        None => Layout {
            said: joined.said.push(
                blamed(
                    decl.source,
                    decl.family_span,
                    Problem::UnknownFamily { declaration: decl.name, family: decl.family_name() },
                ),
            ),
            ..joined
        },
        Some(info) => all_stored_laid(
            joined,
            refs,
            decl.family_name(),
            decl.family_span,
            info.stored_fields@,
        ),
    }
}

/// What is remembered of the declaration, `families` being the variants it is.
pub open spec fn construct_recorded(
    info: ConstructInfo,
    decl: &BackedDecl,
    table: &FamilyTable,
    refs: &TypeRefs,
    arrays: Seq<Type>,
    id: StructId,
) -> bool {
    let own = own_layout(decl, refs, arrays, Seq::empty());
    let methods = own_methods(decl, own);
    &&& info.computed@ == match decl.surface(table) {
        None => methods.computed,
        Some(family) => inherited_computed(
            methods.computed,
            methods.own,
            family.methods.rows@,
            table.methods@,
            family.methods.rows@.len() as int,
        ),
    }
    &&& info.family == decl.family_name()
    &&& info.members@ == methods.seen
    &&& info.own_methods@ == methods.own
    &&& info.slots@ == whole_layout(decl, table, refs, arrays, Seq::empty()).slots
    &&& info.families@ == tags_joined(
        table,
        reachable_families(table, decl.family_name()),
        Type::Struct(id),
        decl.name,
    )
}

/// A layout under construction.
struct Draft {
    fields: Vec<FieldDef>,
    defaults: Vec<Option<FieldDefault>>,
    slots: Vec<ContentSlot>,
    seen: Vec<Symbol>,
}

spec fn drafted(draft: &Draft, types: &TypeTable, log: &Log) -> Layout {
    Layout {
        fields: draft.fields@,
        defaults: draft.defaults@,
        slots: draft.slots@,
        seen: draft.seen@,
        arrays: types.arrays@,
        said: log.diagnostics@,
    }
}

fn add_name(names: &mut Vec<Symbol>, name: Symbol) -> (new: bool)
    ensures
        final(names)@ == with_name(old(names)@, name),
        new == !old(names)@.contains(name),
{
    if names_list(names, name) {
        false
    } else {
        names.push(name);
        true
    }
}

fn written_default(default: Option<ExprId>, source: SourceId) -> (res: Option<FieldDefault>)
    ensures
        res == default_in(default, source),
{
    match default {
        Some(syntax) => Some(FieldDefault::new(syntax, source)),
        None => None,
    }
}

fn note_duplicate_member(seen: &mut Vec<Symbol>, name: Symbol, span: Span, log: &mut Log)
    ensures
        final(seen)@ == with_name(old(seen)@, name),
        final(log).source == old(log).source,
        final(log).diagnostics@ == if old(seen)@.contains(name) {
            old(log).diagnostics@.push(
                blamed(old(log).source, span, Problem::ConstructMemberRepeated { member: name }),
            )
        } else {
            old(log).diagnostics@
        },
{
    if !add_name(seen, name) {
        log.emit(span, Problem::ConstructMemberRepeated { member: name });
    }
}

/// Records one child slot from its written element type, returning the type the
/// slot field stores.
fn record_slot(
    draft: &mut Draft,
    types: &mut TypeTable,
    refs: &TypeRefs,
    written: TypeRefId,
    name: Symbol,
    has_default: bool,
    log: &Log,
) -> (ty: Type)
    requires
        old(types).arrays@.len() < u32::MAX,
        old(draft).fields@.len() < u32::MAX,
    ensures
        drafted(final(draft), final(types), log) == slot_recorded(
            drafted(old(draft), old(types), log),
            refs,
            written,
            name,
            has_default,
        ),
        ty == slot_type(drafted(old(draft), old(types), log), refs, written),
        *final(types) == (TypeTable { arrays: final(types).arrays, ..*old(types) }),
        final(types).arrays@.len() <= old(types).arrays@.len() + 1,
{
    let meaning = refs.resolve(written);
    let field_index: u32 = draft.fields.len() as u32;
    let (element_ty, field_ty, list): (Type, Type, bool) = match meaning.list_of {
        Some(element) => (element, types.array_of(element), true),
        None => (meaning.ty, meaning.ty, false),
    };
    draft.slots.push(ContentSlot { field_index, name, list, element_ty, field_ty, has_default });
    field_ty
}

fn lay_params(
    draft: &mut Draft,
    types: &TypeTable,
    refs: &TypeRefs,
    params: &Vec<BackedParam>,
    log: &mut Log,
)
    ensures
        drafted(final(draft), types, final(log)) == params_laid(
            drafted(old(draft), types, old(log)),
            refs,
            old(log).source,
            params@,
        ),
        final(log).source == old(log).source,
        final(draft).fields@.len() == old(draft).fields@.len() + params@.len(),
{
    let ghost start = drafted(draft, types, log);
    let mut i: usize = 0;
    assert(params@.take(0) =~= Seq::empty());
    while i < params.len()
        invariant
            i <= params@.len(),
            log.source == old(log).source,
            draft.fields@.len() == old(draft).fields@.len() + i,
            drafted(draft, types, log) == params_laid(
                start,
                refs,
                log.source,
                params@.take(i as int),
            ),
        decreases params@.len() - i,
    {
        let param = params[i];
        proof {
            assert(params@.take(i + 1).drop_last() =~= params@.take(i as int));
            assert(params@.take(i + 1).last() == param);
        }
        note_duplicate_member(&mut draft.seen, param.name, param.name_span, log);
        draft.fields.push(
            FieldDef {
                name: FieldName::Plain(param.name),
                ty: refs.resolve(param.ty).ty,
                mutable: false,
            },
        );
        draft.defaults.push(written_default(param.default, log.source));
        i += 1;
        assert(drafted(draft, types, log) =~= params_laid(
            start,
            refs,
            log.source,
            params@.take(i as int),
        ));
    }
    assert(params@.take(i as int) =~= params@);
}

fn lay_field(
    draft: &mut Draft,
    types: &mut TypeTable,
    refs: &TypeRefs,
    field: BackedField,
    log: &mut Log,
)
    requires
        old(types).arrays@.len() < u32::MAX,
        old(draft).fields@.len() < u32::MAX,
    ensures
        drafted(final(draft), final(types), final(log)) == field_laid(
            drafted(old(draft), old(types), old(log)),
            refs,
            old(log).source,
            field,
        ),
        final(log).source == old(log).source,
        final(draft).fields@.len() == old(draft).fields@.len() + 1,
        *final(types) == (TypeTable { arrays: final(types).arrays, ..*old(types) }),
        final(types).arrays@.len() <= old(types).arrays@.len() + 1,
{
    let ghost start = drafted(draft, types, log);
    note_duplicate_member(&mut draft.seen, field.name, field.name_span, log);
    let ghost noted = member_noted(start, log.source, field.name, field.name_span);
    assert(drafted(draft, types, log) =~= noted);
    let ty: Type = match (field.slot, field.ty) {
        (true, Some(written)) => record_slot(
            draft,
            types,
            refs,
            written,
            field.name,
            field.default.is_some(),
            log,
        ),
        (true, None) => {
            log.emit(field.name_span, Problem::SlotNeedsType { slot: field.name });
            Type::Error
        },
        (false, Some(written)) => refs.resolve(written).ty,
        (false, None) => Type::Error,
    };
    draft.fields.push(
        FieldDef { name: FieldName::Plain(field.name), ty, mutable: field.mutable },
    );
    draft.defaults.push(written_default(field.default, log.source));
    assert(drafted(draft, types, log) =~= field_laid(start, refs, log.source, field));
}

fn lay_stored(
    draft: &mut Draft,
    types: &mut TypeTable,
    refs: &TypeRefs,
    family: Symbol,
    family_span: Span,
    stored: StoredField,
    log: &mut Log,
)
    requires
        old(types).arrays@.len() < u32::MAX,
        old(draft).fields@.len() < u32::MAX,
    ensures
        drafted(final(draft), final(types), final(log)) == stored_laid(
            drafted(old(draft), old(types), old(log)),
            refs,
            family,
            family_span,
            stored,
        ),
        final(draft).fields@.len() <= old(draft).fields@.len() + 1,
        *final(types) == (TypeTable { arrays: final(types).arrays, ..*old(types) }),
        final(types).arrays@.len() <= old(types).arrays@.len() + 1,
{
    let ghost start = drafted(draft, types, log);
    if names_list(&draft.seen, stored.name) {
        return ;
    }
    log.source = stored.source;
    draft.seen.push(stored.name);
    let ghost joined = Layout { seen: start.seen.push(stored.name), ..start };
    assert(drafted(draft, types, log) =~= joined);
    let ty: Type = match (stored.slot, stored.ty) {
        (true, Some(written)) => record_slot(
            draft,
            types,
            refs,
            written,
            stored.name,
            stored.default.is_some(),
            log,
        ),
        (true, None) => {
            log.emit(family_span, Problem::InheritedSlotNeedsType { slot: stored.name, family });
            Type::Error
        },
        (false, Some(written)) => refs.resolve(written).ty,
        (false, None) => Type::Error,
    };
    draft.fields.push(
        FieldDef { name: FieldName::Plain(stored.name), ty, mutable: stored.mutable },
    );
    draft.defaults.push(written_default(stored.default, stored.source));
    assert(drafted(draft, types, log) =~= stored_laid(start, refs, family, family_span, stored));
}

fn lay_fields(
    draft: &mut Draft,
    types: &mut TypeTable,
    refs: &TypeRefs,
    fields: &Vec<BackedField>,
    log: &mut Log,
)
    requires
        old(types).arrays@.len() + fields@.len() <= u32::MAX,
        old(draft).fields@.len() + fields@.len() <= u32::MAX,
    ensures
        drafted(final(draft), final(types), final(log)) == fields_laid(
            drafted(old(draft), old(types), old(log)),
            refs,
            old(log).source,
            fields@,
        ),
        final(log).source == old(log).source,
        final(draft).fields@.len() == old(draft).fields@.len() + fields@.len(),
        *final(types) == (TypeTable { arrays: final(types).arrays, ..*old(types) }),
        final(types).arrays@.len() <= old(types).arrays@.len() + fields@.len(),
{
    let ghost start = drafted(draft, types, log);
    let mut i: usize = 0;
    assert(fields@.take(0) =~= Seq::empty());
    while i < fields.len()
        invariant
            i <= fields@.len(),
            old(types).arrays@.len() + fields@.len() <= u32::MAX,
            old(draft).fields@.len() + fields@.len() <= u32::MAX,
            log.source == old(log).source,
            draft.fields@.len() == old(draft).fields@.len() + i,
            *types == (TypeTable { arrays: types.arrays, ..*old(types) }),
            types.arrays@.len() <= old(types).arrays@.len() + i,
            drafted(draft, types, log) == fields_laid(
                start,
                refs,
                log.source,
                fields@.take(i as int),
            ),
        decreases fields@.len() - i,
    {
        let field = fields[i];
        proof {
            assert(fields@.take(i + 1).drop_last() =~= fields@.take(i as int));
            assert(fields@.take(i + 1).last() == field);
        }
        lay_field(draft, types, refs, field, log);
        i += 1;
    }
    assert(fields@.take(i as int) =~= fields@);
}

fn lay_all_stored(
    draft: &mut Draft,
    types: &mut TypeTable,
    refs: &TypeRefs,
    family: Symbol,
    family_span: Span,
    stored: &Vec<StoredField>,
    log: &mut Log,
)
    requires
        old(types).arrays@.len() + stored@.len() <= u32::MAX,
        old(draft).fields@.len() + stored@.len() <= u32::MAX,
    ensures
        drafted(final(draft), final(types), final(log)) == all_stored_laid(
            drafted(old(draft), old(types), old(log)),
            refs,
            family,
            family_span,
            stored@,
        ),
        *final(types) == (TypeTable { arrays: final(types).arrays, ..*old(types) }),
{
    let ghost start = drafted(draft, types, log);
    let mut i: usize = 0;
    assert(stored@.take(0) =~= Seq::empty());
    while i < stored.len()
        invariant
            i <= stored@.len(),
            old(types).arrays@.len() + stored@.len() <= u32::MAX,
            old(draft).fields@.len() + stored@.len() <= u32::MAX,
            draft.fields@.len() <= old(draft).fields@.len() + i,
            *types == (TypeTable { arrays: types.arrays, ..*old(types) }),
            types.arrays@.len() <= old(types).arrays@.len() + i,
            drafted(draft, types, log) == all_stored_laid(
                start,
                refs,
                family,
                family_span,
                stored@.take(i as int),
            ),
        decreases stored@.len() - i,
    {
        let field = stored[i];
        proof {
            assert(stored@.take(i + 1).drop_last() =~= stored@.take(i as int));
            assert(stored@.take(i + 1).last() == field);
        }
        lay_stored(draft, types, refs, family, family_span, field, log);
        i += 1;
    }
    assert(stored@.take(i as int) =~= stored@);
}

/// The names a declaration's methods come to, while they are read.
struct MethodDraft {
    keys: Vec<Symbol>,
    own: Vec<Symbol>,
    computed: Vec<Symbol>,
}

spec fn methods_drafted(draft: &MethodDraft, seen: &Vec<Symbol>, log: &Log) -> Methods {
    Methods {
        keys: draft.keys@,
        seen: seen@,
        own: draft.own@,
        computed: draft.computed@,
        said: log.diagnostics@,
    }
}

fn lay_methods(decl: &BackedDecl, family: Symbol, seen: &mut Vec<Symbol>, log: &mut Log) -> (draft:
    MethodDraft)
    requires
        family == decl.family_name(),
        old(log).source == decl.source,
    ensures
        methods_drafted(&draft, final(seen), final(log)) == methods_laid(
            (Methods {
                keys: Seq::empty(),
                seen: old(seen)@,
                own: Seq::empty(),
                computed: Seq::empty(),
                said: old(log).diagnostics@,
            }),
            decl,
            decl.methods@,
        ),
        final(log).source == old(log).source,
{
    let mut draft = MethodDraft { keys: Vec::new(), own: Vec::new(), computed: Vec::new() };
    let ghost start = methods_drafted(&draft, seen, log);
    assert(start =~= (Methods {
        keys: Seq::empty(),
        seen: seen@,
        own: Seq::empty(),
        computed: Seq::empty(),
        said: log.diagnostics@,
    }));
    let mut i: usize = 0;
    assert(decl.methods@.take(0) =~= Seq::empty());
    while i < decl.methods.len()
        invariant
            i <= decl.methods@.len(),
            family == decl.family_name(),
            log.source == decl.source,
            methods_drafted(&draft, seen, log) == methods_laid(
                start,
                decl,
                decl.methods@.take(i as int),
            ),
        decreases decl.methods@.len() - i,
    {
        let method = decl.methods[i];
        let ghost before = methods_drafted(&draft, seen, log);
        proof {
            assert(decl.methods@.take(i + 1).drop_last() =~= decl.methods@.take(i as int));
            assert(decl.methods@.take(i + 1).last() == method);
        }
        i += 1;
        if method.required {
            log.emit(
                method.name_span,
                Problem::RequirementInBacked {
                    declaration: decl.name,
                    family,
                    member: method.name,
                },
            );
        } else if !add_name(&mut draft.keys, method.key) {
            log.emit(method.name_span, Problem::ConstructMethodRepeated { member: method.name });
        } else {
            add_name(seen, method.name);
            add_name(&mut draft.own, method.name);
            if method.computed {
                add_name(&mut draft.computed, method.name);
            }
        }
        assert(methods_drafted(&draft, seen, log) =~= method_laid(before, decl, method));
    }
    assert(decl.methods@.take(i as int) =~= decl.methods@);
    draft
}

fn inherit_computed(
    computed: &mut Vec<Symbol>,
    own: &Vec<Symbol>,
    entries: &SymbolMap<MethodEntry>,
    methods: &Vec<FamilyMethod>,
)
    requires
        entries.wf(),
        forall|name: Symbol|
            entries@.contains_key(name) ==> (#[trigger] entries@[name]).method < methods@.len(),
    ensures
        final(computed)@ == inherited_computed(
            old(computed)@,
            own@,
            entries.rows@,
            methods@,
            entries.rows@.len() as int,
        ),
{
    let mut i: usize = 0;
    while i < entries.rows.len()
        invariant
            i <= entries.rows@.len(),
            entries.wf(),
            forall|name: Symbol|
                entries@.contains_key(name) ==> (#[trigger] entries@[name]).method < methods@.len(),
            computed@ == inherited_computed(
                old(computed)@,
                own@,
                entries.rows@,
                methods@,
                i as int,
            ),
        decreases entries.rows@.len() - i,
    {
        proof {
            lemma_row(entries.rows@, i as int);
            assert(entries@[entries.rows@[i as int].0].method < methods@.len());
        }
        let (name, entry): (Symbol, MethodEntry) = entries.rows[i];
        if !entry.uniform && methods[entry.method as usize].computed && !names_list(own, name) {
            add_name(computed, name);
        }
        i += 1;
    }
}

/// Reports every member of a declaration that is recorded and not executable yet.
pub fn refuse_deferred(deferred: &Vec<(Span, Symbol)>, log: &mut Log)
    ensures
        final(log).source == old(log).source,
        final(log).diagnostics@ == old(log).diagnostics@ + deferrals(old(log).source, deferred@),
{
    let ghost said = log.diagnostics@;
    let mut i: usize = 0;
    assert(said + deferrals(log.source, deferred@.take(0)) =~= said);
    while i < deferred.len()
        invariant
            i <= deferred@.len(),
            log.source == old(log).source,
            log.diagnostics@ == said + deferrals(log.source, deferred@.take(i as int)),
        decreases deferred@.len() - i,
    {
        let (span, label): (Span, Symbol) = deferred[i];
        log.emit(span, Problem::DeferredMember { label });
        i += 1;
        assert(log.diagnostics@ =~= said + deferrals(log.source, deferred@.take(i as int)));
    }
    assert(deferred@.take(i as int) =~= deferred@);
}

/// How many fields the declaration can come to.
pub open spec fn field_bound(decl: &BackedDecl, table: &FamilyTable) -> int {
    decl.params@.len() + decl.fields@.len() + match decl.surface(table) {
        Some(info) => info.stored_fields@.len() as int,
        None => 0,
    }
}

/// Fills the already declared struct `id` with everything the declaration says:
/// its construction inputs and `let` members as fields, its `some X` members as
/// child slots, and the family's stored members it did not override.
pub fn define_construct(
    types: &mut TypeTable,
    defaults: &mut Vec<Vec<Option<FieldDefault>>>,
    table: &mut FamilyTable,
    constructs: &mut ConstructTable,
    refs: &TypeRefs,
    decl: &BackedDecl,
    id: StructId,
    log: &mut Log,
)
    requires
        old(table).wf(),
        id.0 < old(types).structs@.len(),
        construct_row(old(constructs).rows@, id) is None,
        old(types).arrays@.len() + field_bound(decl, old(table)) <= u32::MAX,
        field_bound(decl, old(table)) <= u32::MAX,
        variant_room(
            old(table),
            reachable_families(old(table), decl.family_name()).len() as int,
        ),
    ensures
        final(table).wf(),
        ({
            let layout = whole_layout(
                decl,
                old(table),
                refs,
                old(types).arrays@,
                old(log).diagnostics@,
            );
            &&& final(types).structs@.len() == old(types).structs@.len()
            &&& forall|k: int|
                0 <= k < old(types).structs@.len() && k != id.0 ==> #[trigger] final(types).structs@[k] == old(types).structs@[k]
            &&& final(types).structs@[id.0 as int].name == old(types).structs@[id.0 as int].name
            &&& final(types).structs@[id.0 as int].owner == old(types).structs@[id.0 as int].owner
            &&& final(types).structs@[id.0 as int].module == old(types).structs@[id.0 as int].module
            &&& final(types).structs@[id.0 as int].fields@ == layout.fields
            &&& final(types).arrays@ == layout.arrays
            &&& *final(types) == (TypeTable {
                structs: final(types).structs,
                arrays: final(types).arrays,
                ..*old(types)
            })
            &&& final(defaults)@.len() == old(defaults)@.len()
            &&& forall|k: int|
                0 <= k < old(defaults)@.len() && k != id.0 ==> #[trigger] final(defaults)@[k]
                    == old(defaults)@[k]
            &&& id.0 < old(defaults)@.len() ==> final(defaults)@[id.0 as int]@ == layout.defaults
            &&& final(log).diagnostics@ == layout.said + deferrals(decl.source, decl.deferred@)
        }),
        final(log).source == decl.source,
        final(constructs).rows@.len() == old(constructs).rows@.len() + 1,
        final(constructs).rows@.drop_last() == old(constructs).rows@,
        final(constructs).rows@.last().0 == id,
        construct_recorded(
            final(constructs).rows@.last().1,
            decl,
            old(table),
            refs,
            old(types).arrays@,
            id,
        ),
        only_variants(old(table), final(table)),
        variant_lists(final(table)) == variants_joined(
            variant_lists(old(table)),
            reachable_families(old(table), decl.family_name()),
            Type::Struct(id),
            decl.name,
        ),
{
    let ghost arrays = types.arrays@;
    let ghost said = log.diagnostics@;
    log.source = decl.source;
    let family: Symbol = match decl.key {
        Some(key) => key,
        None => decl.family,
    };
    let mut draft = Draft {
        fields: Vec::new(),
        defaults: Vec::new(),
        slots: Vec::new(),
        seen: Vec::new(),
    };
    assert(drafted(&draft, types, log) =~= layout_start(arrays, said));
    lay_params(&mut draft, types, refs, &decl.params, log);
    lay_fields(&mut draft, types, refs, &decl.fields, log);
    let ghost own = own_layout(decl, refs, arrays, said);
    assert(drafted(&draft, types, log) == own);
    let method_draft = lay_methods(decl, family, &mut draft.seen, log);
    let ghost methods = own_methods(decl, own);
    let members = copied(&draft.seen);
    let mut computed = method_draft.computed;
    let ghost joined = Layout { seen: methods.seen, said: methods.said, ..own };
    assert(drafted(&draft, types, log) =~= joined);
    let found: Option<usize> = match decl.key {
        Some(key) => table.families.find(key),
        None => None,
    };
    match found {
        None => {
            log.emit(
                decl.family_span,
                Problem::UnknownFamily { declaration: decl.name, family },
            );
        },
        Some(at) => {
            proof {
                lemma_row(table.families.rows@, at as int);
                assert(table.families@[family].wf());
                assert forall|name: Symbol|
                    table.families@[family].methods@.contains_key(name) implies (
                #[trigger] table.families@[family].methods@[name]).method
                    < table.methods@.len() by {}
            }
            inherit_computed(
                &mut computed,
                &method_draft.own,
                &table.families.rows[at].1.methods,
                &table.methods,
            );
            lay_all_stored(
                &mut draft,
                types,
                refs,
                family,
                decl.family_span,
                &table.families.rows[at].1.stored_fields,
                log,
            );
        },
    }
    log.source = decl.source;
    let ghost layout = whole_layout(decl, table, refs, arrays, said);
    assert(drafted(&draft, types, log) =~= layout);
    let families = register_family_variant(table, family, id, decl.name);
    types.structs[id.0 as usize].fields = draft.fields;
    if (id.0 as usize) < defaults.len() {
        defaults[id.0 as usize] = draft.defaults;
    }
    proof {
        lemma_said_apart(decl, old(table), refs, arrays, said);
    }
    constructs.rows.push(
        (
            id,
            ConstructInfo {
                computed,
                family,
                members,
                own_methods: method_draft.own,
                slots: draft.slots,
                families,
            },
        ),
    );
    assert(constructs.rows@.drop_last() =~= old(constructs).rows@);
    refuse_deferred(&decl.deferred, log);
}

/// Laying out a declaration interns at most one array type for each field.
pub proof fn lemma_arrays_laid(
    decl: &BackedDecl,
    table: &FamilyTable,
    refs: &TypeRefs,
    arrays: Seq<Type>,
    said: Seq<Diagnostic>,
)
    ensures
        whole_layout(decl, table, refs, arrays, said).arrays.len() <= arrays.len() + field_bound(
            decl,
            table,
        ),
{
    let start = layout_start(arrays, said);
    lemma_params_arrays(start, refs, decl.source, decl.params@);
    let params = params_laid(start, refs, decl.source, decl.params@);
    lemma_fields_arrays(params, refs, decl.source, decl.fields@);
    let own = own_layout(decl, refs, arrays, said);
    let methods = own_methods(decl, own);
    if let Some(info) = decl.surface(table) {
        lemma_stored_arrays(
            Layout { seen: methods.seen, said: methods.said, ..own },
            refs,
            decl.family_name(),
            decl.family_span,
            info.stored_fields@,
        );
    }
}

proof fn lemma_params_arrays(
    layout: Layout,
    refs: &TypeRefs,
    source: SourceId,
    list: Seq<BackedParam>,
)
    ensures
        params_laid(layout, refs, source, list).arrays == layout.arrays,
    decreases list.len(),
{
    if list.len() > 0 {
        lemma_params_arrays(layout, refs, source, list.drop_last());
    }
}

proof fn lemma_fields_arrays(
    layout: Layout,
    refs: &TypeRefs,
    source: SourceId,
    list: Seq<BackedField>,
)
    ensures
        fields_laid(layout, refs, source, list).arrays.len() <= layout.arrays.len() + list.len(),
    decreases list.len(),
{
    if list.len() > 0 {
        lemma_fields_arrays(layout, refs, source, list.drop_last());
    }
}

proof fn lemma_stored_arrays(
    layout: Layout,
    refs: &TypeRefs,
    family: Symbol,
    span: Span,
    list: Seq<StoredField>,
)
    ensures
        all_stored_laid(layout, refs, family, span, list).arrays.len() <= layout.arrays.len()
            + list.len(),
    decreases list.len(),
{
    if list.len() > 0 {
        lemma_stored_arrays(layout, refs, family, span, list.drop_last());
    }
}

/// Two layouts that differ only in what was reported.
spec fn same_apart(a: Layout, b: Layout) -> bool {
    a.fields == b.fields && a.defaults == b.defaults && a.slots == b.slots && a.seen == b.seen
        && a.arrays == b.arrays
}

spec fn methods_apart(a: Methods, b: Methods) -> bool {
    a.keys == b.keys && a.seen == b.seen && a.own == b.own && a.computed == b.computed
}

proof fn lemma_params_apart(
    a: Layout,
    b: Layout,
    refs: &TypeRefs,
    source: SourceId,
    list: Seq<BackedParam>,
)
    requires
        same_apart(a, b),
    ensures
        same_apart(params_laid(a, refs, source, list), params_laid(b, refs, source, list)),
    decreases list.len(),
{
    if list.len() > 0 {
        lemma_params_apart(a, b, refs, source, list.drop_last());
    }
}

proof fn lemma_fields_apart(
    a: Layout,
    b: Layout,
    refs: &TypeRefs,
    source: SourceId,
    list: Seq<BackedField>,
)
    requires
        same_apart(a, b),
    ensures
        same_apart(fields_laid(a, refs, source, list), fields_laid(b, refs, source, list)),
    decreases list.len(),
{
    if list.len() > 0 {
        lemma_fields_apart(a, b, refs, source, list.drop_last());
    }
}

proof fn lemma_stored_apart(
    a: Layout,
    b: Layout,
    refs: &TypeRefs,
    family: Symbol,
    span: Span,
    list: Seq<StoredField>,
)
    requires
        same_apart(a, b),
    ensures
        same_apart(
            all_stored_laid(a, refs, family, span, list),
            all_stored_laid(b, refs, family, span, list),
        ),
    decreases list.len(),
{
    if list.len() > 0 {
        lemma_stored_apart(a, b, refs, family, span, list.drop_last());
    }
}

proof fn lemma_methods_apart(a: Methods, b: Methods, decl: &BackedDecl, list: Seq<BackedMethod>)
    requires
        methods_apart(a, b),
    ensures
        methods_apart(methods_laid(a, decl, list), methods_laid(b, decl, list)),
    decreases list.len(),
{
    if list.len() > 0 {
        lemma_methods_apart(a, b, decl, list.drop_last());
    }
}

/// What was reported before has no part in the layout.
proof fn lemma_said_apart(
    decl: &BackedDecl,
    table: &FamilyTable,
    refs: &TypeRefs,
    arrays: Seq<Type>,
    said: Seq<Diagnostic>,
)
    ensures
        same_apart(
            own_layout(decl, refs, arrays, said),
            own_layout(decl, refs, arrays, Seq::empty()),
        ),
        methods_apart(
            own_methods(decl, own_layout(decl, refs, arrays, said)),
            own_methods(decl, own_layout(decl, refs, arrays, Seq::empty())),
        ),
        same_apart(
            whole_layout(decl, table, refs, arrays, said),
            whole_layout(decl, table, refs, arrays, Seq::empty()),
        ),
{
    let a = layout_start(arrays, said);
    let b = layout_start(arrays, Seq::empty());
    lemma_params_apart(a, b, refs, decl.source, decl.params@);
    lemma_fields_apart(
        params_laid(a, refs, decl.source, decl.params@),
        params_laid(b, refs, decl.source, decl.params@),
        refs,
        decl.source,
        decl.fields@,
    );
    let own_a = own_layout(decl, refs, arrays, said);
    let own_b = own_layout(decl, refs, arrays, Seq::empty());
    let start_a = Methods {
        keys: Seq::empty(),
        seen: own_a.seen,
        own: Seq::empty(),
        computed: Seq::empty(),
        said: own_a.said,
    };
    let start_b = Methods { said: own_b.said, ..start_a };
    lemma_methods_apart(start_a, start_b, decl, decl.methods@);
    let methods_a = own_methods(decl, own_a);
    let methods_b = own_methods(decl, own_b);
    if let Some(info) = decl.surface(table) {
        lemma_stored_apart(
            Layout { seen: methods_a.seen, said: methods_a.said, ..own_a },
            Layout { seen: methods_b.seen, said: methods_b.said, ..own_b },
            refs,
            decl.family_name(),
            decl.family_span,
            info.stored_fields@,
        );
    }
}

/// Every field has a default row, and every child slot names its own field.
spec fn coherent(layout: Layout) -> bool {
    &&& layout.fields.len() == layout.defaults.len()
    &&& forall|k: int|
        0 <= k < layout.slots.len() ==> {
            let slot = #[trigger] layout.slots[k];
            &&& slot.field_index < layout.fields.len()
            &&& layout.fields[slot.field_index as int].name == FieldName::Plain(slot.name)
            &&& layout.fields[slot.field_index as int].ty == slot.field_ty
            &&& slot.has_default == (layout.defaults[slot.field_index as int] is Some)
        }
}

/// Defaults stay in step with fields, and each child slot is wired to the field
/// that stores it: the same name, the same type, and a default exactly where the
/// slot says it has one.
pub proof fn slots_name_their_fields(
    decl: &BackedDecl,
    table: &FamilyTable,
    refs: &TypeRefs,
    arrays: Seq<Type>,
    said: Seq<Diagnostic>,
    k: int,
)
    requires
        field_bound(decl, table) <= u32::MAX,
        0 <= k < whole_layout(decl, table, refs, arrays, said).slots.len(),
    ensures
        ({
            let layout = whole_layout(decl, table, refs, arrays, said);
            let slot = layout.slots[k];
            &&& layout.defaults.len() == layout.fields.len()
            &&& slot.field_index < layout.fields.len()
            &&& layout.fields[slot.field_index as int].name == FieldName::Plain(slot.name)
            &&& layout.fields[slot.field_index as int].ty == slot.field_ty
            &&& slot.has_default == (layout.defaults[slot.field_index as int] is Some)
        }),
{
    let start = layout_start(arrays, said);
    lemma_params_coherent(start, refs, decl.source, decl.params@);
    let params = params_laid(start, refs, decl.source, decl.params@);
    lemma_fields_coherent(params, refs, decl.source, decl.fields@);
    let own = own_layout(decl, refs, arrays, said);
    let methods = own_methods(decl, own);
    let joined = Layout { seen: methods.seen, said: methods.said, ..own };
    assert(coherent(joined));
    if let Some(info) = decl.surface(table) {
        lemma_stored_coherent(
            joined,
            refs,
            decl.family_name(),
            decl.family_span,
            info.stored_fields@,
        );
    }
    assert(coherent(whole_layout(decl, table, refs, arrays, said)));
}

proof fn lemma_params_coherent(
    layout: Layout,
    refs: &TypeRefs,
    source: SourceId,
    list: Seq<BackedParam>,
)
    requires
        coherent(layout),
    ensures
        coherent(params_laid(layout, refs, source, list)),
        params_laid(layout, refs, source, list).fields.len() == layout.fields.len() + list.len(),
    decreases list.len(),
{
    if list.len() > 0 {
        lemma_params_coherent(layout, refs, source, list.drop_last());
    }
}

proof fn lemma_fields_coherent(
    layout: Layout,
    refs: &TypeRefs,
    source: SourceId,
    list: Seq<BackedField>,
)
    requires
        coherent(layout),
        layout.fields.len() + list.len() <= u32::MAX,
    ensures
        coherent(fields_laid(layout, refs, source, list)),
        fields_laid(layout, refs, source, list).fields.len() == layout.fields.len() + list.len(),
    decreases list.len(),
{
    if list.len() > 0 {
        lemma_fields_coherent(layout, refs, source, list.drop_last());
    }
}

proof fn lemma_stored_coherent(
    layout: Layout,
    refs: &TypeRefs,
    family: Symbol,
    span: Span,
    list: Seq<StoredField>,
)
    requires
        coherent(layout),
        layout.fields.len() + list.len() <= u32::MAX,
    ensures
        coherent(all_stored_laid(layout, refs, family, span, list)),
        all_stored_laid(layout, refs, family, span, list).fields.len() <= layout.fields.len()
            + list.len(),
    decreases list.len(),
{
    if list.len() > 0 {
        lemma_stored_coherent(layout, refs, family, span, list.drop_last());
    }
}

proof fn lemma_params_are_fields(
    layout: Layout,
    refs: &TypeRefs,
    source: SourceId,
    params: Seq<BackedParam>,
)
    requires
        layout.defaults.len() == layout.fields.len(),
    ensures
        ({
            let after = params_laid(layout, refs, source, params);
            let base = layout.fields.len() as int;
            &&& after.fields.len() == base + params.len()
            &&& after.defaults.len() == after.fields.len()
            &&& after.said.len() >= layout.said.len()
            &&& crate::hir::grew(layout.fields, after.fields)
            &&& crate::hir::grew(layout.defaults, after.defaults)
            &&& forall|i: int|
                #![trigger params[i]]
                0 <= i < params.len() ==> after.fields[base + i].name == FieldName::Plain(
                    params[i].name,
                ) && after.fields[base + i].ty == refs.meaning(params[i].ty).ty
                    && !after.fields[base + i].mutable
            &&& forall|i: int|
                #![trigger params[i]]
                0 <= i < params.len() ==> written_as(
                    after.defaults[base + i],
                    params[i].default,
                    source,
                )
            &&& forall|i: int|
                #![trigger params[i]]
                0 <= i < params.len() ==> after.seen.contains(params[i].name)
            &&& forall|name: Symbol|
                layout.seen.contains(name) ==> #[trigger] after.seen.contains(name)
            &&& after.said.len() == layout.said.len() ==> (forall|i: int|
                #![trigger params[i]]
                0 <= i < params.len() ==> !layout.seen.contains(params[i].name)) && (forall|
                i: int,
                j: int,
            |
                0 <= i < j < params.len() ==> (#[trigger] params[i]).name != (
                #[trigger] params[j]).name)
        }),
    decreases params.len(),
{
    if params.len() > 0 {
        let rest = params.drop_last();
        lemma_params_are_fields(layout, refs, source, rest);
        let before = params_laid(layout, refs, source, rest);
        let after = params_laid(layout, refs, source, params);
        let last = params.len() - 1;
        lemma_with_name(before.seen, params[last].name);
        assert forall|i: int| 0 <= i < last implies #[trigger] params[i] == rest[i] by {}
        assert forall|i: int|
            #![trigger params[i]]
            0 <= i < params.len() implies after.seen.contains(params[i].name) by {
            if i < last {
                assert(before.seen.contains(rest[i].name));
            }
        }
    }
}

/// `default` is the expression written as `syntax` in `source`, still to be resolved, or
/// nothing where nothing was written.
pub open spec fn written_as(
    default: Option<FieldDefault>,
    syntax: Option<ExprId>,
    source: SourceId,
) -> bool {
    match syntax {
        Some(expr) => default matches Some(found) && found.syntax == expr && found.source == source
            && found.resolved is None,
        None => default is None,
    }
}

proof fn lemma_with_name(names: Seq<Symbol>, name: Symbol)
    ensures
        with_name(names, name).contains(name),
        forall|other: Symbol|
            names.contains(other) ==> #[trigger] with_name(names, name).contains(other),
        forall|other: Symbol|
            #[trigger] with_name(names, name).contains(other) ==> names.contains(other) || other
                == name,
{
    let all = with_name(names, name);
    if !names.contains(name) {
        assert(all[all.len() - 1] == name);
    }
    assert forall|other: Symbol| names.contains(other) implies #[trigger] all.contains(other) by {
        let k = choose|k: int| 0 <= k < names.len() && names[k] == other;
        assert(all[k] == other);
    }
    assert forall|other: Symbol| #[trigger] all.contains(other) implies names.contains(other)
        || other == name by {
        let k = choose|k: int| 0 <= k < all.len() && all[k] == other;
        if k < names.len() {
            assert(names[k] == other);
        }
    }
}

proof fn lemma_lets_are_fields(
    layout: Layout,
    refs: &TypeRefs,
    source: SourceId,
    fields: Seq<BackedField>,
)
    requires
        layout.defaults.len() == layout.fields.len(),
    ensures
        ({
            let after = fields_laid(layout, refs, source, fields);
            let base = layout.fields.len() as int;
            &&& after.fields.len() == base + fields.len()
            &&& after.defaults.len() == after.fields.len()
            &&& after.said.len() >= layout.said.len()
            &&& crate::hir::grew(layout.fields, after.fields)
            &&& crate::hir::grew(layout.defaults, after.defaults)
            &&& forall|i: int|
                #![trigger fields[i]]
                0 <= i < fields.len() ==> after.fields[base + i].name == FieldName::Plain(
                    fields[i].name,
                ) && after.fields[base + i].mutable == fields[i].mutable
            &&& forall|i: int|
                #![trigger fields[i]]
                0 <= i < fields.len() && fields[i].ty is None ==> after.fields[base + i].ty
                    == Type::Error
            &&& forall|i: int|
                #![trigger fields[i]]
                0 <= i < fields.len() && !fields[i].slot && fields[i].ty is Some
                    ==> after.fields[base + i].ty == refs.meaning(fields[i].ty->0).ty
            &&& forall|i: int|
                #![trigger fields[i]]
                0 <= i < fields.len() && fields[i].slot && fields[i].ty is Some && refs.meaning(
                    fields[i].ty->0,
                ).list_of is None ==> after.fields[base + i].ty == refs.meaning(fields[i].ty->0).ty
            &&& forall|i: int|
                #![trigger fields[i]]
                0 <= i < fields.len() ==> written_as(
                    after.defaults[base + i],
                    fields[i].default,
                    source,
                )
            &&& forall|i: int|
                #![trigger fields[i]]
                0 <= i < fields.len() ==> after.seen.contains(fields[i].name)
            &&& forall|name: Symbol|
                layout.seen.contains(name) ==> #[trigger] after.seen.contains(name)
            &&& after.said.len() == layout.said.len() ==> (forall|i: int|
                #![trigger fields[i]]
                0 <= i < fields.len() ==> !layout.seen.contains(fields[i].name) && !(fields[i].slot
                    && fields[i].ty is None)) && (forall|i: int, j: int|
                0 <= i < j < fields.len() ==> (#[trigger] fields[i]).name != (
                #[trigger] fields[j]).name)
        }),
    decreases fields.len(),
{
    if fields.len() > 0 {
        let rest = fields.drop_last();
        lemma_lets_are_fields(layout, refs, source, rest);
        let before = fields_laid(layout, refs, source, rest);
        let after = fields_laid(layout, refs, source, fields);
        let last = fields.len() - 1;
        lemma_with_name(before.seen, fields[last].name);
        assert forall|i: int| 0 <= i < last implies #[trigger] fields[i] == rest[i] by {}
        assert forall|i: int|
            #![trigger fields[i]]
            0 <= i < fields.len() implies after.seen.contains(fields[i].name) by {
            if i < last {
                assert(before.seen.contains(rest[i].name));
            }
        }
    }
}

proof fn lemma_methods_are_kept(methods: Methods, decl: &BackedDecl, list: Seq<BackedMethod>)
    ensures
        ({
            let after = methods_laid(methods, decl, list);
            &&& after.said.len() >= methods.said.len()
            &&& forall|name: Symbol|
                methods.seen.contains(name) ==> #[trigger] after.seen.contains(name)
            &&& after.said.len() == methods.said.len() ==> (forall|i: int|
                #![trigger list[i]]
                0 <= i < list.len() ==> !list[i].required && after.own.contains(list[i].name)
                    && after.seen.contains(list[i].name)) && (forall|i: int|
                #![trigger list[i]]
                0 <= i < list.len() && list[i].computed ==> after.computed.contains(list[i].name))
                && (forall|i: int|
                #![trigger list[i]]
                0 <= i < list.len() ==> after.keys.contains(list[i].key)) && (forall|
                i: int,
                j: int,
            |
                0 <= i < j < list.len() ==> (#[trigger] list[i]).key != (#[trigger] list[j]).key)
        }),
    decreases list.len(),
{
    if list.len() > 0 {
        let rest = list.drop_last();
        lemma_methods_are_kept(methods, decl, rest);
        let before = methods_laid(methods, decl, rest);
        let after = methods_laid(methods, decl, list);
        let last = list.len() - 1;
        lemma_with_name(before.seen, list[last].name);
        lemma_with_name(before.own, list[last].name);
        lemma_with_name(before.computed, list[last].name);
        assert forall|i: int| 0 <= i < last implies #[trigger] list[i] == rest[i] by {}
        if after.said.len() == methods.said.len() {
            assert(before.said.len() == methods.said.len());
            assert(!list[last].required && !before.keys.contains(list[last].key));
            assert(after.keys == before.keys.push(list[last].key));
            assert forall|i: int| #![trigger list[i]] 0 <= i < list.len() implies after.keys.contains(
                list[i].key,
            ) by {
                if i < last {
                    assert(before.keys.contains(rest[i].key));
                    let k = choose|k: int|
                        0 <= k < before.keys.len() && before.keys[k] == rest[i].key;
                    assert(after.keys[k] == list[i].key);
                } else {
                    assert(after.keys[after.keys.len() - 1] == list[i].key);
                }
            }
            assert forall|i: int| #![trigger list[i]] 0 <= i < list.len() implies !list[i].required
                && after.own.contains(list[i].name) && after.seen.contains(list[i].name) by {
                if i < last {
                    assert(before.own.contains(rest[i].name));
                    assert(before.seen.contains(rest[i].name));
                }
            }
            assert forall|i: int|
                #![trigger list[i]]
                0 <= i < list.len() && list[i].computed implies after.computed.contains(
                list[i].name,
            ) by {
                if i < last {
                    assert(before.computed.contains(rest[i].name));
                }
            }
            assert forall|i: int, j: int| 0 <= i < j < list.len() implies (#[trigger] list[i]).key
                != (#[trigger] list[j]).key by {
                if j < last {
                    assert(rest[i].key != rest[j].key);
                } else {
                    assert(before.keys.contains(rest[i].key));
                }
            }
        }
    }
}

proof fn lemma_stored_are_fields(
    layout: Layout,
    refs: &TypeRefs,
    family: Symbol,
    span: Span,
    stored: Seq<StoredField>,
)
    requires
        layout.defaults.len() == layout.fields.len(),
    ensures
        ({
            let after = all_stored_laid(layout, refs, family, span, stored);
            &&& after.defaults.len() == after.fields.len()
            &&& after.said.len() >= layout.said.len()
            &&& crate::hir::grew(layout.fields, after.fields)
            &&& crate::hir::grew(layout.defaults, after.defaults)
            &&& forall|name: Symbol|
                layout.seen.contains(name) ==> #[trigger] after.seen.contains(name)
            &&& forall|name: Symbol|
                #[trigger] after.seen.contains(name) ==> layout.seen.contains(name) || exists|i: int|
                    0 <= i < stored.len() && (#[trigger] stored[i]).name == name
            &&& forall|f: int|
                #![trigger after.fields[f]]
                layout.fields.len() <= f < after.fields.len() ==> exists|i: int|
                    0 <= i < stored.len() && after.fields[f].name == FieldName::Plain(
                        (#[trigger] stored[i]).name,
                    ) && !layout.seen.contains(stored[i].name)
        }),
    decreases stored.len(),
{
    if stored.len() > 0 {
        let rest = stored.drop_last();
        lemma_stored_are_fields(layout, refs, family, span, rest);
        let before = all_stored_laid(layout, refs, family, span, rest);
        let after = all_stored_laid(layout, refs, family, span, stored);
        let last = stored.len() - 1;
        let name = stored[last].name;
        assert forall|i: int| 0 <= i < last implies #[trigger] stored[i] == rest[i] by {}
        if !before.seen.contains(name) {
            assert(after.seen == before.seen.push(name));
            assert(with_name(before.seen, name) == after.seen);
            lemma_with_name(before.seen, name);
        }
        assert forall|other: Symbol| #[trigger] after.seen.contains(other) implies layout.seen.contains(
            other,
        ) || exists|i: int| 0 <= i < stored.len() && (#[trigger] stored[i]).name == other by {
            if before.seen.contains(other) {
                if !layout.seen.contains(other) {
                    let i = choose|i: int| 0 <= i < rest.len() && (#[trigger] rest[i]).name == other;
                    assert(stored[i].name == other);
                }
            } else {
                assert(stored[last].name == other);
            }
        }
        assert forall|f: int|
            #![trigger after.fields[f]]
            layout.fields.len() <= f < after.fields.len() implies exists|i: int|
            0 <= i < stored.len() && after.fields[f].name == FieldName::Plain(
                (#[trigger] stored[i]).name,
            ) && !layout.seen.contains(stored[i].name) by {
            if f < before.fields.len() {
                assert(after.fields[f] == before.fields[f]);
                let i = choose|i: int|
                    0 <= i < rest.len() && before.fields[f].name == FieldName::Plain(
                        (#[trigger] rest[i]).name,
                    ) && !layout.seen.contains(rest[i].name);
                assert(stored[i] == rest[i]);
            } else {
                assert(after.fields[f].name == FieldName::Plain(stored[last].name));
            }
        }
    }
}

proof fn lemma_stored_field(
    layout: Layout,
    refs: &TypeRefs,
    family: Symbol,
    span: Span,
    stored: Seq<StoredField>,
    i: int,
) -> (f: int)
    requires
        layout.defaults.len() == layout.fields.len(),
        0 <= i < stored.len(),
        !layout.seen.contains(stored[i].name),
        forall|j: int| 0 <= j < i ==> (#[trigger] stored[j]).name != stored[i].name,
    ensures
        ({
            let after = all_stored_laid(layout, refs, family, span, stored);
            &&& layout.fields.len() <= f < after.fields.len()
            &&& after.fields[f].name == FieldName::Plain(stored[i].name)
            &&& after.fields[f].mutable == stored[i].mutable
            &&& written_as(after.defaults[f], stored[i].default, stored[i].source)
            &&& stored[i].ty is None ==> after.fields[f].ty == Type::Error
            &&& stored[i].ty is Some && (!stored[i].slot || refs.meaning(
                stored[i].ty->0,
            ).list_of is None) ==> after.fields[f].ty == refs.meaning(stored[i].ty->0).ty
        }),
    decreases stored.len(),
{
    let rest = stored.drop_last();
    let last = stored.len() - 1;
    lemma_stored_are_fields(layout, refs, family, span, rest);
    let before = all_stored_laid(layout, refs, family, span, rest);
    assert forall|j: int| 0 <= j < last implies #[trigger] stored[j] == rest[j] by {}
    if i < last {
        let f = lemma_stored_field(layout, refs, family, span, rest, i);
        let after = all_stored_laid(layout, refs, family, span, stored);
        assert(after.fields[f] == before.fields[f]);
        assert(after.defaults[f] == before.defaults[f]);
        f
    } else {
        if before.seen.contains(stored[last].name) {
            let j = choose|j: int|
                0 <= j < rest.len() && (#[trigger] rest[j]).name == stored[last].name;
            assert(stored[j].name == stored[last].name);
        }
        before.fields.len() as int
    }
}

/// A declaration stores each of its construction inputs and each of its `let` members, in
/// the order written, under its own name and type, with the default it was written with,
/// to be read in the declaration's own file.
pub proof fn a_declaration_stores_what_it_writes(
    decl: &BackedDecl,
    table: &FamilyTable,
    refs: &TypeRefs,
    arrays: Seq<Type>,
    said: Seq<Diagnostic>,
    k: int,
)
    ensures
        ({
            let layout = whole_layout(decl, table, refs, arrays, said);
            let params = decl.params@;
            let lets = decl.fields@;
            let at = params.len() + k;
            &&& layout.fields.len() == layout.defaults.len()
            &&& layout.fields.len() >= params.len() + lets.len()
            &&& 0 <= k < params.len() ==> layout.fields[k].name == FieldName::Plain(params[k].name)
                && layout.fields[k].ty == refs.meaning(params[k].ty).ty && !layout.fields[k].mutable
                && written_as(layout.defaults[k], params[k].default, decl.source)
            &&& 0 <= k < lets.len() ==> layout.fields[at].name == FieldName::Plain(lets[k].name)
                && layout.fields[at].mutable == lets[k].mutable && written_as(
                layout.defaults[at],
                lets[k].default,
                decl.source,
            )
            &&& 0 <= k < lets.len() && lets[k].ty is None ==> layout.fields[at].ty == Type::Error
            &&& 0 <= k < lets.len() && lets[k].ty is Some && (!lets[k].slot || refs.meaning(
                lets[k].ty->0,
            ).list_of is None) ==> layout.fields[at].ty == refs.meaning(lets[k].ty->0).ty
        }),
{
    let start = layout_start(arrays, said);
    lemma_params_are_fields(start, refs, decl.source, decl.params@);
    let inputs = params_laid(start, refs, decl.source, decl.params@);
    lemma_lets_are_fields(inputs, refs, decl.source, decl.fields@);
    let own = own_layout(decl, refs, arrays, said);
    let methods = own_methods(decl, own);
    let joined = Layout { seen: methods.seen, said: methods.said, ..own };
    if let Some(info) = decl.surface(table) {
        lemma_stored_are_fields(
            joined,
            refs,
            decl.family_name(),
            decl.family_span,
            info.stored_fields@,
        );
    }
    let layout = whole_layout(decl, table, refs, arrays, said);
    let params = decl.params@;
    if 0 <= k < params.len() {
        assert(params[k] == params[k]);
        assert(inputs.fields[k] == own.fields[k]);
        assert(inputs.defaults[k] == own.defaults[k]);
        assert(layout.fields[k] == own.fields[k]);
        assert(layout.defaults[k] == own.defaults[k]);
    }
    if 0 <= k < decl.fields@.len() {
        assert(decl.fields@[k] == decl.fields@[k]);
        assert(layout.fields[params.len() + k] == own.fields[params.len() + k]);
        assert(layout.defaults[params.len() + k] == own.defaults[params.len() + k]);
    }
}

/// A declaration stores every stored member of its family that it does not write itself,
/// with the family's type, mutability and default, the default to be read in the file of
/// the family that wrote it; and after its own members it stores nothing else.
pub proof fn a_declaration_stores_what_its_family_does(
    decl: &BackedDecl,
    table: &FamilyTable,
    refs: &TypeRefs,
    arrays: Seq<Type>,
    said: Seq<Diagnostic>,
    info: FamilyInfo,
    i: int,
)
    requires
        decl.surface(table) == Some(info),
        0 <= i < info.stored_fields@.len(),
        !own_methods(decl, own_layout(decl, refs, arrays, said)).seen.contains(
            info.stored_fields@[i].name,
        ),
        forall|j: int|
            0 <= j < i ==> (#[trigger] info.stored_fields@[j]).name != info.stored_fields@[i].name,
    ensures
        ({
            let layout = whole_layout(decl, table, refs, arrays, said);
            let stored = info.stored_fields@[i];
            exists|f: int|
                #![trigger layout.fields[f]]
                decl.params@.len() + decl.fields@.len() <= f < layout.fields.len()
                    && layout.fields[f].name == FieldName::Plain(stored.name)
                    && layout.fields[f].mutable == stored.mutable && written_as(
                    layout.defaults[f],
                    stored.default,
                    stored.source,
                ) && (stored.ty is Some && (!stored.slot || refs.meaning(
                    stored.ty->0,
                ).list_of is None) ==> layout.fields[f].ty == refs.meaning(stored.ty->0).ty)
        }),
        ({
            let layout = whole_layout(decl, table, refs, arrays, said);
            forall|f: int|
                #![trigger layout.fields[f]]
                decl.params@.len() + decl.fields@.len() <= f < layout.fields.len() ==> exists|j: int|
                    0 <= j < info.stored_fields@.len() && layout.fields[f].name
                        == FieldName::Plain((#[trigger] info.stored_fields@[j]).name)
        }),
{
    let start = layout_start(arrays, said);
    lemma_params_are_fields(start, refs, decl.source, decl.params@);
    let inputs = params_laid(start, refs, decl.source, decl.params@);
    lemma_lets_are_fields(inputs, refs, decl.source, decl.fields@);
    let own = own_layout(decl, refs, arrays, said);
    let methods = own_methods(decl, own);
    let joined = Layout { seen: methods.seen, said: methods.said, ..own };
    let stored = info.stored_fields@;
    lemma_stored_are_fields(joined, refs, decl.family_name(), decl.family_span, stored);
    let f = lemma_stored_field(joined, refs, decl.family_name(), decl.family_span, stored, i);
    let layout = whole_layout(decl, table, refs, arrays, said);
    assert(layout.fields[f].name == FieldName::Plain(stored[i].name));
}

/// A declaration that is refused nothing reaches its family, uses every member name once
/// among its inputs and `let` members, gives every child slot a type, requires nothing
/// itself, and has every method it writes, no two spelled alike.
pub proof fn a_silent_declaration_is_sound(
    decl: &BackedDecl,
    table: &FamilyTable,
    refs: &TypeRefs,
    arrays: Seq<Type>,
    said: Seq<Diagnostic>,
    i: int,
    j: int,
)
    requires
        whole_layout(decl, table, refs, arrays, said).said.len() == said.len(),
    ensures
        decl.key matches Some(key) && table.families@.contains_key(key),
        0 <= i < j < decl.params@.len() ==> decl.params@[i].name != decl.params@[j].name,
        0 <= i < j < decl.fields@.len() ==> decl.fields@[i].name != decl.fields@[j].name,
        0 <= i < decl.params@.len() && 0 <= j < decl.fields@.len() ==> decl.params@[i].name
            != decl.fields@[j].name,
        0 <= i < decl.fields@.len() && decl.fields@[i].slot ==> decl.fields@[i].ty is Some,
        0 <= i < decl.methods@.len() ==> !decl.methods@[i].required,
        0 <= i < j < decl.methods@.len() ==> decl.methods@[i].key != decl.methods@[j].key,
        0 <= i < decl.methods@.len() ==> own_methods(
            decl,
            own_layout(decl, refs, arrays, said),
        ).own.contains(decl.methods@[i].name),
        0 <= i < decl.methods@.len() && decl.methods@[i].computed ==> own_methods(
            decl,
            own_layout(decl, refs, arrays, said),
        ).computed.contains(decl.methods@[i].name),
{
    let start = layout_start(arrays, said);
    lemma_params_are_fields(start, refs, decl.source, decl.params@);
    let inputs = params_laid(start, refs, decl.source, decl.params@);
    lemma_lets_are_fields(inputs, refs, decl.source, decl.fields@);
    let own = own_layout(decl, refs, arrays, said);
    let methods = own_methods(decl, own);
    lemma_methods_are_kept(
        Methods {
            keys: Seq::empty(),
            seen: own.seen,
            own: Seq::empty(),
            computed: Seq::empty(),
            said: own.said,
        },
        decl,
        decl.methods@,
    );
    let joined = Layout { seen: methods.seen, said: methods.said, ..own };
    if let Some(info) = decl.surface(table) {
        lemma_stored_are_fields(
            joined,
            refs,
            decl.family_name(),
            decl.family_span,
            info.stored_fields@,
        );
    }
    if 0 <= i < decl.params@.len() && 0 <= j < decl.fields@.len() {
        assert(inputs.seen.contains(decl.params@[i].name));
        assert(!inputs.seen.contains(decl.fields@[j].name));
    }
    if 0 <= i < decl.fields@.len() {
        assert(decl.fields@[i] == decl.fields@[i]);
    }
    if 0 <= i < decl.methods@.len() {
        assert(decl.methods@[i] == decl.methods@[i]);
    }
}

/// A declaration has a computed member of its family without writing it: one each
/// declaration implements and this one does not. It gets no other.
pub proof fn a_familys_computed_members_are_inherited(
    computed: Seq<Symbol>,
    own: Seq<Symbol>,
    entries: Seq<(Symbol, MethodEntry)>,
    methods: Seq<FamilyMethod>,
    count: int,
    name: Symbol,
)
    requires
        0 <= count <= entries.len(),
    ensures
        inherited_computed(computed, own, entries, methods, count).contains(name)
            <==> computed.contains(name) || (!own.contains(name) && exists|i: int|
            0 <= i < count && (#[trigger] entries[i]).0 == name && !entries[i].1.uniform
                && methods[entries[i].1.method as int].computed),
    decreases count,
{
    if count > 0 {
        a_familys_computed_members_are_inherited(computed, own, entries, methods, count - 1, name);
        let before = inherited_computed(computed, own, entries, methods, count - 1);
        lemma_with_name(before, entries[count - 1].0);
        if with_name(before, entries[count - 1].0).contains(name) && !before.contains(name) {
            assert(entries[count - 1].0 == name);
        }
    }
}

proof fn lemma_list_field(
    layout: Layout,
    refs: &TypeRefs,
    source: SourceId,
    fields: Seq<BackedField>,
    k: int,
    element: Type,
)
    requires
        layout.defaults.len() == layout.fields.len(),
        layout.fields.len() + fields.len() <= u32::MAX,
        layout.arrays.len() + fields.len() <= u32::MAX,
        0 <= k < fields.len(),
        fields[k].slot,
        fields[k].ty is Some,
        refs.meaning(fields[k].ty->0).list_of == Some(element),
    ensures
        ({
            let after = fields_laid(layout, refs, source, fields);
            let at = layout.fields.len() + k;
            &&& after.fields[at].ty matches Type::Array(row) && row < after.arrays.len()
                && after.arrays[row as int] == element
            &&& exists|s: int|
                0 <= s < after.slots.len() && (#[trigger] after.slots[s]).field_index == at
                    && after.slots[s].list && after.slots[s].element_ty == element
                    && after.slots[s].name == fields[k].name && after.slots[s].has_default == (
                fields[k].default is Some)
        }),
        fields_laid(layout, refs, source, fields).arrays.len() <= layout.arrays.len()
            + fields.len(),
    decreases fields.len(),
{
    let rest = fields.drop_last();
    let last = fields.len() - 1;
    lemma_lets_are_fields(layout, refs, source, rest);
    lemma_lets_are_fields(layout, refs, source, fields);
    lemma_arrays_grow(layout, refs, source, rest);
    let before = fields_laid(layout, refs, source, rest);
    let after = fields_laid(layout, refs, source, fields);
    let at = layout.fields.len() + k;
    if k < last {
        assert(rest[k] == fields[k]);
        lemma_list_field(layout, refs, source, rest, k, element);
        assert(after.fields[at] == before.fields[at]);
        let s = choose|s: int|
            0 <= s < before.slots.len() && (#[trigger] before.slots[s]).field_index == at
                && before.slots[s].list && before.slots[s].element_ty == element
                && before.slots[s].name == fields[k].name && before.slots[s].has_default == (
            fields[k].default is Some);
        assert(after.slots[s] == before.slots[s]);
    } else {
        crate::ty::a_type_is_interned_once(before.arrays, element, element, 0);
        assert(after.slots[after.slots.len() - 1].field_index == at);
    }
    lemma_arrays_grow(layout, refs, source, fields);
}

proof fn lemma_arrays_grow(
    layout: Layout,
    refs: &TypeRefs,
    source: SourceId,
    fields: Seq<BackedField>,
)
    ensures
        fields_laid(layout, refs, source, fields).arrays.len() <= layout.arrays.len()
            + fields.len(),
    decreases fields.len(),
{
    if fields.len() > 0 {
        lemma_arrays_grow(layout, refs, source, fields.drop_last());
    }
}

/// A child slot written as a list is stored as an array of what it lists, and recorded as
/// a list of that, under its own name and at its own field.
pub proof fn a_list_slot_stores_an_array(
    decl: &BackedDecl,
    refs: &TypeRefs,
    arrays: Seq<Type>,
    said: Seq<Diagnostic>,
    k: int,
    element: Type,
)
    requires
        0 <= k < decl.fields@.len(),
        decl.params@.len() + decl.fields@.len() <= u32::MAX,
        arrays.len() + decl.fields@.len() <= u32::MAX,
        decl.fields@[k].slot,
        decl.fields@[k].ty is Some,
        refs.meaning(decl.fields@[k].ty->0).list_of == Some(element),
    ensures
        ({
            let own = own_layout(decl, refs, arrays, said);
            let at = decl.params@.len() + k;
            &&& own.fields[at].ty matches Type::Array(row) && row < own.arrays.len()
                && own.arrays[row as int] == element
            &&& exists|s: int|
                0 <= s < own.slots.len() && (#[trigger] own.slots[s]).field_index == at
                    && own.slots[s].list && own.slots[s].element_ty == element && own.slots[s].name
                    == decl.fields@[k].name && own.slots[s].has_default == (
                decl.fields@[k].default is Some)
        }),
{
    let start = layout_start(arrays, said);
    lemma_params_are_fields(start, refs, decl.source, decl.params@);
    let inputs = params_laid(start, refs, decl.source, decl.params@);
    lemma_params_keep_arrays(start, refs, decl.source, decl.params@);
    lemma_list_field(inputs, refs, decl.source, decl.fields@, k, element);
}

proof fn lemma_params_keep_arrays(
    layout: Layout,
    refs: &TypeRefs,
    source: SourceId,
    params: Seq<BackedParam>,
)
    ensures
        params_laid(layout, refs, source, params).arrays == layout.arrays,
    decreases params.len(),
{
    if params.len() > 0 {
        lemma_params_keep_arrays(layout, refs, source, params.drop_last());
    }
}

/// What is remembered of a declaration that is refused nothing: every method it writes
/// among its own, and among its computed members where it is one, and every construction
/// input, `let` and method among its member names.
pub proof fn a_sound_declaration_is_remembered_whole(
    info: ConstructInfo,
    decl: &BackedDecl,
    table: &FamilyTable,
    refs: &TypeRefs,
    arrays: Seq<Type>,
    id: StructId,
    i: int,
)
    requires
        construct_recorded(info, decl, table, refs, arrays, id),
        whole_layout(decl, table, refs, arrays, Seq::empty()).said.len() == 0,
    ensures
        0 <= i < decl.methods@.len() ==> info.own_methods@.contains(decl.methods@[i].name)
            && info.members@.contains(decl.methods@[i].name),
        0 <= i < decl.methods@.len() && decl.methods@[i].computed ==> info.computed@.contains(
            decl.methods@[i].name,
        ),
        0 <= i < decl.params@.len() ==> info.members@.contains(decl.params@[i].name),
        0 <= i < decl.fields@.len() ==> info.members@.contains(decl.fields@[i].name),
        info.slots@ == whole_layout(decl, table, refs, arrays, Seq::empty()).slots,
{
    let said = Seq::<Diagnostic>::empty();
    let start = layout_start(arrays, said);
    lemma_params_are_fields(start, refs, decl.source, decl.params@);
    let inputs = params_laid(start, refs, decl.source, decl.params@);
    lemma_lets_are_fields(inputs, refs, decl.source, decl.fields@);
    let own = own_layout(decl, refs, arrays, said);
    let methods = own_methods(decl, own);
    lemma_methods_are_kept(
        Methods {
            keys: Seq::empty(),
            seen: own.seen,
            own: Seq::empty(),
            computed: Seq::empty(),
            said: own.said,
        },
        decl,
        decl.methods@,
    );
    let joined = Layout { seen: methods.seen, said: methods.said, ..own };
    if let Some(family) = decl.surface(table) {
        lemma_stored_are_fields(
            joined,
            refs,
            decl.family_name(),
            decl.family_span,
            family.stored_fields@,
        );
        if 0 <= i < decl.methods@.len() && decl.methods@[i].computed {
            a_familys_computed_members_are_inherited(
                methods.computed,
                methods.own,
                family.methods.rows@,
                table.methods@,
                family.methods.rows@.len() as int,
                decl.methods@[i].name,
            );
        }
    }
    if 0 <= i < decl.methods@.len() {
        assert(methods.own.contains(decl.methods@[i].name));
    }
    if 0 <= i < decl.params@.len() {
        assert(inputs.seen.contains(decl.params@[i].name));
        assert(own.seen.contains(decl.params@[i].name));
        assert(methods.seen.contains(decl.params@[i].name));
    }
    if 0 <= i < decl.fields@.len() {
        assert(own.seen.contains(decl.fields@[i].name));
        assert(methods.seen.contains(decl.fields@[i].name));
    }
}

/// A member that is not executable yet is refused where it is written, under what it is
/// called, one report each.
pub proof fn every_deferred_member_is_refused(
    source: SourceId,
    deferred: Seq<(Span, Symbol)>,
    k: int,
)
    requires
        0 <= k < deferred.len(),
    ensures
        deferrals(source, deferred).len() == deferred.len(),
        deferrals(source, deferred)[k].at.source == source,
        deferrals(source, deferred)[k].at.span == deferred[k].0,
        deferrals(source, deferred)[k].problem == (Problem::DeferredMember {
            label: deferred[k].1,
        }),
{
}

} // verus!
