//! Construct families and the declarations backed by them.
//!
//! A construct-backed declaration is a struct: its construction inputs and
//! stored members are fields, its other members are methods. A family
//! additionally becomes a synthesized enum, `Any Family`, whose variants carry
//! the concrete structs, and a call on a family value becomes a dispatch on the
//! variant's tag.

use vstd::prelude::*;

use crate::dispatch_tree::ConstructVariant;
use crate::hir::{FuncId, HirExprId};
use crate::names::Symbol;
use crate::source::{SourceId, Span};
use crate::symbol_map::SymbolMap;
use crate::syntax::{ExprId, TypeRefId};
use crate::ty::{EnumId, Execution, OwnershipMode, StructId, Type};

verus! {

/// One parameter of a family method as written.
#[derive(Clone, Copy, PartialEq, Eq, Structural, Debug)]
pub struct MethodParam {
    pub name: Symbol,
    pub name_span: Span,
    pub ty: TypeRefId,
    pub default: Option<ExprId>,
}

/// One method a construct family declares, or one modifier an `extend` block
/// gives it.
#[derive(Debug)]
pub struct FamilyMethod {
    pub name_span: Span,
    /// The file the method was written in.
    pub source: SourceId,
    /// Whether reads use property syntax rather than a call.
    pub computed: bool,
    /// Whether the family stated a signature with no body, so that there is
    /// nothing to inherit and every variant must implement it itself.
    pub required: bool,
    /// The result type as written, when one was.
    pub written_result: Option<TypeRefId>,
    /// Whether the receiver is written `borrow mut self`.
    pub mutates_self: bool,
    pub execution: Execution,
    pub written: Vec<MethodParam>,
    /// Resolved parameter types, the receiver left out.
    pub params: Vec<Type>,
    pub ownership: Vec<OwnershipMode>,
    pub result: Type,
    /// Resolved parameter defaults, in step with `params`; empty until resolved.
    pub defaults: Vec<Option<HirExprId>>,
}

impl FamilyMethod {
    /// The result type every implementation must present, or `None` when the
    /// family placed no constraint on it: only a bodyless requirement written
    /// without a result type leaves it open.
    pub open spec fn promised_result(&self) -> Option<Type> {
        if !self.required || self.written_result is Some {
            Some(self.result)
        } else {
            None
        }
    }

    /// The result type every implementation must present, if it is constrained.
    pub fn constrained_result(&self) -> (result: Option<Type>)
        ensures
            result == self.promised_result(),
    {
        if !self.required || self.written_result.is_some() {
            Some(self.result)
        } else {
            None
        }
    }
}

/// A family's own hold on one of its methods.
#[derive(Clone, Copy, PartialEq, Eq, Structural, Debug)]
pub struct MethodEntry {
    /// The method, by its row among all family methods.
    pub method: u32,
    /// Whether this is a modifier from an `extend` block: one shared body whose
    /// receiver is the family value.
    pub uniform: bool,
    /// The dispatcher of a per-variant method, reserved on first use; the body of
    /// a modifier, reserved up front.
    pub dispatcher: Option<FuncId>,
}

/// One value member a construct family presents.
#[derive(Clone, Copy, PartialEq, Eq, Structural, Debug)]
pub struct FamilyField {
    /// The type every backed declaration must present; `Error` until resolved.
    pub result: Type,
    /// The dispatcher that reads it, reserved on first read.
    pub dispatcher: Option<FuncId>,
}

/// A stored field a construct family gives every declaration backed by it.
#[derive(Clone, Copy, PartialEq, Eq, Structural, Debug)]
pub struct StoredField {
    pub name: Symbol,
    pub ty: Option<TypeRefId>,
    pub default: Option<ExprId>,
    pub source: SourceId,
    /// Whether it is a child slot.
    pub slot: bool,
    pub mutable: bool,
}

/// One construct family: its type, its surface and its concrete variants.
#[derive(Debug)]
pub struct FamilyInfo {
    /// The family's declared name.
    pub name: Symbol,
    pub enum_id: EnumId,
    /// Names of the value members every backed declaration must present.
    pub required: Vec<Symbol>,
    pub methods: SymbolMap<MethodEntry>,
    pub field_members: SymbolMap<FamilyField>,
    pub stored_fields: Vec<StoredField>,
    /// Concrete declarations in source order, those of extending families too.
    pub variants: Vec<ConstructVariant>,
    /// Families this one extends, nearest first and already transitive.
    pub parents: Vec<Symbol>,
    /// The type each member was written with, and the file it was written in.
    pub member_types: SymbolMap<(TypeRefId, SourceId)>,
}

impl FamilyInfo {
    /// The tables are in name order.
    pub open spec fn wf(&self) -> bool {
        &&& self.methods.wf()
        &&& self.field_members.wf()
        &&& self.member_types.wf()
    }
}

/// Every construct family, by the key it is filed under.
#[derive(Debug)]
pub struct FamilyTable {
    pub families: SymbolMap<FamilyInfo>,
    /// The key of the family each synthesized enum stands for.
    pub names: Vec<(EnumId, Symbol)>,
    /// Every family method, whichever families hold it.
    pub methods: Vec<FamilyMethod>,
}

/// The key of the family `id` stands for, if it stands for one.
pub open spec fn family_named(names: Seq<(EnumId, Symbol)>, id: EnumId) -> Option<Symbol>
    decreases names.len(),
{
    if names.len() == 0 {
        None
    } else if names[0].0 == id {
        Some(names[0].1)
    } else {
        family_named(names.drop_first(), id)
    }
}

impl FamilyTable {
    /// The tables are in order, and every method a family holds is a row.
    pub open spec fn wf(&self) -> bool {
        &&& self.families.wf()
        &&& self.methods@.len() <= u32::MAX
        &&& forall|key: Symbol|
            self.families@.contains_key(key) ==> (#[trigger] self.families@[key]).wf()
        &&& forall|key: Symbol, name: Symbol|
            self.families@.contains_key(key) && self.families@[key].methods@.contains_key(name)
                ==> (#[trigger] self.families@[key].methods@[name]).method < self.methods@.len()
    }

    /// The key of the family a synthesized enum stands for.
    pub open spec fn key_of(&self, id: EnumId) -> Option<Symbol> {
        family_named(self.names@, id)
    }

    /// The family filed under `key`.
    pub open spec fn info(&self, key: Symbol) -> Option<FamilyInfo> {
        if self.families@.contains_key(key) {
            Some(self.families@[key])
        } else {
            None
        }
    }

    /// The family a synthesized enum stands for.
    pub open spec fn family(&self, id: EnumId) -> Option<FamilyInfo> {
        match self.key_of(id) {
            Some(key) => self.info(key),
            None => None,
        }
    }

    /// A family's hold on the method it calls `name`.
    pub open spec fn entry(&self, id: EnumId, name: Symbol) -> Option<MethodEntry> {
        match self.family(id) {
            Some(info) => if info.methods@.contains_key(name) {
                Some(info.methods@[name])
            } else {
                None
            },
            None => None,
        }
    }

    /// A family's value member `name`.
    pub open spec fn field_member(&self, id: EnumId, name: Symbol) -> Option<FamilyField> {
        match self.family(id) {
            Some(info) => if info.field_members@.contains_key(name) {
                Some(info.field_members@[name])
            } else {
                None
            },
            None => None,
        }
    }

    /// A table with no family in it.
    pub fn new() -> (table: FamilyTable)
        ensures
            table.wf(),
            table.families@ == Map::<Symbol, FamilyInfo>::empty(),
            table.names@.len() == 0,
            table.methods@.len() == 0,
    {
        FamilyTable { families: SymbolMap::new(), names: Vec::new(), methods: Vec::new() }
    }

    /// The key of the family a synthesized enum stands for.
    pub fn find_key(&self, id: EnumId) -> (key: Option<Symbol>)
        ensures
            key == self.key_of(id),
    {
        let mut i: usize = 0;
        assert(self.names@.skip(0) =~= self.names@);
        while i < self.names.len()
            invariant
                i <= self.names@.len(),
                family_named(self.names@, id) == family_named(self.names@.skip(i as int), id),
            decreases self.names@.len() - i,
        {
            assert(self.names@.skip(i as int).drop_first() =~= self.names@.skip(i + 1));
            let (found, key): (EnumId, Symbol) = self.names[i];
            if found == id {
                return Some(key);
            }
            i += 1;
        }
        None
    }

    /// The row of the family a synthesized enum stands for.
    pub fn find_family(&self, id: EnumId) -> (row: Option<usize>)
        requires
            self.wf(),
        ensures
            match row {
                Some(i) => i < self.families.rows@.len() && self.key_of(id) == Some(
                    self.families.rows@[i as int].0,
                ) && self.family(id) == Some(self.families.rows@[i as int].1),
                None => self.family(id) is None,
            },
    {
        match self.find_key(id) {
            Some(key) => self.families.find(key),
            None => None,
        }
    }

    /// The synthesized enum of the family filed under `key`.
    pub fn construct_family_type(&self, key: Symbol) -> (id: Option<EnumId>)
        requires
            self.wf(),
        ensures
            id == match self.info(key) {
                Some(info) => Some(info.enum_id),
                None => None,
            },
    {
        match self.families.find(key) {
            Some(i) => Some(self.families.rows[i].1.enum_id),
            None => None,
        }
    }

    /// Whether `id` is a synthesized construct-family enum.
    pub fn is_construct_family_type(&self, id: EnumId) -> (res: bool)
        ensures
            res == (self.key_of(id) is Some),
    {
        self.find_key(id).is_some()
    }

    /// A family's hold on the method it calls `name`.
    pub fn find_entry(&self, id: EnumId, name: Symbol) -> (entry: Option<MethodEntry>)
        requires
            self.wf(),
        ensures
            entry == self.entry(id, name),
            entry matches Some(entry) ==> entry.method < self.methods@.len(),
    {
        match self.find_family(id) {
            Some(i) => {
                let info = &self.families.rows[i].1;
                match info.methods.find(name) {
                    Some(k) => Some(info.methods.rows[k].1),
                    None => None,
                }
            },
            None => None,
        }
    }

    /// Whether a family exposes `name` as a computed property.
    pub fn construct_family_computed_member(&self, id: EnumId, name: Symbol) -> (res: bool)
        requires
            self.wf(),
        ensures
            res == (self.entry(id, name) matches Some(entry) && self.methods@[entry.method as int].computed),
    {
        match self.find_entry(id, name) {
            Some(entry) => self.methods[entry.method as usize].computed,
            None => false,
        }
    }

    /// Whether a family's method is a modifier called directly.
    pub fn family_method_is_uniform(&self, id: EnumId, name: Symbol) -> (res: bool)
        requires
            self.wf(),
        ensures
            res == (self.entry(id, name) matches Some(entry) && entry.uniform),
    {
        match self.find_entry(id, name) {
            Some(entry) => entry.uniform,
            None => false,
        }
    }

    /// The single body a modifier is called through.
    pub fn family_uniform_body(&self, id: EnumId, name: Symbol) -> (body: Option<FuncId>)
        requires
            self.wf(),
        ensures
            body == match self.entry(id, name) {
                Some(entry) => if entry.uniform {
                    entry.dispatcher
                } else {
                    None
                },
                None => None,
            },
    {
        match self.find_entry(id, name) {
            Some(entry) => if entry.uniform {
                entry.dispatcher
            } else {
                None
            },
            None => None,
        }
    }

    /// A family's value member `name`.
    pub fn find_field_member(&self, id: EnumId, name: Symbol) -> (member: Option<FamilyField>)
        requires
            self.wf(),
        ensures
            member == self.field_member(id, name),
    {
        match self.find_family(id) {
            Some(i) => {
                let info = &self.families.rows[i].1;
                match info.field_members.find(name) {
                    Some(k) => Some(info.field_members.rows[k].1),
                    None => None,
                }
            },
            None => None,
        }
    }

    /// The type of a family's value member, when it has one by that name.
    pub fn construct_family_field_member(&self, id: EnumId, name: Symbol) -> (ty: Option<Type>)
        requires
            self.wf(),
        ensures
            ty == match self.field_member(id, name) {
                Some(member) => Some(member.result),
                None => None,
            },
    {
        match self.find_field_member(id, name) {
            Some(member) => Some(member.result),
            None => None,
        }
    }

    /// The family's key, when `name` is one of its stored members written with no
    /// type: the one kind of member a family value cannot read.
    pub fn construct_family_untyped_member(&self, id: EnumId, name: Symbol) -> (key: Option<Symbol>)
        requires
            self.wf(),
        ensures
            key == if self.family(id) matches Some(info) && untyped(info.stored_fields@, name) {
                self.key_of(id)
            } else {
                None
            },
    {
        match self.find_family(id) {
            Some(i) => {
                if has_untyped(&self.families.rows[i].1.stored_fields, name) {
                    Some(self.families.rows[i].0)
                } else {
                    None
                }
            },
            None => None,
        }
    }

    /// Every family the one filed under `key` reaches through `extends`, nearest
    /// first.
    pub fn construct_family_ancestors(&self, key: Symbol) -> (parents: Vec<Symbol>)
        requires
            self.wf(),
        ensures
            parents@ == match self.info(key) {
                Some(info) => info.parents@,
                None => Seq::empty(),
            },
    {
        match self.families.find(key) {
            Some(i) => crate::lists::copied(&self.families.rows[i].1.parents),
            None => Vec::new(),
        }
    }
}

/// Whether some stored field called `name` was written with no type.
pub open spec fn untyped(fields: Seq<StoredField>, name: Symbol) -> bool {
    exists|i: int|
        0 <= i < fields.len() && (#[trigger] fields[i]).name == name && fields[i].ty is None
}

fn has_untyped(fields: &Vec<StoredField>, name: Symbol) -> (res: bool)
    ensures
        res == untyped(fields@, name),
{
    let mut i: usize = 0;
    while i < fields.len()
        invariant
            i <= fields@.len(),
            forall|k: int|
                0 <= k < i ==> !((#[trigger] fields@[k]).name == name && fields@[k].ty is None),
        decreases fields@.len() - i,
    {
        if fields[i].name == name && fields[i].ty.is_none() {
            return true;
        }
        i += 1;
    }
    false
}

/// One child slot of a construct-backed declaration.
#[derive(Clone, Copy, PartialEq, Eq, Structural, Debug)]
pub struct ContentSlot {
    /// The slot field's index among the struct's fields.
    pub field_index: u32,
    /// The slot field's name, which is also the label that fills it.
    pub name: Symbol,
    /// Whether the slot holds an ordered list rather than exactly one child.
    pub list: bool,
    /// The type each child must satisfy.
    pub element_ty: Type,
    /// The type the slot field stores.
    pub field_ty: Type,
    /// Whether the slot declared a default.
    pub has_default: bool,
}

/// What analysis remembers about one construct-backed declaration beyond its
/// struct.
#[derive(Debug)]
pub struct ConstructInfo {
    /// Members read as properties rather than fields.
    pub computed: Vec<Symbol>,
    /// The key of the family the declaration is backed by.
    pub family: Symbol,
    /// Every member name the declaration presents itself, before the family's
    /// stored members join its fields.
    pub members: Vec<Symbol>,
    /// The method names the declaration wrote in its own body.
    pub own_methods: Vec<Symbol>,
    pub slots: Vec<ContentSlot>,
    /// The family variants this struct is: of the family it is backed by first,
    /// then of every family that one extends, each with its tag there.
    pub families: Vec<(EnumId, u32)>,
}

/// Every construct-backed declaration, by its struct.
#[derive(Debug)]
pub struct ConstructTable {
    pub rows: Vec<(StructId, ConstructInfo)>,
}

/// The first row of the declaration that became `id`.
pub open spec fn construct_row(rows: Seq<(StructId, ConstructInfo)>, id: StructId) -> Option<int>
    decreases rows.len(),
{
    if rows.len() == 0 {
        None
    } else if rows[0].0 == id {
        Some(0)
    } else {
        match construct_row(rows.drop_first(), id) {
            Some(i) => Some(i + 1),
            None => None,
        }
    }
}

/// The tag of a declaration as a variant of `family`, if it is one.
pub open spec fn tag_in(families: Seq<(EnumId, u32)>, family: EnumId) -> Option<u32>
    decreases families.len(),
{
    if families.len() == 0 {
        None
    } else if families[0].0 == family {
        Some(families[0].1)
    } else {
        tag_in(families.drop_first(), family)
    }
}

/// The tag of a declaration as a variant of `family`, if it is one.
pub fn find_tag(families: &Vec<(EnumId, u32)>, family: EnumId) -> (tag: Option<u32>)
    ensures
        tag == tag_in(families@, family),
{
    let mut i: usize = 0;
    assert(families@.skip(0) =~= families@);
    while i < families.len()
        invariant
            i <= families@.len(),
            tag_in(families@, family) == tag_in(families@.skip(i as int), family),
        decreases families@.len() - i,
    {
        assert(families@.skip(i as int).drop_first() =~= families@.skip(i + 1));
        let (id, tag): (EnumId, u32) = families[i];
        if id == family {
            return Some(tag);
        }
        i += 1;
    }
    None
}

/// Whether `name` is one of `names`.
pub fn names_list(names: &Vec<Symbol>, name: Symbol) -> (res: bool)
    ensures
        res == names@.contains(name),
{
    let mut i: usize = 0;
    while i < names.len()
        invariant
            i <= names@.len(),
            forall|k: int| 0 <= k < i ==> names@[k] != name,
        decreases names@.len() - i,
    {
        if names[i] == name {
            return true;
        }
        i += 1;
    }
    false
}

impl ConstructTable {
    /// What is remembered of the declaration that became `id`.
    pub open spec fn info(&self, id: StructId) -> Option<ConstructInfo> {
        match construct_row(self.rows@, id) {
            Some(i) => Some(self.rows@[i].1),
            None => None,
        }
    }

    /// A table with no declaration in it.
    pub fn new() -> (table: ConstructTable)
        ensures
            table.rows@.len() == 0,
    {
        ConstructTable { rows: Vec::new() }
    }

    /// The row of the declaration that became `id`.
    pub fn find(&self, id: StructId) -> (row: Option<usize>)
        ensures
            match row {
                Some(i) => construct_row(self.rows@, id) == Some(i as int) && i < self.rows@.len()
                    && self.rows@[i as int].0 == id,
                None => construct_row(self.rows@, id) is None,
            },
    {
        let mut i: usize = 0;
        assert(self.rows@.skip(0) =~= self.rows@);
        while i < self.rows.len()
            invariant
                i <= self.rows@.len(),
                construct_row(self.rows@, id) == match construct_row(
                    self.rows@.skip(i as int),
                    id,
                ) {
                    Some(k) => Some(k + i),
                    None => None,
                },
            decreases self.rows@.len() - i,
        {
            assert(self.rows@.skip(i as int).drop_first() =~= self.rows@.skip(i + 1));
            if self.rows[i].0 == id {
                return Some(i);
            }
            i += 1;
        }
        None
    }

    /// Whether `ty` is a concrete construct-backed struct, and which.
    pub fn concrete_construct_id(&self, ty: Type) -> (id: Option<StructId>)
        ensures
            id == match ty {
                Type::Struct(id) if self.info(id) is Some => Some(id),
                _ => None,
            },
    {
        match ty {
            Type::Struct(id) => match self.find(id) {
                Some(_) => Some(id),
                None => None,
            },
            _ => None,
        }
    }

    /// Whether `name` is a computed property of the declaration that became `id`.
    pub fn construct_computed_member(&self, id: StructId, name: Symbol) -> (res: bool)
        ensures
            res == (self.info(id) matches Some(info) && info.computed@.contains(name)),
    {
        match self.find(id) {
            Some(i) => names_list(&self.rows[i].1.computed, name),
            None => false,
        }
    }

    /// The child slots of the declaration that became `id`, in declaration order.
    pub fn child_slots(&self, id: StructId) -> (slots: Vec<ContentSlot>)
        ensures
            slots@ == self.slots_of(id),
    {
        match self.find(id) {
            Some(i) => crate::lists::copied(&self.rows[i].1.slots),
            None => Vec::new(),
        }
    }

    /// The child slots of the declaration that became `id`; none where it is no
    /// such declaration.
    pub open spec fn slots_of(&self, id: StructId) -> Seq<ContentSlot> {
        match self.info(id) {
            Some(info) => info.slots@,
            None => Seq::empty(),
        }
    }

    /// The family a modifier `name` is called through on a value of the
    /// declaration that became `id`: the one it is backed by, where the method is
    /// a modifier there.
    pub fn family_uniform_method(&self, table: &FamilyTable, id: StructId, name: Symbol) -> (family:
        Option<EnumId>)
        requires
            table.wf(),
        ensures
            family == match self.info(id) {
                Some(info) => if info.families@.len() > 0 && (table.entry(
                    info.families@[0].0,
                    name,
                ) matches Some(entry) && entry.uniform) {
                    Some(info.families@[0].0)
                } else {
                    None
                },
                None => None,
            },
    {
        match self.find(id) {
            Some(i) => {
                let families = &self.rows[i].1.families;
                if families.len() == 0 {
                    return None;
                }
                let family = families[0].0;
                if table.family_method_is_uniform(family, name) {
                    Some(family)
                } else {
                    None
                }
            },
            None => None,
        }
    }
}

proof fn lemma_family_named(names: Seq<(EnumId, Symbol)>, id: EnumId)
    ensures
        match family_named(names, id) {
            Some(key) => names.contains((id, key)),
            None => forall|i: int| 0 <= i < names.len() ==> (#[trigger] names[i]).0 != id,
        },
    decreases names.len(),
{
    if names.len() > 0 {
        if names[0].0 == id {
            assert(names[0] == (id, names[0].1));
        } else {
            let rest = names.drop_first();
            lemma_family_named(rest, id);
            match family_named(rest, id) {
                Some(key) => {
                    let i = choose|i: int| 0 <= i < rest.len() && rest[i] == (id, key);
                    assert(names[i + 1] == (id, key));
                },
                None => {
                    assert forall|i: int| 0 <= i < names.len() implies (#[trigger] names[i]).0
                        != id by {
                        if i > 0 {
                            assert(names[i] == rest[i - 1]);
                        }
                    }
                },
            }
        }
    }
}

/// An enum stands for a family exactly if it is recorded as one, and the family it stands
/// for, its methods and its value members are those filed under the recorded key.
pub proof fn an_enum_stands_for_its_recorded_family(
    table: &FamilyTable,
    id: EnumId,
    key: Symbol,
    name: Symbol,
)
    requires
        table.names@.contains((id, key)),
        forall|i: int, j: int|
            0 <= i < j < table.names@.len() ==> (#[trigger] table.names@[i]).0 != (
            #[trigger] table.names@[j]).0,
    ensures
        table.key_of(id) == Some(key),
        table.families@.contains_key(key) ==> table.family(id) == Some(table.families@[key]),
        table.families@.contains_key(key) && table.families@[key].methods@.contains_key(name)
            ==> table.entry(id, name) == Some(table.families@[key].methods@[name]),
        table.families@.contains_key(key) && !table.families@[key].methods@.contains_key(name)
            ==> table.entry(id, name) is None,
        table.families@.contains_key(key) && table.families@[key].field_members@.contains_key(name)
            ==> table.field_member(id, name) == Some(table.families@[key].field_members@[name]),
        table.families@.contains_key(key) && !table.families@[key].field_members@.contains_key(name)
            ==> table.field_member(id, name) is None,
{
    lemma_family_named(table.names@, id);
    let i = choose|i: int| 0 <= i < table.names@.len() && table.names@[i] == (id, key);
    assert(table.names@[i].0 == id);
    if let Some(found) = family_named(table.names@, id) {
        let j = choose|j: int| 0 <= j < table.names@.len() && table.names@[j] == (id, found);
        assert(table.names@[j].0 == id);
        assert(i == j);
    }
}

/// A declaration is a variant of a family exactly if its record lists that family, under
/// the tag it lists first.
pub proof fn a_variant_has_its_recorded_tag(families: Seq<(EnumId, u32)>, family: EnumId)
    ensures
        match tag_in(families, family) {
            Some(tag) => exists|i: int|
                0 <= i < families.len() && #[trigger] families[i] == (family, tag) && forall|k: int|
                    0 <= k < i ==> (#[trigger] families[k]).0 != family,
            None => forall|i: int|
                0 <= i < families.len() ==> (#[trigger] families[i]).0 != family,
        },
    decreases families.len(),
{
    if families.len() > 0 {
        if families[0].0 == family {
            assert(families[0] == (family, families[0].1));
        } else {
            let rest = families.drop_first();
            a_variant_has_its_recorded_tag(rest, family);
            match tag_in(rest, family) {
                Some(tag) => {
                    let i = choose|i: int|
                        0 <= i < rest.len() && #[trigger] rest[i] == (family, tag) && forall|k: int|
                            0 <= k < i ==> (#[trigger] rest[k]).0 != family;
                    assert(families[i + 1] == (family, tag));
                    assert forall|k: int| 0 <= k < i + 1 implies (#[trigger] families[k]).0
                        != family by {
                        if k > 0 {
                            assert(families[k] == rest[k - 1]);
                        }
                    }
                },
                None => {
                    assert forall|i: int| 0 <= i < families.len() implies (
                    #[trigger] families[i]).0 != family by {
                        if i > 0 {
                            assert(families[i] == rest[i - 1]);
                        }
                    }
                },
            }
        }
    }
}

/// What a family's method promises of its result: nothing exactly where it is a
/// requirement without a body that wrote no result.
pub proof fn only_an_open_requirement_promises_nothing(method: FamilyMethod)
    ensures
        method.promised_result() is None <==> method.required && method.written_result is None,
        method.promised_result() matches Some(result) ==> result == method.result,
{
}

/// The record of a struct is the first one filed for it.
pub proof fn a_construct_is_known_by_its_struct(table: &ConstructTable, id: StructId)
    ensures
        match table.info(id) {
            Some(info) => table.rows@.contains((id, info)),
            None => forall|i: int|
                0 <= i < table.rows@.len() ==> (#[trigger] table.rows@[i]).0 != id,
        },
{
    lemma_construct_known(table.rows@, id);
}

proof fn lemma_construct_known(rows: Seq<(StructId, ConstructInfo)>, id: StructId)
    ensures
        match construct_row(rows, id) {
            Some(i) => 0 <= i < rows.len() && rows[i].0 == id && rows.contains((id, rows[i].1)),
            None => forall|i: int| 0 <= i < rows.len() ==> (#[trigger] rows[i]).0 != id,
        },
    decreases rows.len(),
{
    if rows.len() > 0 {
        if rows[0].0 == id {
            assert(rows[0] == (id, rows[0].1));
        } else {
            let rest = rows.drop_first();
            lemma_construct_known(rest, id);
            match construct_row(rest, id) {
                Some(i) => {
                    assert(rows[i + 1] == (id, rows[i + 1].1));
                },
                None => {
                    assert forall|i: int| 0 <= i < rows.len() implies (#[trigger] rows[i]).0
                        != id by {
                        if i > 0 {
                            assert(rows[i] == rest[i - 1]);
                        }
                    }
                },
            }
        }
    }
}

} // verus!
