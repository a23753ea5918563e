//! Flattening classes into structs.
//!
//! A class is not a new runtime shape. It is a struct whose fields are its
//! parents' fields followed by its own, and whose methods are one copy of every
//! method any ancestor declares.

use vstd::prelude::*;

use crate::names::Symbol;
use crate::source::{SourceId, Span};
use crate::syntax::{ExprId, MemberKey};
use crate::ty::{FieldName, StructId, Type};

verus! {

/// One written `extends` entry.
#[derive(Clone, Copy, PartialEq, Eq, Structural, Debug)]
pub struct ParentRef {
    pub name: Symbol,
    pub span: Span,
    /// What the parent resolved to where it is a generic instantiation; a plain
    /// name resolves by what the file sees.
    pub instantiated: Option<Type>,
}

/// One field a class declares itself, its written type resolved.
#[derive(Clone, Copy, PartialEq, Eq, Structural, Debug)]
pub struct ClassFieldDecl {
    pub name: Symbol,
    pub name_span: Span,
    pub ty: Type,
    pub mutable: bool,
    pub default: Option<ExprId>,
}

/// One `override let name = value`.
#[derive(Clone, Copy, Debug)]
pub struct OverrideFieldDecl {
    pub name: Symbol,
    pub name_span: Span,
    /// The type the override restates, resolved, and where it was written.
    pub restated: Option<(Type, Span)>,
    pub default: ExprId,
}

/// One method a class body declares.
#[derive(Clone, Copy, PartialEq, Eq, Structural, Debug)]
pub struct ClassMethodDecl {
    pub key: MemberKey,
    pub name_span: Span,
    pub is_override: bool,
}

/// One class as written.
#[derive(Debug)]
pub struct ClassDecl {
    pub name: Symbol,
    pub name_span: Span,
    pub source: SourceId,
    /// Whether the class takes type parameters, and so names no type itself.
    pub generic: bool,
    pub parents: Vec<ParentRef>,
    pub fields: Vec<ClassFieldDecl>,
    pub overrides: Vec<OverrideFieldDecl>,
    pub methods: Vec<ClassMethodDecl>,
}

/// One `extend Name { … }` block, as far as classes read it.
#[derive(Debug)]
pub struct ExtendBlock {
    pub name: Symbol,
    pub source: SourceId,
    pub methods: Vec<ClassMethodDecl>,
}

/// Which type declared a slot, and under what name.
#[derive(Clone, Copy, PartialEq, Eq, Structural, Debug)]
pub struct SlotOrigin {
    pub owner: StructId,
    pub plain: FieldName,
}

/// Everything analysis knows about one class beyond its struct shape.
#[derive(Debug)]
pub struct ClassInfo {
    pub id: StructId,
    pub name: Symbol,
    /// Every transitive ancestor, self excluded.
    pub ancestors: Vec<StructId>,
    /// Which type declared each flattened slot, and under what name, by slot.
    pub slot_origin: Vec<SlotOrigin>,
    /// Every `(owner, member key)` pair this class can name, in order.
    pub qualified_methods: Vec<(StructId, MemberKey)>,
    /// The owners of the most derived definitions of each member. One owner is
    /// what the bare name means; several leave it ambiguous.
    pub bare_methods: Vec<(MemberKey, Vec<StructId>)>,
    /// Slots the constructor fills positionally: the fields with no default.
    pub required_slots: Vec<u32>,
}

/// The methods each type declares itself.
#[derive(Debug)]
pub struct OwnMethods {
    pub id: StructId,
    pub keys: Vec<MemberKey>,
}

/// Every flattened class and every type's own methods.
#[derive(Debug)]
pub struct ClassTable {
    pub classes: Vec<ClassInfo>,
    pub own_methods: Vec<OwnMethods>,
    /// Names of classes dropped before flattening because their parents form a
    /// cycle.
    pub unflattenable: Vec<Symbol>,
}

/// The row of `id` among the classes.
pub open spec fn class_row(classes: Seq<ClassInfo>, id: StructId) -> Option<int>
    decreases classes.len(),
{
    if classes.len() == 0 {
        None
    } else if classes.last().id == id {
        Some(classes.len() - 1)
    } else {
        class_row(classes.drop_last(), id)
    }
}

/// The row of `id` among the own methods.
pub open spec fn methods_row(rows: Seq<OwnMethods>, id: StructId) -> Option<int>
    decreases rows.len(),
{
    if rows.len() == 0 {
        None
    } else if rows.last().id == id {
        Some(rows.len() - 1)
    } else {
        methods_row(rows.drop_last(), id)
    }
}

pub proof fn lemma_class_row(classes: Seq<ClassInfo>, id: StructId)
    ensures
        class_row(classes, id) matches Some(i) ==> 0 <= i < classes.len() && classes[i].id == id,
        class_row(classes, id) is None ==> forall|k: int|
            0 <= k < classes.len() ==> (#[trigger] classes[k]).id != id,
    decreases classes.len(),
{
    if classes.len() > 0 && classes.last().id != id {
        lemma_class_row(classes.drop_last(), id);
        if class_row(classes, id) is None {
            assert forall|k: int| 0 <= k < classes.len() implies (#[trigger] classes[k]).id
                != id by {
                if k < classes.len() - 1 {
                    assert(classes.drop_last()[k] == classes[k]);
                }
            }
        }
    }
}

impl ClassTable {
    /// What is known of class `id`.
    pub open spec fn info(&self, id: StructId) -> Option<ClassInfo> {
        match class_row(self.classes@, id) {
            Some(i) => Some(self.classes@[i]),
            None => None,
        }
    }

    /// The keys of the methods `id` declares itself.
    pub open spec fn own_keys(&self, id: StructId) -> Seq<MemberKey> {
        match methods_row(self.own_methods@, id) {
            Some(i) => self.own_methods@[i].keys@,
            None => Seq::empty(),
        }
    }

    /// The ancestors of `id`, none where `id` is no class.
    pub open spec fn ancestors(&self, id: StructId) -> Seq<StructId> {
        match self.info(id) {
            Some(info) => info.ancestors@,
            None => Seq::empty(),
        }
    }

    /// A table of no classes.
    pub fn new() -> (table: ClassTable)
        ensures
            table.classes@.len() == 0,
            table.own_methods@.len() == 0,
            table.unflattenable@.len() == 0,
    {
        ClassTable { classes: Vec::new(), own_methods: Vec::new(), unflattenable: Vec::new() }
    }

    /// The row of class `id`, if it is one.
    pub fn find(&self, id: StructId) -> (found: Option<usize>)
        ensures
            match found {
                Some(i) => class_row(self.classes@, id) == Some(i as int) && i < self.classes@.len()
                    && self.classes@[i as int].id == id,
                None => class_row(self.classes@, id) is None,
            },
    {
        let mut i: usize = self.classes.len();
        assert(self.classes@.take(i as int) =~= self.classes@);
        while i > 0
            invariant
                i <= self.classes@.len(),
                class_row(self.classes@, id) == class_row(self.classes@.take(i as int), id),
            decreases i,
        {
            assert(self.classes@.take(i as int).drop_last() =~= self.classes@.take(i - 1));
            i -= 1;
            if self.classes[i].id == id {
                return Some(i);
            }
        }
        None
    }

    /// The row of `id`'s own methods, if it has one.
    pub fn find_own(&self, id: StructId) -> (found: Option<usize>)
        ensures
            match found {
                Some(i) => methods_row(self.own_methods@, id) == Some(i as int) && i
                    < self.own_methods@.len(),
                None => methods_row(self.own_methods@, id) is None,
            },
    {
        let mut i: usize = self.own_methods.len();
        assert(self.own_methods@.take(i as int) =~= self.own_methods@);
        while i > 0
            invariant
                i <= self.own_methods@.len(),
                methods_row(self.own_methods@, id) == methods_row(
                    self.own_methods@.take(i as int),
                    id,
                ),
            decreases i,
        {
            assert(self.own_methods@.take(i as int).drop_last() =~= self.own_methods@.take(i - 1));
            i -= 1;
            if self.own_methods[i].id == id {
                return Some(i);
            }
        }
        None
    }

    /// Whether `id` is a class.
    pub fn is_class(&self, id: StructId) -> (res: bool)
        ensures
            res == self.info(id) is Some,
    {
        self.find(id).is_some()
    }

    /// Whether class `descendant` inherits from `ancestor`.
    pub fn has_ancestor(&self, descendant: StructId, ancestor: StructId) -> (res: bool)
        ensures
            res == self.ancestors(descendant).contains(ancestor),
    {
        match self.find(descendant) {
            Some(i) => struct_listed(&self.classes[i].ancestors, ancestor),
            None => false,
        }
    }

    /// Whether `actual` is a class that inherits from the class `expected`.
    ///
    /// Needs no conversion node: a class's fields are flattened with its
    /// parents' first.
    pub fn is_subclass_of(&self, actual: Type, expected: Type) -> (res: bool)
        ensures
            res == self.subclass(actual, expected),
    {
        match (actual, expected) {
            (Type::Struct(descendant), Type::Struct(ancestor)) => {
                descendant != ancestor && self.has_ancestor(descendant, ancestor)
            },
            _ => false,
        }
    }

    /// Whether `actual` is a class that inherits from the class `expected`.
    pub open spec fn subclass(&self, actual: Type, expected: Type) -> bool {
        match (actual, expected) {
            (Type::Struct(descendant), Type::Struct(ancestor)) => descendant != ancestor
                && self.ancestors(descendant).contains(ancestor),
            _ => false,
        }
    }

    /// `id` together with everything it inherits from, transitively.
    pub fn ancestors_of(&self, id: StructId) -> (all: Vec<StructId>)
        ensures
            all@ == seq![id] + self.ancestors(id),
    {
        let mut all: Vec<StructId> = Vec::new();
        all.push(id);
        if let Some(i) = self.find(id) {
            crate::lists::extend(&mut all, &self.classes[i].ancestors);
        }
        assert(all@ =~= seq![id] + self.ancestors(id));
        all
    }
}

/// Whether `list` holds `id`.
pub fn struct_listed(list: &Vec<StructId>, id: StructId) -> (res: bool)
    ensures
        res == list@.contains(id),
{
    let mut i: usize = 0;
    while i < list.len()
        invariant
            i <= list@.len(),
            forall|k: int| 0 <= k < i ==> list@[k] != id,
        decreases list@.len() - i,
    {
        if list[i] == id {
            return true;
        }
        i += 1;
    }
    false
}

/// Whether a value of `actual` may be an argument where `expected` is declared:
/// whether it may be used there at all, or is a subclass of it.
///
/// Only an argument, because an argument is the only position whose callee is
/// specialized for the concrete class.
pub fn admits_argument(
    lattice: &crate::lattice::Lattice,
    classes: &ClassTable,
    actual: Type,
    expected: Type,
) -> (res: bool)
    ensures
        res == (lattice.admits(actual, expected) || classes.subclass(actual, expected)),
{
    crate::coercion::admits(lattice, actual, expected) || classes.is_subclass_of(actual, expected)
}

proof fn lemma_class_known(classes: Seq<ClassInfo>, id: StructId)
    ensures
        match class_row(classes, id) {
            Some(k) => 0 <= k < classes.len() && classes[k].id == id && forall|j: int|
                k < j < classes.len() ==> (#[trigger] classes[j]).id != id,
            None => forall|k: int| 0 <= k < classes.len() ==> (#[trigger] classes[k]).id != id,
        },
    decreases classes.len(),
{
    if classes.len() > 0 && classes.last().id != id {
        let rest = classes.drop_last();
        lemma_class_known(rest, id);
        assert forall|j: int| 0 <= j < classes.len() - 1 implies #[trigger] classes[j]
            == rest[j] by {}
    }
}

/// A class is known by its struct, and one inherits from another exactly if that is among
/// its recorded ancestors and is not itself; what is no class inherits from nothing.
pub proof fn a_class_inherits_from_its_ancestors(
    table: &ClassTable,
    id: StructId,
    other: StructId,
    k: int,
)
    ensures
        table.info(id) matches Some(info) ==> info.id == id && table.classes@.contains(info),
        table.info(id) is None <==> forall|j: int|
            0 <= j < table.classes@.len() ==> (#[trigger] table.classes@[j]).id != id,
        0 <= k < table.classes@.len() && table.classes@[k].id == id && (forall|j: int|
            k < j < table.classes@.len() ==> (#[trigger] table.classes@[j]).id != id) ==> (
        table.subclass(Type::Struct(id), Type::Struct(other)) <==> id != other
            && table.classes@[k].ancestors@.contains(other)),
        table.info(id) is None ==> !table.subclass(Type::Struct(id), Type::Struct(other)),
{
    lemma_class_known(table.classes@, id);
    if let Some(row) = class_row(table.classes@, id) {
        assert(table.classes@[row].id == id);
        if 0 <= k < table.classes@.len() && table.classes@[k].id == id && (forall|j: int|
            k < j < table.classes@.len() ==> (#[trigger] table.classes@[j]).id != id) {
            if row < k {
                assert(table.classes@[k].id != id);
            }
            assert(row == k);
        }
    }
}

} // verus!
