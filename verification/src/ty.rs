//! The resolved types of a program and the tables their ids index.

use vstd::prelude::*;

use crate::names::Symbol;

verus! {

/// One row of the struct table. Classes, construct-backed declarations and
/// function types are structs by the time they have an id.
#[derive(Clone, Copy, PartialEq, Eq, Structural, Debug)]
pub struct StructId(pub u32);

/// One row of the enum table. A construct family is an enum too.
#[derive(Clone, Copy, PartialEq, Eq, Structural, Debug)]
pub struct EnumId(pub u32);

/// How wide an integer was spelled.
#[derive(Clone, Copy, PartialEq, Eq, Structural, Debug)]
pub enum IntSpelling {
    /// The plain `Int`, a signed 64-bit integer.
    Int,
    I8,
    I16,
    I32,
    I64,
    U8,
    U16,
    U32,
    U64,
}

impl IntSpelling {
    /// The least value the spelling holds.
    pub open spec fn low(self) -> int {
        match self {
            IntSpelling::I8 => i8::MIN as int,
            IntSpelling::I16 => i16::MIN as int,
            IntSpelling::I32 => i32::MIN as int,
            IntSpelling::Int | IntSpelling::I64 => i64::MIN as int,
            _ => 0,
        }
    }

    /// The greatest value the spelling holds.
    pub open spec fn high(self) -> int {
        match self {
            IntSpelling::I8 => i8::MAX as int,
            IntSpelling::I16 => i16::MAX as int,
            IntSpelling::I32 => i32::MAX as int,
            IntSpelling::Int | IntSpelling::I64 => i64::MAX as int,
            IntSpelling::U8 => u8::MAX as int,
            IntSpelling::U16 => u16::MAX as int,
            IntSpelling::U32 => u32::MAX as int,
            IntSpelling::U64 => u64::MAX as int,
        }
    }

    fn bounds(self) -> (range: (i128, i128))
        ensures
            range.0 == self.low(),
            range.1 == self.high(),
    {
        match self {
            IntSpelling::I8 => (i8::MIN as i128, i8::MAX as i128),
            IntSpelling::I16 => (i16::MIN as i128, i16::MAX as i128),
            IntSpelling::I32 => (i32::MIN as i128, i32::MAX as i128),
            IntSpelling::Int => (i64::MIN as i128, i64::MAX as i128),
            IntSpelling::I64 => (i64::MIN as i128, i64::MAX as i128),
            IntSpelling::U8 => (0, u8::MAX as i128),
            IntSpelling::U16 => (0, u16::MAX as i128),
            IntSpelling::U32 => (0, u32::MAX as i128),
            IntSpelling::U64 => (0, u64::MAX as i128),
        }
    }

    /// Whether the spelling has room for `value`.
    pub fn holds(self, value: i128) -> (res: bool)
        ensures
            res == (self.low() <= value <= self.high()),
    {
        let (low, high): (i128, i128) = self.bounds();
        low <= value && value <= high
    }

    /// Whether every value of this spelling fits `to`.
    pub fn widens_into(self, to: IntSpelling) -> (res: bool)
        ensures
            res == (to.low() <= self.low() && self.high() <= to.high()),
    {
        let (low, high): (i128, i128) = self.bounds();
        let (to_low, to_high): (i128, i128) = to.bounds();
        to_low <= low && high <= to_high
    }

    /// Whether `value` is one the spelling holds.
    pub open spec fn holds_value(self, value: int) -> bool {
        self.low() <= value <= self.high()
    }
}

/// Each spelling holds the numbers of its width in two's complement, a `U` spelling
/// those of its width without a sign, and `Int` is 64 bits wide with one.
pub proof fn spellings_are_machine_ranges()
    ensures
        IntSpelling::I8.low() == -0x80 && IntSpelling::I8.high() == 0x7f,
        IntSpelling::I16.low() == -0x8000 && IntSpelling::I16.high() == 0x7fff,
        IntSpelling::I32.low() == -0x8000_0000 && IntSpelling::I32.high() == 0x7fff_ffff,
        IntSpelling::I64.low() == -0x8000_0000_0000_0000,
        IntSpelling::I64.high() == 0x7fff_ffff_ffff_ffff,
        IntSpelling::Int.low() == -0x8000_0000_0000_0000,
        IntSpelling::Int.high() == 0x7fff_ffff_ffff_ffff,
        IntSpelling::U8.low() == 0 && IntSpelling::U8.high() == 0xff,
        IntSpelling::U16.low() == 0 && IntSpelling::U16.high() == 0xffff,
        IntSpelling::U32.low() == 0 && IntSpelling::U32.high() == 0xffff_ffff,
        IntSpelling::U64.low() == 0 && IntSpelling::U64.high() == 0xffff_ffff_ffff_ffff,
{
}

/// A resolved type.
#[derive(Clone, Copy, PartialEq, Eq, Structural, Debug)]
pub enum Type {
    Void,
    /// What failed to resolve; compatible everywhere so one mistake does not
    /// cascade.
    Error,
    Int(IntSpelling),
    /// A floating-point number of the given width in bits.
    Float(u8),
    Bool,
    Text,
    /// A value whose type stopped being known.
    Any,
    RawPtr,
    CString,
    CBlock,
    RuntimeType,
    /// An array, by its row in [`TypeTable::arrays`].
    Array(u32),
    Struct(StructId),
    Enum(EnumId),
    /// A capture cell, by its row in [`TypeTable::cells`].
    Cell(u32),
    /// A distinct type, by its row in [`TypeTable::distincts`].
    Distinct(u32),
    ForeignPtr(u32),
    NativeState(u32),
    Task(u32),
    MainThreadTask(u32),
}

impl Type {
    /// The type of a plain integer.
    pub open spec fn spec_plain_int() -> Type {
        Type::Int(IntSpelling::Int)
    }

    #[verifier::when_used_as_spec(spec_plain_int)]
    pub fn plain_int() -> (ty: Type)
        ensures
            ty == Type::spec_plain_int(),
    {
        Type::Int(IntSpelling::Int)
    }
}

/// How a parameter takes its argument.
#[derive(Clone, Copy, PartialEq, Eq, Structural, Debug)]
pub enum OwnershipMode {
    Owned,
    BorrowRead,
    BorrowMut,
    Copy,
}

/// Which engine a function runs on.
#[derive(Clone, Copy, PartialEq, Eq, Structural, Debug)]
pub enum Execution {
    /// Wherever its caller runs.
    Inherited,
    Runtime,
    Native,
}

/// The name a field is stored under.
#[derive(Clone, Copy, PartialEq, Eq, Structural, Debug)]
pub enum FieldName {
    /// As written.
    Plain(Symbol),
    /// `Owner.name`: one of several inherited fields that share a name.
    Qualified { owner: StructId, name: Symbol },
    /// The tag of a function type's representation.
    Tag,
    /// A captured binding: its name, the tag of the literal that captured it,
    /// and its place among that literal's captures.
    Captured { name: Symbol, tag: u32, index: u32 },
}

/// One field of a struct.
#[derive(Clone, Copy, PartialEq, Eq, Structural, Debug)]
pub struct FieldDef {
    pub name: FieldName,
    pub ty: Type,
    pub mutable: bool,
}

/// The name a struct was declared under.
#[derive(Clone, Copy, PartialEq, Eq, Structural, Debug)]
pub enum StructName {
    Declared(Symbol),
    /// The representation of a function type, spelled from its shape.
    FunctionType,
}

/// One row of the struct table.
#[derive(Debug)]
pub struct StructDef {
    pub name: StructName,
    /// The package the declaration belongs to, when one does.
    pub owner: Option<Symbol>,
    /// The module it was declared in, when it was.
    pub module: Option<Symbol>,
    pub fields: Vec<FieldDef>,
}

/// The name an enum was declared under.
#[derive(Clone, Copy, PartialEq, Eq, Structural, Debug)]
pub enum EnumName {
    Declared(Symbol),
    /// `Any Family`, the type of a construct family's values.
    Family(Symbol),
}

/// One variant of an enum.
#[derive(Clone, Copy, PartialEq, Eq, Structural, Debug)]
pub struct VariantDef {
    pub name: Symbol,
    pub payload: Option<Type>,
}

/// One row of the enum table.
#[derive(Debug)]
pub struct EnumDef {
    pub name: EnumName,
    pub owner: Option<Symbol>,
    /// The module it was declared in, when it was.
    pub module: Option<Symbol>,
    pub variants: Vec<VariantDef>,
}

/// Every type a program mentions that is more than a builtin.
#[derive(Debug)]
pub struct TypeTable {
    pub structs: Vec<StructDef>,
    pub enums: Vec<EnumDef>,
    /// The element type of each array type, each element type listed once.
    pub arrays: Vec<Type>,
    /// What each capture cell holds, each held type listed once.
    pub cells: Vec<Type>,
    /// What each distinct type is represented by, never itself distinct.
    pub distincts: Vec<Type>,
}

/// Where `ty` stands in `rows`, or the length when it is not there.
pub open spec fn row_of(rows: Seq<Type>, ty: Type) -> int
    decreases rows.len(),
{
    if rows.len() == 0 {
        0
    } else if rows[0] == ty {
        0
    } else {
        1 + row_of(rows.drop_first(), ty)
    }
}

pub proof fn lemma_row_of(rows: Seq<Type>, ty: Type)
    ensures
        0 <= row_of(rows, ty) <= rows.len(),
        row_of(rows, ty) < rows.len() ==> rows[row_of(rows, ty)] == ty,
        forall|k: int| 0 <= k < row_of(rows, ty) ==> rows[k] != ty,
    decreases rows.len(),
{
    if rows.len() > 0 && rows[0] != ty {
        lemma_row_of(rows.drop_first(), ty);
        assert forall|k: int| 0 <= k < row_of(rows, ty) implies rows[k] != ty by {
            if k > 0 {
                assert(rows.drop_first()[k - 1] == rows[k]);
            }
        }
    }
}

/// `rows` with `ty` interned: appended unless it is there already.
pub open spec fn interned(rows: Seq<Type>, ty: Type) -> Seq<Type> {
    if rows.contains(ty) {
        rows
    } else {
        rows.push(ty)
    }
}

fn intern(rows: &mut Vec<Type>, ty: Type) -> (row: u32)
    requires
        old(rows)@.len() < u32::MAX,
    ensures
        final(rows)@ == interned(old(rows)@, ty),
        row == row_of(old(rows)@, ty),
        row < final(rows)@.len(),
        final(rows)@[row as int] == ty,
{
    proof {
        lemma_row_of(rows@, ty);
    }
    let mut i: usize = 0;
    while i < rows.len()
        invariant
            i <= rows.len(),
            rows@ == old(rows)@,
            rows@.len() < u32::MAX,
            forall|k: int| 0 <= k < i ==> rows@[k] != ty,
        decreases rows.len() - i,
    {
        if rows[i] == ty {
            proof {
                lemma_row_of(rows@, ty);
            }
            return i as u32;
        }
        i += 1;
    }
    rows.push(ty);
    i as u32
}

impl TypeTable {
    /// The tables of a program that has declared nothing.
    pub fn new() -> (table: TypeTable)
        ensures
            table.structs@.len() == 0,
            table.enums@.len() == 0,
            table.arrays@.len() == 0,
            table.cells@.len() == 0,
            table.distincts@.len() == 0,
    {
        TypeTable {
            structs: Vec::new(),
            enums: Vec::new(),
            arrays: Vec::new(),
            cells: Vec::new(),
            distincts: Vec::new(),
        }
    }

    /// The element type of an array type.
    pub open spec fn element(&self, ty: Type) -> Option<Type> {
        match ty {
            Type::Array(row) if row < self.arrays@.len() => Some(self.arrays@[row as int]),
            _ => None,
        }
    }

    /// What a cell type holds.
    pub open spec fn held(&self, ty: Type) -> Option<Type> {
        match ty {
            Type::Cell(row) if row < self.cells@.len() => Some(self.cells@[row as int]),
            _ => None,
        }
    }

    /// The fields of a struct, none for an id the table does not have.
    pub open spec fn fields(&self, id: StructId) -> Seq<FieldDef> {
        if id.0 < self.structs@.len() {
            self.structs@[id.0 as int].fields@
        } else {
            Seq::empty()
        }
    }

    /// The element type of an array, or `None` for anything else.
    pub fn element_of(&self, ty: Type) -> (res: Option<Type>)
        ensures
            res == self.element(ty),
    {
        match ty {
            Type::Array(row) => if (row as usize) < self.arrays.len() {
                Some(self.arrays[row as usize])
            } else {
                None
            },
            _ => None,
        }
    }

    /// What a cell holds, or `None` for anything else.
    pub fn cell_inner(&self, ty: Type) -> (res: Option<Type>)
        ensures
            res == self.held(ty),
    {
        match ty {
            Type::Cell(row) => if (row as usize) < self.cells.len() {
                Some(self.cells[row as usize])
            } else {
                None
            },
            _ => None,
        }
    }

    /// The type of an array of `element`, minting its row on first mention.
    pub fn array_of(&mut self, element: Type) -> (ty: Type)
        requires
            old(self).arrays@.len() < u32::MAX,
        ensures
            final(self).arrays@ == interned(old(self).arrays@, element),
            ty == Type::Array(row_of(old(self).arrays@, element) as u32),
            final(self).element(ty) == Some(element),
            *final(self) == (TypeTable { arrays: final(self).arrays, ..*old(self) }),
    {
        Type::Array(intern(&mut self.arrays, element))
    }

    /// The type of a cell holding `inner`, minting its row on first mention.
    pub fn cell_of(&mut self, inner: Type) -> (ty: Type)
        requires
            old(self).cells@.len() < u32::MAX,
        ensures
            final(self).cells@ == interned(old(self).cells@, inner),
            ty == Type::Cell(row_of(old(self).cells@, inner) as u32),
            final(self).held(ty) == Some(inner),
            *final(self) == (TypeTable { cells: final(self).cells, ..*old(self) }),
    {
        Type::Cell(intern(&mut self.cells, inner))
    }

    /// The name struct `id` was declared under, if the source declared it.
    pub open spec fn declared_name(&self, id: StructId) -> Option<Symbol> {
        if id.0 < self.structs@.len() {
            match self.structs@[id.0 as int].name {
                StructName::Declared(name) => Some(name),
                StructName::FunctionType => None,
            }
        } else {
            None
        }
    }

    /// The name struct `id` was declared under, if the source declared it.
    pub fn name_of(&self, id: StructId) -> (name: Option<Symbol>)
        ensures
            name == self.declared_name(id),
    {
        if (id.0 as usize) < self.structs.len() {
            match self.structs[id.0 as usize].name {
                StructName::Declared(name) => Some(name),
                StructName::FunctionType => None,
            }
        } else {
            None
        }
    }

    /// The package that owns struct `id`, if one does.
    pub open spec fn owner(&self, id: StructId) -> Option<Symbol> {
        if id.0 < self.structs@.len() {
            self.structs@[id.0 as int].owner
        } else {
            None
        }
    }

    /// The package that owns struct `id`, if one does.
    pub fn owner_of(&self, id: StructId) -> (owner: Option<Symbol>)
        ensures
            owner == self.owner(id),
    {
        if (id.0 as usize) < self.structs.len() {
            self.structs[id.0 as usize].owner
        } else {
            None
        }
    }
}

/// Interning a type gives it a row of its own that stays: the type is found at the row it
/// was given, rows before stay as they were, one type never has two rows, and nothing is
/// added for a type that has one.
pub proof fn a_type_is_interned_once(rows: Seq<Type>, ty: Type, other: Type, k: int)
    ensures
        0 <= row_of(rows, ty) < interned(rows, ty).len(),
        interned(rows, ty)[row_of(rows, ty)] == ty,
        0 <= k < rows.len() ==> interned(rows, ty)[k] == rows[k],
        rows.contains(ty) ==> interned(rows, ty) == rows,
        !rows.contains(ty) ==> interned(rows, ty).len() == rows.len() + 1,
        rows.contains(ty) && rows.contains(other) && ty != other ==> row_of(rows, ty) != row_of(
            rows,
            other,
        ),
        0 <= k < rows.len() && rows[k] == ty ==> row_of(rows, ty) <= k,
{
    lemma_row_of(rows, ty);
    lemma_row_of(rows, other);
    if rows.contains(ty) {
        let i = choose|i: int| 0 <= i < rows.len() && rows[i] == ty;
        assert(i >= row_of(rows, ty));
    } else if row_of(rows, ty) < rows.len() {
        assert(rows.contains(rows[row_of(rows, ty)]));
    }
    if rows.contains(other) {
        let i = choose|i: int| 0 <= i < rows.len() && rows[i] == other;
        assert(i >= row_of(rows, other));
    }
    if 0 <= k < rows.len() && rows[k] == ty {
        assert(k >= row_of(rows, ty));
    }
}

impl TypeTable {
    /// An array holds what its row says and nothing else holds elements; a cell holds what
    /// its row says and nothing else holds a value; a struct has the fields and the owner of
    /// its row, and the name it was declared under, which a function's struct lacks.
    pub proof fn a_type_is_what_its_row_says(&self, row: u32, id: StructId, ty: Type)
        ensures
            row < self.arrays@.len() ==> self.element(Type::Array(row)) == Some(
                self.arrays@[row as int],
            ),
            self.element(ty) is Some ==> ty is Array,
            row < self.cells@.len() ==> self.held(Type::Cell(row)) == Some(self.cells@[row as int]),
            self.held(ty) is Some ==> ty is Cell,
            id.0 < self.structs@.len() ==> self.fields(id) == self.structs@[id.0 as int].fields@
                && self.owner(id) == self.structs@[id.0 as int].owner,
            id.0 < self.structs@.len() ==> match self.structs@[id.0 as int].name {
                StructName::Declared(name) => self.declared_name(id) == Some(name),
                StructName::FunctionType => self.declared_name(id) is None,
            },
            id.0 >= self.structs@.len() ==> self.fields(id).len() == 0,
    {
    }
}

} // verus!
