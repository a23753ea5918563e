//! The typed program analysis produces: expressions, statements, functions and
//! constants, each in a flat table and named by its index.

use vstd::prelude::*;

use crate::names::Symbol;
use crate::signatures::CallableSignature;
use crate::source::Span;
use crate::ty::{EnumId, Execution, OwnershipMode, StructId, Type, TypeTable};

verus! {

/// One expression of the program.
#[derive(Clone, Copy, PartialEq, Eq, Structural, Debug)]
pub struct HirExprId(pub u32);

/// One statement of the program.
#[derive(Clone, Copy, PartialEq, Eq, Structural, Debug)]
pub struct HirStmtId(pub u32);

/// One function of the program.
#[derive(Clone, Copy, PartialEq, Eq, Structural, Debug)]
pub struct FuncId(pub u32);

/// One local slot of a function.
#[derive(Clone, Copy, PartialEq, Eq, Structural, Debug)]
pub struct LocalId(pub u32);

/// One step of the walk from a local to the storage a place names.
#[derive(Clone, Copy, PartialEq, Eq, Structural, Debug)]
pub enum HirPlaceStep {
    Field(u32),
    Index(HirExprId),
}

/// Storage that can be written: a local and a walk into it.
#[derive(Debug)]
pub struct HirPlace {
    pub local: LocalId,
    pub path: Vec<HirPlaceStep>,
}

/// Where a by-reference argument's final value lands after a call.
#[derive(Debug)]
pub struct HirWriteback {
    pub param: u32,
    pub place: HirPlace,
}

/// What a call reaches.
#[derive(Clone, Copy, PartialEq, Eq, Structural, Debug)]
pub enum Callee {
    User(FuncId),
    Foreign(u32),
    Builtin(u32),
}

/// What a spawned task runs.
#[derive(Clone, Copy, PartialEq, Eq, Structural, Debug)]
pub enum TaskTarget {
    Call(FuncId),
    Other(u32),
}

/// A binary operation. The two integer comparisons are the ones dispatch is
/// built from.
#[derive(Clone, Copy, PartialEq, Eq, Structural, Debug)]
pub enum HirBinaryOp {
    EqInt,
    LtInt,
    Other(u32),
}

/// How a conversion converts.
#[derive(Clone, Copy, PartialEq, Eq, Structural, Debug)]
pub enum ConvertKind {
    /// An integer reaching storage of another spelling, checked.
    IntToInt,
    Other(u32),
}

/// One expression node.
#[allow(inconsistent_fields)]
#[derive(Debug)]
pub enum HirExpr {
    Int(i64),
    /// A floating-point literal, by the bits of its 64-bit form.
    Float(u64),
    Bool(bool),
    /// A text literal; the empty one has no symbol.
    Str(Option<Symbol>),
    RawPtrNull,
    CStringNull,
    CellNull { ty: Type },
    CellGet { local: LocalId, ty: Type },
    Local { local: LocalId, ty: Type },
    Error,
    ConstantGet { constant: u32, ty: Type },
    ForeignCallbackPtr { callback: u32 },
    Call { callee: Callee, args: Vec<HirExprId>, ty: Type, writebacks: Vec<HirWriteback> },
    TaskSpawn { target: TaskTarget, args: Vec<HirExprId>, ty: Type },
    MainThreadCall { function: FuncId, args: Vec<HirExprId>, ty: Type },
    Unary { operand: HirExprId, ty: Type },
    CellNew { value: HirExprId, ty: Type },
    Field { base: HirExprId, index: u32, ty: Type },
    ForeignMemberAddress { base: HirExprId, ty: Type },
    ForeignField { base: HirExprId, ty: Type },
    ArrayLen { array: HirExprId },
    StringLen { text: HirExprId },
    ArrayElements { value: HirExprId, ty: Type },
    ScalarText { value: HirExprId },
    StringOf { value: HirExprId },
    CLayoutAddress { value: HirExprId, ty: Type },
    CStringNew { text: HirExprId },
    EnumTag { value: HirExprId },
    EnumPayload { value: HirExprId, ty: Type },
    NativeState { value: HirExprId, ty: Type },
    NativeUserData { state: HirExprId },
    NativeRecover { raw: HirExprId, ty: Type },
    NativeStateRetain { token: HirExprId },
    NativeStateRelease { token: HirExprId },
    Convert { operand: HirExprId, kind: ConvertKind, ty: Type },
    Distinct { value: HirExprId, ty: Type },
    IntoAny { value: HirExprId, from: Type },
    TypeOf { value: HirExprId },
    TypeField { descriptor: HirExprId, ty: Type },
    TaskJoin { handle: HirExprId, ty: Type },
    TaskDetach { handle: HirExprId },
    TaskCancel { handle: HirExprId },
    MainThreadJoin { handle: HirExprId, ty: Type },
    Binary { op: HirBinaryOp, lhs: HirExprId, rhs: HirExprId, ty: Type },
    Select { cond: HirExprId, then: HirExprId, otherwise: HirExprId, ty: Type },
    Copy { value: HirExprId, ty: Type },
    TypeTest { value: HirExprId },
    TypeCast { value: HirExprId, ty: Type },
    StructNew { struct_id: StructId, fields: Vec<HirExprId> },
    ArrayNew { ty: Type, elements: Vec<HirExprId> },
    Index { base: HirExprId, index: HirExprId, ty: Type },
    StringCharAt { text: HirExprId, index: HirExprId },
    StringSubstring { text: HirExprId, start: HirExprId, end: HirExprId },
    StringIndexOf { text: HirExprId, needle: HirExprId },
    StringOperation { text: HirExprId, arguments: Vec<HirExprId>, ty: Type },
    MathOperation { operands: Vec<HirExprId>, ty: Type },
    FileSystem { args: Vec<HirExprId>, ty: Type },
    Compiler { args: Vec<HirExprId>, ty: Type },
    Env { args: Vec<HirExprId>, ty: Type },
    ForeignElement { base: HirExprId, index: HirExprId, ty: Type },
    ArrayAppend { place: HirPlace, value: HirExprId },
    EnumNew { enum_id: EnumId, tag: u32, payload: Option<HirExprId> },
}

/// One fallible step of an `attempt`.
#[derive(Debug)]
pub struct AttemptStep {
    pub setup: Vec<HirStmtId>,
    pub error_condition: HirExprId,
    pub handler: Vec<HirStmtId>,
    pub success: Vec<HirStmtId>,
}

/// One statement node.
#[allow(inconsistent_fields)]
#[derive(Debug)]
pub enum HirStmt {
    Let { local: LocalId, init: HirExprId },
    Assign { place: HirPlace, value: HirExprId },
    CellSet { local: LocalId, value: HirExprId },
    Return { value: Option<HirExprId> },
    Expr { expr: HirExprId },
    If { cond: HirExprId, then_body: Vec<HirStmtId>, else_body: Vec<HirStmtId> },
    Attempt { steps: Vec<AttemptStep>, trailing: Vec<HirStmtId> },
    While { cond: HirExprId, body: Vec<HirStmtId> },
    Break,
    Continue,
}

/// One local slot. A slot the source never named has no name.
#[derive(Clone, Copy, PartialEq, Eq, Structural, Debug)]
pub struct HirLocal {
    pub name: Option<Symbol>,
    pub ty: Type,
    pub mutable: bool,
    pub ownership: OwnershipMode,
    pub native_state: Option<u32>,
}

/// The name a function answers to in the compiled program.
#[derive(Clone, Copy, PartialEq, Eq, Structural, Debug)]
pub enum FunctionName {
    /// A function the source declares, by its row in the signature table.
    Declared(FuncId),
    /// `Name$constant`: computes one module constant.
    ConstantInit(Symbol),
    /// `Type#n`: a lifted closure literal.
    Closure { repr: StructId, number: u32 },
    /// `name$reference#n`: adapts a named function to a function value.
    Reference { name: Symbol, number: u32 },
    /// `Type$call`: dispatches a call through a function value.
    ClosureCall(StructId),
    /// `Any Family.method$dispatch`.
    Dispatch { family: Symbol, method: Symbol },
    /// `Any Family.method$dispatch_treeN`.
    DispatchTree { family: Symbol, method: Symbol, number: u32 },
    /// `Any Family.method$dispatch_armN`.
    DispatchArm { family: Symbol, method: Symbol, tag: u32 },
    /// `some Family.member$read`.
    FamilyRead { family: Symbol, member: Symbol },
    /// `Any Family.method`: a family's modifier.
    Modifier { family: Symbol, method: Symbol },
    /// A reserved function nothing calls.
    Unreachable,
}

/// One function of the typed program.
#[derive(Debug)]
pub struct HirFunction {
    pub name: FunctionName,
    pub param_count: u32,
    pub return_type: Type,
    pub locals: Vec<HirLocal>,
    pub body: Vec<HirStmtId>,
    pub is_main: bool,
    pub is_main_thread: bool,
    pub is_async: bool,
    pub execution: Execution,
    pub mutates_self: bool,
    pub name_span: Span,
    pub signature: CallableSignature,
}

/// One module constant: its name, its type, and the function computing it.
#[derive(Clone, Copy, PartialEq, Eq, Structural, Debug)]
pub struct HirConstant {
    pub name: Symbol,
    pub ty: Type,
    pub init: FuncId,
}

/// The typed program.
#[derive(Debug)]
pub struct HirProgram {
    pub types: TypeTable,
    pub exprs: Vec<HirExpr>,
    pub stmts: Vec<HirStmt>,
    pub functions: Vec<HirFunction>,
    /// In evaluation order once ordered; a constant's index is its slot.
    pub constants: Vec<HirConstant>,
    /// The function each foreign callback row enters.
    pub foreign_callbacks: Vec<FuncId>,
    pub main: Option<FuncId>,
}

impl HirExpr {
    /// The type of the value the expression produces.
    pub open spec fn ty(&self) -> Type {
        match *self {
            HirExpr::Int(_) => Type::spec_plain_int(),
            HirExpr::Float(_) => Type::Float(64),
            HirExpr::Bool(_) => Type::Bool,
            HirExpr::Str(_) => Type::Text,
            HirExpr::RawPtrNull => Type::RawPtr,
            HirExpr::CStringNull => Type::CString,
            HirExpr::CellNull { ty } => ty,
            HirExpr::CellGet { ty, .. } => ty,
            HirExpr::Local { ty, .. } => ty,
            HirExpr::Error => Type::Error,
            HirExpr::ConstantGet { ty, .. } => ty,
            HirExpr::ForeignCallbackPtr { .. } => Type::RawPtr,
            HirExpr::Call { ty, .. } => ty,
            HirExpr::TaskSpawn { ty, .. } => ty,
            HirExpr::MainThreadCall { ty, .. } => ty,
            HirExpr::Unary { ty, .. } => ty,
            HirExpr::CellNew { ty, .. } => ty,
            HirExpr::Field { ty, .. } => ty,
            HirExpr::ForeignMemberAddress { ty, .. } => ty,
            HirExpr::ForeignField { ty, .. } => ty,
            HirExpr::ArrayLen { .. } => Type::spec_plain_int(),
            HirExpr::StringLen { .. } => Type::spec_plain_int(),
            HirExpr::ArrayElements { ty, .. } => ty,
            HirExpr::ScalarText { .. } => Type::Text,
            HirExpr::StringOf { .. } => Type::Text,
            HirExpr::CLayoutAddress { ty, .. } => ty,
            HirExpr::CStringNew { .. } => Type::CString,
            HirExpr::EnumTag { .. } => Type::spec_plain_int(),
            HirExpr::EnumPayload { ty, .. } => ty,
            HirExpr::NativeState { ty, .. } => ty,
            HirExpr::NativeUserData { .. } => Type::RawPtr,
            HirExpr::NativeRecover { ty, .. } => ty,
            HirExpr::NativeStateRetain { .. } => Type::Void,
            HirExpr::NativeStateRelease { .. } => Type::Void,
            HirExpr::Convert { ty, .. } => ty,
            HirExpr::Distinct { ty, .. } => ty,
            HirExpr::IntoAny { .. } => Type::Any,
            HirExpr::TypeOf { .. } => Type::RuntimeType,
            HirExpr::TypeField { ty, .. } => ty,
            HirExpr::TaskJoin { ty, .. } => ty,
            HirExpr::TaskDetach { .. } => Type::Void,
            HirExpr::TaskCancel { .. } => Type::Void,
            HirExpr::MainThreadJoin { ty, .. } => ty,
            HirExpr::Binary { ty, .. } => ty,
            HirExpr::Select { ty, .. } => ty,
            HirExpr::Copy { ty, .. } => ty,
            HirExpr::TypeTest { .. } => Type::Bool,
            HirExpr::TypeCast { ty, .. } => ty,
            HirExpr::StructNew { struct_id, .. } => Type::Struct(struct_id),
            HirExpr::ArrayNew { ty, .. } => ty,
            HirExpr::Index { ty, .. } => ty,
            HirExpr::StringCharAt { .. } => Type::Text,
            HirExpr::StringSubstring { .. } => Type::Text,
            HirExpr::StringIndexOf { .. } => Type::spec_plain_int(),
            HirExpr::StringOperation { ty, .. } => ty,
            HirExpr::MathOperation { ty, .. } => ty,
            HirExpr::FileSystem { ty, .. } => ty,
            HirExpr::Compiler { ty, .. } => ty,
            HirExpr::Env { ty, .. } => ty,
            HirExpr::ForeignElement { ty, .. } => ty,
            HirExpr::ArrayAppend { .. } => Type::Void,
            HirExpr::EnumNew { enum_id, .. } => Type::Enum(enum_id),
        }
    }

    /// The type of the value the expression produces.
    pub fn type_of(&self) -> (ty: Type)
        ensures
            ty == self.ty(),
    {
        match self {
            HirExpr::Int(_) => Type::plain_int(),
            HirExpr::Float(_) => Type::Float(64),
            HirExpr::Bool(_) => Type::Bool,
            HirExpr::Str(_) => Type::Text,
            HirExpr::RawPtrNull => Type::RawPtr,
            HirExpr::CStringNull => Type::CString,
            HirExpr::CellNull { ty } => *ty,
            HirExpr::CellGet { ty, .. } => *ty,
            HirExpr::Local { ty, .. } => *ty,
            HirExpr::Error => Type::Error,
            HirExpr::ConstantGet { ty, .. } => *ty,
            HirExpr::ForeignCallbackPtr { .. } => Type::RawPtr,
            HirExpr::Call { ty, .. } => *ty,
            HirExpr::TaskSpawn { ty, .. } => *ty,
            HirExpr::MainThreadCall { ty, .. } => *ty,
            HirExpr::Unary { ty, .. } => *ty,
            HirExpr::CellNew { ty, .. } => *ty,
            HirExpr::Field { ty, .. } => *ty,
            HirExpr::ForeignMemberAddress { ty, .. } => *ty,
            HirExpr::ForeignField { ty, .. } => *ty,
            HirExpr::ArrayLen { .. } => Type::plain_int(),
            HirExpr::StringLen { .. } => Type::plain_int(),
            HirExpr::ArrayElements { ty, .. } => *ty,
            HirExpr::ScalarText { .. } => Type::Text,
            HirExpr::StringOf { .. } => Type::Text,
            HirExpr::CLayoutAddress { ty, .. } => *ty,
            HirExpr::CStringNew { .. } => Type::CString,
            HirExpr::EnumTag { .. } => Type::plain_int(),
            HirExpr::EnumPayload { ty, .. } => *ty,
            HirExpr::NativeState { ty, .. } => *ty,
            HirExpr::NativeUserData { .. } => Type::RawPtr,
            HirExpr::NativeRecover { ty, .. } => *ty,
            HirExpr::NativeStateRetain { .. } => Type::Void,
            HirExpr::NativeStateRelease { .. } => Type::Void,
            HirExpr::Convert { ty, .. } => *ty,
            HirExpr::Distinct { ty, .. } => *ty,
            HirExpr::IntoAny { .. } => Type::Any,
            HirExpr::TypeOf { .. } => Type::RuntimeType,
            HirExpr::TypeField { ty, .. } => *ty,
            HirExpr::TaskJoin { ty, .. } => *ty,
            HirExpr::TaskDetach { .. } => Type::Void,
            HirExpr::TaskCancel { .. } => Type::Void,
            HirExpr::MainThreadJoin { ty, .. } => *ty,
            HirExpr::Binary { ty, .. } => *ty,
            HirExpr::Select { ty, .. } => *ty,
            HirExpr::Copy { ty, .. } => *ty,
            HirExpr::TypeTest { .. } => Type::Bool,
            HirExpr::TypeCast { ty, .. } => *ty,
            HirExpr::StructNew { struct_id, .. } => Type::Struct(*struct_id),
            HirExpr::ArrayNew { ty, .. } => *ty,
            HirExpr::Index { ty, .. } => *ty,
            HirExpr::StringCharAt { .. } => Type::Text,
            HirExpr::StringSubstring { .. } => Type::Text,
            HirExpr::StringIndexOf { .. } => Type::plain_int(),
            HirExpr::StringOperation { ty, .. } => *ty,
            HirExpr::MathOperation { ty, .. } => *ty,
            HirExpr::FileSystem { ty, .. } => *ty,
            HirExpr::Compiler { ty, .. } => *ty,
            HirExpr::Env { ty, .. } => *ty,
            HirExpr::ForeignElement { ty, .. } => *ty,
            HirExpr::ArrayAppend { .. } => Type::Void,
            HirExpr::EnumNew { enum_id, .. } => Type::Enum(*enum_id),
        }
    }
}

/// Whether `place` is all of `local`.
pub open spec fn whole(place: HirPlace, local: LocalId) -> bool {
    place.local == local && place.path@.len() == 0
}

/// Whether `writebacks` carries the receiver back into `local` when `mutates`,
/// and nothing otherwise.
pub open spec fn receiver_writeback(
    writebacks: Seq<HirWriteback>,
    mutates: bool,
    local: LocalId,
) -> bool {
    if mutates {
        writebacks.len() == 1 && writebacks[0].param == 0 && whole(writebacks[0].place, local)
    } else {
        writebacks.len() == 0
    }
}

/// Whether `earlier` is the beginning of `later`.
pub open spec fn grew<T>(earlier: Seq<T>, later: Seq<T>) -> bool {
    earlier.len() <= later.len() && forall|i: int|
        #![trigger later[i]]
        #![trigger earlier[i]]
        0 <= i < earlier.len() ==> later[i] == earlier[i]
}

impl HirProgram {
    /// A program with nothing in it.
    pub fn new() -> (program: HirProgram)
        ensures
            program.exprs@.len() == 0,
            program.stmts@.len() == 0,
            program.functions@.len() == 0,
            program.constants@.len() == 0,
            program.foreign_callbacks@.len() == 0,
            program.main is None,
            program.types.structs@.len() == 0,
            program.types.enums@.len() == 0,
            program.types.arrays@.len() == 0,
            program.types.cells@.len() == 0,
            program.types.distincts@.len() == 0,
    {
        HirProgram {
            types: TypeTable::new(),
            exprs: Vec::new(),
            stmts: Vec::new(),
            functions: Vec::new(),
            constants: Vec::new(),
            foreign_callbacks: Vec::new(),
            main: None,
        }
    }

    /// Whether the arenas have room for `count` more nodes of each kind.
    pub open spec fn room(&self, count: int) -> bool {
        self.exprs@.len() + count <= u32::MAX && self.stmts@.len() + count <= u32::MAX
    }

    /// Whether `id` names an expression of this program.
    pub open spec fn has_expr(&self, id: HirExprId) -> bool {
        id.0 < self.exprs@.len()
    }

    /// The node `id` names.
    pub open spec fn at(&self, id: HirExprId) -> HirExpr {
        self.exprs@[id.0 as int]
    }

    /// The type of the expression `id` names.
    pub open spec fn type_at(&self, id: HirExprId) -> Type {
        self.exprs@[id.0 as int].ty()
    }

    /// Whether this program is `before` with expressions and statements added.
    pub open spec fn built_on(&self, before: &HirProgram) -> bool {
        &&& grew(before.exprs@, self.exprs@)
        &&& grew(before.stmts@, self.stmts@)
        &&& *self == (HirProgram { exprs: self.exprs, stmts: self.stmts, ..*before })
    }

    /// Whether this program is `before` with expressions, statements and array
    /// types added.
    pub open spec fn extends(&self, before: &HirProgram) -> bool {
        &&& grew(before.exprs@, self.exprs@)
        &&& grew(before.stmts@, self.stmts@)
        &&& grew(before.types.arrays@, self.types.arrays@)
        &&& self.types == (TypeTable { arrays: self.types.arrays, ..before.types })
        &&& *self == (HirProgram {
            types: self.types,
            exprs: self.exprs,
            stmts: self.stmts,
            ..*before
        })
    }

    /// Adds one expression, returning its id.
    pub fn add_expr(&mut self, node: HirExpr) -> (id: HirExprId)
        requires
            old(self).exprs@.len() < u32::MAX,
        ensures
            id.0 == old(self).exprs@.len(),
            final(self).exprs@ == old(self).exprs@.push(node),
            final(self).at(id) == node,
            *final(self) == (HirProgram { exprs: final(self).exprs, ..*old(self) }),
    {
        let id: u32 = self.exprs.len() as u32;
        self.exprs.push(node);
        HirExprId(id)
    }

    /// Adds one statement, returning its id.
    pub fn add_stmt(&mut self, node: HirStmt) -> (id: HirStmtId)
        requires
            old(self).stmts@.len() < u32::MAX,
        ensures
            id.0 == old(self).stmts@.len(),
            final(self).stmts@ == old(self).stmts@.push(node),
            *final(self) == (HirProgram { stmts: final(self).stmts, ..*old(self) }),
    {
        let id: u32 = self.stmts.len() as u32;
        self.stmts.push(node);
        HirStmtId(id)
    }

    /// The type of the expression `id` names.
    pub fn type_of(&self, id: HirExprId) -> (ty: Type)
        requires
            self.has_expr(id),
        ensures
            ty == self.type_at(id),
    {
        self.exprs[id.0 as usize].type_of()
    }
}

/// What an expression gives: a literal its own type, an integer where it counts, measures
/// or reads a tag, the struct or enum it makes, `Any` where a value was wrapped as one,
/// nothing where it only acts, and otherwise the type it carries.
pub proof fn an_expression_gives_its_type(expr: HirExpr)
    ensures
        expr is Int || expr is ArrayLen || expr is StringLen || expr is EnumTag || expr
            is StringIndexOf ==> expr.ty() == Type::Int(crate::ty::IntSpelling::Int),
        expr is Float ==> expr.ty() == Type::Float(64),
        expr is Bool || expr is TypeTest ==> expr.ty() == Type::Bool,
        expr is Str || expr is ScalarText || expr is StringOf || expr is StringCharAt || expr
            is StringSubstring ==> expr.ty() == Type::Text,
        expr is RawPtrNull || expr is ForeignCallbackPtr || expr is NativeUserData ==> expr.ty()
            == Type::RawPtr,
        expr is CStringNull || expr is CStringNew ==> expr.ty() == Type::CString,
        expr is Error <== expr.ty() == Type::Error && (expr is Error || expr is Int || expr
            is StructNew || expr is EnumNew),
        expr is IntoAny ==> expr.ty() == Type::Any,
        expr is TypeOf ==> expr.ty() == Type::RuntimeType,
        expr is NativeStateRetain || expr is NativeStateRelease || expr is TaskDetach || expr
            is TaskCancel || expr is ArrayAppend ==> expr.ty() == Type::Void,
        expr matches HirExpr::StructNew { struct_id, .. } ==> expr.ty() == Type::Struct(struct_id),
        expr matches HirExpr::EnumNew { enum_id, .. } ==> expr.ty() == Type::Enum(enum_id),
        expr matches HirExpr::Local { ty, .. } ==> expr.ty() == ty,
        expr matches HirExpr::CellGet { ty, .. } ==> expr.ty() == ty,
        expr matches HirExpr::ConstantGet { ty, .. } ==> expr.ty() == ty,
        expr matches HirExpr::Call { ty, .. } ==> expr.ty() == ty,
        expr matches HirExpr::Unary { ty, .. } ==> expr.ty() == ty,
        expr matches HirExpr::Binary { ty, .. } ==> expr.ty() == ty,
        expr matches HirExpr::Select { ty, .. } ==> expr.ty() == ty,
        expr matches HirExpr::Field { ty, .. } ==> expr.ty() == ty,
        expr matches HirExpr::Index { ty, .. } ==> expr.ty() == ty,
        expr matches HirExpr::ArrayNew { ty, .. } ==> expr.ty() == ty,
        expr matches HirExpr::CellNew { ty, .. } ==> expr.ty() == ty,
        expr matches HirExpr::CellNull { ty } ==> expr.ty() == ty,
        expr matches HirExpr::EnumPayload { ty, .. } ==> expr.ty() == ty,
        expr matches HirExpr::Convert { ty, .. } ==> expr.ty() == ty,
        expr matches HirExpr::Distinct { ty, .. } ==> expr.ty() == ty,
        expr matches HirExpr::Copy { ty, .. } ==> expr.ty() == ty,
        expr matches HirExpr::TypeCast { ty, .. } ==> expr.ty() == ty,
        expr matches HirExpr::TaskSpawn { ty, .. } ==> expr.ty() == ty,
        expr matches HirExpr::TaskJoin { ty, .. } ==> expr.ty() == ty,
        expr matches HirExpr::MainThreadCall { ty, .. } ==> expr.ty() == ty,
        expr matches HirExpr::MainThreadJoin { ty, .. } ==> expr.ty() == ty,
        HirExpr::Error.ty() == Type::Error,
{
}

/// A program built on another, or extending it, holds every node of the other under the
/// same id, with the same type, and the functions and constants of the other.
pub proof fn what_was_built_stays(
    before: &HirProgram,
    after: &HirProgram,
    id: HirExprId,
    stmt: HirStmtId,
)
    requires
        after.built_on(before) || after.extends(before),
        before.has_expr(id),
        stmt.0 < before.stmts@.len(),
    ensures
        after.has_expr(id),
        after.at(id) == before.at(id),
        after.type_at(id) == before.exprs@[id.0 as int].ty(),
        after.stmts@[stmt.0 as int] == before.stmts@[stmt.0 as int],
        after.functions == before.functions,
        after.constants == before.constants,
        after.main == before.main,
{
}

} // verus!
