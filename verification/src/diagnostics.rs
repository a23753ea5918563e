//! What analysis reports, and where.

use vstd::prelude::*;

use crate::hir::FuncId;
use crate::names::Symbol;
use crate::source::{FileSpan, SourceId, Span};
use crate::ty::{FieldName, IntSpelling, StructId, Type};

verus! {

/// How a call names what it calls.
#[derive(Clone, Copy, PartialEq, Eq, Structural, Debug)]
pub enum CalleeName {
    /// A function value, by its type.
    Value(Type),
    /// `Type.method`.
    Method { owner: Type, method: Symbol },
}

/// What a type alias's name already means.
#[derive(Clone, Copy, PartialEq, Eq, Structural, Debug)]
pub enum NameClash {
    Builtin,
    EarlierAlias,
    Struct,
    Enum,
    Class,
}

/// One thing analysis refuses, with what it names.
#[allow(inconsistent_fields)]
#[derive(Debug)]
pub enum Problem {
    /// Constants whose values need one another, in walk order.
    ConstantCycle { members: Vec<Symbol> },
    /// A constant whose name a function has.
    ConstantIsFunction { constant: Symbol },
    /// A constant whose name another constant has.
    ConstantAlreadyDefined { constant: Symbol },
    /// A binding annotated with a type its value does not fit.
    BindingMismatch { annotation: Type, found: Type },
    /// A constant whose value runs a user `Drop` body.
    ConstantRunsDrop { ty: Type },
    /// A foreign alias without the type it stands for.
    AliasTargetMissing,
    /// A type alias whose name already means something else.
    AliasCollides { alias: Symbol, with: NameClash },
    /// A type alias that resolves back to itself.
    AliasCycle { alias: Symbol },
    /// A class that inherits from itself through its parents.
    InheritsFromItself { class: Symbol },
    /// A field whose name the class already inherits.
    FieldAlreadyInherited { field: Symbol },
    /// An `override let` that restates the slot's type as another.
    OverrideRestatesType { field: Symbol, written: Type, inherited: Type },
    /// An `override let` whose name is no inherited field's.
    OverridesNoField { field: Symbol },
    /// An `override let` whose name several parents' fields have.
    OverrideIsAmbiguous { field: Symbol },
    /// An `override` whose parameters are not those of what it overrides.
    OverrideMustMatch { method: Symbol, base: StructId },
    /// An `override` of a name nothing inherited has.
    OverridesNoMethod { method: Symbol },
    /// A method an `extend` block restates.
    MethodAlreadyDeclared { class: Symbol, method: Symbol },
    /// A class whose name its package already gave to a type.
    ClassAlreadyDefined { class: Symbol },
    /// A parent that is no type.
    UnknownParent { parent: Symbol },
    /// A parent written twice.
    ParentAlreadyNamed { parent: Symbol },
    /// A `self` parameter on a declaration that is no method.
    NotAMethod { function: FuncId },
    /// A `copy` parameter whose type cannot be copied.
    CannotCopyParameter { param: Symbol, ty: Type, reason: Symbol },
    /// A declaration sharing both a name and parameters with an earlier one.
    AlreadyDefined { function: FuncId, is_method: bool },
    /// An entrypoint that is also a main-thread lifecycle.
    EntrypointIsLifecycle,
    /// An entrypoint that is also `@MainThread`.
    EntrypointIsMainThread,
    /// A main-thread lifecycle that takes parameters.
    LifecycleTakesParameters,
    /// A main-thread lifecycle that returns something.
    LifecycleReturnsValue,
    /// A main-thread annotation where there is no main thread.
    NoMainThread,
    /// A second `@Main`.
    SecondEntrypoint,
    /// An application without `@Main`.
    NoEntrypoint,
    /// A `@Main` that takes parameters.
    EntrypointTakesParameters,
    /// A library with `@Main`.
    LibraryHasEntrypoint,
    /// Parameter defaults that fill each other.
    EndlessParameterDefault,
    /// A literal too large for the integer spelling expected of it.
    LiteralDoesNotFit { value: i64, spelling: IntSpelling },
    /// A captured `var` that cannot live in shared storage.
    CaptureHasNoSharedForm { name: Symbol, ty: Type },
    /// A captured `var` whose value runs a user `Drop` body.
    CaptureRunsDrop { name: Symbol, ty: Type },
    /// A captured binding that is not trivially copyable.
    CaptureNotCopyable { name: Symbol, ty: Type },
    /// A closure where no function type says what its parameters are.
    ClosureNeedsFunctionType { expected: Option<Type> },
    /// A closure whose parameters do not number those of its type.
    ClosureArity { expected: Type, takes: usize, declares: usize },
    /// A closure that can finish without returning what its type returns.
    ClosureMayNotReturn { ty: Type },
    /// A function whose own type is not the function type expected of it.
    FunctionValueMismatch { function: FuncId, expected: Type },
    /// A function where something that is no function type is expected.
    FunctionValueUnexpected { function: FuncId, expected: Type },
    /// A call with the wrong number of arguments.
    CallArity { callee: CalleeName, takes: usize, found: usize },
    /// An argument that does not fit its parameter, counting from one.
    ArgumentMismatch { callee: CalleeName, place: usize, expected: Type, found: Type },
    /// A construct family whose name its package already gave to one.
    FamilyAlreadyDefined { family: Symbol },
    /// A construct family whose type its package already has.
    FamilyTypeAlreadyDefined { family: Symbol },
    /// A required family member written without a type.
    RequiredMemberNeedsType { member: Symbol },
    /// A family member declared twice: one name is one obligation.
    FamilyMemberRepeated { family: Symbol, member: Symbol },
    /// A construct family that names itself among the families it extends.
    FamilyExtendsItself { family: Symbol },
    /// A construct family that extends what is no family.
    ExtendsNoFamily { family: Symbol, parent: Symbol },
    /// A construct family that extends another twice.
    FamilyExtendsTwice { family: Symbol, parent: Symbol },
    /// A construct family that inherits from itself through others.
    FamilyCycle { family: Symbol },
    /// A construct member whose name the declaration already used.
    ConstructMemberRepeated { member: Symbol },
    /// A construct method repeating both a name and what it takes.
    ConstructMethodRepeated { member: Symbol },
    /// A requirement stated by a declaration that should discharge one.
    RequirementInBacked { declaration: Symbol, family: Symbol, member: Symbol },
    /// A declaration backed by what is no family.
    UnknownFamily { declaration: Symbol, family: Symbol },
    /// A child slot written without an element type.
    SlotNeedsType { slot: Symbol },
    /// An inherited child slot written without an element type.
    InheritedSlotNeedsType { slot: Symbol, family: Symbol },
    /// A member that is recorded and not executable yet.
    DeferredMember { label: Symbol },
    /// A construct-backed declaration whose name its package already gave away.
    ConstructAlreadyDefined { declaration: Symbol },
    /// A call of a method the construct family does not have.
    NoFamilyMethod { family: Type, method: Symbol },
    /// A call through a family value of a method that declares no result type.
    FamilyCallHasNoType { family: Type, method: Symbol },
    /// Trailing content given to what takes none.
    TakesNoContent { callee: CalleeName },
    /// A declaration that lacks a method its family requires.
    VariantLacksMethod { declaration: Symbol, family: Symbol, method: Symbol },
    /// A declaration's method whose signature is not the family's.
    VariantSignature { declaration: Symbol, family: Symbol, method: Symbol },
    /// A declaration's method whose receiver mode is not the family's.
    VariantReceiver { declaration: Symbol, family: Symbol, method: Symbol },
    /// A labeled construction argument that names no input.
    NoSuchInput { construct: StructId, label: Symbol },
    /// A construction with more positional arguments than inputs.
    TooManyInputs { construct: StructId, takes: usize },
    /// A construction input given twice.
    InputSetTwice { construct: StructId, field: FieldName },
    /// A construction input given a value of another type.
    InputMismatch { construct: StructId, field: FieldName, expected: Type, found: Type },
    /// A construct member whose default does not fit its type.
    MemberDefaultMismatch { construct: StructId, field: FieldName, expected: Type, found: Type },
    /// A construction that leaves out an input that has no default.
    MissingInput { construct: StructId, field: FieldName },
    /// Member defaults that construct each other without end.
    EndlessMemberDefault,
    /// Trailing children given to a declaration without a child slot.
    NoChildSlot { construct: StructId },
    /// A child slot filled twice.
    SlotFilledTwice { construct: StructId, slot: Symbol },
    /// A builder filling a slot that holds exactly one child.
    BuilderInSingleSlot { construct: StructId, slot: Symbol },
    /// A slot that holds exactly one child given another number.
    SlotHoldsOne { construct: StructId, slot: Symbol, found: usize },
    /// A slot filled with a value of another type.
    FillMismatch { construct: StructId, slot: Symbol, expected: Type, found: Type },
    /// A child whose type the slot does not hold.
    ChildMismatch { construct: StructId, slot: Symbol, expected: Type, found: Type },
    /// A content parameter that holds exactly one child given another number.
    ContentHoldsOne { found: usize },
    /// An `init` with a content parameter that is not its last.
    ContentNotLast,
    /// An `init` that takes what the declaration's header already takes.
    InitShadowsHeader { construct: StructId },
    /// A construct update override that names no field.
    UpdateNeedsField,
    /// A construct update override whose path is empty.
    UpdateEmptyPath,
    /// A construct update field given a value of another type.
    UpdateMismatch { field: FieldName, expected: Type, found: Type },
    /// Two construct update paths one of which begins the other.
    UpdatePathsOverlap { left: Symbol, right: Symbol },
    /// A construct update of what is no construct value.
    UpdateNeedsConstruct,
    /// A construct update path no field starts, by its label and how many of the
    /// label's segments lie behind it.
    UpdateNoPath { ty: Type, label: Symbol, from: usize },
    /// A construct update path that leads through what has no fields, by its label
    /// and how many of the label's segments lie behind it.
    UpdateCannotDescend { ty: Type, label: Symbol, from: usize },
    /// An `extend` block that names no family or class.
    ExtendsNothing { name: Symbol },
    /// A modifier whose name the family already gave to a method.
    ModifierTaken { family: Symbol, method: Symbol },
    /// An entrypoint annotation on a modifier.
    ModifierIsEntrypoint,
    /// An export annotation on a modifier.
    ModifierIsExported,
    /// A foreign annotation on a modifier.
    ModifierIsForeign,
    /// A modifier that can finish without returning its value.
    ModifierMayNotReturn { family: Symbol, method: Symbol },
    /// A stored construct member whose type nothing tells.
    MemberTypeUnknown { member: Symbol },
    /// A stored construct member written with neither a type nor an initializer.
    MemberNeedsType { member: Symbol },
    /// A stored construct member whose initializer does not fit its type.
    MemberMismatch { member: Symbol, expected: Type, found: Type },
    /// `[]` where nothing says what it holds.
    ArrayTypeUnknown,
    /// An array element of another type than the array's.
    ArrayElementMismatch { element: Type, found: Type },
    /// An index into what is no array.
    CannotIndex { ty: Type },
    /// An index into a foreign array type rather than into the field that holds its
    /// elements.
    ForeignArrayIndexed { ty: Type, field: Symbol },
    /// An index that is no integer.
    IndexNotInteger { found: Type },
    /// `append` read as if it were a property.
    AppendIsMethod,
    /// `count` called as if it were a method.
    CountIsProperty,
    /// A member an array does not have.
    NoArrayMember { member: Symbol },
    /// An `append` to what is no array.
    NoAppend { ty: Type },
    /// An `append` of another number of values than one.
    AppendArity { found: usize },
    /// A value appended to an array of another type.
    AppendMismatch { element: Type, found: Type },
    /// A field of what has no fields.
    HasNoFields { ty: Type, field: Symbol },
    /// A member of a function value.
    FunctionHasNoMembers { ty: Type },
    /// A field the struct does not have.
    NoSuchField { ty: Type, field: Symbol },
    /// A function that can finish without returning its value.
    MayNotReturn { function: FuncId },
    /// A constructor call with the wrong number of arguments.
    ConstructorArity { class: StructId, takes: usize, found: usize },
    /// A constructor argument that does not fit its field, counting from one.
    ConstructorMismatch { class: StructId, place: usize, expected: Type, found: Type },
    /// A slot of a class left without a value.
    SlotHasNoValue { class: StructId, slot: u32 },
    /// A parent qualification outside the methods of a class that inherits.
    CannotQualifyHere { parent: Symbol },
    /// A parent qualification by what the class does not inherit from.
    DoesNotInherit { class: StructId, parent: Symbol },
    /// A parent-qualified call of a method the parent does not have.
    NoMethodToQualify { parent: StructId, method: Symbol },
    /// A parent-qualified read of a field the parent does not have.
    NoFieldToQualify { parent: StructId, field: Symbol },
    /// A bare method name several parents declare.
    AmbiguousMethod { method: Symbol, owners: Vec<StructId> },
    /// A bare field name several parents declare.
    AmbiguousField { field: Symbol, owners: Vec<StructId> },
    /// A redeclared family method that takes another number of parameters.
    RedeclaredArity { family: Symbol, parent: Symbol, member: Symbol, takes: usize, promised: usize },
    /// A redeclared family method whose parameter is not the parent's, counting
    /// from one.
    RedeclaredParameter { parent: Symbol, member: Symbol, place: usize, ty: Type, promised: Type },
    /// A redeclared family method whose result is no narrower than the parent's.
    RedeclaredResult { parent: Symbol, member: Symbol, ty: Type, promised: Type },
    /// A redeclared family value whose type is no narrower than the parent's.
    RedeclaredMember { parent: Symbol, member: Symbol, ty: Type, promised: Type },
}

/// One problem and the place it is blamed at.
#[derive(Debug)]
pub struct Diagnostic {
    pub at: FileSpan,
    pub problem: Problem,
}

/// Everything reported so far, and the file being analyzed right now, which is
/// what a reported span is attributed to.
#[derive(Debug)]
pub struct Log {
    pub source: SourceId,
    pub diagnostics: Vec<Diagnostic>,
}

/// The diagnostic a problem at `span` of `source` becomes.
pub open spec fn blamed(source: SourceId, span: Span, problem: Problem) -> Diagnostic {
    Diagnostic { at: FileSpan { source, span }, problem }
}

/// The file being read once `said` was reported, each diagnostic from its own
/// file: the last one's, or `source` where nothing was said.
pub open spec fn read_last(source: SourceId, said: Seq<Diagnostic>) -> SourceId {
    if said.len() == 0 {
        source
    } else {
        said.last().at.source
    }
}

/// The diagnostics problems at spans of `source` become, in order.
pub open spec fn noted(source: SourceId, problems: Seq<(Span, Problem)>) -> Seq<Diagnostic> {
    problems.map_values(|entry: (Span, Problem)| blamed(source, entry.0, entry.1))
}

/// Reporting one list and then another reports the two together.
pub proof fn lemma_noted_more(
    said: Seq<Diagnostic>,
    source: SourceId,
    a: Seq<(Span, Problem)>,
    b: Seq<(Span, Problem)>,
)
    ensures
        said + noted(source, a) + noted(source, b) == said + noted(source, a + b),
{
    assert(said + noted(source, a) + noted(source, b) =~= said + noted(source, a + b));
}

/// Reporting nothing changes nothing.
pub proof fn lemma_noted_none(said: Seq<Diagnostic>, source: SourceId)
    ensures
        said + noted(source, Seq::<(Span, Problem)>::empty()) == said,
{
    assert(said + noted(source, Seq::<(Span, Problem)>::empty()) =~= said);
}

/// Reporting one more problem extends what was reported by it.
pub proof fn lemma_noted_one(
    said: Seq<Diagnostic>,
    source: SourceId,
    a: Seq<(Span, Problem)>,
    span: Span,
    problem: Problem,
)
    ensures
        (said + noted(source, a)).push(blamed(source, span, problem)) == said + noted(
            source,
            a.push((span, problem)),
        ),
{
    assert((said + noted(source, a)).push(blamed(source, span, problem)) =~= said + noted(
        source,
        a.push((span, problem)),
    ));
}

impl Log {
    /// An empty log, reading `source`.
    pub fn new(source: SourceId) -> (log: Log)
        ensures
            log.source == source,
            log.diagnostics@.len() == 0,
    {
        Log { source, diagnostics: Vec::new() }
    }

    /// Reports one problem at a span of the current file.
    pub fn emit(&mut self, span: Span, problem: Problem)
        ensures
            final(self).source == old(self).source,
            final(self).diagnostics@ == old(self).diagnostics@.push(
                blamed(old(self).source, span, problem),
            ),
    {
        self.diagnostics.push(
            Diagnostic { at: FileSpan { source: self.source, span }, problem },
        );
    }

    /// Nothing was reported and the file did not change.
    pub open spec fn quiet(&self, before: &Log) -> bool {
        self.source == before.source && self.diagnostics@ == before.diagnostics@
    }

    /// Exactly one problem was reported, at `span` of `source`.
    pub open spec fn reported(
        &self,
        before: &Log,
        source: SourceId,
        span: Span,
        problem: Problem,
    ) -> bool {
        self.diagnostics@ == before.diagnostics@.push(blamed(source, span, problem))
    }
}

/// Every problem noted of a file becomes one diagnostic, in order, blamed at its own span
/// of that very file.
pub proof fn every_problem_is_blamed_in_its_file(
    source: SourceId,
    problems: Seq<(Span, Problem)>,
    k: int,
)
    requires
        0 <= k < problems.len(),
    ensures
        noted(source, problems).len() == problems.len(),
        noted(source, problems)[k].at.source == source,
        noted(source, problems)[k].at.span == problems[k].0,
        noted(source, problems)[k].problem == problems[k].1,
{
}

} // verus!
