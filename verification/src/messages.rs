//! What each problem is called and what is said of it.
//!
//! A message is a run of pieces: fixed text, and the names and types it speaks of.
//! What a name or a type spells is left to whoever renders the run.

use vstd::prelude::*;

use crate::diagnostics::{CalleeName, NameClash, Problem};
use crate::hir::FuncId;
use crate::names::Symbol;
use crate::ty::{FieldName, StructId, Type};

verus! {

/// One piece of a message.
#[allow(inconsistent_fields)]
#[derive(Clone, Copy, Debug)]
pub enum Piece {
    Text(&'static str),
    Name(Symbol),
    Ty(Type),
    Field(FieldName),
    Count(usize),
    Number(i64),
    /// The name a call site writes for a function.
    Function(FuncId),
    /// The function type a function's own signature is.
    FunctionType(FuncId),
    Callee(CalleeName),
    /// What kind of thing a name already means, up to the quote before the name.
    Clash(NameClash),
    /// A dotted label behind its first `from` segments.
    PathFrom { label: Symbol, from: usize },
}

/// The first `count` members of a cycle, each with an arrow behind it.
pub open spec fn chained(members: Seq<Symbol>, count: int) -> Seq<Piece>
    decreases count,
{
    if count <= 0 {
        Seq::empty()
    } else {
        chained(members, count - 1) + seq![
            Piece::Text("`"),
            Piece::Name(members[count - 1]),
            Piece::Text("` -> "),
        ]
    }
}

/// What is said of constants that need one another: the way round, back to where
/// it started.
pub open spec fn cycle_pieces(members: Seq<Symbol>) -> Seq<Piece> {
    seq![Piece::Text("module constants form a dependency cycle: ")] + chained(
        members,
        members.len() as int,
    ) + if members.len() == 0 {
        seq![Piece::Text("; no member has a value to start from")]
    } else {
        seq![
            Piece::Text("`"),
            Piece::Name(members[0]),
            Piece::Text("`; no member has a value to start from"),
        ]
    }
}

/// The first `count` owners, with the quoted `and` between them.
pub open spec fn owners_listed(owners: Seq<StructId>, count: int) -> Seq<Piece>
    decreases count,
{
    if count <= 0 {
        Seq::empty()
    } else if count == 1 {
        seq![Piece::Ty(Type::Struct(owners[0]))]
    } else {
        owners_listed(owners, count - 1) + seq![
            Piece::Text("` and `"),
            Piece::Ty(Type::Struct(owners[count - 1])),
        ]
    }
}

/// What is said of a member name several parents declare.
pub open spec fn ambiguity_pieces(name: Symbol, owners: Seq<StructId>, method: bool) -> Seq<Piece> {
    seq![Piece::Text("`"), Piece::Name(name), Piece::Text("` is inherited from `")] + owners_listed(
        owners,
        owners.len() as int,
    ) + seq![
        Piece::Text(
            if method {
                "`; qualify it to say which method is meant"
            } else {
                "`; qualify it to say which field is meant"
            },
        ),
    ]
}

fn cycle_message(members: &Vec<Symbol>) -> (pieces: Vec<Piece>)
    ensures
        pieces@ == cycle_pieces(members@),
{
    let mut pieces: Vec<Piece> = vec![Piece::Text("module constants form a dependency cycle: ")];
    let ghost start = pieces@;
    let mut i: usize = 0;
    assert(start + chained(members@, 0) =~= start);
    while i < members.len()
        invariant
            i <= members@.len(),
            pieces@ == start + chained(members@, i as int),
        decreases members@.len() - i,
    {
        let ghost before = chained(members@, i as int);
        pieces.push(Piece::Text("`"));
        pieces.push(Piece::Name(members[i]));
        pieces.push(Piece::Text("` -> "));
        i += 1;
        assert(pieces@ =~= start + chained(members@, i as int));
    }
    if members.len() == 0 {
        pieces.push(Piece::Text("; no member has a value to start from"));
    } else {
        pieces.push(Piece::Text("`"));
        pieces.push(Piece::Name(members[0]));
        pieces.push(Piece::Text("`; no member has a value to start from"));
    }
    assert(pieces@ =~= cycle_pieces(members@));
    pieces
}

fn ambiguity_message(name: Symbol, owners: &Vec<StructId>, method: bool) -> (pieces: Vec<Piece>)
    ensures
        pieces@ == ambiguity_pieces(name, owners@, method),
{
    let mut pieces: Vec<Piece> = vec![
        Piece::Text("`"),
        Piece::Name(name),
        Piece::Text("` is inherited from `"),
    ];
    let ghost start = pieces@;
    let mut i: usize = 0;
    assert(start + owners_listed(owners@, 0) =~= start);
    while i < owners.len()
        invariant
            i <= owners@.len(),
            pieces@ == start + owners_listed(owners@, i as int),
        decreases owners@.len() - i,
    {
        let ghost before = owners_listed(owners@, i as int);
        if i > 0 {
            pieces.push(Piece::Text("` and `"));
        }
        pieces.push(Piece::Ty(Type::Struct(owners[i])));
        i += 1;
        assert(pieces@ =~= start + owners_listed(owners@, i as int));
    }
    let ending: &'static str = if method {
        "`; qualify it to say which method is meant"
    } else {
        "`; qualify it to say which field is meant"
    };
    pieces.push(Piece::Text(ending));
    assert(pieces@ =~= ambiguity_pieces(name, owners@, method));
    pieces
}

impl Problem {
    /// The number of the code the problem is reported under.
    pub open spec fn spec_code(&self) -> u16 {
        match *self {
            Problem::UnknownParent { .. }
            | Problem::AlreadyDefined { .. } => 3,
            Problem::ClassAlreadyDefined { .. }
            | Problem::FamilyAlreadyDefined { .. }
            | Problem::ConstructAlreadyDefined { .. } => 4,
            Problem::FamilyTypeAlreadyDefined { .. } => 6,
            Problem::SecondEntrypoint => 10,
            Problem::NoEntrypoint => 11,
            Problem::EntrypointTakesParameters => 12,
            Problem::BindingMismatch { .. } => 20,
            Problem::ModifierMayNotReturn { .. }
            | Problem::MayNotReturn { .. } => 33,
            Problem::OverrideRestatesType { .. } => 59,
            Problem::CallArity { .. }
            | Problem::ConstructorArity { .. } => 62,
            Problem::ArgumentMismatch { .. }
            | Problem::ConstructorMismatch { .. } => 63,
            Problem::InheritsFromItself { .. } => 64,
            Problem::ParentAlreadyNamed { .. } => 65,
            Problem::OverrideMustMatch { .. } => 66,
            Problem::AmbiguousMethod { .. } => 67,
            Problem::OverrideIsAmbiguous { .. }
            | Problem::AmbiguousField { .. } => 68,
            Problem::CannotQualifyHere { .. }
            | Problem::DoesNotInherit { .. }
            | Problem::NoMethodToQualify { .. }
            | Problem::NoFieldToQualify { .. } => 69,
            Problem::OverridesNoField { .. } => 72,
            Problem::OverridesNoMethod { .. } => 73,
            Problem::FieldAlreadyInherited { .. } => 74,
            Problem::SlotHasNoValue { .. } => 82,
            Problem::HasNoFields { .. } => 90,
            Problem::NoSuchField { .. } => 91,
            Problem::NoFamilyMethod { .. } => 97,
            Problem::CannotIndex { .. } => 100,
            Problem::AppendIsMethod
            | Problem::CountIsProperty
            | Problem::NoArrayMember { .. }
            | Problem::NoAppend { .. } => 101,
            Problem::IndexNotInteger { .. } => 102,
            Problem::AppendArity { .. } => 103,
            Problem::ArrayTypeUnknown => 104,
            Problem::ArrayElementMismatch { .. }
            | Problem::AppendMismatch { .. } => 105,
            Problem::CaptureHasNoSharedForm { .. }
            | Problem::CaptureNotCopyable { .. } => 117,
            Problem::AliasCollides { .. } => 130,
            Problem::ClosureNeedsFunctionType { .. } => 134,
            Problem::ClosureArity { .. } => 135,
            Problem::ClosureMayNotReturn { .. }
            | Problem::FunctionHasNoMembers { .. } => 136,
            Problem::AliasCycle { .. } => 157,
            Problem::LibraryHasEntrypoint => 158,
            Problem::AliasTargetMissing => 188,
            Problem::ExtendsNoFamily { .. }
            | Problem::UnknownFamily { .. } => 200,
            Problem::FamilyMemberRepeated { .. }
            | Problem::ConstructMemberRepeated { .. }
            | Problem::ConstructMethodRepeated { .. } => 202,
            Problem::DeferredMember { .. } => 203,
            Problem::FamilyExtendsItself { .. }
            | Problem::FamilyExtendsTwice { .. }
            | Problem::NoSuchInput { .. } => 204,
            Problem::FamilyCycle { .. }
            | Problem::TooManyInputs { .. } => 205,
            Problem::InputSetTwice { .. }
            | Problem::RedeclaredArity { .. }
            | Problem::RedeclaredParameter { .. }
            | Problem::RedeclaredResult { .. }
            | Problem::RedeclaredMember { .. } => 206,
            Problem::InputMismatch { .. }
            | Problem::MemberDefaultMismatch { .. } => 207,
            Problem::MissingInput { .. } => 208,
            Problem::FunctionValueMismatch { .. }
            | Problem::FunctionValueUnexpected { .. } => 212,
            Problem::EndlessMemberDefault => 213,
            Problem::NoChildSlot { .. } => 229,
            Problem::SlotHoldsOne { .. } => 231,
            Problem::FillMismatch { .. }
            | Problem::ChildMismatch { .. } => 232,
            Problem::VariantLacksMethod { .. } => 234,
            Problem::VariantSignature { .. }
            | Problem::VariantReceiver { .. } => 235,
            Problem::ExtendsNothing { .. } => 238,
            Problem::ModifierTaken { .. } => 239,
            Problem::EndlessParameterDefault => 240,
            Problem::FamilyCallHasNoType { .. } => 241,
            Problem::BuilderInSingleSlot { .. } => 242,
            Problem::ForeignArrayIndexed { .. } => 244,
            Problem::RequirementInBacked { .. } => 249,
            Problem::MethodAlreadyDeclared { .. } => 257,
            Problem::ModifierIsEntrypoint => 258,
            Problem::ModifierIsExported => 259,
            Problem::ModifierIsForeign => 260,
            Problem::RequiredMemberNeedsType { .. }
            | Problem::SlotNeedsType { .. }
            | Problem::InheritedSlotNeedsType { .. }
            | Problem::MemberTypeUnknown { .. }
            | Problem::MemberNeedsType { .. } => 261,
            Problem::UpdateNeedsField
            | Problem::MemberMismatch { .. } => 262,
            Problem::UpdateEmptyPath => 263,
            Problem::UpdateMismatch { .. } => 264,
            Problem::UpdatePathsOverlap { .. } => 265,
            Problem::UpdateNeedsConstruct => 266,
            Problem::UpdateNoPath { .. } => 267,
            Problem::UpdateCannotDescend { .. } => 268,
            Problem::SlotFilledTwice { .. } => 274,
            Problem::ContentNotLast => 276,
            Problem::ContentHoldsOne { .. } => 277,
            Problem::TakesNoContent { .. }
            | Problem::InitShadowsHeader { .. } => 278,
            Problem::NotAMethod { .. } => 299,
            Problem::CaptureRunsDrop { .. } => 302,
            Problem::ConstantIsFunction { .. }
            | Problem::ConstantAlreadyDefined { .. } => 316,
            Problem::ConstantCycle { .. } => 317,
            Problem::ConstantRunsDrop { .. } => 318,
            Problem::EntrypointIsMainThread => 337,
            Problem::NoMainThread => 338,
            Problem::EntrypointIsLifecycle => 339,
            Problem::LifecycleTakesParameters => 341,
            Problem::LifecycleReturnsValue => 344,
            Problem::LiteralDoesNotFit { .. } => 350,
            Problem::CannotCopyParameter { .. } => 356,
        }
    }

    /// The number of the code the problem is reported under.
    #[verifier::when_used_as_spec(spec_code)]
    pub fn code(&self) -> (number: u16)
        ensures
            number == self.spec_code(),
    {
        match self {
            Problem::UnknownParent { .. }
            | Problem::AlreadyDefined { .. } => 3,
            Problem::ClassAlreadyDefined { .. }
            | Problem::FamilyAlreadyDefined { .. }
            | Problem::ConstructAlreadyDefined { .. } => 4,
            Problem::FamilyTypeAlreadyDefined { .. } => 6,
            Problem::SecondEntrypoint => 10,
            Problem::NoEntrypoint => 11,
            Problem::EntrypointTakesParameters => 12,
            Problem::BindingMismatch { .. } => 20,
            Problem::ModifierMayNotReturn { .. }
            | Problem::MayNotReturn { .. } => 33,
            Problem::OverrideRestatesType { .. } => 59,
            Problem::CallArity { .. }
            | Problem::ConstructorArity { .. } => 62,
            Problem::ArgumentMismatch { .. }
            | Problem::ConstructorMismatch { .. } => 63,
            Problem::InheritsFromItself { .. } => 64,
            Problem::ParentAlreadyNamed { .. } => 65,
            Problem::OverrideMustMatch { .. } => 66,
            Problem::AmbiguousMethod { .. } => 67,
            Problem::OverrideIsAmbiguous { .. }
            | Problem::AmbiguousField { .. } => 68,
            Problem::CannotQualifyHere { .. }
            | Problem::DoesNotInherit { .. }
            | Problem::NoMethodToQualify { .. }
            | Problem::NoFieldToQualify { .. } => 69,
            Problem::OverridesNoField { .. } => 72,
            Problem::OverridesNoMethod { .. } => 73,
            Problem::FieldAlreadyInherited { .. } => 74,
            Problem::SlotHasNoValue { .. } => 82,
            Problem::HasNoFields { .. } => 90,
            Problem::NoSuchField { .. } => 91,
            Problem::NoFamilyMethod { .. } => 97,
            Problem::CannotIndex { .. } => 100,
            Problem::AppendIsMethod
            | Problem::CountIsProperty
            | Problem::NoArrayMember { .. }
            | Problem::NoAppend { .. } => 101,
            Problem::IndexNotInteger { .. } => 102,
            Problem::AppendArity { .. } => 103,
            Problem::ArrayTypeUnknown => 104,
            Problem::ArrayElementMismatch { .. }
            | Problem::AppendMismatch { .. } => 105,
            Problem::CaptureHasNoSharedForm { .. }
            | Problem::CaptureNotCopyable { .. } => 117,
            Problem::AliasCollides { .. } => 130,
            Problem::ClosureNeedsFunctionType { .. } => 134,
            Problem::ClosureArity { .. } => 135,
            Problem::ClosureMayNotReturn { .. }
            | Problem::FunctionHasNoMembers { .. } => 136,
            Problem::AliasCycle { .. } => 157,
            Problem::LibraryHasEntrypoint => 158,
            Problem::AliasTargetMissing => 188,
            Problem::ExtendsNoFamily { .. }
            | Problem::UnknownFamily { .. } => 200,
            Problem::FamilyMemberRepeated { .. }
            | Problem::ConstructMemberRepeated { .. }
            | Problem::ConstructMethodRepeated { .. } => 202,
            Problem::DeferredMember { .. } => 203,
            Problem::FamilyExtendsItself { .. }
            | Problem::FamilyExtendsTwice { .. }
            | Problem::NoSuchInput { .. } => 204,
            Problem::FamilyCycle { .. }
            | Problem::TooManyInputs { .. } => 205,
            Problem::InputSetTwice { .. }
            | Problem::RedeclaredArity { .. }
            | Problem::RedeclaredParameter { .. }
            | Problem::RedeclaredResult { .. }
            | Problem::RedeclaredMember { .. } => 206,
            Problem::InputMismatch { .. }
            | Problem::MemberDefaultMismatch { .. } => 207,
            Problem::MissingInput { .. } => 208,
            Problem::FunctionValueMismatch { .. }
            | Problem::FunctionValueUnexpected { .. } => 212,
            Problem::EndlessMemberDefault => 213,
            Problem::NoChildSlot { .. } => 229,
            Problem::SlotHoldsOne { .. } => 231,
            Problem::FillMismatch { .. }
            | Problem::ChildMismatch { .. } => 232,
            Problem::VariantLacksMethod { .. } => 234,
            Problem::VariantSignature { .. }
            | Problem::VariantReceiver { .. } => 235,
            Problem::ExtendsNothing { .. } => 238,
            Problem::ModifierTaken { .. } => 239,
            Problem::EndlessParameterDefault => 240,
            Problem::FamilyCallHasNoType { .. } => 241,
            Problem::BuilderInSingleSlot { .. } => 242,
            Problem::ForeignArrayIndexed { .. } => 244,
            Problem::RequirementInBacked { .. } => 249,
            Problem::MethodAlreadyDeclared { .. } => 257,
            Problem::ModifierIsEntrypoint => 258,
            Problem::ModifierIsExported => 259,
            Problem::ModifierIsForeign => 260,
            Problem::RequiredMemberNeedsType { .. }
            | Problem::SlotNeedsType { .. }
            | Problem::InheritedSlotNeedsType { .. }
            | Problem::MemberTypeUnknown { .. }
            | Problem::MemberNeedsType { .. } => 261,
            Problem::UpdateNeedsField
            | Problem::MemberMismatch { .. } => 262,
            Problem::UpdateEmptyPath => 263,
            Problem::UpdateMismatch { .. } => 264,
            Problem::UpdatePathsOverlap { .. } => 265,
            Problem::UpdateNeedsConstruct => 266,
            Problem::UpdateNoPath { .. } => 267,
            Problem::UpdateCannotDescend { .. } => 268,
            Problem::SlotFilledTwice { .. } => 274,
            Problem::ContentNotLast => 276,
            Problem::ContentHoldsOne { .. } => 277,
            Problem::TakesNoContent { .. }
            | Problem::InitShadowsHeader { .. } => 278,
            Problem::NotAMethod { .. } => 299,
            Problem::CaptureRunsDrop { .. } => 302,
            Problem::ConstantIsFunction { .. }
            | Problem::ConstantAlreadyDefined { .. } => 316,
            Problem::ConstantCycle { .. } => 317,
            Problem::ConstantRunsDrop { .. } => 318,
            Problem::EntrypointIsMainThread => 337,
            Problem::NoMainThread => 338,
            Problem::EntrypointIsLifecycle => 339,
            Problem::LifecycleTakesParameters => 341,
            Problem::LifecycleReturnsValue => 344,
            Problem::LiteralDoesNotFit { .. } => 350,
            Problem::CannotCopyParameter { .. } => 356,
        }
    }

    /// What is said of the problem.
    pub open spec fn pieces(&self) -> Seq<Piece> {
        match *self {
            Problem::ConstantCycle { members } => cycle_pieces(members@),
            Problem::AmbiguousMethod { method, owners } => {
                ambiguity_pieces(method, owners@, true)
            },
            Problem::AmbiguousField { field, owners } => ambiguity_pieces(field, owners@, false),
            Problem::AlreadyDefined { function, is_method } => if is_method {
                seq![
                    Piece::Text("`"),
                    Piece::Function(function),
                    Piece::Text("` is already defined with these parameters"),
                ]
            } else {
                seq![
                    Piece::Text("function `"),
                    Piece::Function(function),
                    Piece::Text("` is already defined with these parameters"),
                ]
            },
            Problem::ClosureNeedsFunctionType { expected } => match expected {
                Some(ty) => seq![
                    Piece::Text("a closure needs a function type to check against, but `"),
                    Piece::Ty(ty),
                    Piece::Text("` is expected here"),
                ],
                None => seq![
                    Piece::Text(
                        "a closure needs a function type to check against, but nothing here says what its parameters are",
                    ),
                ],
            },
            Problem::ConstantIsFunction { constant } => seq![
                Piece::Text("constant `"),
                Piece::Name(constant),
                Piece::Text("` collides with the function of the same name: constants and functions share one value namespace"),
            ],
            Problem::ConstantAlreadyDefined { constant } => seq![
                Piece::Text("constant `"),
                Piece::Name(constant),
                Piece::Text("` is already defined"),
            ],
            Problem::BindingMismatch { annotation, found } => seq![
                Piece::Text("binding annotated `"),
                Piece::Ty(annotation),
                Piece::Text("` cannot hold a value of type `"),
                Piece::Ty(found),
                Piece::Text("`"),
            ],
            Problem::ConstantRunsDrop { ty } => seq![
                Piece::Text("a module constant cannot hold `"),
                Piece::Ty(ty),
                Piece::Text("`: its value is shared by every reader, and a `Drop` value has exactly one owner"),
            ],
            Problem::AliasTargetMissing => seq![
                Piece::Text("`@FFI.Alias` is missing its required `target` type"),
            ],
            Problem::AliasCollides { alias, with } => seq![
                Piece::Text("type alias `"),
                Piece::Name(alias),
                Piece::Text("` collides with "),
                Piece::Clash(with),
                Piece::Name(alias),
                Piece::Text("`"),
            ],
            Problem::AliasCycle { alias } => seq![
                Piece::Text("type alias `"),
                Piece::Name(alias),
                Piece::Text("` resolves back to itself; break the cycle so every `type Name = Target` chain reaches a concrete target type"),
            ],
            Problem::InheritsFromItself { class } => seq![
                Piece::Text("class `"),
                Piece::Name(class),
                Piece::Text("` inherits from itself through its parents"),
            ],
            Problem::FieldAlreadyInherited { field } => seq![
                Piece::Text("`"),
                Piece::Name(field),
                Piece::Text("` is already inherited; write `override let "),
                Piece::Name(field),
                Piece::Text(" = ...` to give it a new default"),
            ],
            Problem::OverrideRestatesType { field, written, inherited } => seq![
                Piece::Text("this `override` restates `"),
                Piece::Name(field),
                Piece::Text("` as `"),
                Piece::Ty(written),
                Piece::Text("`, but the inherited field is `"),
                Piece::Ty(inherited),
                Piece::Text("`; an override keeps the type it rebinds"),
            ],
            Problem::OverridesNoField { field } => seq![
                Piece::Text("`"),
                Piece::Name(field),
                Piece::Text("` overrides no inherited field"),
            ],
            Problem::OverrideIsAmbiguous { field } => seq![
                Piece::Text("`"),
                Piece::Name(field),
                Piece::Text("` is inherited from several parents, so this override is ambiguous"),
            ],
            Problem::OverrideMustMatch { method, base } => seq![
                Piece::Text("`"),
                Piece::Name(method),
                Piece::Text("` must match the signature it overrides from `"),
                Piece::Ty(Type::Struct(base)),
                Piece::Text("`"),
            ],
            Problem::OverridesNoMethod { method } => seq![
                Piece::Text("`"),
                Piece::Name(method),
                Piece::Text("` overrides no inherited method"),
            ],
            Problem::MethodAlreadyDeclared { class, method } => seq![
                Piece::Text("`"),
                Piece::Name(class),
                Piece::Text("` already declares a method `"),
                Piece::Name(method),
                Piece::Text("` taking these parameters"),
            ],
            Problem::ClassAlreadyDefined { class } => seq![
                Piece::Text("class `"),
                Piece::Name(class),
                Piece::Text("` is already defined"),
            ],
            Problem::UnknownParent { parent } => seq![
                Piece::Text("unknown parent type `"),
                Piece::Name(parent),
                Piece::Text("`"),
            ],
            Problem::ParentAlreadyNamed { parent } => seq![
                Piece::Text("`"),
                Piece::Name(parent),
                Piece::Text("` is already a parent of this class"),
            ],
            Problem::NotAMethod { function } => seq![
                Piece::Text("`"),
                Piece::Function(function),
                Piece::Text("` is not a method, so it has no receiver to borrow: a `self` parameter belongs to a declaration written inside a type"),
            ],
            Problem::CannotCopyParameter { param, ty, reason } => seq![
                Piece::Text("parameter `"),
                Piece::Name(param),
                Piece::Text("` cannot be `copy "),
                Piece::Ty(ty),
                Piece::Text("`: "),
                Piece::Name(reason),
            ],
            Problem::EntrypointIsLifecycle => seq![
                Piece::Text("the entrypoint runs on the application thread, so it cannot also be `@MainThreadLifecycle`: declare the main-thread loop as its own function"),
            ],
            Problem::EntrypointIsMainThread => seq![
                Piece::Text("an entrypoint cannot also be `@MainThread`"),
            ],
            Problem::LifecycleTakesParameters => seq![
                Piece::Text("a `@MainThreadLifecycle` function must take no parameters: calling it starts an independent preserved stack and transfers no arguments"),
            ],
            Problem::LifecycleReturnsValue => seq![
                Piece::Text("a `@MainThreadLifecycle` function must return `Void`: its call starts the lifecycle and does not wait for its eventual result"),
            ],
            Problem::NoMainThread => seq![
                Piece::Text("a main-thread annotation requires an operating-system main thread and is unavailable on WebAssembly"),
            ],
            Problem::SecondEntrypoint => seq![
                Piece::Text("a program may declare only one `@Main` entrypoint"),
            ],
            Problem::NoEntrypoint => seq![
                Piece::Text("program has no `@Main` function to run"),
            ],
            Problem::EntrypointTakesParameters => seq![
                Piece::Text("`@Main` must take no parameters"),
            ],
            Problem::LibraryHasEntrypoint => seq![
                Piece::Text("a library package cannot declare `@Main`: a library is entered by its consumer, not run"),
            ],
            Problem::EndlessParameterDefault => seq![
                Piece::Text("parameter defaults fill each other through the call graph and have no finite value"),
            ],
            Problem::LiteralDoesNotFit { value, spelling } => seq![
                Piece::Text("the literal `"),
                Piece::Number(value),
                Piece::Text("` does not fit `"),
                Piece::Ty(Type::Int(spelling)),
                Piece::Text("`"),
            ],
            Problem::CaptureHasNoSharedForm { name, ty } => seq![
                Piece::Text("closure captures `"),
                Piece::Name(name),
                Piece::Text("`, which is declared `var` and cannot be moved into shared storage; a closure shares a captured `var` with the scope that declared it, and a value of type `"),
                Piece::Ty(ty),
                Piece::Text("` has no shared form"),
            ],
            Problem::CaptureRunsDrop { name, ty } => seq![
                Piece::Text("closure captures `"),
                Piece::Name(name),
                Piece::Text("`, which is a `"),
                Piece::Ty(ty),
                Piece::Text("` and runs a user `Drop` body: a captured `var` is shared with the scope that declared it, and every read out of that share is a second value with the same body to run. Keep the value in its scope and capture what the closure needs from it."),
            ],
            Problem::CaptureNotCopyable { name, ty } => seq![
                Piece::Text("closure captures `"),
                Piece::Name(name),
                Piece::Text("` of type `"),
                Piece::Ty(ty),
                Piece::Text("`, which is not trivially copyable"),
            ],
            Problem::ClosureArity { expected, takes, declares } => seq![
                Piece::Text("`"),
                Piece::Ty(expected),
                Piece::Text("` takes "),
                Piece::Count(takes),
                Piece::Text(" parameter(s), but this closure declares "),
                Piece::Count(declares),
            ],
            Problem::ClosureMayNotReturn { ty } => seq![
                Piece::Text("this closure must return `"),
                Piece::Ty(ty),
                Piece::Text("` on every path, and this body can finish without returning; a bare expression is a statement, so write `return <value>`"),
            ],
            Problem::FunctionValueMismatch { function, expected } => seq![
                Piece::Text("function `"),
                Piece::Function(function),
                Piece::Text("` has type `"),
                Piece::FunctionType(function),
                Piece::Text("`, which does not match expected `"),
                Piece::Ty(expected),
                Piece::Text("`"),
            ],
            Problem::FunctionValueUnexpected { function, expected } => seq![
                Piece::Text("function `"),
                Piece::Function(function),
                Piece::Text("` is a function value, but `"),
                Piece::Ty(expected),
                Piece::Text("` is expected here"),
            ],
            Problem::CallArity { callee, takes, found } => seq![
                Piece::Text("`"),
                Piece::Callee(callee),
                Piece::Text("` takes "),
                Piece::Count(takes),
                Piece::Text(" argument(s), found "),
                Piece::Count(found),
            ],
            Problem::ArgumentMismatch { callee, place, expected, found } => seq![
                Piece::Text("argument "),
                Piece::Count(place),
                Piece::Text(" of `"),
                Piece::Callee(callee),
                Piece::Text("` expects `"),
                Piece::Ty(expected),
                Piece::Text("`, found `"),
                Piece::Ty(found),
                Piece::Text("`"),
            ],
            Problem::FamilyAlreadyDefined { family } => seq![
                Piece::Text("construct family `"),
                Piece::Name(family),
                Piece::Text("` is already defined"),
            ],
            Problem::FamilyTypeAlreadyDefined { family } => seq![
                Piece::Text("construct family type `Any "),
                Piece::Name(family),
                Piece::Text("` is already defined"),
            ],
            Problem::RequiredMemberNeedsType { member } => seq![
                Piece::Text("required construct-family member `"),
                Piece::Name(member),
                Piece::Text("` must declare its type"),
            ],
            Problem::FamilyMemberRepeated { family, member } => seq![
                Piece::Text("construct family `"),
                Piece::Name(family),
                Piece::Text("` already declares a member `"),
                Piece::Name(member),
                Piece::Text("`: a family member is one obligation per name, so it is not overloadable"),
            ],
            Problem::FamilyExtendsItself { family } => seq![
                Piece::Text("construct family `"),
                Piece::Name(family),
                Piece::Text("` extends itself"),
            ],
            Problem::ExtendsNoFamily { family, parent } => seq![
                Piece::Text("`"),
                Piece::Name(family),
                Piece::Text("` extends `"),
                Piece::Name(parent),
                Piece::Text("`, which is not a construct family in scope"),
            ],
            Problem::FamilyExtendsTwice { family, parent } => seq![
                Piece::Text("construct family `"),
                Piece::Name(family),
                Piece::Text("` extends `"),
                Piece::Name(parent),
                Piece::Text("` more than once"),
            ],
            Problem::FamilyCycle { family } => seq![
                Piece::Text("construct family `"),
                Piece::Name(family),
                Piece::Text("` inherits from itself through a cycle"),
            ],
            Problem::ConstructMemberRepeated { member } => seq![
                Piece::Text("construct member `"),
                Piece::Name(member),
                Piece::Text("` is declared more than once"),
            ],
            Problem::ConstructMethodRepeated { member } => seq![
                Piece::Text("construct member `"),
                Piece::Name(member),
                Piece::Text("` is declared more than once with these parameters"),
            ],
            Problem::RequirementInBacked { declaration, family, member } => seq![
                Piece::Text("`"),
                Piece::Name(declaration),
                Piece::Text("` is a declaration backed by `"),
                Piece::Name(family),
                Piece::Text("`, so `"),
                Piece::Name(member),
                Piece::Text("` implements a requirement rather than declaring one; write it as an ordinary `function` member with a body"),
            ],
            Problem::UnknownFamily { declaration, family } => seq![
                Piece::Text("`"),
                Piece::Name(declaration),
                Piece::Text("` is backed by unknown construct family `"),
                Piece::Name(family),
                Piece::Text("`"),
            ],
            Problem::SlotNeedsType { slot } => seq![
                Piece::Text("child slot `"),
                Piece::Name(slot),
                Piece::Text("` must declare its element type"),
            ],
            Problem::InheritedSlotNeedsType { slot, family } => seq![
                Piece::Text("child slot `"),
                Piece::Name(slot),
                Piece::Text("` inherited from `"),
                Piece::Name(family),
                Piece::Text("` must declare its element type"),
            ],
            Problem::DeferredMember { label } => seq![
                Piece::Name(label),
                Piece::Text(" is not executable yet in a construct; the executable slice supports `@Required let`, `@Required function`, stored and computed `let` members, `body { … }`, `function`/`@Consuming function` members, and `some X` / `[some X]` child slots"),
            ],
            Problem::ConstructAlreadyDefined { declaration } => seq![
                Piece::Text("`"),
                Piece::Name(declaration),
                Piece::Text("` is already defined"),
            ],
            Problem::NoFamilyMethod { family, method } => seq![
                Piece::Text("construct family `"),
                Piece::Ty(family),
                Piece::Text("` has no method `"),
                Piece::Name(method),
                Piece::Text("`"),
            ],
            Problem::FamilyCallHasNoType { family, method } => seq![
                Piece::Text("`"),
                Piece::Ty(family),
                Piece::Text("` declares `"),
                Piece::Name(method),
                Piece::Text("` without a result type, so a call through the family value has no type; give the requirement a result type, or call `"),
                Piece::Name(method),
                Piece::Text("` on the concrete declaration"),
            ],
            Problem::TakesNoContent { callee } => seq![
                Piece::Text("`"),
                Piece::Callee(callee),
                Piece::Text("` takes no trailing content; give it a last parameter of                              `some X` for one child or `[some X]` for a list of them"),
            ],
            Problem::VariantLacksMethod { declaration, family, method } => seq![
                Piece::Text("`"),
                Piece::Name(declaration),
                Piece::Text("` does not implement `"),
                Piece::Name(method),
                Piece::Text("` required by construct family `"),
                Piece::Name(family),
                Piece::Text("`"),
            ],
            Problem::VariantSignature { declaration, family, method } => seq![
                Piece::Text("`"),
                Piece::Name(declaration),
                Piece::Text("."),
                Piece::Name(method),
                Piece::Text("` does not match the signature of `"),
                Piece::Name(family),
                Piece::Text("."),
                Piece::Name(method),
                Piece::Text("`"),
            ],
            Problem::VariantReceiver { declaration, family, method } => seq![
                Piece::Text("`"),
                Piece::Name(declaration),
                Piece::Text("."),
                Piece::Name(method),
                Piece::Text("` has a receiver mode different from `"),
                Piece::Name(family),
                Piece::Text("."),
                Piece::Name(method),
                Piece::Text("`; both must use the same `borrow mut self` declaration"),
            ],
            Problem::NoSuchInput { construct, label } => seq![
                Piece::Text("`"),
                Piece::Ty(Type::Struct(construct)),
                Piece::Text("` has no construction input named `"),
                Piece::Name(label),
                Piece::Text("`"),
            ],
            Problem::TooManyInputs { construct, takes } => seq![
                Piece::Text("`"),
                Piece::Ty(Type::Struct(construct)),
                Piece::Text("` takes "),
                Piece::Count(takes),
                Piece::Text(" construction input(s), found more"),
            ],
            Problem::InputSetTwice { construct, field } => seq![
                Piece::Text("construction input `"),
                Piece::Field(field),
                Piece::Text("` of `"),
                Piece::Ty(Type::Struct(construct)),
                Piece::Text("` is set more than once"),
            ],
            Problem::InputMismatch { construct, field, expected, found } => seq![
                Piece::Text("construction input `"),
                Piece::Field(field),
                Piece::Text("` of `"),
                Piece::Ty(Type::Struct(construct)),
                Piece::Text("` expects `"),
                Piece::Ty(expected),
                Piece::Text("`, found `"),
                Piece::Ty(found),
                Piece::Text("`"),
            ],
            Problem::MemberDefaultMismatch { construct, field, expected, found } => seq![
                Piece::Text("construct member `"),
                Piece::Field(field),
                Piece::Text("` of `"),
                Piece::Ty(Type::Struct(construct)),
                Piece::Text("` expects `"),
                Piece::Ty(expected),
                Piece::Text("`, found `"),
                Piece::Ty(found),
                Piece::Text("`"),
            ],
            Problem::MissingInput { construct, field } => seq![
                Piece::Text("construction of `"),
                Piece::Ty(Type::Struct(construct)),
                Piece::Text("` is missing input `"),
                Piece::Field(field),
                Piece::Text("`"),
            ],
            Problem::EndlessMemberDefault => seq![
                Piece::Text("construct member defaults recursively construct each other and have no finite value"),
            ],
            Problem::NoChildSlot { construct } => seq![
                Piece::Text("`"),
                Piece::Ty(Type::Struct(construct)),
                Piece::Text("` declares no child slot, so it takes no trailing child content"),
            ],
            Problem::SlotFilledTwice { construct, slot } => seq![
                Piece::Text("child slot `"),
                Piece::Name(slot),
                Piece::Text("` of `"),
                Piece::Ty(Type::Struct(construct)),
                Piece::Text("` is filled more than once"),
            ],
            Problem::BuilderInSingleSlot { construct, slot } => seq![
                Piece::Text("child slot `"),
                Piece::Name(slot),
                Piece::Text("` of `"),
                Piece::Ty(Type::Struct(construct)),
                Piece::Text("` holds exactly one child; a `For`/`if` builder fills only a list slot (`[some X]`)"),
            ],
            Problem::SlotHoldsOne { construct, slot, found } => seq![
                Piece::Text("child slot `"),
                Piece::Name(slot),
                Piece::Text("` of `"),
                Piece::Ty(Type::Struct(construct)),
                Piece::Text("` holds exactly one child, found "),
                Piece::Count(found),
            ],
            Problem::FillMismatch { construct, slot, expected, found } => seq![
                Piece::Text("child slot `"),
                Piece::Name(slot),
                Piece::Text("` of `"),
                Piece::Ty(Type::Struct(construct)),
                Piece::Text("` holds `"),
                Piece::Ty(expected),
                Piece::Text("`, but this fill is `"),
                Piece::Ty(found),
                Piece::Text("`"),
            ],
            Problem::ChildMismatch { construct, slot, expected, found } => seq![
                Piece::Text("child slot `"),
                Piece::Name(slot),
                Piece::Text("` of `"),
                Piece::Ty(Type::Struct(construct)),
                Piece::Text("` holds `"),
                Piece::Ty(expected),
                Piece::Text("`, but this child is `"),
                Piece::Ty(found),
                Piece::Text("`"),
            ],
            Problem::ContentHoldsOne { found } => seq![
                Piece::Text("this `init` takes exactly one child, found "),
                Piece::Count(found),
                Piece::Text("; a `[some X]` parameter takes a list of them"),
            ],
            Problem::ContentNotLast => seq![
                Piece::Text("an `init` takes content in its last parameter only: the children are written after every argument, so one `some X` parameter can hold them"),
            ],
            Problem::InitShadowsHeader { construct } => seq![
                Piece::Text("this `init` takes what `"),
                Piece::Ty(Type::Struct(construct)),
                Piece::Text("` already takes between its parentheses, so a construction fits both"),
            ],
            Problem::UpdateNeedsField => seq![
                Piece::Text("a construct update override must name a field"),
            ],
            Problem::UpdateEmptyPath => seq![
                Piece::Text("a construct update override needs a non-empty field path"),
            ],
            Problem::UpdateMismatch { field, expected, found } => seq![
                Piece::Text("construct update field `"),
                Piece::Field(field),
                Piece::Text("` expects `"),
                Piece::Ty(expected),
                Piece::Text("`, found `"),
                Piece::Ty(found),
                Piece::Text("`"),
            ],
            Problem::UpdatePathsOverlap { left, right } => seq![
                Piece::Text("construct update paths `"),
                Piece::PathFrom { label: left, from: 0 },
                Piece::Text("` and `"),
                Piece::PathFrom { label: right, from: 0 },
                Piece::Text("` overlap"),
            ],
            Problem::UpdateNeedsConstruct => seq![
                Piece::Text("a braced construct update needs a concrete construct-backed value"),
            ],
            Problem::UpdateNoPath { ty, label, from } => seq![
                Piece::Text("construct update type `"),
                Piece::Ty(ty),
                Piece::Text("` has no field path `"),
                Piece::PathFrom { label: label, from: from },
                Piece::Text("`"),
            ],
            Problem::UpdateCannotDescend { ty, label, from } => seq![
                Piece::Text("construct update path `"),
                Piece::PathFrom { label: label, from: from },
                Piece::Text("` cannot descend through `"),
                Piece::Ty(ty),
                Piece::Text("`"),
            ],
            Problem::ExtendsNothing { name } => seq![
                Piece::Text("`extend` names no construct family or class `"),
                Piece::Name(name),
                Piece::Text("`"),
            ],
            Problem::ModifierTaken { family, method } => seq![
                Piece::Text("modifier `"),
                Piece::Name(method),
                Piece::Text("` is already a method of construct family `"),
                Piece::Name(family),
                Piece::Text("`"),
            ],
            Problem::ModifierIsEntrypoint => seq![
                Piece::Text("an entrypoint annotation cannot decorate an `extend` modifier: a modifier is called on a family value, so there is nothing for the operating system to start"),
            ],
            Problem::ModifierIsExported => seq![
                Piece::Text("`@Export` cannot annotate an `extend` modifier: a library exports free functions, and a modifier's receiver is the family value. Wrap it in an exported function."),
            ],
            Problem::ModifierIsForeign => seq![
                Piece::Text("`@FFI.Extern` cannot annotate an `extend` modifier: a foreign function is a C symbol with no Kira body, and a modifier is the body it was written as"),
            ],
            Problem::ModifierMayNotReturn { family, method } => seq![
                Piece::Text("modifier `Any "),
                Piece::Name(family),
                Piece::Text("."),
                Piece::Name(method),
                Piece::Text("` may finish without returning a value"),
            ],
            Problem::MemberTypeUnknown { member } => seq![
                Piece::Text("the type of stored construct member `"),
                Piece::Name(member),
                Piece::Text("` cannot be inferred"),
            ],
            Problem::MemberNeedsType { member } => seq![
                Piece::Text("stored construct member `"),
                Piece::Name(member),
                Piece::Text("` needs a type annotation or an initializer"),
            ],
            Problem::MemberMismatch { member, expected, found } => seq![
                Piece::Text("stored construct member `"),
                Piece::Name(member),
                Piece::Text("` expects `"),
                Piece::Ty(expected),
                Piece::Text("`, found `"),
                Piece::Ty(found),
                Piece::Text("`"),
            ],
            Problem::ArrayTypeUnknown => seq![
                Piece::Text("cannot tell what `[]` holds here; annotate the binding (`var xs: [Int] = []`)"),
            ],
            Problem::ArrayElementMismatch { element, found } => seq![
                Piece::Text("an array of `"),
                Piece::Ty(element),
                Piece::Text("` cannot hold an element of type `"),
                Piece::Ty(found),
                Piece::Text("` (Kira does not widen numbers)"),
            ],
            Problem::CannotIndex { ty } => seq![
                Piece::Text("cannot index a value of type `"),
                Piece::Ty(ty),
                Piece::Text("`; only an array can be indexed"),
            ],
            Problem::ForeignArrayIndexed { ty, field } => seq![
                Piece::Text("`"),
                Piece::Ty(ty),
                Piece::Text("` is `@FFI.Array`, whose elements live in its `"),
                Piece::Name(field),
                Piece::Text("` field: index that (`value."),
                Piece::Name(field),
                Piece::Text("[i]`)"),
            ],
            Problem::IndexNotInteger { found } => seq![
                Piece::Text("an array index must be an `Int`, found `"),
                Piece::Ty(found),
                Piece::Text("`"),
            ],
            Problem::AppendIsMethod => seq![
                Piece::Text("`append` is a method: write `xs.append(value)`"),
            ],
            Problem::CountIsProperty => seq![
                Piece::Text("`count` is a property: write `xs.count`, without parentheses"),
            ],
            Problem::NoArrayMember { member } => seq![
                Piece::Text("an array has no `"),
                Piece::Name(member),
                Piece::Text("`; an array has `.append(value)` and `.count`"),
            ],
            Problem::NoAppend { ty } => seq![
                Piece::Text("type `"),
                Piece::Ty(ty),
                Piece::Text("` has no method `append`"),
            ],
            Problem::AppendArity { found } => seq![
                Piece::Text("`append` takes exactly one argument, found "),
                Piece::Count(found),
            ],
            Problem::AppendMismatch { element, found } => seq![
                Piece::Text("cannot append a `"),
                Piece::Ty(found),
                Piece::Text("` to an array of `"),
                Piece::Ty(element),
                Piece::Text("`"),
            ],
            Problem::HasNoFields { ty, field } => seq![
                Piece::Text("type `"),
                Piece::Ty(ty),
                Piece::Text("` has no fields, so it has no field `"),
                Piece::Name(field),
                Piece::Text("`"),
            ],
            Problem::FunctionHasNoMembers { ty } => seq![
                Piece::Text("`"),
                Piece::Ty(ty),
                Piece::Text("` is a function; a function has no members, only a call"),
            ],
            Problem::NoSuchField { ty, field } => seq![
                Piece::Text("struct `"),
                Piece::Ty(ty),
                Piece::Text("` has no field `"),
                Piece::Name(field),
                Piece::Text("`"),
            ],
            Problem::MayNotReturn { function } => seq![
                Piece::Text("`"),
                Piece::Function(function),
                Piece::Text("` may finish without returning a value"),
            ],
            Problem::ConstructorArity { class, takes, found } => seq![
                Piece::Text("`"),
                Piece::Ty(Type::Struct(class)),
                Piece::Text("` takes "),
                Piece::Count(takes),
                Piece::Text(" constructor argument(s), found "),
                Piece::Count(found),
            ],
            Problem::ConstructorMismatch { class, place, expected, found } => seq![
                Piece::Text("constructor argument "),
                Piece::Count(place),
                Piece::Text(" of `"),
                Piece::Ty(Type::Struct(class)),
                Piece::Text("` expects `"),
                Piece::Ty(expected),
                Piece::Text("`, found `"),
                Piece::Ty(found),
                Piece::Text("`"),
            ],
            Problem::SlotHasNoValue { class, slot } => seq![
                Piece::Text("field "),
                Piece::Count(slot as usize),
                Piece::Text(" of `"),
                Piece::Ty(Type::Struct(class)),
                Piece::Text("` has no value and no default"),
            ],
            Problem::CannotQualifyHere { parent } => seq![
                Piece::Text("`"),
                Piece::Name(parent),
                Piece::Text("` can only qualify a member inside a method of a class that inherits from it"),
            ],
            Problem::DoesNotInherit { class, parent } => seq![
                Piece::Text("`"),
                Piece::Ty(Type::Struct(class)),
                Piece::Text("` does not inherit from `"),
                Piece::Name(parent),
                Piece::Text("`"),
            ],
            Problem::NoMethodToQualify { parent, method } => seq![
                Piece::Text("`"),
                Piece::Ty(Type::Struct(parent)),
                Piece::Text("` has no method `"),
                Piece::Name(method),
                Piece::Text("` to qualify"),
            ],
            Problem::NoFieldToQualify { parent, field } => seq![
                Piece::Text("`"),
                Piece::Ty(Type::Struct(parent)),
                Piece::Text("` has no field `"),
                Piece::Name(field),
                Piece::Text("` to qualify"),
            ],
            Problem::RedeclaredArity { family, parent, member, takes, promised } => seq![
                Piece::Text("`"),
                Piece::Name(family),
                Piece::Text("` redeclares `"),
                Piece::Name(member),
                Piece::Text("` with "),
                Piece::Count(takes),
                Piece::Text(" parameter(s), and `"),
                Piece::Name(parent),
                Piece::Text("` declares it with "),
                Piece::Count(promised),
            ],
            Problem::RedeclaredParameter { parent, member, place, ty, promised } => seq![
                Piece::Text("parameter "),
                Piece::Count(place),
                Piece::Text(" of `"),
                Piece::Name(member),
                Piece::Text("` is `"),
                Piece::Ty(ty),
                Piece::Text("` here and `"),
                Piece::Ty(promised),
                Piece::Text("` in `"),
                Piece::Name(parent),
                Piece::Text("`; a child may make a result more specific but must accept everything the family it extends accepts"),
            ],
            Problem::RedeclaredResult { parent, member, ty, promised } => seq![
                Piece::Text("`"),
                Piece::Name(member),
                Piece::Text("` returns `"),
                Piece::Ty(ty),
                Piece::Text("` here and `"),
                Piece::Ty(promised),
                Piece::Text("` in `"),
                Piece::Name(parent),
                Piece::Text("`; a child may only make a result more specific"),
            ],
            Problem::RedeclaredMember { parent, member, ty, promised } => seq![
                Piece::Text("`"),
                Piece::Name(member),
                Piece::Text("` is `"),
                Piece::Ty(ty),
                Piece::Text("` here and `"),
                Piece::Ty(promised),
                Piece::Text("` in `"),
                Piece::Name(parent),
                Piece::Text("`; a child may only make a member more specific"),
            ],
        }
    }

    /// What is said of the problem.
    pub fn message(&self) -> (pieces: Vec<Piece>)
        ensures
            pieces@ == self.pieces(),
    {
        match self {
            Problem::ConstantCycle { members } => cycle_message(members),
            Problem::AmbiguousMethod { method, owners } => ambiguity_message(*method, owners, true),
            Problem::AmbiguousField { field, owners } => ambiguity_message(*field, owners, false),
            Problem::AlreadyDefined { function, is_method } => if *is_method {
                vec![
                    Piece::Text("`"),
                    Piece::Function(*function),
                    Piece::Text("` is already defined with these parameters"),
                ]
            } else {
                vec![
                    Piece::Text("function `"),
                    Piece::Function(*function),
                    Piece::Text("` is already defined with these parameters"),
                ]
            },
            Problem::ClosureNeedsFunctionType { expected } => match expected {
                Some(ty) => vec![
                    Piece::Text("a closure needs a function type to check against, but `"),
                    Piece::Ty(*ty),
                    Piece::Text("` is expected here"),
                ],
                None => vec![
                    Piece::Text(
                        "a closure needs a function type to check against, but nothing here says what its parameters are",
                    ),
                ],
            },
            Problem::ConstantIsFunction { constant } => vec![
                Piece::Text("constant `"),
                Piece::Name(*constant),
                Piece::Text("` collides with the function of the same name: constants and functions share one value namespace"),
            ],
            Problem::ConstantAlreadyDefined { constant } => vec![
                Piece::Text("constant `"),
                Piece::Name(*constant),
                Piece::Text("` is already defined"),
            ],
            Problem::BindingMismatch { annotation, found } => vec![
                Piece::Text("binding annotated `"),
                Piece::Ty(*annotation),
                Piece::Text("` cannot hold a value of type `"),
                Piece::Ty(*found),
                Piece::Text("`"),
            ],
            Problem::ConstantRunsDrop { ty } => vec![
                Piece::Text("a module constant cannot hold `"),
                Piece::Ty(*ty),
                Piece::Text("`: its value is shared by every reader, and a `Drop` value has exactly one owner"),
            ],
            Problem::AliasTargetMissing => vec![
                Piece::Text("`@FFI.Alias` is missing its required `target` type"),
            ],
            Problem::AliasCollides { alias, with } => vec![
                Piece::Text("type alias `"),
                Piece::Name(*alias),
                Piece::Text("` collides with "),
                Piece::Clash(*with),
                Piece::Name(*alias),
                Piece::Text("`"),
            ],
            Problem::AliasCycle { alias } => vec![
                Piece::Text("type alias `"),
                Piece::Name(*alias),
                Piece::Text("` resolves back to itself; break the cycle so every `type Name = Target` chain reaches a concrete target type"),
            ],
            Problem::InheritsFromItself { class } => vec![
                Piece::Text("class `"),
                Piece::Name(*class),
                Piece::Text("` inherits from itself through its parents"),
            ],
            Problem::FieldAlreadyInherited { field } => vec![
                Piece::Text("`"),
                Piece::Name(*field),
                Piece::Text("` is already inherited; write `override let "),
                Piece::Name(*field),
                Piece::Text(" = ...` to give it a new default"),
            ],
            Problem::OverrideRestatesType { field, written, inherited } => vec![
                Piece::Text("this `override` restates `"),
                Piece::Name(*field),
                Piece::Text("` as `"),
                Piece::Ty(*written),
                Piece::Text("`, but the inherited field is `"),
                Piece::Ty(*inherited),
                Piece::Text("`; an override keeps the type it rebinds"),
            ],
            Problem::OverridesNoField { field } => vec![
                Piece::Text("`"),
                Piece::Name(*field),
                Piece::Text("` overrides no inherited field"),
            ],
            Problem::OverrideIsAmbiguous { field } => vec![
                Piece::Text("`"),
                Piece::Name(*field),
                Piece::Text("` is inherited from several parents, so this override is ambiguous"),
            ],
            Problem::OverrideMustMatch { method, base } => vec![
                Piece::Text("`"),
                Piece::Name(*method),
                Piece::Text("` must match the signature it overrides from `"),
                Piece::Ty(Type::Struct(*base)),
                Piece::Text("`"),
            ],
            Problem::OverridesNoMethod { method } => vec![
                Piece::Text("`"),
                Piece::Name(*method),
                Piece::Text("` overrides no inherited method"),
            ],
            Problem::MethodAlreadyDeclared { class, method } => vec![
                Piece::Text("`"),
                Piece::Name(*class),
                Piece::Text("` already declares a method `"),
                Piece::Name(*method),
                Piece::Text("` taking these parameters"),
            ],
            Problem::ClassAlreadyDefined { class } => vec![
                Piece::Text("class `"),
                Piece::Name(*class),
                Piece::Text("` is already defined"),
            ],
            Problem::UnknownParent { parent } => vec![
                Piece::Text("unknown parent type `"),
                Piece::Name(*parent),
                Piece::Text("`"),
            ],
            Problem::ParentAlreadyNamed { parent } => vec![
                Piece::Text("`"),
                Piece::Name(*parent),
                Piece::Text("` is already a parent of this class"),
            ],
            Problem::NotAMethod { function } => vec![
                Piece::Text("`"),
                Piece::Function(*function),
                Piece::Text("` is not a method, so it has no receiver to borrow: a `self` parameter belongs to a declaration written inside a type"),
            ],
            Problem::CannotCopyParameter { param, ty, reason } => vec![
                Piece::Text("parameter `"),
                Piece::Name(*param),
                Piece::Text("` cannot be `copy "),
                Piece::Ty(*ty),
                Piece::Text("`: "),
                Piece::Name(*reason),
            ],
            Problem::EntrypointIsLifecycle => vec![
                Piece::Text("the entrypoint runs on the application thread, so it cannot also be `@MainThreadLifecycle`: declare the main-thread loop as its own function"),
            ],
            Problem::EntrypointIsMainThread => vec![
                Piece::Text("an entrypoint cannot also be `@MainThread`"),
            ],
            Problem::LifecycleTakesParameters => vec![
                Piece::Text("a `@MainThreadLifecycle` function must take no parameters: calling it starts an independent preserved stack and transfers no arguments"),
            ],
            Problem::LifecycleReturnsValue => vec![
                Piece::Text("a `@MainThreadLifecycle` function must return `Void`: its call starts the lifecycle and does not wait for its eventual result"),
            ],
            Problem::NoMainThread => vec![
                Piece::Text("a main-thread annotation requires an operating-system main thread and is unavailable on WebAssembly"),
            ],
            Problem::SecondEntrypoint => vec![
                Piece::Text("a program may declare only one `@Main` entrypoint"),
            ],
            Problem::NoEntrypoint => vec![
                Piece::Text("program has no `@Main` function to run"),
            ],
            Problem::EntrypointTakesParameters => vec![
                Piece::Text("`@Main` must take no parameters"),
            ],
            Problem::LibraryHasEntrypoint => vec![
                Piece::Text("a library package cannot declare `@Main`: a library is entered by its consumer, not run"),
            ],
            Problem::EndlessParameterDefault => vec![
                Piece::Text("parameter defaults fill each other through the call graph and have no finite value"),
            ],
            Problem::LiteralDoesNotFit { value, spelling } => vec![
                Piece::Text("the literal `"),
                Piece::Number(*value),
                Piece::Text("` does not fit `"),
                Piece::Ty(Type::Int(*spelling)),
                Piece::Text("`"),
            ],
            Problem::CaptureHasNoSharedForm { name, ty } => vec![
                Piece::Text("closure captures `"),
                Piece::Name(*name),
                Piece::Text("`, which is declared `var` and cannot be moved into shared storage; a closure shares a captured `var` with the scope that declared it, and a value of type `"),
                Piece::Ty(*ty),
                Piece::Text("` has no shared form"),
            ],
            Problem::CaptureRunsDrop { name, ty } => vec![
                Piece::Text("closure captures `"),
                Piece::Name(*name),
                Piece::Text("`, which is a `"),
                Piece::Ty(*ty),
                Piece::Text("` and runs a user `Drop` body: a captured `var` is shared with the scope that declared it, and every read out of that share is a second value with the same body to run. Keep the value in its scope and capture what the closure needs from it."),
            ],
            Problem::CaptureNotCopyable { name, ty } => vec![
                Piece::Text("closure captures `"),
                Piece::Name(*name),
                Piece::Text("` of type `"),
                Piece::Ty(*ty),
                Piece::Text("`, which is not trivially copyable"),
            ],
            Problem::ClosureArity { expected, takes, declares } => vec![
                Piece::Text("`"),
                Piece::Ty(*expected),
                Piece::Text("` takes "),
                Piece::Count(*takes),
                Piece::Text(" parameter(s), but this closure declares "),
                Piece::Count(*declares),
            ],
            Problem::ClosureMayNotReturn { ty } => vec![
                Piece::Text("this closure must return `"),
                Piece::Ty(*ty),
                Piece::Text("` on every path, and this body can finish without returning; a bare expression is a statement, so write `return <value>`"),
            ],
            Problem::FunctionValueMismatch { function, expected } => vec![
                Piece::Text("function `"),
                Piece::Function(*function),
                Piece::Text("` has type `"),
                Piece::FunctionType(*function),
                Piece::Text("`, which does not match expected `"),
                Piece::Ty(*expected),
                Piece::Text("`"),
            ],
            Problem::FunctionValueUnexpected { function, expected } => vec![
                Piece::Text("function `"),
                Piece::Function(*function),
                Piece::Text("` is a function value, but `"),
                Piece::Ty(*expected),
                Piece::Text("` is expected here"),
            ],
            Problem::CallArity { callee, takes, found } => vec![
                Piece::Text("`"),
                Piece::Callee(*callee),
                Piece::Text("` takes "),
                Piece::Count(*takes),
                Piece::Text(" argument(s), found "),
                Piece::Count(*found),
            ],
            Problem::ArgumentMismatch { callee, place, expected, found } => vec![
                Piece::Text("argument "),
                Piece::Count(*place),
                Piece::Text(" of `"),
                Piece::Callee(*callee),
                Piece::Text("` expects `"),
                Piece::Ty(*expected),
                Piece::Text("`, found `"),
                Piece::Ty(*found),
                Piece::Text("`"),
            ],
            Problem::FamilyAlreadyDefined { family } => vec![
                Piece::Text("construct family `"),
                Piece::Name(*family),
                Piece::Text("` is already defined"),
            ],
            Problem::FamilyTypeAlreadyDefined { family } => vec![
                Piece::Text("construct family type `Any "),
                Piece::Name(*family),
                Piece::Text("` is already defined"),
            ],
            Problem::RequiredMemberNeedsType { member } => vec![
                Piece::Text("required construct-family member `"),
                Piece::Name(*member),
                Piece::Text("` must declare its type"),
            ],
            Problem::FamilyMemberRepeated { family, member } => vec![
                Piece::Text("construct family `"),
                Piece::Name(*family),
                Piece::Text("` already declares a member `"),
                Piece::Name(*member),
                Piece::Text("`: a family member is one obligation per name, so it is not overloadable"),
            ],
            Problem::FamilyExtendsItself { family } => vec![
                Piece::Text("construct family `"),
                Piece::Name(*family),
                Piece::Text("` extends itself"),
            ],
            Problem::ExtendsNoFamily { family, parent } => vec![
                Piece::Text("`"),
                Piece::Name(*family),
                Piece::Text("` extends `"),
                Piece::Name(*parent),
                Piece::Text("`, which is not a construct family in scope"),
            ],
            Problem::FamilyExtendsTwice { family, parent } => vec![
                Piece::Text("construct family `"),
                Piece::Name(*family),
                Piece::Text("` extends `"),
                Piece::Name(*parent),
                Piece::Text("` more than once"),
            ],
            Problem::FamilyCycle { family } => vec![
                Piece::Text("construct family `"),
                Piece::Name(*family),
                Piece::Text("` inherits from itself through a cycle"),
            ],
            Problem::ConstructMemberRepeated { member } => vec![
                Piece::Text("construct member `"),
                Piece::Name(*member),
                Piece::Text("` is declared more than once"),
            ],
            Problem::ConstructMethodRepeated { member } => vec![
                Piece::Text("construct member `"),
                Piece::Name(*member),
                Piece::Text("` is declared more than once with these parameters"),
            ],
            Problem::RequirementInBacked { declaration, family, member } => vec![
                Piece::Text("`"),
                Piece::Name(*declaration),
                Piece::Text("` is a declaration backed by `"),
                Piece::Name(*family),
                Piece::Text("`, so `"),
                Piece::Name(*member),
                Piece::Text("` implements a requirement rather than declaring one; write it as an ordinary `function` member with a body"),
            ],
            Problem::UnknownFamily { declaration, family } => vec![
                Piece::Text("`"),
                Piece::Name(*declaration),
                Piece::Text("` is backed by unknown construct family `"),
                Piece::Name(*family),
                Piece::Text("`"),
            ],
            Problem::SlotNeedsType { slot } => vec![
                Piece::Text("child slot `"),
                Piece::Name(*slot),
                Piece::Text("` must declare its element type"),
            ],
            Problem::InheritedSlotNeedsType { slot, family } => vec![
                Piece::Text("child slot `"),
                Piece::Name(*slot),
                Piece::Text("` inherited from `"),
                Piece::Name(*family),
                Piece::Text("` must declare its element type"),
            ],
            Problem::DeferredMember { label } => vec![
                Piece::Name(*label),
                Piece::Text(" is not executable yet in a construct; the executable slice supports `@Required let`, `@Required function`, stored and computed `let` members, `body { … }`, `function`/`@Consuming function` members, and `some X` / `[some X]` child slots"),
            ],
            Problem::ConstructAlreadyDefined { declaration } => vec![
                Piece::Text("`"),
                Piece::Name(*declaration),
                Piece::Text("` is already defined"),
            ],
            Problem::NoFamilyMethod { family, method } => vec![
                Piece::Text("construct family `"),
                Piece::Ty(*family),
                Piece::Text("` has no method `"),
                Piece::Name(*method),
                Piece::Text("`"),
            ],
            Problem::FamilyCallHasNoType { family, method } => vec![
                Piece::Text("`"),
                Piece::Ty(*family),
                Piece::Text("` declares `"),
                Piece::Name(*method),
                Piece::Text("` without a result type, so a call through the family value has no type; give the requirement a result type, or call `"),
                Piece::Name(*method),
                Piece::Text("` on the concrete declaration"),
            ],
            Problem::TakesNoContent { callee } => vec![
                Piece::Text("`"),
                Piece::Callee(*callee),
                Piece::Text("` takes no trailing content; give it a last parameter of                              `some X` for one child or `[some X]` for a list of them"),
            ],
            Problem::VariantLacksMethod { declaration, family, method } => vec![
                Piece::Text("`"),
                Piece::Name(*declaration),
                Piece::Text("` does not implement `"),
                Piece::Name(*method),
                Piece::Text("` required by construct family `"),
                Piece::Name(*family),
                Piece::Text("`"),
            ],
            Problem::VariantSignature { declaration, family, method } => vec![
                Piece::Text("`"),
                Piece::Name(*declaration),
                Piece::Text("."),
                Piece::Name(*method),
                Piece::Text("` does not match the signature of `"),
                Piece::Name(*family),
                Piece::Text("."),
                Piece::Name(*method),
                Piece::Text("`"),
            ],
            Problem::VariantReceiver { declaration, family, method } => vec![
                Piece::Text("`"),
                Piece::Name(*declaration),
                Piece::Text("."),
                Piece::Name(*method),
                Piece::Text("` has a receiver mode different from `"),
                Piece::Name(*family),
                Piece::Text("."),
                Piece::Name(*method),
                Piece::Text("`; both must use the same `borrow mut self` declaration"),
            ],
            Problem::NoSuchInput { construct, label } => vec![
                Piece::Text("`"),
                Piece::Ty(Type::Struct(*construct)),
                Piece::Text("` has no construction input named `"),
                Piece::Name(*label),
                Piece::Text("`"),
            ],
            Problem::TooManyInputs { construct, takes } => vec![
                Piece::Text("`"),
                Piece::Ty(Type::Struct(*construct)),
                Piece::Text("` takes "),
                Piece::Count(*takes),
                Piece::Text(" construction input(s), found more"),
            ],
            Problem::InputSetTwice { construct, field } => vec![
                Piece::Text("construction input `"),
                Piece::Field(*field),
                Piece::Text("` of `"),
                Piece::Ty(Type::Struct(*construct)),
                Piece::Text("` is set more than once"),
            ],
            Problem::InputMismatch { construct, field, expected, found } => vec![
                Piece::Text("construction input `"),
                Piece::Field(*field),
                Piece::Text("` of `"),
                Piece::Ty(Type::Struct(*construct)),
                Piece::Text("` expects `"),
                Piece::Ty(*expected),
                Piece::Text("`, found `"),
                Piece::Ty(*found),
                Piece::Text("`"),
            ],
            Problem::MemberDefaultMismatch { construct, field, expected, found } => vec![
                Piece::Text("construct member `"),
                Piece::Field(*field),
                Piece::Text("` of `"),
                Piece::Ty(Type::Struct(*construct)),
                Piece::Text("` expects `"),
                Piece::Ty(*expected),
                Piece::Text("`, found `"),
                Piece::Ty(*found),
                Piece::Text("`"),
            ],
            Problem::MissingInput { construct, field } => vec![
                Piece::Text("construction of `"),
                Piece::Ty(Type::Struct(*construct)),
                Piece::Text("` is missing input `"),
                Piece::Field(*field),
                Piece::Text("`"),
            ],
            Problem::EndlessMemberDefault => vec![
                Piece::Text("construct member defaults recursively construct each other and have no finite value"),
            ],
            Problem::NoChildSlot { construct } => vec![
                Piece::Text("`"),
                Piece::Ty(Type::Struct(*construct)),
                Piece::Text("` declares no child slot, so it takes no trailing child content"),
            ],
            Problem::SlotFilledTwice { construct, slot } => vec![
                Piece::Text("child slot `"),
                Piece::Name(*slot),
                Piece::Text("` of `"),
                Piece::Ty(Type::Struct(*construct)),
                Piece::Text("` is filled more than once"),
            ],
            Problem::BuilderInSingleSlot { construct, slot } => vec![
                Piece::Text("child slot `"),
                Piece::Name(*slot),
                Piece::Text("` of `"),
                Piece::Ty(Type::Struct(*construct)),
                Piece::Text("` holds exactly one child; a `For`/`if` builder fills only a list slot (`[some X]`)"),
            ],
            Problem::SlotHoldsOne { construct, slot, found } => vec![
                Piece::Text("child slot `"),
                Piece::Name(*slot),
                Piece::Text("` of `"),
                Piece::Ty(Type::Struct(*construct)),
                Piece::Text("` holds exactly one child, found "),
                Piece::Count(*found),
            ],
            Problem::FillMismatch { construct, slot, expected, found } => vec![
                Piece::Text("child slot `"),
                Piece::Name(*slot),
                Piece::Text("` of `"),
                Piece::Ty(Type::Struct(*construct)),
                Piece::Text("` holds `"),
                Piece::Ty(*expected),
                Piece::Text("`, but this fill is `"),
                Piece::Ty(*found),
                Piece::Text("`"),
            ],
            Problem::ChildMismatch { construct, slot, expected, found } => vec![
                Piece::Text("child slot `"),
                Piece::Name(*slot),
                Piece::Text("` of `"),
                Piece::Ty(Type::Struct(*construct)),
                Piece::Text("` holds `"),
                Piece::Ty(*expected),
                Piece::Text("`, but this child is `"),
                Piece::Ty(*found),
                Piece::Text("`"),
            ],
            Problem::ContentHoldsOne { found } => vec![
                Piece::Text("this `init` takes exactly one child, found "),
                Piece::Count(*found),
                Piece::Text("; a `[some X]` parameter takes a list of them"),
            ],
            Problem::ContentNotLast => vec![
                Piece::Text("an `init` takes content in its last parameter only: the children are written after every argument, so one `some X` parameter can hold them"),
            ],
            Problem::InitShadowsHeader { construct } => vec![
                Piece::Text("this `init` takes what `"),
                Piece::Ty(Type::Struct(*construct)),
                Piece::Text("` already takes between its parentheses, so a construction fits both"),
            ],
            Problem::UpdateNeedsField => vec![
                Piece::Text("a construct update override must name a field"),
            ],
            Problem::UpdateEmptyPath => vec![
                Piece::Text("a construct update override needs a non-empty field path"),
            ],
            Problem::UpdateMismatch { field, expected, found } => vec![
                Piece::Text("construct update field `"),
                Piece::Field(*field),
                Piece::Text("` expects `"),
                Piece::Ty(*expected),
                Piece::Text("`, found `"),
                Piece::Ty(*found),
                Piece::Text("`"),
            ],
            Problem::UpdatePathsOverlap { left, right } => vec![
                Piece::Text("construct update paths `"),
                Piece::PathFrom { label: *left, from: 0 },
                Piece::Text("` and `"),
                Piece::PathFrom { label: *right, from: 0 },
                Piece::Text("` overlap"),
            ],
            Problem::UpdateNeedsConstruct => vec![
                Piece::Text("a braced construct update needs a concrete construct-backed value"),
            ],
            Problem::UpdateNoPath { ty, label, from } => vec![
                Piece::Text("construct update type `"),
                Piece::Ty(*ty),
                Piece::Text("` has no field path `"),
                Piece::PathFrom { label: *label, from: *from },
                Piece::Text("`"),
            ],
            Problem::UpdateCannotDescend { ty, label, from } => vec![
                Piece::Text("construct update path `"),
                Piece::PathFrom { label: *label, from: *from },
                Piece::Text("` cannot descend through `"),
                Piece::Ty(*ty),
                Piece::Text("`"),
            ],
            Problem::ExtendsNothing { name } => vec![
                Piece::Text("`extend` names no construct family or class `"),
                Piece::Name(*name),
                Piece::Text("`"),
            ],
            Problem::ModifierTaken { family, method } => vec![
                Piece::Text("modifier `"),
                Piece::Name(*method),
                Piece::Text("` is already a method of construct family `"),
                Piece::Name(*family),
                Piece::Text("`"),
            ],
            Problem::ModifierIsEntrypoint => vec![
                Piece::Text("an entrypoint annotation cannot decorate an `extend` modifier: a modifier is called on a family value, so there is nothing for the operating system to start"),
            ],
            Problem::ModifierIsExported => vec![
                Piece::Text("`@Export` cannot annotate an `extend` modifier: a library exports free functions, and a modifier's receiver is the family value. Wrap it in an exported function."),
            ],
            Problem::ModifierIsForeign => vec![
                Piece::Text("`@FFI.Extern` cannot annotate an `extend` modifier: a foreign function is a C symbol with no Kira body, and a modifier is the body it was written as"),
            ],
            Problem::ModifierMayNotReturn { family, method } => vec![
                Piece::Text("modifier `Any "),
                Piece::Name(*family),
                Piece::Text("."),
                Piece::Name(*method),
                Piece::Text("` may finish without returning a value"),
            ],
            Problem::MemberTypeUnknown { member } => vec![
                Piece::Text("the type of stored construct member `"),
                Piece::Name(*member),
                Piece::Text("` cannot be inferred"),
            ],
            Problem::MemberNeedsType { member } => vec![
                Piece::Text("stored construct member `"),
                Piece::Name(*member),
                Piece::Text("` needs a type annotation or an initializer"),
            ],
            Problem::MemberMismatch { member, expected, found } => vec![
                Piece::Text("stored construct member `"),
                Piece::Name(*member),
                Piece::Text("` expects `"),
                Piece::Ty(*expected),
                Piece::Text("`, found `"),
                Piece::Ty(*found),
                Piece::Text("`"),
            ],
            Problem::ArrayTypeUnknown => vec![
                Piece::Text("cannot tell what `[]` holds here; annotate the binding (`var xs: [Int] = []`)"),
            ],
            Problem::ArrayElementMismatch { element, found } => vec![
                Piece::Text("an array of `"),
                Piece::Ty(*element),
                Piece::Text("` cannot hold an element of type `"),
                Piece::Ty(*found),
                Piece::Text("` (Kira does not widen numbers)"),
            ],
            Problem::CannotIndex { ty } => vec![
                Piece::Text("cannot index a value of type `"),
                Piece::Ty(*ty),
                Piece::Text("`; only an array can be indexed"),
            ],
            Problem::ForeignArrayIndexed { ty, field } => vec![
                Piece::Text("`"),
                Piece::Ty(*ty),
                Piece::Text("` is `@FFI.Array`, whose elements live in its `"),
                Piece::Name(*field),
                Piece::Text("` field: index that (`value."),
                Piece::Name(*field),
                Piece::Text("[i]`)"),
            ],
            Problem::IndexNotInteger { found } => vec![
                Piece::Text("an array index must be an `Int`, found `"),
                Piece::Ty(*found),
                Piece::Text("`"),
            ],
            Problem::AppendIsMethod => vec![
                Piece::Text("`append` is a method: write `xs.append(value)`"),
            ],
            Problem::CountIsProperty => vec![
                Piece::Text("`count` is a property: write `xs.count`, without parentheses"),
            ],
            Problem::NoArrayMember { member } => vec![
                Piece::Text("an array has no `"),
                Piece::Name(*member),
                Piece::Text("`; an array has `.append(value)` and `.count`"),
            ],
            Problem::NoAppend { ty } => vec![
                Piece::Text("type `"),
                Piece::Ty(*ty),
                Piece::Text("` has no method `append`"),
            ],
            Problem::AppendArity { found } => vec![
                Piece::Text("`append` takes exactly one argument, found "),
                Piece::Count(*found),
            ],
            Problem::AppendMismatch { element, found } => vec![
                Piece::Text("cannot append a `"),
                Piece::Ty(*found),
                Piece::Text("` to an array of `"),
                Piece::Ty(*element),
                Piece::Text("`"),
            ],
            Problem::HasNoFields { ty, field } => vec![
                Piece::Text("type `"),
                Piece::Ty(*ty),
                Piece::Text("` has no fields, so it has no field `"),
                Piece::Name(*field),
                Piece::Text("`"),
            ],
            Problem::FunctionHasNoMembers { ty } => vec![
                Piece::Text("`"),
                Piece::Ty(*ty),
                Piece::Text("` is a function; a function has no members, only a call"),
            ],
            Problem::NoSuchField { ty, field } => vec![
                Piece::Text("struct `"),
                Piece::Ty(*ty),
                Piece::Text("` has no field `"),
                Piece::Name(*field),
                Piece::Text("`"),
            ],
            Problem::MayNotReturn { function } => vec![
                Piece::Text("`"),
                Piece::Function(*function),
                Piece::Text("` may finish without returning a value"),
            ],
            Problem::ConstructorArity { class, takes, found } => vec![
                Piece::Text("`"),
                Piece::Ty(Type::Struct(*class)),
                Piece::Text("` takes "),
                Piece::Count(*takes),
                Piece::Text(" constructor argument(s), found "),
                Piece::Count(*found),
            ],
            Problem::ConstructorMismatch { class, place, expected, found } => vec![
                Piece::Text("constructor argument "),
                Piece::Count(*place),
                Piece::Text(" of `"),
                Piece::Ty(Type::Struct(*class)),
                Piece::Text("` expects `"),
                Piece::Ty(*expected),
                Piece::Text("`, found `"),
                Piece::Ty(*found),
                Piece::Text("`"),
            ],
            Problem::SlotHasNoValue { class, slot } => vec![
                Piece::Text("field "),
                Piece::Count(*slot as usize),
                Piece::Text(" of `"),
                Piece::Ty(Type::Struct(*class)),
                Piece::Text("` has no value and no default"),
            ],
            Problem::CannotQualifyHere { parent } => vec![
                Piece::Text("`"),
                Piece::Name(*parent),
                Piece::Text("` can only qualify a member inside a method of a class that inherits from it"),
            ],
            Problem::DoesNotInherit { class, parent } => vec![
                Piece::Text("`"),
                Piece::Ty(Type::Struct(*class)),
                Piece::Text("` does not inherit from `"),
                Piece::Name(*parent),
                Piece::Text("`"),
            ],
            Problem::NoMethodToQualify { parent, method } => vec![
                Piece::Text("`"),
                Piece::Ty(Type::Struct(*parent)),
                Piece::Text("` has no method `"),
                Piece::Name(*method),
                Piece::Text("` to qualify"),
            ],
            Problem::NoFieldToQualify { parent, field } => vec![
                Piece::Text("`"),
                Piece::Ty(Type::Struct(*parent)),
                Piece::Text("` has no field `"),
                Piece::Name(*field),
                Piece::Text("` to qualify"),
            ],
            Problem::RedeclaredArity { family, parent, member, takes, promised } => vec![
                Piece::Text("`"),
                Piece::Name(*family),
                Piece::Text("` redeclares `"),
                Piece::Name(*member),
                Piece::Text("` with "),
                Piece::Count(*takes),
                Piece::Text(" parameter(s), and `"),
                Piece::Name(*parent),
                Piece::Text("` declares it with "),
                Piece::Count(*promised),
            ],
            Problem::RedeclaredParameter { parent, member, place, ty, promised } => vec![
                Piece::Text("parameter "),
                Piece::Count(*place),
                Piece::Text(" of `"),
                Piece::Name(*member),
                Piece::Text("` is `"),
                Piece::Ty(*ty),
                Piece::Text("` here and `"),
                Piece::Ty(*promised),
                Piece::Text("` in `"),
                Piece::Name(*parent),
                Piece::Text("`; a child may make a result more specific but must accept everything the family it extends accepts"),
            ],
            Problem::RedeclaredResult { parent, member, ty, promised } => vec![
                Piece::Text("`"),
                Piece::Name(*member),
                Piece::Text("` returns `"),
                Piece::Ty(*ty),
                Piece::Text("` here and `"),
                Piece::Ty(*promised),
                Piece::Text("` in `"),
                Piece::Name(*parent),
                Piece::Text("`; a child may only make a result more specific"),
            ],
            Problem::RedeclaredMember { parent, member, ty, promised } => vec![
                Piece::Text("`"),
                Piece::Name(*member),
                Piece::Text("` is `"),
                Piece::Ty(*ty),
                Piece::Text("` here and `"),
                Piece::Ty(*promised),
                Piece::Text("` in `"),
                Piece::Name(*parent),
                Piece::Text("`; a child may only make a member more specific"),
            ],
        }
    }
}

} // verus!
