//! The order the passes over a program run in: what is collected before what is
//! resolved, and what may only be checked once both are done.

use vstd::prelude::*;

verus! {

/// One pass over a program.
#[derive(Clone, Copy, PartialEq, Eq, Structural, Debug)]
pub enum Pass {
    /// Registers every alias, which resolves when it is first used.
    CollectTypeAliases,
    /// Registers traits from syntax alone: one type namespace means a type declared
    /// below may lose its name to one.
    CollectTraits,
    /// Names every enum, so that a struct field may name one.
    DeclareEnumHeaders,
    /// Names every construct family, for the same reason.
    CollectFamilyHeaders,
    /// Joins a parent family's surface to its children's before anything reads a
    /// family.
    InheritFamilies,
    /// Joins modifiers to the family they extend before its signatures resolve.
    CollectExtendBlocks,
    /// Names every class, so that a struct field may name one.
    DeclareClassHeaders,
    CollectStructs,
    /// Flattens classes once every struct they may extend exists.
    CollectClasses,
    /// Breaks by-value cycles, which may lead through both kinds.
    BreakValueCycles,
    /// Declares construct-backed types once every type they may name exists.
    CollectConstructs,
    /// Fills the enum headers, now that every type a payload may name has an id.
    ResolveEnumPayloads,
    /// Resolves conformances before callables are enumerated, because a default not
    /// written becomes a method.
    CollectConformances,
    /// Answers what may be copied once every reachable shape is known.
    CheckCopyDerives,
    /// Fixes the declared functions, and with them the first synthesized id.
    EnumerateCallables,
    CollectSignatures,
    RecordInitContent,
    /// Reserves one synthesized function per modifier, so that an uncalled one is still
    /// checked.
    ReserveExtendBodies,
    /// Decides which methods mutate their receiver before any body is analyzed.
    CollectMutatingMethods,
    CheckMethodSignatures,
    CheckTraitConformance,
    CheckMain,
    CheckExports,
    CollectForeign,
    /// Analyzes initializers, which may call anything a body may.
    CollectConstants,
    /// Infers stored members' types before any construction site reads them.
    ResolveConstructFieldTypes,
    /// Breaks the by-value cycles inference revealed.
    BreakInferredValueCycles,
    ResolveStructDefaults,
    ResolveParamDefaults,
    ResolveMethodDefaults,
    /// Analyzes bodies in the order of their signatures, which is what makes one id
    /// index both.
    AnalyzeBodies,
    /// Fills the reserved modifiers.
    BuildExtendMethods,
    /// Fills the reserved dispatchers.
    BuildConstructDispatchers,
    CheckEnumTerminates,
    FinalizeClosures,
    /// Orders constants once every body and synthesized function is final.
    OrderConstants,
    FinalizeNativeStateTypeIds,
}

impl Pass {
    /// Where the pass stands in the order.
    pub open spec fn place(self) -> int {
        match self {
            Pass::CollectTypeAliases => 0,
            Pass::CollectTraits => 1,
            Pass::DeclareEnumHeaders => 2,
            Pass::CollectFamilyHeaders => 3,
            Pass::InheritFamilies => 4,
            Pass::CollectExtendBlocks => 5,
            Pass::DeclareClassHeaders => 6,
            Pass::CollectStructs => 7,
            Pass::CollectClasses => 8,
            Pass::BreakValueCycles => 9,
            Pass::CollectConstructs => 10,
            Pass::ResolveEnumPayloads => 11,
            Pass::CollectConformances => 12,
            Pass::CheckCopyDerives => 13,
            Pass::EnumerateCallables => 14,
            Pass::CollectSignatures => 15,
            Pass::RecordInitContent => 16,
            Pass::ReserveExtendBodies => 17,
            Pass::CollectMutatingMethods => 18,
            Pass::CheckMethodSignatures => 19,
            Pass::CheckTraitConformance => 20,
            Pass::CheckMain => 21,
            Pass::CheckExports => 22,
            Pass::CollectForeign => 23,
            Pass::CollectConstants => 24,
            Pass::ResolveConstructFieldTypes => 25,
            Pass::BreakInferredValueCycles => 26,
            Pass::ResolveStructDefaults => 27,
            Pass::ResolveParamDefaults => 28,
            Pass::ResolveMethodDefaults => 29,
            Pass::AnalyzeBodies => 30,
            Pass::BuildExtendMethods => 31,
            Pass::BuildConstructDispatchers => 32,
            Pass::CheckEnumTerminates => 33,
            Pass::FinalizeClosures => 34,
            Pass::OrderConstants => 35,
            Pass::FinalizeNativeStateTypeIds => 36,
        }
    }
}

/// The pass every program starts with.
pub fn first_pass() -> (pass: Pass)
    ensures
        pass == Pass::CollectTypeAliases,
        pass.place() == 0,
{
    Pass::CollectTypeAliases
}

/// The pass that follows `pass`, `None` when the program is done. `reserved` and
/// `filled` are how many synthesized functions were reserved before the last round
/// of filling them and after it.
///
/// Filling one function can reserve another, so the two fill passes run until a
/// round reserves nothing new.
pub open spec fn follows(pass: Pass, reserved: usize, filled: usize) -> Option<Pass> {
    match pass {
        Pass::CollectTypeAliases => Some(Pass::CollectTraits),
        Pass::CollectTraits => Some(Pass::DeclareEnumHeaders),
        Pass::DeclareEnumHeaders => Some(Pass::CollectFamilyHeaders),
        Pass::CollectFamilyHeaders => Some(Pass::InheritFamilies),
        Pass::InheritFamilies => Some(Pass::CollectExtendBlocks),
        Pass::CollectExtendBlocks => Some(Pass::DeclareClassHeaders),
        Pass::DeclareClassHeaders => Some(Pass::CollectStructs),
        Pass::CollectStructs => Some(Pass::CollectClasses),
        Pass::CollectClasses => Some(Pass::BreakValueCycles),
        Pass::BreakValueCycles => Some(Pass::CollectConstructs),
        Pass::CollectConstructs => Some(Pass::ResolveEnumPayloads),
        Pass::ResolveEnumPayloads => Some(Pass::CollectConformances),
        Pass::CollectConformances => Some(Pass::CheckCopyDerives),
        Pass::CheckCopyDerives => Some(Pass::EnumerateCallables),
        Pass::EnumerateCallables => Some(Pass::CollectSignatures),
        Pass::CollectSignatures => Some(Pass::RecordInitContent),
        Pass::RecordInitContent => Some(Pass::ReserveExtendBodies),
        Pass::ReserveExtendBodies => Some(Pass::CollectMutatingMethods),
        Pass::CollectMutatingMethods => Some(Pass::CheckMethodSignatures),
        Pass::CheckMethodSignatures => Some(Pass::CheckTraitConformance),
        Pass::CheckTraitConformance => Some(Pass::CheckMain),
        Pass::CheckMain => Some(Pass::CheckExports),
        Pass::CheckExports => Some(Pass::CollectForeign),
        Pass::CollectForeign => Some(Pass::CollectConstants),
        Pass::CollectConstants => Some(Pass::ResolveConstructFieldTypes),
        Pass::ResolveConstructFieldTypes => Some(Pass::BreakInferredValueCycles),
        Pass::BreakInferredValueCycles => Some(Pass::ResolveStructDefaults),
        Pass::ResolveStructDefaults => Some(Pass::ResolveParamDefaults),
        Pass::ResolveParamDefaults => Some(Pass::ResolveMethodDefaults),
        Pass::ResolveMethodDefaults => Some(Pass::AnalyzeBodies),
        Pass::AnalyzeBodies => Some(Pass::BuildExtendMethods),
        Pass::BuildExtendMethods => Some(Pass::BuildConstructDispatchers),
        Pass::BuildConstructDispatchers => if reserved == filled {
            Some(Pass::CheckEnumTerminates)
        } else {
            Some(Pass::BuildExtendMethods)
        },
        Pass::CheckEnumTerminates => Some(Pass::FinalizeClosures),
        Pass::FinalizeClosures => Some(Pass::OrderConstants),
        Pass::OrderConstants => Some(Pass::FinalizeNativeStateTypeIds),
        Pass::FinalizeNativeStateTypeIds => None,
    }
}

/// The pass that follows `pass`.
pub fn next_pass(pass: Pass, reserved: usize, filled: usize) -> (next: Option<Pass>)
    ensures
        next == follows(pass, reserved, filled),
{
    match pass {
        Pass::CollectTypeAliases => Some(Pass::CollectTraits),
        Pass::CollectTraits => Some(Pass::DeclareEnumHeaders),
        Pass::DeclareEnumHeaders => Some(Pass::CollectFamilyHeaders),
        Pass::CollectFamilyHeaders => Some(Pass::InheritFamilies),
        Pass::InheritFamilies => Some(Pass::CollectExtendBlocks),
        Pass::CollectExtendBlocks => Some(Pass::DeclareClassHeaders),
        Pass::DeclareClassHeaders => Some(Pass::CollectStructs),
        Pass::CollectStructs => Some(Pass::CollectClasses),
        Pass::CollectClasses => Some(Pass::BreakValueCycles),
        Pass::BreakValueCycles => Some(Pass::CollectConstructs),
        Pass::CollectConstructs => Some(Pass::ResolveEnumPayloads),
        Pass::ResolveEnumPayloads => Some(Pass::CollectConformances),
        Pass::CollectConformances => Some(Pass::CheckCopyDerives),
        Pass::CheckCopyDerives => Some(Pass::EnumerateCallables),
        Pass::EnumerateCallables => Some(Pass::CollectSignatures),
        Pass::CollectSignatures => Some(Pass::RecordInitContent),
        Pass::RecordInitContent => Some(Pass::ReserveExtendBodies),
        Pass::ReserveExtendBodies => Some(Pass::CollectMutatingMethods),
        Pass::CollectMutatingMethods => Some(Pass::CheckMethodSignatures),
        Pass::CheckMethodSignatures => Some(Pass::CheckTraitConformance),
        Pass::CheckTraitConformance => Some(Pass::CheckMain),
        Pass::CheckMain => Some(Pass::CheckExports),
        Pass::CheckExports => Some(Pass::CollectForeign),
        Pass::CollectForeign => Some(Pass::CollectConstants),
        Pass::CollectConstants => Some(Pass::ResolveConstructFieldTypes),
        Pass::ResolveConstructFieldTypes => Some(Pass::BreakInferredValueCycles),
        Pass::BreakInferredValueCycles => Some(Pass::ResolveStructDefaults),
        Pass::ResolveStructDefaults => Some(Pass::ResolveParamDefaults),
        Pass::ResolveParamDefaults => Some(Pass::ResolveMethodDefaults),
        Pass::ResolveMethodDefaults => Some(Pass::AnalyzeBodies),
        Pass::AnalyzeBodies => Some(Pass::BuildExtendMethods),
        Pass::BuildExtendMethods => Some(Pass::BuildConstructDispatchers),
        Pass::BuildConstructDispatchers => if reserved == filled {
            Some(Pass::CheckEnumTerminates)
        } else {
            Some(Pass::BuildExtendMethods)
        },
        Pass::CheckEnumTerminates => Some(Pass::FinalizeClosures),
        Pass::FinalizeClosures => Some(Pass::OrderConstants),
        Pass::OrderConstants => Some(Pass::FinalizeNativeStateTypeIds),
        Pass::FinalizeNativeStateTypeIds => None,
    }
}

/// Every pass is followed by the one behind it, so none is skipped and each runs
/// after all that come before it, except that a round of filling that reserved
/// something new is followed by another round.
pub proof fn passes_run_in_order(pass: Pass, reserved: usize, filled: usize)
    ensures
        match follows(pass, reserved, filled) {
            Some(next) => {
                ||| next.place() == pass.place() + 1
                ||| pass == Pass::BuildConstructDispatchers && reserved != filled && next
                    == Pass::BuildExtendMethods
            },
            None => forall|other: Pass| (#[trigger] other.place()) <= pass.place(),
        },
{
}

/// Analysis goes on past filling only once a round reserved nothing new, which is
/// what makes every reserved function a filled one.
pub proof fn filling_ends_when_nothing_is_reserved(pass: Pass, reserved: usize, filled: usize)
    requires
        follows(pass, reserved, filled) == Some(Pass::CheckEnumTerminates),
    ensures
        pass == Pass::BuildConstructDispatchers,
        reserved == filled,
{
}

} // verus!
