//! The signature table: every function's resolved shape, collected before any
//! body is checked so calls type-check regardless of declaration order.

use vstd::prelude::*;

use crate::callables::{
    callable_name, name_of, same_name, CallName, Callable, ClassRef, FunctionDecl, NameForm, Owner,
    ParamDecl,
};
use crate::classes::ClassTable;
use crate::diagnostics::{blamed, lemma_noted_more, noted, Diagnostic, Log, Problem};
use crate::hir::FuncId;
use crate::imports::ImportTable;
use crate::lattice::{refusal_in, Lattice};
use crate::lists::copied;
use crate::names::Symbol;
use crate::source::{SourceId, Span};
use crate::syntax::FieldDefault;
use crate::ty::{Execution, OwnershipMode, StructId, Type};

verus! {

/// Which thread a callable may be entered on.
#[derive(Clone, Copy, PartialEq, Eq, Structural, Debug)]
pub enum ThreadAffinity {
    Any,
    MainThread,
}

/// One parameter of a callable's contract.
#[derive(Clone, Copy, PartialEq, Eq, Structural, Debug)]
pub struct ParamSignature {
    pub label: Symbol,
    pub ty: Type,
    pub ownership: OwnershipMode,
    pub has_default: bool,
}

/// The receiver of a callable's contract.
#[derive(Clone, Copy, PartialEq, Eq, Structural, Debug)]
pub struct ReceiverSignature {
    pub ty: Type,
    pub mutable: bool,
}

/// The complete contract of a callable.
#[derive(Debug)]
pub struct CallableSignature {
    pub receiver: Option<ReceiverSignature>,
    pub params: Vec<ParamSignature>,
    pub result: Type,
    pub is_async: bool,
    pub affinity: ThreadAffinity,
    pub execution: Execution,
}

impl CallableSignature {
    /// Whether this is what a function that no declaration wrote is called by: nothing
    /// but its result.
    pub open spec fn is_synthesized(&self, result: Type) -> bool {
        &&& self.receiver is None
        &&& self.params@.len() == 0
        &&& self.result == result
        &&& !self.is_async
        &&& self.affinity == ThreadAffinity::Any
        &&& self.execution == Execution::Inherited
    }

    /// What a function that no declaration wrote is called by.
    pub fn synthesized(result: Type) -> (signature: CallableSignature)
        ensures
            signature.is_synthesized(result),
    {
        CallableSignature {
            receiver: None,
            params: Vec::new(),
            result,
            is_async: false,
            affinity: ThreadAffinity::Any,
            execution: Execution::Inherited,
        }
    }

    /// A copy.
    pub fn copy(&self) -> (copy: CallableSignature)
        ensures
            copy.params@ == self.params@,
            copy == (CallableSignature { params: copy.params, ..*self }),
    {
        CallableSignature {
            receiver: self.receiver,
            params: copied(&self.params),
            result: self.result,
            is_async: self.is_async,
            affinity: self.affinity,
            execution: self.execution,
        }
    }
}

/// The signature of one function.
#[derive(Debug)]
pub struct FuncSig {
    /// The name a call site writes, which several declarations may share.
    pub name: CallName,
    /// Whether a call site's name reaches this declaration: every declaration
    /// but one that repeats both the name and the parameters of an earlier one.
    pub indexed: bool,
    /// The package that qualifies the compiled symbol.
    pub package: Option<Symbol>,
    /// Whether the compiled symbol also names the parameter types, because the
    /// name is overloaded and a backend has one symbol per function.
    pub mangled: bool,
    /// The receiver, then what was written.
    pub params: Vec<Type>,
    pub param_ownership: Vec<OwnershipMode>,
    pub return_type: Type,
    pub name_span: Span,
    pub source: SourceId,
    pub is_main: bool,
    pub is_main_thread_lifecycle: bool,
    pub is_main_thread: bool,
    /// Whether the method mutates its receiver. No signature says so until the
    /// bodies have been searched for what each writes.
    pub mutates_self: bool,
    pub signature: CallableSignature,
}

/// Every signature, and the defaults of every parameter, by function.
#[derive(Debug)]
pub struct SigTable {
    pub sigs: Vec<FuncSig>,
    pub param_defaults: Vec<Vec<Option<FieldDefault>>>,
}

/// The class a specialized copy gives parameter `index`, if it gives one.
pub open spec fn substitute(specialize: Seq<(usize, ClassRef)>, index: int) -> Option<StructId>
    decreases specialize.len(),
{
    if specialize.len() == 0 {
        None
    } else if specialize[0].0 == index {
        Some(specialize[0].1.id)
    } else {
        substitute(specialize.drop_first(), index)
    }
}

/// The type of written parameter `index`: the subclass a specialized copy takes,
/// or what was written.
pub open spec fn written_type(
    params: Seq<ParamDecl>,
    specialize: Seq<(usize, ClassRef)>,
    index: int,
) -> Type {
    match substitute(specialize, index) {
        Some(class) => Type::Struct(class),
        None => params[index].ty,
    }
}

/// The receiver's slot, for a method.
pub open spec fn receiver_slot<T>(receiver: Option<Owner>, slot: T) -> Seq<T> {
    if receiver is Some {
        seq![slot]
    } else {
        Seq::empty()
    }
}

/// The types a callable takes, the receiver first.
pub open spec fn taken_types(function: FunctionDecl, callable: Callable) -> Seq<Type> {
    (match callable.receiver {
        Some(owner) => seq![owner.ty],
        None => Seq::empty(),
    }) + Seq::new(
        function.params@.len(),
        |i: int| written_type(function.params@, callable.specialize@, i),
    )
}

/// How a callable takes them: a receiver is lent, so a method call consumes
/// nothing.
pub open spec fn taken_modes(function: FunctionDecl, callable: Callable) -> Seq<OwnershipMode> {
    receiver_slot(callable.receiver, OwnershipMode::BorrowRead) + function.params@.map_values(
        |param: ParamDecl| param.ownership,
    )
}

/// The defaults of the parameters, the receiver's slot having none.
pub open spec fn taken_defaults(
    function: FunctionDecl,
    callable: Callable,
) -> Seq<Option<FieldDefault>> {
    receiver_slot(callable.receiver, None) + function.params@.map_values(
        |param: ParamDecl|
            match param.default {
                Some(syntax) => Some(FieldDefault::written(syntax, callable.source)),
                None => None,
            },
    )
}

/// What a callable returns: an `init` the declaration it initializes, and a
/// function without a result type nothing.
pub open spec fn result_of(function: FunctionDecl, callable: Callable) -> Type {
    match (callable.initializes, function.return_type) {
        (Some(class), _) => Type::Struct(class.id),
        (None, Some(ty)) => ty,
        (None, None) => Type::Void,
    }
}

/// The parameters of the contract.
pub open spec fn param_signatures(function: FunctionDecl, callable: Callable) -> Seq<ParamSignature> {
    Seq::new(
        function.params@.len(),
        |i: int|
            ParamSignature {
                label: function.params@[i].name,
                ty: written_type(function.params@, callable.specialize@, i),
                ownership: function.params@[i].ownership,
                has_default: function.params@[i].default is Some,
            },
    )
}

/// `sig` is the signature of `callable`, but for what depends on the other
/// signatures.
pub open spec fn signs(
    sig: FuncSig,
    imports: &ImportTable,
    classes: &ClassTable,
    function: FunctionDecl,
    callable: Callable,
) -> bool {
    &&& sig.name@ == name_of(classes, function, callable)
    &&& sig.package == imports.package(callable.source)
    &&& sig.params@ == taken_types(function, callable)
    &&& sig.param_ownership@ == taken_modes(function, callable)
    &&& sig.return_type == result_of(function, callable)
    &&& sig.name_span == function.name_span
    &&& sig.source == callable.source
    &&& sig.is_main == function.is_main
    &&& sig.is_main_thread_lifecycle == function.is_main_thread_lifecycle
    &&& sig.is_main_thread == function.is_main_thread
    &&& !sig.mutates_self
    &&& sig.signature.receiver == match callable.receiver {
        Some(owner) => Some(
            ReceiverSignature {
                ty: owner.ty,
                mutable: function.receiver matches Some(receiver) && receiver.mutable,
            },
        ),
        None => None,
    }
    &&& sig.signature.params@ == param_signatures(function, callable)
    &&& sig.signature.result == result_of(function, callable)
    &&& sig.signature.is_async == function.is_async
    &&& sig.signature.affinity == if function.is_main_thread || function.is_main_thread_lifecycle {
        ThreadAffinity::MainThread
    } else {
        ThreadAffinity::Any
    }
    &&& sig.signature.execution == function.execution
}

/// Some reachable signature among the first `count` has this name and takes
/// these types.
pub open spec fn has_twin(
    sigs: Seq<FuncSig>,
    count: int,
    name: (NameForm, Seq<(usize, Symbol)>),
    params: Seq<Type>,
) -> bool {
    exists|i: int|
        0 <= i < count && (#[trigger] sigs[i]).indexed && sigs[i].name@ == name && sigs[i].params@
            == params
}

/// One problem, where `holds`.
pub open spec fn problem_if(holds: bool, span: Span, problem: Problem) -> Seq<(Span, Problem)> {
    if holds {
        seq![(span, problem)]
    } else {
        Seq::empty()
    }
}

/// The `copy` parameters among the first `count` whose type cannot be copied.
pub open spec fn copy_problems(
    lattice: &Lattice,
    function: FunctionDecl,
    callable: Callable,
    count: int,
) -> Seq<(Span, Problem)>
    decreases count,
{
    if count <= 0 {
        Seq::empty()
    } else {
        let before = copy_problems(lattice, function, callable, count - 1);
        let param = function.params@[count - 1];
        let ty = written_type(function.params@, callable.specialize@, count - 1);
        match refusal_in(lattice.not_copyable@, ty) {
            Some(reason) if param.ownership == OwnershipMode::Copy => before.push(
                (
                    function.name_span,
                    Problem::CannotCopyParameter { param: param.name, ty, reason },
                ),
            ),
            _ => before,
        }
    }
}

/// The problem of a `self` parameter on what is no method.
pub open spec fn receiver_problem(
    function: FunctionDecl,
    callable: Callable,
    id: FuncId,
) -> Seq<(Span, Problem)> {
    match function.receiver {
        Some(receiver) if callable.receiver is None => seq![
            (receiver.span, Problem::NotAMethod { function: id }),
        ],
        _ => Seq::empty(),
    }
}

/// What the annotations of a function report.
pub open spec fn annotation_problems(
    function: FunctionDecl,
    callable: Callable,
    lacks_main_thread: bool,
    main_seen: bool,
) -> Seq<(Span, Problem)> {
    let at = function.name_span;
    let lifecycle = function.is_main_thread_lifecycle;
    problem_if(function.is_main && lifecycle, at, Problem::EntrypointIsLifecycle) + problem_if(
        function.is_main && function.is_main_thread,
        at,
        Problem::EntrypointIsMainThread,
    ) + problem_if(
        lifecycle && taken_types(function, callable).len() > 0,
        at,
        Problem::LifecycleTakesParameters,
    ) + problem_if(
        lifecycle && result_of(function, callable) != Type::Void,
        at,
        Problem::LifecycleReturnsValue,
    ) + problem_if(
        (function.is_main_thread || lifecycle) && lacks_main_thread,
        at,
        Problem::NoMainThread,
    ) + problem_if(function.is_main && main_seen, at, Problem::SecondEntrypoint)
}

/// Everything the signature of one callable reports, in order.
pub open spec fn signature_problems(
    lattice: &Lattice,
    function: FunctionDecl,
    callable: Callable,
    id: FuncId,
    twin: bool,
    lacks_main_thread: bool,
    main_seen: bool,
) -> Seq<(Span, Problem)> {
    receiver_problem(function, callable, id) + copy_problems(
        lattice,
        function,
        callable,
        function.params@.len() as int,
    ) + problem_if(
        twin,
        function.name_span,
        Problem::AlreadyDefined { function: id, is_method: callable.receiver is Some },
    ) + annotation_problems(function, callable, lacks_main_thread, main_seen)
}

/// Whether some of the first `count` callables is `@Main`.
pub open spec fn main_among(
    functions: Seq<FunctionDecl>,
    callables: Seq<Callable>,
    count: int,
) -> bool {
    exists|i: int|
        0 <= i < count && functions[(#[trigger] callables[i]).function as int].is_main
}

/// What the first `count` callables report, each in its own file.
pub open spec fn all_problems(
    lattice: &Lattice,
    functions: Seq<FunctionDecl>,
    callables: Seq<Callable>,
    sigs: Seq<FuncSig>,
    base: int,
    lacks_main_thread: bool,
    count: int,
) -> Seq<Diagnostic>
    decreases count,
{
    if count <= 0 {
        Seq::empty()
    } else {
        let callable = callables[count - 1];
        let function = functions[callable.function as int];
        let at = base + count - 1;
        all_problems(
            lattice,
            functions,
            callables,
            sigs,
            base,
            lacks_main_thread,
            count - 1,
        ) + noted(
            callable.source,
            signature_problems(
                lattice,
                function,
                callable,
                FuncId(at as u32),
                !sigs[at].indexed,
                lacks_main_thread,
                main_among(functions, callables, count - 1),
            ),
        )
    }
}

fn find_substitute(specialize: &Vec<(usize, ClassRef)>, index: usize) -> (found: Option<StructId>)
    ensures
        found == substitute(specialize@, index as int),
{
    let mut i: usize = 0;
    assert(specialize@.skip(0) =~= specialize@);
    while i < specialize.len()
        invariant
            i <= specialize@.len(),
            substitute(specialize@, index as int) == substitute(
                specialize@.skip(i as int),
                index as int,
            ),
        decreases specialize@.len() - i,
    {
        assert(specialize@.skip(i as int).drop_first() =~= specialize@.skip(i + 1));
        let (slot, class) = specialize[i];
        if slot == index {
            return Some(class.id);
        }
        i += 1;
    }
    None
}

/// Whether two type lists are equal.
pub fn same_types(a: &Vec<Type>, b: &Vec<Type>) -> (res: bool)
    ensures
        res == (a@ == b@),
{
    if a.len() != b.len() {
        return false;
    }
    let mut i: usize = 0;
    while i < a.len()
        invariant
            a@.len() == b@.len(),
            i <= a@.len(),
            forall|k: int| 0 <= k < i ==> a@[k] == b@[k],
        decreases a@.len() - i,
    {
        if a[i] != b[i] {
            assert(a@[i as int] != b@[i as int]);
            return false;
        }
        i += 1;
    }
    assert(a@ =~= b@);
    true
}

fn find_twin(sigs: &Vec<FuncSig>, name: &CallName, params: &Vec<Type>) -> (res: bool)
    ensures
        res == has_twin(sigs@, sigs@.len() as int, name@, params@),
{
    let mut i: usize = 0;
    while i < sigs.len()
        invariant
            i <= sigs@.len(),
            forall|k: int|
                0 <= k < i ==> !((#[trigger] sigs@[k]).indexed && sigs@[k].name@ == name@
                    && sigs@[k].params@ == params@),
        decreases sigs@.len() - i,
    {
        if sigs[i].indexed && same_name(&sigs[i].name, name) && same_types(&sigs[i].params, params) {
            return true;
        }
        i += 1;
    }
    false
}

fn report_if(holds: bool, span: Span, problem: Problem, log: &mut Log)
    ensures
        final(log).source == old(log).source,
        final(log).diagnostics@ == old(log).diagnostics@ + noted(
            old(log).source,
            problem_if(holds, span, problem),
        ),
{
    if holds {
        log.emit(span, problem);
    }
    assert(log.diagnostics@ =~= old(log).diagnostics@ + noted(
        old(log).source,
        problem_if(holds, span, problem),
    ));
}

fn report_copies(
    lattice: &Lattice,
    function: &FunctionDecl,
    callable: &Callable,
    types: &Vec<Type>,
    log: &mut Log,
)
    requires
        types@.len() == function.params@.len(),
        forall|i: int|
            0 <= i < types@.len() ==> #[trigger] types@[i] == written_type(
                function.params@,
                callable.specialize@,
                i,
            ),
    ensures
        final(log).source == old(log).source,
        final(log).diagnostics@ == old(log).diagnostics@ + noted(
            old(log).source,
            copy_problems(lattice, *function, *callable, function.params@.len() as int),
        ),
{
    let ghost source = log.source;
    assert(log.diagnostics@ =~= old(log).diagnostics@ + noted(
        source,
        Seq::<(Span, Problem)>::empty(),
    ));
    let mut i: usize = 0;
    while i < function.params.len()
        invariant
            i <= function.params@.len(),
            types@.len() == function.params@.len(),
            forall|i: int|
                0 <= i < types@.len() ==> #[trigger] types@[i] == written_type(
                    function.params@,
                    callable.specialize@,
                    i,
                ),
            source == old(log).source,
            log.source == source,
            log.diagnostics@ == old(log).diagnostics@ + noted(
                source,
                copy_problems(lattice, *function, *callable, i as int),
            ),
        decreases function.params@.len() - i,
    {
        let param = function.params[i];
        let ghost before = copy_problems(lattice, *function, *callable, i as int);
        if param.ownership == OwnershipMode::Copy {
            if let Some(reason) = lattice.copy_refusal(types[i]) {
                let problem = Problem::CannotCopyParameter {
                    param: param.name,
                    ty: types[i],
                    reason,
                };
                assert(noted(source, before.push((function.name_span, problem))) =~= noted(
                    source,
                    before,
                ).push(blamed(source, function.name_span, problem)));
                log.emit(function.name_span, problem);
            }
        }
        i += 1;
    }
}

/// What a callable takes, in every form a signature holds it.
struct Taken {
    /// The written parameters' types, without the receiver's.
    written: Vec<Type>,
    params: Vec<Type>,
    modes: Vec<OwnershipMode>,
    defaults: Vec<Option<FieldDefault>>,
    contract: Vec<ParamSignature>,
}

fn take_params(function: &FunctionDecl, callable: &Callable) -> (taken: Taken)
    ensures
        taken.written@.len() == function.params@.len(),
        forall|k: int|
            0 <= k < taken.written@.len() ==> #[trigger] taken.written@[k] == written_type(
                function.params@,
                callable.specialize@,
                k,
            ),
        taken.params@ == taken_types(*function, *callable),
        taken.modes@ == taken_modes(*function, *callable),
        taken.defaults@ == taken_defaults(*function, *callable),
        taken.contract@ == param_signatures(*function, *callable),
{
    let mut written: Vec<Type> = Vec::new();
    let mut contract: Vec<ParamSignature> = Vec::new();
    let mut params: Vec<Type> = Vec::new();
    let mut modes: Vec<OwnershipMode> = Vec::new();
    let mut defaults: Vec<Option<FieldDefault>> = Vec::new();
    if let Some(owner) = callable.receiver {
        params.push(owner.ty);
        modes.push(OwnershipMode::BorrowRead);
        defaults.push(None);
    }
    let ghost head = params@.len();
    let ghost all_types = taken_types(*function, *callable);
    let ghost all_modes = taken_modes(*function, *callable);
    let ghost all_defaults = taken_defaults(*function, *callable);
    let ghost all_contract = param_signatures(*function, *callable);
    assert(params@ =~= all_types.take(head as int));
    assert(modes@ =~= all_modes.take(head as int));
    assert(defaults@ =~= all_defaults.take(head as int));
    let mut i: usize = 0;
    while i < function.params.len()
        invariant
            i <= function.params@.len(),
            head == if callable.receiver is Some {
                1nat
            } else {
                0nat
            },
            all_types == taken_types(*function, *callable),
            all_modes == taken_modes(*function, *callable),
            all_defaults == taken_defaults(*function, *callable),
            all_contract == param_signatures(*function, *callable),
            params@ == all_types.take(head + i),
            modes@ == all_modes.take(head + i),
            defaults@ == all_defaults.take(head + i),
            contract@ == all_contract.take(i as int),
            written@.len() == i,
            forall|k: int|
                0 <= k < i ==> #[trigger] written@[k] == written_type(
                    function.params@,
                    callable.specialize@,
                    k,
                ),
        decreases function.params@.len() - i,
    {
        let param = function.params[i];
        let ty = match find_substitute(&callable.specialize, i) {
            Some(class) => Type::Struct(class),
            None => param.ty,
        };
        written.push(ty);
        params.push(ty);
        modes.push(param.ownership);
        defaults.push(
            match param.default {
                Some(syntax) => Some(FieldDefault::new(syntax, callable.source)),
                None => None,
            },
        );
        contract.push(
            ParamSignature {
                label: param.name,
                ty,
                ownership: param.ownership,
                has_default: param.default.is_some(),
            },
        );
        i += 1;
        assert(params@ =~= all_types.take(head + i));
        assert(modes@ =~= all_modes.take(head + i));
        assert(defaults@ =~= all_defaults.take(head + i));
        assert(contract@ =~= all_contract.take(i as int));
    }
    assert(params@ =~= all_types);
    assert(modes@ =~= all_modes);
    assert(defaults@ =~= all_defaults);
    assert(contract@ =~= all_contract);
    Taken { written, params, modes, defaults, contract }
}

fn report_annotations(
    function: &FunctionDecl,
    takes_nothing: bool,
    return_type: Type,
    lacks_main_thread: bool,
    main_seen: bool,
    log: &mut Log,
    callable: &Callable,
)
    requires
        takes_nothing == (taken_types(*function, *callable).len() == 0),
        return_type == result_of(*function, *callable),
    ensures
        final(log).source == old(log).source,
        final(log).diagnostics@ == old(log).diagnostics@ + noted(
            old(log).source,
            annotation_problems(*function, *callable, lacks_main_thread, main_seen),
        ),
{
    let at = function.name_span;
    let lifecycle = function.is_main_thread_lifecycle;
    let ghost source = log.source;
    let ghost said = log.diagnostics@;
    let ghost p1 = problem_if(function.is_main && lifecycle, at, Problem::EntrypointIsLifecycle);
    report_if(function.is_main && lifecycle, at, Problem::EntrypointIsLifecycle, log);
    let ghost p2 = problem_if(
        function.is_main && function.is_main_thread,
        at,
        Problem::EntrypointIsMainThread,
    );
    report_if(
        function.is_main && function.is_main_thread,
        at,
        Problem::EntrypointIsMainThread,
        log,
    );
    let ghost p3 = problem_if(lifecycle && !takes_nothing, at, Problem::LifecycleTakesParameters);
    report_if(lifecycle && !takes_nothing, at, Problem::LifecycleTakesParameters, log);
    let ghost p4 = problem_if(
        lifecycle && return_type != Type::Void,
        at,
        Problem::LifecycleReturnsValue,
    );
    report_if(lifecycle && return_type != Type::Void, at, Problem::LifecycleReturnsValue, log);
    let ghost p5 = problem_if(
        (function.is_main_thread || lifecycle) && lacks_main_thread,
        at,
        Problem::NoMainThread,
    );
    report_if(
        (function.is_main_thread || lifecycle) && lacks_main_thread,
        at,
        Problem::NoMainThread,
        log,
    );
    let ghost p6 = problem_if(function.is_main && main_seen, at, Problem::SecondEntrypoint);
    report_if(function.is_main && main_seen, at, Problem::SecondEntrypoint, log);
    proof {
        lemma_noted_more(said, source, p1, p2);
        lemma_noted_more(said, source, p1 + p2, p3);
        lemma_noted_more(said, source, p1 + p2 + p3, p4);
        lemma_noted_more(said, source, p1 + p2 + p3 + p4, p5);
        lemma_noted_more(said, source, p1 + p2 + p3 + p4 + p5, p6);
    }
}

/// Builds and records the signature of one callable, in its own file.
pub fn collect_signature(
    table: &mut SigTable,
    imports: &ImportTable,
    classes: &ClassTable,
    lattice: &Lattice,
    function: &FunctionDecl,
    callable: &Callable,
    lacks_main_thread: bool,
    main_seen: bool,
    log: &mut Log,
)
    requires
        old(table).sigs@.len() < u32::MAX,
    ensures
        final(table).sigs@.len() == old(table).sigs@.len() + 1,
        final(table).sigs@.drop_last() == old(table).sigs@,
        signs(final(table).sigs@.last(), imports, classes, *function, *callable),
        final(table).sigs@.last().indexed == !has_twin(
            old(table).sigs@,
            old(table).sigs@.len() as int,
            name_of(classes, *function, *callable),
            taken_types(*function, *callable),
        ),
        !final(table).sigs@.last().mangled,
        final(table).param_defaults@.len() == old(table).param_defaults@.len() + 1,
        final(table).param_defaults@.drop_last() == old(table).param_defaults@,
        final(table).param_defaults@.last()@ == taken_defaults(*function, *callable),
        final(log).source == callable.source,
        final(log).diagnostics@ == old(log).diagnostics@ + noted(
            callable.source,
            signature_problems(
                lattice,
                *function,
                *callable,
                FuncId(old(table).sigs@.len() as u32),
                !final(table).sigs@.last().indexed,
                lacks_main_thread,
                main_seen,
            ),
        ),
{
    log.source = callable.source;
    let ghost source = callable.source;
    let ghost said = log.diagnostics@;
    let name = callable_name(classes, function, callable);
    let id = FuncId(table.sigs.len() as u32);
    if let Some(receiver) = function.receiver {
        if callable.receiver.is_none() {
            log.emit(receiver.span, Problem::NotAMethod { function: id });
        }
    }
    let ghost first = receiver_problem(*function, *callable, id);
    assert(log.diagnostics@ =~= said + noted(source, first));
    let taken = take_params(function, callable);
    report_copies(lattice, function, callable, &taken.written, log);
    let return_type = match callable.initializes {
        Some(class) => Type::Struct(class.id),
        None => match function.return_type {
            Some(ty) => ty,
            None => Type::Void,
        },
    };
    let twin = find_twin(&table.sigs, &name, &taken.params);
    let repeated = Problem::AlreadyDefined {
        function: id,
        is_method: callable.receiver.is_some(),
    };
    report_if(twin, function.name_span, repeated, log);
    report_annotations(
        function,
        taken.params.len() == 0,
        return_type,
        lacks_main_thread,
        main_seen,
        log,
        callable,
    );
    proof {
        let second = copy_problems(
            lattice,
            *function,
            *callable,
            function.params@.len() as int,
        );
        let third = problem_if(
            twin,
            function.name_span,
            Problem::AlreadyDefined { function: id, is_method: callable.receiver is Some },
        );
        let fourth = annotation_problems(*function, *callable, lacks_main_thread, main_seen);
        lemma_noted_more(said, source, first, second);
        lemma_noted_more(said, source, first + second, third);
        lemma_noted_more(said, source, first + second + third, fourth);
    }
    let affinity = if function.is_main_thread || function.is_main_thread_lifecycle {
        ThreadAffinity::MainThread
    } else {
        ThreadAffinity::Any
    };
    let receiver = match callable.receiver {
        Some(owner) => Some(
            ReceiverSignature {
                ty: owner.ty,
                mutable: match function.receiver {
                    Some(receiver) => receiver.mutable,
                    None => false,
                },
            },
        ),
        None => None,
    };
    table.sigs.push(
        FuncSig {
            name,
            indexed: !twin,
            package: imports.package_of(callable.source),
            mangled: false,
            params: taken.params,
            param_ownership: taken.modes,
            return_type,
            name_span: function.name_span,
            source: callable.source,
            is_main: function.is_main,
            is_main_thread_lifecycle: function.is_main_thread_lifecycle,
            is_main_thread: function.is_main_thread,
            mutates_self: false,
            signature: CallableSignature {
                receiver,
                params: taken.contract,
                result: return_type,
                is_async: function.is_async,
                affinity,
                execution: function.execution,
            },
        },
    );
    table.param_defaults.push(taken.defaults);
    assert(table.sigs@.drop_last() =~= old(table).sigs@);
    assert(table.param_defaults@.drop_last() =~= old(table).param_defaults@);
}

/// Another reachable signature shares the name of `sigs[i]`.
pub open spec fn overloaded(sigs: Seq<FuncSig>, i: int) -> bool {
    sigs[i].indexed && exists|j: int|
        0 <= j < sigs.len() && j != i && (#[trigger] sigs[j]).indexed && sigs[j].name@
            == sigs[i].name@
}

/// The same signature, mangled or not.
pub open spec fn same_but_mangled(a: FuncSig, b: FuncSig) -> bool {
    b == (FuncSig { mangled: b.mangled, ..a })
}

/// Gives every declaration of an overloaded name a symbol of its own, by naming
/// the parameter types in it. A name declared once keeps its plain symbol.
pub fn name_overloads(sigs: &mut Vec<FuncSig>)
    requires
        forall|i: int| 0 <= i < old(sigs)@.len() ==> !(#[trigger] old(sigs)@[i]).mangled,
    ensures
        final(sigs)@.len() == old(sigs)@.len(),
        forall|i: int|
            0 <= i < old(sigs)@.len() ==> same_but_mangled(
                old(sigs)@[i],
                #[trigger] final(sigs)@[i],
            ) && final(sigs)@[i].mangled == overloaded(old(sigs)@, i),
{
    let mut i: usize = 0;
    while i < sigs.len()
        invariant
            i <= sigs@.len(),
            sigs@.len() == old(sigs)@.len(),
            forall|k: int| 0 <= k < old(sigs)@.len() ==> !(#[trigger] old(sigs)@[k]).mangled,
            forall|k: int|
                0 <= k < sigs@.len() ==> same_but_mangled(old(sigs)@[k], #[trigger] sigs@[k]),
            forall|k: int|
                0 <= k < i ==> (#[trigger] sigs@[k]).mangled == overloaded(old(sigs)@, k),
            forall|k: int| i <= k < sigs@.len() ==> !(#[trigger] sigs@[k]).mangled,
        decreases sigs@.len() - i,
    {
        let mut shared: bool = false;
        let ghost before = sigs@;
        if sigs[i].indexed {
            let mut j: usize = 0;
            while j < sigs.len()
                invariant
                    i < sigs@.len(),
                    j <= sigs@.len(),
                    sigs@.len() == old(sigs)@.len(),
                    sigs@ == before,
                    forall|k: int|
                        0 <= k < sigs@.len() ==> same_but_mangled(
                            old(sigs)@[k],
                            #[trigger] sigs@[k],
                        ),
                    shared == exists|k: int|
                        0 <= k < j && k != i && (#[trigger] old(sigs)@[k]).indexed && old(
                            sigs,
                        )@[k].name@ == old(sigs)@[i as int].name@,
                decreases sigs@.len() - j,
            {
                assert(same_but_mangled(old(sigs)@[j as int], sigs@[j as int]));
                assert(same_but_mangled(old(sigs)@[i as int], sigs@[i as int]));
                if j != i && sigs[j].indexed && same_name(&sigs[j].name, &sigs[i].name) {
                    shared = true;
                    assert(old(sigs)@[j as int].indexed);
                }
                j += 1;
            }
        }
        assert(same_but_mangled(old(sigs)@[i as int], before[i as int]));
        if shared {
            sigs[i].mangled = true;
        }
        i += 1;
        assert forall|k: int| 0 <= k < sigs@.len() implies same_but_mangled(
            old(sigs)@[k],
            #[trigger] sigs@[k],
        ) by {
            assert(same_but_mangled(old(sigs)@[k], before[k]));
        }
    }
}

/// The rows collecting `callables` adds after the first `base`: each the
/// signature of its callable, reachable unless an earlier one is its twin.
pub open spec fn rows_collected(
    imports: &ImportTable,
    classes: &ClassTable,
    functions: Seq<FunctionDecl>,
    callables: Seq<Callable>,
    sigs: Seq<FuncSig>,
    base: int,
    count: int,
) -> bool {
    forall|k: int|
        0 <= k < count ==> {
            let function = functions[(#[trigger] callables[k]).function as int];
            &&& signs(sigs[base + k], imports, classes, function, callables[k])
            &&& sigs[base + k].indexed == !has_twin(
                sigs,
                base + k,
                name_of(classes, function, callables[k]),
                taken_types(function, callables[k]),
            )
        }
}

/// Records the signature of every callable, in order, and then gives overloaded
/// names symbols of their own.
pub fn collect_signatures(
    imports: &ImportTable,
    classes: &ClassTable,
    lattice: &Lattice,
    functions: &Vec<FunctionDecl>,
    callables: &Vec<Callable>,
    lacks_main_thread: bool,
    log: &mut Log,
) -> (table: SigTable)
    requires
        callables@.len() <= u32::MAX,
        forall|i: int|
            0 <= i < callables@.len() ==> (#[trigger] callables@[i]).function < functions@.len(),
    ensures
        table.sigs@.len() == callables@.len(),
        rows_collected(
            imports,
            classes,
            functions@,
            callables@,
            table.sigs@,
            0,
            callables@.len() as int,
        ),
        forall|i: int|
            0 <= i < table.sigs@.len() ==> (#[trigger] table.sigs@[i]).mangled == overloaded(
                table.sigs@,
                i,
            ),
        table.param_defaults@.len() == callables@.len(),
        forall|k: int|
            0 <= k < callables@.len() ==> (#[trigger] table.param_defaults@[k])@ == taken_defaults(
                functions@[callables@[k].function as int],
                callables@[k],
            ),
        final(log).diagnostics@ == old(log).diagnostics@ + all_problems(
            lattice,
            functions@,
            callables@,
            table.sigs@,
            0,
            lacks_main_thread,
            callables@.len() as int,
        ),
        final(log).source == if callables@.len() == 0 {
            old(log).source
        } else {
            callables@.last().source
        },
{
    let mut table = SigTable { sigs: Vec::new(), param_defaults: Vec::new() };
    let mut main_seen: bool = false;
    let mut i: usize = 0;
    assert(log.diagnostics@ =~= old(log).diagnostics@ + all_problems(
        lattice,
        functions@,
        callables@,
        table.sigs@,
        0,
        lacks_main_thread,
        0,
    ));
    while i < callables.len()
        invariant
            i <= callables@.len() <= u32::MAX,
            forall|i: int|
                0 <= i < callables@.len() ==> (#[trigger] callables@[i]).function
                    < functions@.len(),
            table.sigs@.len() == i,
            rows_collected(
                imports,
                classes,
                functions@,
                callables@,
                table.sigs@,
                0,
                i as int,
            ),
            forall|k: int| 0 <= k < i ==> !(#[trigger] table.sigs@[k]).mangled,
            table.param_defaults@.len() == i,
            forall|k: int|
                0 <= k < i ==> (#[trigger] table.param_defaults@[k])@ == taken_defaults(
                    functions@[callables@[k].function as int],
                    callables@[k],
                ),
            main_seen == main_among(functions@, callables@, i as int),
            log.diagnostics@ == old(log).diagnostics@ + all_problems(
                lattice,
                functions@,
                callables@,
                table.sigs@,
                0,
                lacks_main_thread,
                i as int,
            ),
            log.source == if i == 0 {
                old(log).source
            } else {
                callables@[i - 1].source
            },
        decreases callables@.len() - i,
    {
        let ghost before = table.sigs@;
        let ghost kept = table.param_defaults@;
        let ghost said = log.diagnostics@;
        let function: usize = callables[i].function;
        collect_signature(
            &mut table,
            imports,
            classes,
            lattice,
            &functions[function],
            &callables[i],
            lacks_main_thread,
            main_seen,
            log,
        );
        let ghost seen = main_seen;
        main_seen = main_seen || functions[function].is_main;
        i += 1;
        proof {
            let n = i as int;
            let after = table.sigs@;
            assert forall|k: int| 0 <= k < n - 1 implies #[trigger] after[k] == before[k] by {
                assert(after.drop_last()[k] == before[k]);
            }
            lemma_rows_step(imports, classes, functions@, callables@, before, after, n);
            assert forall|k: int| 0 <= k < n implies (#[trigger] table.param_defaults@[k])@
                == taken_defaults(
                functions@[callables@[k].function as int],
                callables@[k],
            ) by {
                if k < n - 1 {
                    assert(table.param_defaults@.drop_last()[k] == kept[k]);
                }
            }
            lemma_problems_kept(
                lattice,
                functions@,
                callables@,
                before,
                after,
                lacks_main_thread,
                n - 1,
            );
            assert(seen == main_among(functions@, callables@, n - 1));
            assert(main_seen == main_among(functions@, callables@, n)) by {
                if main_among(functions@, callables@, n - 1) {
                    let j = choose|j: int|
                        0 <= j < n - 1 && functions@[(
                        #[trigger] callables@[j]).function as int].is_main;
                    assert(functions@[callables@[j].function as int].is_main);
                }
                if functions@[callables@[n - 1].function as int].is_main {
                    assert(functions@[callables@[n - 1].function as int].is_main);
                }
            }
            assert(log.diagnostics@ =~= old(log).diagnostics@ + all_problems(
                lattice,
                functions@,
                callables@,
                after,
                0,
                lacks_main_thread,
                n,
            ));
        }
    }
    let ghost plain = table.sigs@;
    name_overloads(&mut table.sigs);
    proof {
        let n = callables@.len() as int;
        let after = table.sigs@;
        assert forall|k: int| 0 <= k < n implies ({
            let function = functions@[(#[trigger] callables@[k]).function as int];
            &&& signs(after[k], imports, classes, function, callables@[k])
            &&& after[k].indexed == !has_twin(
                after,
                k,
                name_of(classes, function, callables@[k]),
                taken_types(function, callables@[k]),
            )
        }) by {
            let function = functions@[callables@[k].function as int];
            assert(same_but_mangled(plain[k], after[k]));
            lemma_twin_mangled(
                plain,
                after,
                k,
                name_of(classes, function, callables@[k]),
                taken_types(function, callables@[k]),
            );
        }
        assert forall|i: int| 0 <= i < after.len() implies (#[trigger] after[i]).mangled
            == overloaded(after, i) by {
            assert(same_but_mangled(plain[i], after[i]));
            if overloaded(plain, i) {
                let j = choose|j: int|
                    0 <= j < plain.len() && j != i && (#[trigger] plain[j]).indexed
                        && plain[j].name@ == plain[i].name@;
                assert(same_but_mangled(plain[j], after[j]));
                assert(after[j].indexed);
            }
            if overloaded(after, i) {
                let j = choose|j: int|
                    0 <= j < after.len() && j != i && (#[trigger] after[j]).indexed
                        && after[j].name@ == after[i].name@;
                assert(same_but_mangled(plain[j], after[j]));
                assert(plain[j].indexed);
            }
        }
        lemma_problems_mangled(
            lattice,
            functions@,
            callables@,
            plain,
            after,
            lacks_main_thread,
            n,
        );
    }
    table
}

proof fn lemma_rows_step(
    imports: &ImportTable,
    classes: &ClassTable,
    functions: Seq<FunctionDecl>,
    callables: Seq<Callable>,
    before: Seq<FuncSig>,
    after: Seq<FuncSig>,
    n: int,
)
    requires
        0 < n,
        before.len() == n - 1,
        after.len() == n,
        forall|k: int| 0 <= k < n - 1 ==> #[trigger] after[k] == before[k],
        rows_collected(imports, classes, functions, callables, before, 0, n - 1),
        signs(
            after[n - 1],
            imports,
            classes,
            functions[callables[n - 1].function as int],
            callables[n - 1],
        ),
        after[n - 1].indexed == !has_twin(
            before,
            n - 1,
            name_of(
                classes,
                functions[callables[n - 1].function as int],
                callables[n - 1],
            ),
            taken_types(functions[callables[n - 1].function as int], callables[n - 1]),
        ),
    ensures
        rows_collected(imports, classes, functions, callables, after, 0, n),
{
    assert forall|k: int| 0 <= k < n implies ({
        let function = functions[(#[trigger] callables[k]).function as int];
        &&& signs(after[0 + k], imports, classes, function, callables[k])
        &&& after[0 + k].indexed == !has_twin(
            after,
            0 + k,
            name_of(classes, function, callables[k]),
            taken_types(function, callables[k]),
        )
    }) by {
        let function = functions[callables[k].function as int];
        lemma_twin_kept(
            before,
            after,
            k,
            name_of(classes, function, callables[k]),
            taken_types(function, callables[k]),
        );
        if k < n - 1 {
            assert(after[k] == before[0 + k]);
        }
    }
}

proof fn lemma_twin_kept(
    before: Seq<FuncSig>,
    after: Seq<FuncSig>,
    count: int,
    name: (NameForm, Seq<(usize, Symbol)>),
    params: Seq<Type>,
)
    requires
        0 <= count <= before.len() <= after.len(),
        forall|k: int| 0 <= k < before.len() ==> #[trigger] after[k] == before[k],
    ensures
        has_twin(before, count, name, params) == has_twin(after, count, name, params),
{
    if has_twin(before, count, name, params) {
        let i = choose|i: int|
            0 <= i < count && (#[trigger] before[i]).indexed && before[i].name@ == name
                && before[i].params@ == params;
        assert(after[i].indexed);
    }
    if has_twin(after, count, name, params) {
        let i = choose|i: int|
            0 <= i < count && (#[trigger] after[i]).indexed && after[i].name@ == name
                && after[i].params@ == params;
        assert(before[i].indexed);
    }
}

proof fn lemma_twin_mangled(
    before: Seq<FuncSig>,
    after: Seq<FuncSig>,
    count: int,
    name: (NameForm, Seq<(usize, Symbol)>),
    params: Seq<Type>,
)
    requires
        0 <= count <= before.len(),
        before.len() == after.len(),
        forall|k: int| 0 <= k < before.len() ==> same_but_mangled(before[k], #[trigger] after[k]),
    ensures
        has_twin(before, count, name, params) == has_twin(after, count, name, params),
{
    if has_twin(before, count, name, params) {
        let i = choose|i: int|
            0 <= i < count && (#[trigger] before[i]).indexed && before[i].name@ == name
                && before[i].params@ == params;
        assert(same_but_mangled(before[i], after[i]));
        assert(after[i].indexed);
    }
    if has_twin(after, count, name, params) {
        let i = choose|i: int|
            0 <= i < count && (#[trigger] after[i]).indexed && after[i].name@ == name
                && after[i].params@ == params;
        assert(same_but_mangled(before[i], after[i]));
        assert(before[i].indexed);
    }
}

proof fn lemma_problems_kept(
    lattice: &Lattice,
    functions: Seq<FunctionDecl>,
    callables: Seq<Callable>,
    before: Seq<FuncSig>,
    after: Seq<FuncSig>,
    lacks_main_thread: bool,
    count: int,
)
    requires
        0 <= count <= before.len() <= after.len(),
        forall|k: int| 0 <= k < before.len() ==> #[trigger] after[k] == before[k],
    ensures
        all_problems(lattice, functions, callables, before, 0, lacks_main_thread, count)
            == all_problems(lattice, functions, callables, after, 0, lacks_main_thread, count),
    decreases count,
{
    if count > 0 {
        lemma_problems_kept(
            lattice,
            functions,
            callables,
            before,
            after,
            lacks_main_thread,
            count - 1,
        );
        assert(after[count - 1] == before[count - 1]);
    }
}

proof fn lemma_problems_mangled(
    lattice: &Lattice,
    functions: Seq<FunctionDecl>,
    callables: Seq<Callable>,
    before: Seq<FuncSig>,
    after: Seq<FuncSig>,
    lacks_main_thread: bool,
    count: int,
)
    requires
        0 <= count <= before.len(),
        before.len() == after.len(),
        forall|k: int| 0 <= k < before.len() ==> same_but_mangled(before[k], #[trigger] after[k]),
    ensures
        all_problems(lattice, functions, callables, before, 0, lacks_main_thread, count)
            == all_problems(lattice, functions, callables, after, 0, lacks_main_thread, count),
    decreases count,
{
    if count > 0 {
        lemma_problems_mangled(
            lattice,
            functions,
            callables,
            before,
            after,
            lacks_main_thread,
            count - 1,
        );
        assert(same_but_mangled(before[count - 1], after[count - 1]));
    }
}

proof fn lemma_substitute(specialize: Seq<(usize, ClassRef)>, index: int)
    ensures
        match substitute(specialize, index) {
            Some(class) => exists|k: int|
                0 <= k < specialize.len() && (#[trigger] specialize[k]).0 == index
                    && specialize[k].1.id == class && forall|j: int|
                    0 <= j < k ==> (#[trigger] specialize[j]).0 != index,
            None => forall|k: int|
                0 <= k < specialize.len() ==> (#[trigger] specialize[k]).0 != index,
        },
    decreases specialize.len(),
{
    if specialize.len() > 0 {
        if specialize[0].0 == index {
            assert(specialize[0].1.id == specialize[0].1.id);
        } else {
            let rest = specialize.drop_first();
            lemma_substitute(rest, index);
            match substitute(rest, index) {
                Some(class) => {
                    let k = choose|k: int|
                        0 <= k < rest.len() && (#[trigger] rest[k]).0 == index && rest[k].1.id
                            == class && forall|j: int|
                            0 <= j < k ==> (#[trigger] rest[j]).0 != index;
                    assert(specialize[k + 1] == rest[k]);
                    assert forall|j: int| 0 <= j < k + 1 implies (#[trigger] specialize[j]).0
                        != index by {
                        if j > 0 {
                            assert(specialize[j] == rest[j - 1]);
                        }
                    }
                },
                None => {
                    assert forall|k: int| 0 <= k < specialize.len() implies (
                    #[trigger] specialize[k]).0 != index by {
                        if k > 0 {
                            assert(specialize[k] == rest[k - 1]);
                        }
                    }
                },
            }
        }
    }
}

/// A signature takes the receiver first, lent to be read and without a default, and then
/// every parameter in order: of the type written, or of the subclass a specialized copy
/// gives it, in the mode written, and with the default written, read in the callable's own
/// file.
pub proof fn a_signature_takes_what_was_written(
    sig: FuncSig,
    imports: &ImportTable,
    classes: &ClassTable,
    function: FunctionDecl,
    callable: Callable,
    k: int,
)
    requires
        signs(sig, imports, classes, function, callable),
        0 <= k < function.params@.len(),
    ensures
        ({
            let shift = if callable.receiver is Some {
                1int
            } else {
                0int
            };
            let param = function.params@[k];
            let defaults = taken_defaults(function, callable);
            &&& sig.params@.len() == function.params@.len() + shift
            &&& sig.param_ownership@.len() == sig.params@.len()
            &&& defaults.len() == sig.params@.len()
            &&& callable.receiver matches Some(owner) ==> sig.params@[0] == owner.ty
                && sig.param_ownership@[0] == OwnershipMode::BorrowRead && defaults[0] is None
            &&& (forall|i: int|
                0 <= i < callable.specialize@.len() ==> (#[trigger] callable.specialize@[i]).0 != k)
                ==> sig.params@[k + shift] == param.ty && sig.signature.params@[k].ty == param.ty
            &&& forall|i: int|
                0 <= i < callable.specialize@.len() && (#[trigger] callable.specialize@[i]).0 == k
                    && (forall|j: int|
                    0 <= j < i ==> (#[trigger] callable.specialize@[j]).0 != k) ==> sig.params@[k
                    + shift] == Type::Struct(callable.specialize@[i].1.id)
            &&& sig.param_ownership@[k + shift] == param.ownership
            &&& param.default matches Some(syntax) ==> (defaults[k + shift] matches Some(default)
                && default.syntax == syntax && default.source == callable.source
                && default.resolved is None)
            &&& param.default is None ==> defaults[k + shift] is None
            &&& sig.signature.params@.len() == function.params@.len()
            &&& sig.signature.params@[k].label == param.name
            &&& sig.signature.params@[k].ownership == param.ownership
            &&& sig.signature.params@[k].has_default == (param.default is Some)
        }),
{
    lemma_substitute(callable.specialize@, k);
    let shift = if callable.receiver is Some {
        1int
    } else {
        0int
    };
    let list = callable.specialize@;
    assert forall|i: int|
        0 <= i < list.len() && (#[trigger] list[i]).0 == k && (forall|j: int|
            0 <= j < i ==> (#[trigger] list[j]).0 != k) implies sig.params@[k + shift]
        == Type::Struct(list[i].1.id) by {
        if let Some(class) = substitute(list, k) {
            let m = choose|m: int|
                0 <= m < list.len() && (#[trigger] list[m]).0 == k && list[m].1.id == class
                    && forall|j: int| 0 <= j < m ==> (#[trigger] list[j]).0 != k;
            assert(list[m].0 == k);
            if m < i {
                assert(list[m].0 != k);
            }
            if i < m {
                assert(list[i].0 != k);
            }
        }
    }
}

/// What a signature says of the function as a whole: an initializer returns what it
/// initializes, any other what was written or nothing; a method's receiver may be written
/// exactly if it was written so; and it may be entered on the main thread alone exactly if
/// it was annotated so.
pub proof fn a_signature_says_what_was_written(
    sig: FuncSig,
    imports: &ImportTable,
    classes: &ClassTable,
    function: FunctionDecl,
    callable: Callable,
)
    requires
        signs(sig, imports, classes, function, callable),
    ensures
        sig.signature.result == sig.return_type,
        callable.initializes matches Some(class) ==> sig.return_type == Type::Struct(class.id),
        callable.initializes is None ==> (function.return_type matches Some(ty) ==> sig.return_type
            == ty),
        callable.initializes is None && function.return_type is None ==> sig.return_type
            == Type::Void,
        sig.source == callable.source,
        sig.package == imports.package(callable.source),
        sig.is_main == function.is_main,
        callable.receiver is None <==> sig.signature.receiver is None,
        callable.receiver matches Some(owner) ==> (sig.signature.receiver matches Some(receiver)
            && receiver.ty == owner.ty && (receiver.mutable <==> (
        function.receiver matches Some(written) && written.mutable))),
        sig.signature.affinity == ThreadAffinity::MainThread <==> function.is_main_thread
            || function.is_main_thread_lifecycle,
        sig.signature.is_async == function.is_async,
{
}

/// A declaration that is refused nothing is sound: what is no method takes no `self`, no
/// parameter is copied that cannot be, no earlier declaration has its name and parameters,
/// and its annotations agree.
pub proof fn a_silent_signature_is_sound(
    lattice: &Lattice,
    function: FunctionDecl,
    callable: Callable,
    id: FuncId,
    twin: bool,
    lacks_main_thread: bool,
    main_seen: bool,
    k: int,
)
    ensures
        signature_problems(
            lattice,
            function,
            callable,
            id,
            twin,
            lacks_main_thread,
            main_seen,
        ).len() == 0 ==> {
            &&& function.receiver is Some ==> callable.receiver is Some
            &&& !twin
            &&& 0 <= k < function.params@.len() && function.params@[k].ownership
                == OwnershipMode::Copy ==> refusal_in(
                lattice.not_copyable@,
                written_type(function.params@, callable.specialize@, k),
            ) is None
            &&& !(function.is_main && function.is_main_thread_lifecycle)
            &&& !(function.is_main && function.is_main_thread)
            &&& !(function.is_main && main_seen)
            &&& function.is_main_thread_lifecycle ==> callable.receiver is None
                && function.params@.len() == 0
            &&& function.is_main_thread_lifecycle && callable.initializes is None ==> (
            function.return_type matches Some(ty) ==> ty == Type::Void)
            &&& lacks_main_thread ==> !function.is_main_thread && !function.is_main_thread_lifecycle
        },
{
    let at = function.name_span;
    let a = receiver_problem(function, callable, id);
    let b = copy_problems(lattice, function, callable, function.params@.len() as int);
    let c = problem_if(
        twin,
        at,
        Problem::AlreadyDefined { function: id, is_method: callable.receiver is Some },
    );
    let d = annotation_problems(function, callable, lacks_main_thread, main_seen);
    assert((a + b + c + d).len() == a.len() + b.len() + c.len() + d.len());
    if b.len() == 0 && 0 <= k < function.params@.len() {
        lemma_copied(lattice, function, callable, function.params@.len() as int, k);
    }
}

proof fn lemma_copied(
    lattice: &Lattice,
    function: FunctionDecl,
    callable: Callable,
    count: int,
    k: int,
)
    requires
        0 <= k < count,
        copy_problems(lattice, function, callable, count).len() == 0,
    ensures
        function.params@[k].ownership == OwnershipMode::Copy ==> refusal_in(
            lattice.not_copyable@,
            written_type(function.params@, callable.specialize@, k),
        ) is None,
    decreases count,
{
    if k < count - 1 {
        lemma_copied(lattice, function, callable, count - 1, k);
    }
}

/// Of the declarations that share a name and its parameters exactly the first can be
/// called by it: no two that can are alike, and of those that cannot an earlier one is.
pub proof fn the_first_of_a_signature_is_reached(
    imports: &ImportTable,
    classes: &ClassTable,
    functions: Seq<FunctionDecl>,
    callables: Seq<Callable>,
    sigs: Seq<FuncSig>,
    base: int,
    k: int,
    j: int,
)
    requires
        rows_collected(
            imports,
            classes,
            functions,
            callables,
            sigs,
            base,
            callables.len() as int,
        ),
        0 <= base,
        0 <= k < callables.len(),
    ensures
        sigs[base + k].indexed && 0 <= j < base + k && sigs[j].indexed ==> sigs[j].name@ != sigs[base
            + k].name@ || sigs[j].params@ != sigs[base + k].params@,
        !sigs[base + k].indexed ==> exists|i: int|
            0 <= i < base + k && (#[trigger] sigs[i]).indexed && sigs[i].name@ == sigs[base
                + k].name@ && sigs[i].params@ == sigs[base + k].params@,
{
    let function = functions[callables[k].function as int];
    assert(signs(sigs[base + k], imports, classes, function, callables[k]));
    assert(sigs[base + k].indexed == !has_twin(
        sigs,
        base + k,
        sigs[base + k].name@,
        sigs[base + k].params@,
    ));
    if sigs[base + k].indexed && 0 <= j < base + k && sigs[j].indexed {
        assert(sigs[j].indexed);
    }
}

/// Where the signatures of a program are refused nothing, none of them is: each can be
/// reached by its name, and at most one of them is the entrypoint.
pub proof fn a_silent_program_has_sound_signatures(
    lattice: &Lattice,
    functions: Seq<FunctionDecl>,
    callables: Seq<Callable>,
    sigs: Seq<FuncSig>,
    base: int,
    lacks_main_thread: bool,
    count: int,
    k: int,
    j: int,
)
    requires
        0 <= k < count <= callables.len(),
        all_problems(lattice, functions, callables, sigs, base, lacks_main_thread, count).len()
            == 0,
    ensures
        sigs[base + k].indexed,
        0 <= j < k && functions[callables[k].function as int].is_main
            ==> !functions[callables[j].function as int].is_main,
        functions[callables[k].function as int].receiver is Some ==> callables[k].receiver is Some,
    decreases count,
{
    let callable = callables[count - 1];
    let function = functions[callable.function as int];
    let at = base + count - 1;
    let before = all_problems(
        lattice,
        functions,
        callables,
        sigs,
        base,
        lacks_main_thread,
        count - 1,
    );
    let own = signature_problems(
        lattice,
        function,
        callable,
        FuncId(at as u32),
        !sigs[at].indexed,
        lacks_main_thread,
        main_among(functions, callables, count - 1),
    );
    assert((before + noted(callable.source, own)).len() == before.len() + own.len());
    if k < count - 1 {
        a_silent_program_has_sound_signatures(
            lattice,
            functions,
            callables,
            sigs,
            base,
            lacks_main_thread,
            count - 1,
            k,
            j,
        );
    } else {
        a_silent_signature_is_sound(
            lattice,
            function,
            callable,
            FuncId(at as u32),
            !sigs[at].indexed,
            lacks_main_thread,
            main_among(functions, callables, count - 1),
            0,
        );
        if 0 <= j < k && functions[callables[j].function as int].is_main {
            assert(functions[callables[j].function as int].is_main);
            assert(main_among(functions, callables, count - 1));
        }
    }
}

/// A function that no declaration wrote is called by nothing but its result: its contract
/// has no receiver and no parameters, may be entered on any thread, and runs where its
/// caller does.
pub proof fn a_synthesized_contract_is_bare(signature: CallableSignature, result: Type)
    ensures
        signature.is_synthesized(result) <==> signature.receiver is None
            && signature.params@.len() == 0 && signature.result == result && !signature.is_async
            && signature.affinity == ThreadAffinity::Any && signature.execution
            == Execution::Inherited,
{
}

/// A signature is filed under the name its callable is known by, and says of no method
/// that it mutates its receiver before the bodies were searched.
pub proof fn a_signature_is_filed_under_its_name(
    sig: FuncSig,
    imports: &ImportTable,
    classes: &ClassTable,
    function: FunctionDecl,
    callable: Callable,
)
    requires
        signs(sig, imports, classes, function, callable),
    ensures
        sig.name@ == name_of(classes, function, callable),
        !sig.mutates_self,
        sig.name_span == function.name_span,
        sig.is_main_thread == function.is_main_thread,
        sig.is_main_thread_lifecycle == function.is_main_thread_lifecycle,
        sig.signature.execution == function.execution,
        callable.initializes is None && callable.receiver is None && callable.specialize@.len() == 0
            ==> sig.name@.0 == (NameForm::Free { name: function.name }) && sig.name@.1.len() == 0,
{
}

} // verus!
