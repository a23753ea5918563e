//! Type aliases: `type Name = Target`.
//!
//! An alias is a fact of the frontend and nothing else: its name resolves to the
//! type its target stands for. Resolution is lazy and remembered, because an alias
//! may name another one. An alias caught resolving while it is already resolving
//! is reported once and stands for the error type, so that every chain ends.

use vstd::prelude::*;

use crate::diagnostics::{blamed, Diagnostic, Log, NameClash, Problem};
use crate::families::names_list;
use crate::names::Symbol;
use crate::source::{SourceId, Span};
use crate::symbol_map::SymbolMap;
use crate::syntax::TypeRefId;
use crate::ty::Type;

verus! {

/// What an alias stands for.
#[derive(Clone, Copy, PartialEq, Eq, Structural, Debug)]
pub enum AliasBody {
    /// A written target type.
    Written(TypeRefId),
    /// The native pointer type: one machine word whatever it points at.
    RawPtr,
}

/// How far an alias has got through resolution.
#[derive(Clone, Copy, PartialEq, Eq, Structural, Debug)]
pub enum AliasState {
    /// Not yet resolved by any use.
    Unresolved,
    /// Resolving; reaching it again is a cycle.
    Resolving,
    /// Resolving, and reached again, which was reported.
    Caught,
    /// Resolved to a concrete type.
    Resolved(Type),
}

/// One alias, and where its resolution stands.
#[derive(Clone, Copy, PartialEq, Eq, Structural, Debug)]
pub struct AliasHeader {
    pub body: AliasBody,
    /// Where a cycle is reported.
    pub name_span: Span,
    pub state: AliasState,
    /// What a foreign declaration said about the C type it names; `None` for a
    /// written `type Name = Target`, which may be written only once.
    pub description: Option<Symbol>,
}

/// One declaration that may be an alias, as written.
#[derive(Clone, Copy, PartialEq, Eq, Structural, Debug)]
pub enum AliasForm {
    /// `type Name = Target`.
    Type(TypeRefId),
    /// A foreign alias, whose target may be missing. `yields` says that it only
    /// names a C type some other declaration describes.
    Foreign { target: Option<TypeRefId>, yields: bool, description: Option<Symbol> },
    /// A foreign pointer.
    Pointer { yields: bool, description: Option<Symbol> },
}

/// One alias declaration.
#[derive(Clone, Copy, PartialEq, Eq, Structural, Debug)]
pub struct AliasDecl {
    pub source: SourceId,
    pub name: Symbol,
    pub name_span: Span,
    pub form: AliasForm,
}

/// What an alias's name may not already mean: the builtin types' names, and every
/// other type the program declares, in order.
#[derive(Debug)]
pub struct TakenNames {
    pub builtins: Vec<Symbol>,
    pub declared: Vec<(Symbol, NameClash)>,
}

/// What the first declaration from `from` on called `name` is.
pub open spec fn declared_as(declared: Seq<(Symbol, NameClash)>, name: Symbol, from: int) -> Option<
    NameClash,
>
    decreases declared.len() - from,
{
    if from < 0 || from >= declared.len() {
        None
    } else if declared[from].0 == name {
        Some(declared[from].1)
    } else {
        declared_as(declared, name, from + 1)
    }
}

/// What `name` already means, when an alias may not claim it.
pub open spec fn collision(
    aliases: Map<Symbol, AliasHeader>,
    taken: &TakenNames,
    name: Symbol,
) -> Option<NameClash> {
    if taken.builtins@.contains(name) {
        Some(NameClash::Builtin)
    } else if aliases.contains_key(name) {
        Some(NameClash::EarlierAlias)
    } else {
        declared_as(taken.declared@, name, 0)
    }
}

fn alias_name_collision(
    aliases: &SymbolMap<AliasHeader>,
    taken: &TakenNames,
    name: Symbol,
) -> (clash: Option<NameClash>)
    requires
        aliases.wf(),
    ensures
        clash == collision(aliases@, taken, name),
{
    if names_list(&taken.builtins, name) {
        return Some(NameClash::Builtin);
    }
    if aliases.contains(name) {
        return Some(NameClash::EarlierAlias);
    }
    let mut i: usize = 0;
    while i < taken.declared.len()
        invariant
            i <= taken.declared@.len(),
            !taken.builtins@.contains(name),
            !aliases@.contains_key(name),
            declared_as(taken.declared@, name, 0) == declared_as(taken.declared@, name, i as int),
        decreases taken.declared@.len() - i,
    {
        let (declared, what): (Symbol, NameClash) = taken.declared[i];
        if declared == name {
            return Some(what);
        }
        i += 1;
    }
    None
}

/// The body an alias declaration has, where it registers anything at all.
pub open spec fn body_of(form: AliasForm) -> Option<(AliasBody, Option<Symbol>)> {
    match form {
        AliasForm::Type(target) => Some((AliasBody::Written(target), None)),
        AliasForm::Foreign { target: Some(target), yields, description } => if yields {
            None
        } else {
            Some((AliasBody::Written(target), description))
        },
        AliasForm::Foreign { .. } => None,
        AliasForm::Pointer { yields, description } => if yields {
            None
        } else {
            Some((AliasBody::RawPtr, description))
        },
    }
}

/// Whether a declaration restates an alias some foreign declaration already
/// described the same way: that C type arriving twice.
pub open spec fn restates(
    aliases: Map<Symbol, AliasHeader>,
    name: Symbol,
    description: Option<Symbol>,
) -> bool {
    description is Some && aliases.contains_key(name) && aliases[name].description == description
}

/// The aliases after one declaration.
pub open spec fn alias_added(
    aliases: Map<Symbol, AliasHeader>,
    taken: &TakenNames,
    decl: AliasDecl,
) -> Map<Symbol, AliasHeader> {
    match body_of(decl.form) {
        Some((body, description)) => if restates(aliases, decl.name, description) || collision(
            aliases,
            taken,
            decl.name,
        ) is Some {
            aliases
        } else {
            aliases.insert(
                decl.name,
                AliasHeader {
                    body,
                    name_span: decl.name_span,
                    state: AliasState::Unresolved,
                    description,
                },
            )
        },
        None => aliases,
    }
}

/// What one declaration is refused for.
pub open spec fn alias_refusal(
    aliases: Map<Symbol, AliasHeader>,
    taken: &TakenNames,
    decl: AliasDecl,
) -> Option<Problem> {
    match (decl.form, body_of(decl.form)) {
        (AliasForm::Foreign { target: None, .. }, _) => Some(Problem::AliasTargetMissing),
        (_, Some((_, description))) => if restates(aliases, decl.name, description) {
            None
        } else {
            match collision(aliases, taken, decl.name) {
                Some(with) => Some(Problem::AliasCollides { alias: decl.name, with }),
                None => None,
            }
        },
        _ => None,
    }
}

/// The aliases after the first `count` declarations.
pub open spec fn aliases_after(
    aliases: Map<Symbol, AliasHeader>,
    taken: &TakenNames,
    decls: Seq<AliasDecl>,
    count: int,
) -> Map<Symbol, AliasHeader>
    decreases count,
{
    if count <= 0 {
        aliases
    } else {
        alias_added(aliases_after(aliases, taken, decls, count - 1), taken, decls[count - 1])
    }
}

/// What the first `count` declarations are refused for.
pub open spec fn alias_refusals(
    aliases: Map<Symbol, AliasHeader>,
    taken: &TakenNames,
    decls: Seq<AliasDecl>,
    count: int,
) -> Seq<Diagnostic>
    decreases count,
{
    if count <= 0 {
        Seq::empty()
    } else {
        let before = alias_refusals(aliases, taken, decls, count - 1);
        let decl = decls[count - 1];
        match alias_refusal(aliases_after(aliases, taken, decls, count - 1), taken, decl) {
            Some(problem) => before.push(blamed(decl.source, decl.name_span, problem)),
            None => before,
        }
    }
}

fn register_alias(
    aliases: &mut SymbolMap<AliasHeader>,
    taken: &TakenNames,
    decl: AliasDecl,
    log: &mut Log,
)
    requires
        old(aliases).wf(),
    ensures
        final(aliases).wf(),
        final(aliases)@ == alias_added(old(aliases)@, taken, decl),
        match alias_refusal(old(aliases)@, taken, decl) {
            Some(problem) => final(log).reported(
                old(log),
                decl.source,
                decl.name_span,
                problem,
            ),
            None => final(log).diagnostics@ == old(log).diagnostics@,
        },
        final(log).source == decl.source,
{
    log.source = decl.source;
    let (body, description): (AliasBody, Option<Symbol>) = match decl.form {
        AliasForm::Type(target) => (AliasBody::Written(target), None),
        AliasForm::Foreign { target, yields, description } => match target {
            Some(target) => {
                if yields {
                    return ;
                }
                (AliasBody::Written(target), description)
            },
            None => {
                log.emit(decl.name_span, Problem::AliasTargetMissing);
                return ;
            },
        },
        AliasForm::Pointer { yields, description } => {
            if yields {
                return ;
            }
            (AliasBody::RawPtr, description)
        },
    };
    if description.is_some() {
        if let Some(at) = aliases.find(decl.name) {
            if aliases.rows[at].1.description == description {
                return ;
            }
        }
    }
    if let Some(with) = alias_name_collision(aliases, taken, decl.name) {
        log.emit(decl.name_span, Problem::AliasCollides { alias: decl.name, with });
        return ;
    }
    aliases.insert(
        decl.name,
        AliasHeader {
            body,
            name_span: decl.name_span,
            state: AliasState::Unresolved,
            description,
        },
    );
}

/// Registers every alias, refusing a name that already means something else:
/// an alias ignored in silence would give a wrong answer instead of an error.
/// Nothing is resolved here, because a target may name a type no table has yet.
pub fn collect_type_aliases(
    aliases: &mut SymbolMap<AliasHeader>,
    taken: &TakenNames,
    decls: &Vec<AliasDecl>,
    log: &mut Log,
)
    requires
        old(aliases).wf(),
    ensures
        final(aliases).wf(),
        final(aliases)@ == aliases_after(old(aliases)@, taken, decls@, decls@.len() as int),
        final(log).diagnostics@ == old(log).diagnostics@ + alias_refusals(
            old(aliases)@,
            taken,
            decls@,
            decls@.len() as int,
        ),
        final(log).source == if decls@.len() == 0 {
            old(log).source
        } else {
            decls@.last().source
        },
{
    let ghost start = aliases@;
    let ghost said = log.diagnostics@;
    let mut i: usize = 0;
    assert(said + Seq::<Diagnostic>::empty() =~= said);
    while i < decls.len()
        invariant
            i <= decls@.len(),
            aliases.wf(),
            aliases@ == aliases_after(start, taken, decls@, i as int),
            log.diagnostics@ == said + alias_refusals(start, taken, decls@, i as int),
            i == 0 ==> log.source == old(log).source,
            i > 0 ==> log.source == decls@[i - 1].source,
        decreases decls@.len() - i,
    {
        register_alias(aliases, taken, decls[i], log);
        i += 1;
        assert(log.diagnostics@ =~= said + alias_refusals(start, taken, decls@, i as int));
    }
}

/// How resolving a name as an alias goes on.
#[derive(Clone, Copy, PartialEq, Eq, Structural, Debug)]
pub enum AliasStep {
    /// No alias has that name.
    NotOne,
    /// It stands for this type.
    Type(Type),
    /// Its target is resolved now.
    Resolve(TypeRefId),
}

/// The step, and the header after it, of an alias that stands as `header` does.
pub open spec fn alias_step(header: AliasHeader) -> (AliasStep, AliasHeader) {
    match (header.state, header.body) {
        (AliasState::Resolved(ty), _) => (AliasStep::Type(ty), header),
        (AliasState::Resolving, _) => (
            AliasStep::Type(Type::Error),
            AliasHeader { state: AliasState::Caught, ..header },
        ),
        (AliasState::Caught, _) => (AliasStep::Type(Type::Error), header),
        (AliasState::Unresolved, AliasBody::RawPtr) => (
            AliasStep::Type(Type::RawPtr),
            AliasHeader { state: AliasState::Resolved(Type::RawPtr), ..header },
        ),
        (AliasState::Unresolved, AliasBody::Written(target)) => (
            AliasStep::Resolve(target),
            AliasHeader { state: AliasState::Resolving, ..header },
        ),
    }
}

/// Resolves a name as an alias, or tells what has to be resolved first. An alias
/// reached while it resolves is reported, the first time.
pub fn resolve_alias_name(aliases: &mut SymbolMap<AliasHeader>, name: Symbol, log: &mut Log) -> (step:
    AliasStep)
    requires
        old(aliases).wf(),
    ensures
        final(aliases).wf(),
        final(log).source == old(log).source,
        if old(aliases)@.contains_key(name) {
            let header = old(aliases)@[name];
            &&& step == alias_step(header).0
            &&& final(aliases)@ == old(aliases)@.insert(name, alias_step(header).1)
            &&& if header.state == AliasState::Resolving {
                final(log).reported(
                    old(log),
                    old(log).source,
                    header.name_span,
                    (Problem::AliasCycle { alias: name }),
                )
            } else {
                final(log).quiet(old(log))
            }
        } else {
            step == AliasStep::NotOne && final(aliases)@ == old(aliases)@ && final(log).quiet(
                old(log),
            )
        },
{
    let header: AliasHeader = match aliases.find(name) {
        Some(at) => aliases.rows[at].1,
        None => {
            return AliasStep::NotOne;
        },
    };
    match header.state {
        AliasState::Resolved(ty) => {
            assert(aliases@ =~= aliases@.insert(name, header));
            AliasStep::Type(ty)
        },
        AliasState::Caught => {
            assert(aliases@ =~= aliases@.insert(name, header));
            AliasStep::Type(Type::Error)
        },
        AliasState::Resolving => {
            aliases.insert(name, AliasHeader { state: AliasState::Caught, ..header });
            log.emit(header.name_span, Problem::AliasCycle { alias: name });
            AliasStep::Type(Type::Error)
        },
        AliasState::Unresolved => match header.body {
            AliasBody::RawPtr => {
                aliases.insert(
                    name,
                    AliasHeader { state: AliasState::Resolved(Type::RawPtr), ..header },
                );
                AliasStep::Type(Type::RawPtr)
            },
            AliasBody::Written(target) => {
                aliases.insert(name, AliasHeader { state: AliasState::Resolving, ..header });
                AliasStep::Resolve(target)
            },
        },
    }
}

/// What an alias stands as once its target resolved to `ty`. Only a success is
/// remembered: a target that does not resolve is reported by each use at its own
/// place.
pub open spec fn settled(ty: Type) -> AliasState {
    match ty {
        Type::Error => AliasState::Unresolved,
        _ => AliasState::Resolved(ty),
    }
}

/// Records what an alias's target resolved to.
pub fn finish_alias(aliases: &mut SymbolMap<AliasHeader>, name: Symbol, ty: Type)
    requires
        old(aliases).wf(),
    ensures
        final(aliases).wf(),
        final(aliases)@ == if old(aliases)@.contains_key(name) {
            old(aliases)@.insert(
                name,
                AliasHeader { state: settled(ty), ..old(aliases)@[name] },
            )
        } else {
            old(aliases)@
        },
{
    if let Some(at) = aliases.find(name) {
        let header = aliases.rows[at].1;
        let state = if ty == Type::Error {
            AliasState::Unresolved
        } else {
            AliasState::Resolved(ty)
        };
        aliases.insert(name, AliasHeader { state, ..header });
    }
}

/// A chain of aliases always ends: one whose target is being resolved answers
/// every further demand with the error type, and resolves nothing again until it
/// is finished.
pub proof fn a_chain_ends(header: AliasHeader)
    requires
        alias_step(header).0 is Resolve,
    ensures
        ({
            let resolving = alias_step(header).1;
            let again = alias_step(resolving);
            &&& again.0 == AliasStep::Type(Type::Error)
            &&& alias_step(again.1).0 == AliasStep::Type(Type::Error)
            &&& alias_step(again.1).1 == again.1
        }),
{
}

/// A remembered alias answers with its type from then on.
pub proof fn a_resolved_alias_is_remembered(header: AliasHeader, ty: Type)
    requires
        ty != Type::Error,
    ensures
        ({
            let done = AliasHeader { state: settled(ty), ..header };
            alias_step(done) == (AliasStep::Type(ty), done)
        }),
{
}

/// No alias takes a name that already means something, and no declaration changes
/// an alias that is there.
pub proof fn an_alias_is_registered_once(
    aliases: Map<Symbol, AliasHeader>,
    taken: &TakenNames,
    decl: AliasDecl,
    name: Symbol,
)
    requires
        aliases.contains_key(name),
    ensures
        alias_added(aliases, taken, decl).contains_key(name),
        alias_added(aliases, taken, decl)[name] == aliases[name],
{
}

proof fn lemma_declared_first(declared: Seq<(Symbol, NameClash)>, name: Symbol, from: int)
    requires
        0 <= from <= declared.len(),
    ensures
        match declared_as(declared, name, from) {
            Some(clash) => exists|i: int|
                from <= i < declared.len() && #[trigger] declared[i] == (name, clash) && forall|
                    k: int,
                |
                    from <= k < i ==> (#[trigger] declared[k]).0 != name,
            None => forall|k: int|
                from <= k < declared.len() ==> (#[trigger] declared[k]).0 != name,
        },
    decreases declared.len() - from,
{
    if from < declared.len() {
        if declared[from].0 == name {
            assert(declared[from] == (name, declared[from].1));
        } else {
            lemma_declared_first(declared, name, from + 1);
            if let Some(clash) = declared_as(declared, name, from) {
                let i = choose|i: int|
                    from + 1 <= i < declared.len() && #[trigger] declared[i] == (name, clash)
                        && forall|k: int|
                        from + 1 <= k < i ==> (#[trigger] declared[k]).0 != name;
                assert(declared[i] == (name, clash));
            }
        }
    }
}

/// A written alias registers under its name, for its own target, exactly where that name
/// means nothing yet: no builtin, no earlier alias and no declared type. It is refused
/// exactly where it does not register.
pub proof fn a_free_alias_name_registers(
    aliases: Map<Symbol, AliasHeader>,
    taken: &TakenNames,
    decl: AliasDecl,
    target: TypeRefId,
)
    requires
        decl.form == AliasForm::Type(target),
    ensures
        ({
            let free = !taken.builtins@.contains(decl.name) && !aliases.contains_key(decl.name)
                && forall|i: int|
                0 <= i < taken.declared@.len() ==> (#[trigger] taken.declared@[i]).0 != decl.name;
            let after = alias_added(aliases, taken, decl);
            &&& free ==> after == aliases.insert(
                decl.name,
                AliasHeader {
                    body: AliasBody::Written(target),
                    name_span: decl.name_span,
                    state: AliasState::Unresolved,
                    description: None,
                },
            )
            &&& !free ==> after == aliases
            &&& alias_refusal(aliases, taken, decl) is None <==> free
        }),
{
    lemma_declared_first(taken.declared@, decl.name, 0);
}

/// What a refused alias is told its name clashes with is there: a builtin, an alias, or
/// the first type declared under the name.
pub proof fn a_refused_alias_names_its_clash(
    aliases: Map<Symbol, AliasHeader>,
    taken: &TakenNames,
    decl: AliasDecl,
    with: NameClash,
)
    requires
        alias_refusal(aliases, taken, decl) == Some(
            (Problem::AliasCollides { alias: decl.name, with }),
        ),
    ensures
        taken.builtins@.contains(decl.name) ==> with == NameClash::Builtin,
        !taken.builtins@.contains(decl.name) && aliases.contains_key(decl.name) ==> with
            == NameClash::EarlierAlias,
        !taken.builtins@.contains(decl.name) && !aliases.contains_key(decl.name)
            ==> taken.declared@.contains((decl.name, with)),
{
    lemma_declared_first(taken.declared@, decl.name, 0);
}

/// A foreign description of a C type that an alias already has under that name, described
/// alike, changes nothing and is refused for nothing; one that yields to another
/// declaration registers nothing; any other registers what it names where its name is
/// free. A foreign alias without a target is always refused.
pub proof fn a_foreign_alias_registers_once(
    aliases: Map<Symbol, AliasHeader>,
    taken: &TakenNames,
    decl: AliasDecl,
    yields: bool,
    description: Option<Symbol>,
)
    ensures
        ({
            let after = alias_added(aliases, taken, decl);
            let refusal = alias_refusal(aliases, taken, decl);
            let again = description is Some && aliases.contains_key(decl.name)
                && aliases[decl.name].description == description;
            let free = !taken.builtins@.contains(decl.name) && !aliases.contains_key(decl.name)
                && forall|i: int|
                0 <= i < taken.declared@.len() ==> (#[trigger] taken.declared@[i]).0 != decl.name;
            &&& decl.form == (AliasForm::Pointer { yields, description }) ==> {
                &&& yields || again ==> after == aliases && refusal is None
                &&& !yields && free ==> refusal is None && after == aliases.insert(
                    decl.name,
                    AliasHeader {
                        body: AliasBody::RawPtr,
                        name_span: decl.name_span,
                        state: AliasState::Unresolved,
                        description,
                    },
                )
                &&& !yields && !again && !free ==> after == aliases && refusal is Some
            }
            &&& forall|target: TypeRefId|
                decl.form == (#[trigger] foreign_to(target, yields, description)) ==> {
                    &&& yields || again ==> after == aliases && refusal is None
                    &&& !yields && free ==> refusal is None && after == aliases.insert(
                        decl.name,
                        AliasHeader {
                            body: AliasBody::Written(target),
                            name_span: decl.name_span,
                            state: AliasState::Unresolved,
                            description,
                        },
                    )
                    &&& !yields && !again && !free ==> after == aliases && refusal is Some
                }
            &&& decl.form == (AliasForm::Foreign { target: None, yields, description }) ==> after
                == aliases && refusal == Some(Problem::AliasTargetMissing)
        }),
{
    lemma_declared_first(taken.declared@, decl.name, 0);
}

/// A foreign alias of `target`.
pub open spec fn foreign_to(
    target: TypeRefId,
    yields: bool,
    description: Option<Symbol>,
) -> AliasForm {
    AliasForm::Foreign { target: Some(target), yields, description }
}

/// The first use of an alias resolves the target it was written with, and a native
/// pointer is one from the first use on; nothing about an alias changes but how far it
/// has got. A target that did not resolve is resolved again by the next use.
pub proof fn an_alias_means_its_target(header: AliasHeader, target: TypeRefId)
    ensures
        header.state == AliasState::Unresolved && header.body == AliasBody::Written(target)
            ==> alias_step(header).0 == AliasStep::Resolve(target),
        header.state == AliasState::Unresolved && header.body == AliasBody::RawPtr
            ==> alias_step(header).0 == AliasStep::Type(Type::RawPtr) && alias_step(
            alias_step(header).1,
        ).0 == AliasStep::Type(Type::RawPtr),
        alias_step(header).1.body == header.body,
        alias_step(header).1.name_span == header.name_span,
        alias_step(header).1.description == header.description,
        header.state == AliasState::Resolving ==> alias_step(header).0 == AliasStep::Type(
            Type::Error,
        ),
        header.body == AliasBody::Written(target) ==> alias_step(
            AliasHeader { state: settled(Type::Error), ..header },
        ).0 == AliasStep::Resolve(target),
{
}

proof fn lemma_aliases_kept(
    aliases: Map<Symbol, AliasHeader>,
    taken: &TakenNames,
    decls: Seq<AliasDecl>,
    from: int,
    count: int,
    name: Symbol,
)
    requires
        0 <= from <= count <= decls.len(),
        aliases_after(aliases, taken, decls, from).contains_key(name),
    ensures
        aliases_after(aliases, taken, decls, count).contains_key(name),
        aliases_after(aliases, taken, decls, count)[name] == aliases_after(
            aliases,
            taken,
            decls,
            from,
        )[name],
    decreases count,
{
    if from < count {
        lemma_aliases_kept(aliases, taken, decls, from, count - 1, name);
        assert(collision(
            aliases_after(aliases, taken, decls, count - 1),
            taken,
            name,
        ) is Some);
    }
}

proof fn lemma_refused_once(
    aliases: Map<Symbol, AliasHeader>,
    taken: &TakenNames,
    decls: Seq<AliasDecl>,
    count: int,
    k: int,
)
    requires
        0 <= k < count <= decls.len(),
        alias_refusals(aliases, taken, decls, count).len() == 0,
    ensures
        alias_refusal(aliases_after(aliases, taken, decls, k), taken, decls[k]) is None,
    decreases count,
{
    if k < count - 1 {
        lemma_refused_once(aliases, taken, decls, count - 1, k);
    }
}

/// Where no alias is refused, every type alias the program writes is registered with the
/// target it was written with, and no later alias changes it.
pub proof fn a_silent_program_registers_every_alias(
    aliases: Map<Symbol, AliasHeader>,
    taken: &TakenNames,
    decls: Seq<AliasDecl>,
    k: int,
    target: TypeRefId,
)
    requires
        0 <= k < decls.len(),
        decls[k].form == AliasForm::Type(target),
        alias_refusals(aliases, taken, decls, decls.len() as int).len() == 0,
    ensures
        aliases_after(aliases, taken, decls, decls.len() as int).contains_key(decls[k].name),
        aliases_after(aliases, taken, decls, decls.len() as int)[decls[k].name].body
            == AliasBody::Written(target),
{
    let count = decls.len() as int;
    lemma_refused_once(aliases, taken, decls, count, k);
    a_free_alias_name_registers(aliases_after(aliases, taken, decls, k), taken, decls[k], target);
    assert(aliases_after(aliases, taken, decls, k + 1).contains_key(decls[k].name));
    lemma_aliases_kept(aliases, taken, decls, k + 1, count, decls[k].name);
}

} // verus!
