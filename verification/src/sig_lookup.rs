//! Questions about the signature table: lookup by name, parameter shapes and
//! defaults, and the entrypoint.

use vstd::prelude::*;

use crate::build_kind::BuildKind;
use crate::callables::{is_qualified, same_name, CallName, NameForm};
use crate::diagnostics::{Log, Problem};
use crate::hir::{FuncId, HirExpr, HirExprId, HirProgram};
use crate::imports::ImportTable;
use crate::lists::copied;
use crate::names::Symbol;
use crate::signatures::{FuncSig, SigTable};
use crate::source::{FileSpan, SourceId, Span};
use crate::syntax::{ExprId, FieldDefault};
use crate::ty::{OwnershipMode, StructId, Type};

verus! {

/// Whether `name`, written in `source`, reaches `sig`.
///
/// A bare name reaches only the files the writing one sees. A qualified name is
/// reached through a value whose type was already gated.
pub open spec fn reached_by(
    imports: &ImportTable,
    source: SourceId,
    sig: FuncSig,
    name: (NameForm, Seq<(usize, Symbol)>),
) -> bool {
    sig.indexed && sig.name@ == name && (is_qualified(name.0) || imports.seen(source, sig.source))
}

/// The signatures among the first `count` that `name` reaches, in declaration
/// order.
pub open spec fn overloads_of(
    imports: &ImportTable,
    source: SourceId,
    sigs: Seq<FuncSig>,
    name: (NameForm, Seq<(usize, Symbol)>),
    count: int,
) -> Seq<FuncId>
    decreases count,
{
    if count <= 0 {
        Seq::empty()
    } else {
        let before = overloads_of(imports, source, sigs, name, count - 1);
        if reached_by(imports, source, sigs[count - 1], name) {
            before.push(FuncId((count - 1) as u32))
        } else {
            before
        }
    }
}

fn qualified(form: NameForm) -> (res: bool)
    ensures
        res == is_qualified(form),
{
    match form {
        NameForm::Method { .. } => true,
        NameForm::Shadowed { .. } => true,
        _ => false,
    }
}

/// Every declaration answering to `name` that `source` may see.
pub fn visible_overloads(
    table: &SigTable,
    imports: &ImportTable,
    source: SourceId,
    name: &CallName,
) -> (ids: Vec<FuncId>)
    requires
        table.sigs@.len() <= u32::MAX,
    ensures
        ids@ == overloads_of(imports, source, table.sigs@, name@, table.sigs@.len() as int),
{
    let mut ids: Vec<FuncId> = Vec::new();
    let mut i: usize = 0;
    while i < table.sigs.len()
        invariant
            i <= table.sigs@.len() <= u32::MAX,
            ids@ == overloads_of(imports, source, table.sigs@, name@, i as int),
        decreases table.sigs@.len() - i,
    {
        let sig = &table.sigs[i];
        if sig.indexed && same_name(&sig.name, name) && (qualified(name.form) || imports.sees(
            source,
            sig.source,
        )) {
            ids.push(FuncId(i as u32));
        }
        i += 1;
    }
    ids
}

/// The first declaration answering to `name` that `source` may see.
///
/// An overloaded name has no single answer; every caller either only asks whether
/// the name exists, or resolves the overload itself first.
pub fn lookup_function(
    table: &SigTable,
    imports: &ImportTable,
    source: SourceId,
    name: &CallName,
) -> (found: Option<FuncId>)
    requires
        table.sigs@.len() <= u32::MAX,
    ensures
        match found {
            Some(id) => id.0 < table.sigs@.len() && reached_by(
                imports,
                source,
                table.sigs@[id.0 as int],
                name@,
            ) && forall|i: int|
                0 <= i < id.0 ==> !reached_by(imports, source, #[trigger] table.sigs@[i], name@),
            None => forall|i: int|
                0 <= i < table.sigs@.len() ==> !reached_by(
                    imports,
                    source,
                    #[trigger] table.sigs@[i],
                    name@,
                ),
        },
{
    let mut i: usize = 0;
    while i < table.sigs.len()
        invariant
            i <= table.sigs@.len() <= u32::MAX,
            forall|k: int|
                0 <= k < i ==> !reached_by(imports, source, #[trigger] table.sigs@[k], name@),
        decreases table.sigs@.len() - i,
    {
        let sig = &table.sigs[i];
        if sig.indexed && same_name(&sig.name, name) && (qualified(name.form) || imports.sees(
            source,
            sig.source,
        )) {
            return Some(FuncId(i as u32));
        }
        i += 1;
    }
    None
}

/// Whether `sig` is method `owner.method` declared on receiver `receiver`.
pub open spec fn method_on(sig: FuncSig, receiver: StructId, owner: Symbol, method: Symbol) -> bool {
    &&& sig.indexed
    &&& sig.name@.0 == (NameForm::Method { owner, name: method })
    &&& sig.name@.1.len() == 0
    &&& sig.params@.len() > 0
    &&& sig.params@[0] == Type::Struct(receiver)
}

/// The method `method` as it is declared on receiver struct `receiver`, whose
/// type is spelled `owner`.
///
/// Two packages may each declare a class of one name, which lands both under one
/// name; matching the declared receiver picks the body this value's type means.
pub fn lookup_method_for_receiver(
    table: &SigTable,
    receiver: StructId,
    owner: Symbol,
    method: Symbol,
) -> (found: Option<FuncId>)
    requires
        table.sigs@.len() <= u32::MAX,
    ensures
        match found {
            Some(id) => id.0 < table.sigs@.len() && method_on(
                table.sigs@[id.0 as int],
                receiver,
                owner,
                method,
            ) && forall|i: int|
                0 <= i < id.0 ==> !method_on(#[trigger] table.sigs@[i], receiver, owner, method),
            None => forall|i: int|
                0 <= i < table.sigs@.len() ==> !method_on(
                    #[trigger] table.sigs@[i],
                    receiver,
                    owner,
                    method,
                ),
        },
{
    let form = NameForm::Method { owner, name: method };
    let mut i: usize = 0;
    while i < table.sigs.len()
        invariant
            i <= table.sigs@.len() <= u32::MAX,
            form == (NameForm::Method { owner, name: method }),
            forall|k: int|
                0 <= k < i ==> !method_on(#[trigger] table.sigs@[k], receiver, owner, method),
        decreases table.sigs@.len() - i,
    {
        let sig = &table.sigs[i];
        if sig.indexed && sig.name.form == form && sig.name.copies.len() == 0 && sig.params.len()
            > 0 && sig.params[0] == Type::Struct(receiver) {
            return Some(FuncId(i as u32));
        }
        i += 1;
    }
    None
}

impl SigTable {
    /// Whether `id` has a signature.
    pub open spec fn has(&self, id: FuncId) -> bool {
        id.0 < self.sigs@.len()
    }

    /// The ownership mode each parameter of `id` declares, receiver included.
    pub fn param_ownership(&self, id: FuncId) -> (modes: Vec<OwnershipMode>)
        requires
            self.has(id),
        ensures
            modes@ == self.sigs@[id.0 as int].param_ownership@,
    {
        copied(&self.sigs[id.0 as usize].param_ownership)
    }

    /// The resolved type of each parameter of `id`, receiver included.
    pub fn param_types(&self, id: FuncId) -> (types: Vec<Type>)
        requires
            self.has(id),
        ensures
            types@ == self.sigs@[id.0 as int].params@,
    {
        copied(&self.sigs[id.0 as usize].params)
    }

    /// The resolved return type of `id`, `Void` when none was written.
    pub fn signature_return_type(&self, id: FuncId) -> (ty: Type)
        requires
            self.has(id),
        ensures
            ty == self.sigs@[id.0 as int].return_type,
    {
        self.sigs[id.0 as usize].return_type
    }

    /// Where `id` was declared, which a call site links to. A synthesized
    /// function has no written declaration.
    pub fn function_identity(&self, id: FuncId) -> (at: Option<FileSpan>)
        ensures
            at == if self.has(id) {
                Some(
                    FileSpan {
                        source: self.sigs@[id.0 as int].source,
                        span: self.sigs@[id.0 as int].name_span,
                    },
                )
            } else {
                None
            },
    {
        if (id.0 as usize) < self.sigs.len() {
            let sig = &self.sigs[id.0 as usize];
            Some(FileSpan { source: sig.source, span: sig.name_span })
        } else {
            None
        }
    }

    /// The default of parameter `slot` of `id`, if one was written.
    pub open spec fn default_at(&self, id: FuncId, slot: int) -> Option<FieldDefault> {
        if id.0 < self.param_defaults@.len() && slot < self.param_defaults@[id.0 as int]@.len() {
            self.param_defaults@[id.0 as int]@[slot]
        } else {
            None
        }
    }

    /// The default recorded for parameter `slot` of `id`, if one was written.
    pub fn param_default(&self, id: FuncId, slot: usize) -> (default: Option<FieldDefault>)
        ensures
            default == self.default_at(id, slot as int),
    {
        if (id.0 as usize) < self.param_defaults.len() && slot
            < self.param_defaults[id.0 as usize].len() {
            self.param_defaults[id.0 as usize][slot]
        } else {
            None
        }
    }
}

/// A reference and the declaration it resolved to.
#[derive(Clone, Copy, PartialEq, Eq, Structural, Debug)]
pub struct DefinitionLink {
    pub reference: FileSpan,
    pub definition: FileSpan,
}

/// Links a call site to the declaration of the function it resolved to. A
/// synthesized function has none to link to.
pub fn link_function(
    table: &SigTable,
    id: FuncId,
    reference: Span,
    source: SourceId,
    definitions: &mut Vec<DefinitionLink>,
)
    ensures
        final(definitions)@ == if table.has(id) {
            old(definitions)@.push(
                DefinitionLink {
                    reference: FileSpan { source, span: reference },
                    definition: FileSpan {
                        source: table.sigs@[id.0 as int].source,
                        span: table.sigs@[id.0 as int].name_span,
                    },
                },
            )
        } else {
            old(definitions)@
        },
{
    if let Some(definition) = table.function_identity(id) {
        definitions.push(
            DefinitionLink { reference: FileSpan { source, span: reference }, definition },
        );
    }
}

/// What resolving a parameter default comes to next.
#[derive(Clone, Copy, PartialEq, Eq, Structural, Debug)]
pub enum DefaultStep {
    /// No default was written.
    Absent,
    /// The default's expression.
    Ready(HirExprId),
    /// The default has to be analyzed, in the file that declares it, against the
    /// parameter's type.
    Analyze { syntax: ExprId, source: SourceId, expected: Option<Type> },
}

/// Whether a default is being resolved.
fn resolving_has(resolving: &Vec<(u32, u32)>, key: (u32, u32)) -> (res: bool)
    ensures
        res == resolving@.contains(key),
{
    let mut i: usize = 0;
    while i < resolving.len()
        invariant
            i <= resolving@.len(),
            forall|k: int| 0 <= k < i ==> resolving@[k] != key,
        decreases resolving@.len() - i,
    {
        let (id, slot): (u32, u32) = resolving[i];
        if id == key.0 && slot == key.1 {
            return true;
        }
        i += 1;
    }
    false
}

/// Begins resolving one parameter default, on first use.
///
/// A default met again while it is being resolved fills itself through the call
/// graph and has no finite value; it is refused, in the file that declares it,
/// at `span`.
pub fn begin_param_default(
    table: &SigTable,
    resolving: &mut Vec<(u32, u32)>,
    id: FuncId,
    slot: u32,
    span: Span,
    program: &mut HirProgram,
    log: &mut Log,
) -> (step: DefaultStep)
    requires
        table.has(id),
        old(program).exprs@.len() < u32::MAX,
    ensures
        match table.default_at(id, slot as int) {
            None => {
                &&& step == DefaultStep::Absent
                &&& *final(program) == *old(program)
                &&& *final(log) == *old(log)
                &&& final(resolving)@ == old(resolving)@
            },
            Some(default) => match default.resolved {
                Some(resolved) => {
                    &&& step == DefaultStep::Ready(resolved)
                    &&& *final(program) == *old(program)
                    &&& *final(log) == *old(log)
                    &&& final(resolving)@ == old(resolving)@
                },
                None => if old(resolving)@.contains((id.0, slot)) {
                    &&& step == DefaultStep::Ready(HirExprId(old(program).exprs@.len() as u32))
                    &&& final(program).exprs@ == old(program).exprs@.push(HirExpr::Error)
                    &&& *final(program) == (HirProgram {
                        exprs: final(program).exprs,
                        ..*old(program)
                    })
                    &&& final(log).source == old(log).source
                    &&& final(log).reported(
                        old(log),
                        default.source,
                        span,
                        Problem::EndlessParameterDefault,
                    )
                    &&& final(resolving)@ == old(resolving)@
                } else {
                    &&& step == (DefaultStep::Analyze {
                        syntax: default.syntax,
                        source: default.source,
                        expected: if slot < table.sigs@[id.0 as int].params@.len() {
                            Some(table.sigs@[id.0 as int].params@[slot as int])
                        } else {
                            None
                        },
                    })
                    &&& *final(program) == *old(program)
                    &&& *final(log) == *old(log)
                    &&& final(resolving)@ == old(resolving)@.push((id.0, slot))
                },
            },
        },
{
    let default = match table.param_default(id, slot as usize) {
        Some(default) => default,
        None => {
            return DefaultStep::Absent;
        },
    };
    if let Some(resolved) = default.resolved {
        return DefaultStep::Ready(resolved);
    }
    if resolving_has(resolving, (id.0, slot)) {
        let previous = log.source;
        log.source = default.source;
        log.emit(span, Problem::EndlessParameterDefault);
        log.source = previous;
        return DefaultStep::Ready(program.add_expr(HirExpr::Error));
    }
    resolving.push((id.0, slot));
    let params = &table.sigs[id.0 as usize].params;
    let expected = if (slot as usize) < params.len() {
        Some(params[slot as usize])
    } else {
        None
    };
    DefaultStep::Analyze { syntax: default.syntax, source: default.source, expected }
}

/// The key at the end of `resolving` is `(id, slot)`: the default begun last.
pub open spec fn begun_last(resolving: Seq<(u32, u32)>, id: FuncId, slot: u32) -> bool {
    resolving.len() > 0 && resolving.last() == (id.0, slot)
}

/// Records the analyzed expression of the default begun last, which every call
/// that omits the argument then shares.
pub fn finish_param_default(
    table: &mut SigTable,
    resolving: &mut Vec<(u32, u32)>,
    id: FuncId,
    slot: u32,
    resolved: HirExprId,
)
    requires
        begun_last(old(resolving)@, id, slot),
        old(table).default_at(id, slot as int) is Some,
    ensures
        final(resolving)@ == old(resolving)@.drop_last(),
        final(table).sigs == old(table).sigs,
        final(table).default_at(id, slot as int) == Some(
            FieldDefault {
                resolved: Some(resolved),
                ..old(table).default_at(id, slot as int)->0
            },
        ),
        forall|other: FuncId, at: int|
            0 <= at && (other != id || at != slot) ==> #[trigger] final(table).default_at(other, at)
                == old(table).default_at(other, at),
{
    let _ = resolving.pop();
    let mut filled = self::default_or(table, id, slot);
    filled.resolved = Some(resolved);
    let mut row = copied(&table.param_defaults[id.0 as usize]);
    row[slot as usize] = Some(filled);
    table.param_defaults[id.0 as usize] = row;
}

fn default_or(table: &SigTable, id: FuncId, slot: u32) -> (default: FieldDefault)
    requires
        table.default_at(id, slot as int) is Some,
    ensures
        Some(default) == table.default_at(id, slot as int),
{
    match table.param_default(id, slot as usize) {
        Some(default) => default,
        None => FieldDefault::new(ExprId(0), SourceId(0)),
    }
}

/// A default is analyzed once: asked again after it was recorded, it is ready.
pub proof fn a_default_is_resolved_once(
    before: &SigTable,
    after: &SigTable,
    id: FuncId,
    slot: u32,
    resolved: HirExprId,
)
    requires
        before.default_at(id, slot as int) is Some,
        after.default_at(id, slot as int) == Some(
            FieldDefault {
                resolved: Some(resolved),
                ..before.default_at(id, slot as int)->0
            },
        ),
    ensures
        after.default_at(id, slot as int) matches Some(default) && default.resolved == Some(
            resolved,
        ),
{
}

/// The first signature that is `@Main`.
pub open spec fn first_main(sigs: Seq<FuncSig>, found: Option<FuncId>) -> bool {
    match found {
        Some(id) => id.0 < sigs.len() && sigs[id.0 as int].is_main && forall|i: int|
            0 <= i < id.0 ==> !(#[trigger] sigs[i]).is_main,
        None => forall|i: int| 0 <= i < sigs.len() ==> !(#[trigger] sigs[i]).is_main,
    }
}

fn find_main(table: &SigTable) -> (found: Option<FuncId>)
    requires
        table.sigs@.len() <= u32::MAX,
    ensures
        first_main(table.sigs@, found),
{
    let mut i: usize = 0;
    while i < table.sigs.len()
        invariant
            i <= table.sigs@.len() <= u32::MAX,
            forall|k: int| 0 <= k < i ==> !(#[trigger] table.sigs@[k]).is_main,
        decreases table.sigs@.len() - i,
    {
        if table.sigs[i].is_main {
            return Some(FuncId(i as u32));
        }
        i += 1;
    }
    None
}

/// Checks the entrypoint rule for the kind of thing being built: an application
/// needs a `@Main`, which takes no parameters, and a library must have none.
pub fn check_main(
    kind: BuildKind,
    table: &SigTable,
    program: &mut HirProgram,
    log: &mut Log,
)
    requires
        table.sigs@.len() <= u32::MAX,
    ensures
        *final(program) == (HirProgram { main: final(program).main, ..*old(program) }),
        final(log).source == old(log).source,
        forall|found: Option<FuncId>| #[trigger]
            first_main(table.sigs@, found) ==> match (kind, found) {
                (BuildKind::Application, None) => final(log).reported(
                    old(log),
                    old(log).source,
                    Span::nowhere(),
                    Problem::NoEntrypoint,
                ) && final(program).main == old(program).main,
                (BuildKind::Application, Some(id)) => final(program).main == Some(id) && if table.sigs@[id.0 as int].params@.len()
                    == 0 {
                    final(log).quiet(old(log))
                } else {
                    final(log).reported(
                        old(log),
                        old(log).source,
                        table.sigs@[id.0 as int].name_span,
                        Problem::EntrypointTakesParameters,
                    )
                },
                (BuildKind::Library, None) => final(log).quiet(old(log)) && final(program).main
                    == old(program).main,
                (BuildKind::Library, Some(id)) => final(log).reported(
                    old(log),
                    old(log).source,
                    table.sigs@[id.0 as int].name_span,
                    Problem::LibraryHasEntrypoint,
                ) && final(program).main == old(program).main,
            },
{
    let main = find_main(table);
    proof {
        assert forall|found: Option<FuncId>| #[trigger] first_main(
            table.sigs@,
            found,
        ) implies found == main by {
            match (found, main) {
                (Some(a), Some(b)) => {
                    if a.0 < b.0 {
                        assert(!table.sigs@[a.0 as int].is_main);
                    } else if b.0 < a.0 {
                        assert(!table.sigs@[b.0 as int].is_main);
                    }
                },
                (Some(a), None) => {
                    assert(!table.sigs@[a.0 as int].is_main);
                },
                (None, Some(b)) => {
                    assert(!table.sigs@[b.0 as int].is_main);
                },
                (None, None) => {},
            }
        }
    }
    match main {
        None => {
            if kind.requires_entrypoint() {
                log.emit(Span::nowhere(), Problem::NoEntrypoint);
            }
        },
        Some(id) => {
            let name_span = table.sigs[id.0 as usize].name_span;
            match kind {
                BuildKind::Application => {
                    if table.sigs[id.0 as usize].params.len() > 0 {
                        log.emit(name_span, Problem::EntrypointTakesParameters);
                    }
                    program.main = Some(id);
                },
                BuildKind::Library => {
                    log.emit(name_span, Problem::LibraryHasEntrypoint);
                },
            }
        },
    }
}

/// What a declaration's compiled symbol is made of.
pub open spec fn symbol_parts(sig: FuncSig) -> (
    Option<Symbol>,
    (NameForm, Seq<(usize, Symbol)>),
    Option<Seq<Type>>,
) {
    (
        sig.package,
        sig.name@,
        if sig.mangled {
            Some(sig.params@)
        } else {
            None
        },
    )
}

/// Two declarations a call can reach never share a symbol: where they share a
/// name, both symbols name the parameter types, and those differ.
pub proof fn reachable_symbols_differ(sigs: Seq<FuncSig>, i: int, j: int)
    requires
        0 <= i < j < sigs.len(),
        sigs[i].indexed,
        sigs[j].indexed,
        forall|k: int|
            0 <= k < sigs.len() ==> (#[trigger] sigs[k]).mangled
                == crate::signatures::overloaded(sigs, k),
        !crate::signatures::has_twin(sigs, j, sigs[j].name@, sigs[j].params@),
    ensures
        symbol_parts(sigs[i]) != symbol_parts(sigs[j]),
{
    if sigs[i].name@ == sigs[j].name@ {
        assert(sigs[i].indexed && sigs[j].indexed);
        assert(crate::signatures::overloaded(sigs, i));
        assert(crate::signatures::overloaded(sigs, j));
        if sigs[i].params@ == sigs[j].params@ {
            assert(crate::signatures::has_twin(sigs, j, sigs[j].name@, sigs[j].params@));
        }
    }
}

proof fn lemma_overloads(
    imports: &ImportTable,
    source: SourceId,
    sigs: Seq<FuncSig>,
    name: (NameForm, Seq<(usize, Symbol)>),
    count: int,
    k: int,
)
    requires
        0 <= count <= sigs.len() <= u32::MAX,
        0 <= k < sigs.len(),
    ensures
        overloads_of(imports, source, sigs, name, count).contains(FuncId(k as u32)) <==> k < count
            && reached_by(imports, source, sigs[k], name),
        forall|i: int|
            0 <= i < overloads_of(imports, source, sigs, name, count).len() ==> (
            #[trigger] overloads_of(imports, source, sigs, name, count)[i]).0 < count,
        forall|i: int, j: int|
            0 <= i < j < overloads_of(imports, source, sigs, name, count).len() ==> (
            #[trigger] overloads_of(imports, source, sigs, name, count)[i]).0 < (
            #[trigger] overloads_of(imports, source, sigs, name, count)[j]).0,
    decreases count,
{
    if count > 0 {
        lemma_overloads(imports, source, sigs, name, count - 1, k);
        let before = overloads_of(imports, source, sigs, name, count - 1);
        let all = overloads_of(imports, source, sigs, name, count);
        let id = FuncId(k as u32);
        if before.contains(id) {
            let i = choose|i: int| 0 <= i < before.len() && before[i] == id;
            assert(all[i] == id);
        }
        if all.contains(id) && !before.contains(id) {
            let i = choose|i: int| 0 <= i < all.len() && all[i] == id;
            if i < before.len() {
                assert(before[i] == id);
            }
        }
        if k == count - 1 && reached_by(imports, source, sigs[k], name) {
            assert(all[all.len() - 1] == id);
        }
    }
}

/// The overloads a name reaches are all the reachable declarations of that name, in
/// declaration order: those of a free name only where the file that wrote the call sees
/// the file that declares them, and those reached through a value wherever they are.
pub proof fn a_name_reaches_its_overloads(
    imports: &ImportTable,
    source: SourceId,
    sigs: Seq<FuncSig>,
    name: (NameForm, Seq<(usize, Symbol)>),
    k: int,
    i: int,
    j: int,
)
    requires
        0 <= k < sigs.len() <= u32::MAX,
    ensures
        ({
            let all = overloads_of(imports, source, sigs, name, sigs.len() as int);
            &&& all.contains(FuncId(k as u32)) <==> sigs[k].indexed && sigs[k].name@ == name && (
            name.0 is Method || name.0 is Shadowed || imports.seen(source, sigs[k].source))
            &&& 0 <= i < j < all.len() ==> all[i].0 < all[j].0
        }),
{
    lemma_overloads(imports, source, sigs, name, sigs.len() as int, k);
}

/// The entrypoint is the first declaration that is one, and there is none only where no
/// declaration is.
pub proof fn the_entrypoint_is_the_first(sigs: Seq<FuncSig>, found: Option<FuncId>, k: int)
    requires
        first_main(sigs, found),
        0 <= k < sigs.len(),
        sigs[k].is_main,
    ensures
        found matches Some(id) && id.0 <= k && id.0 < sigs.len() && sigs[id.0 as int].is_main,
{
    if let Some(id) = found {
        if k < id.0 {
            assert(!sigs[k].is_main);
        }
    } else {
        assert(!sigs[k].is_main);
    }
}

/// A method of a struct is an indexed declaration registered under the struct's name and
/// the method's, as written, whose receiver is that struct.
pub proof fn a_method_is_on_its_struct(
    sig: FuncSig,
    receiver: StructId,
    owner: Symbol,
    method: Symbol,
)
    ensures
        method_on(sig, receiver, owner, method) <==> sig.indexed && sig.params@.len() > 0
            && sig.params@[0] == Type::Struct(receiver) && sig.name@.0 == (NameForm::Method {
            owner,
            name: method,
        }) && sig.name@.1.len() == 0,
{
}

impl SigTable {
    /// A parameter has the default recorded at its own place of its own function, and none
    /// where nothing is recorded.
    pub proof fn a_default_is_recorded_by_its_place(&self, id: FuncId, slot: int)
        ensures
            id.0 < self.param_defaults@.len() && 0 <= slot
                < self.param_defaults@[id.0 as int]@.len() ==> self.default_at(id, slot)
                == self.param_defaults@[id.0 as int]@[slot],
            id.0 >= self.param_defaults@.len() ==> self.default_at(id, slot) is None,
            id.0 < self.param_defaults@.len() && slot >= self.param_defaults@[id.0 as int]@.len()
                ==> self.default_at(id, slot) is None,
    {
    }
}

} // verus!
