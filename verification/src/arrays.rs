//! Array expressions: literals, index reads, `.count` and `.append`.
//!
//! The array surface is exactly two members, and everything else is refused.
//! Counting only reads, so it takes any expression; appending writes, so it goes
//! through a place, and the write lands in the storage the place names rather
//! than in a copy.

use vstd::prelude::*;
use vstd::string::StringExecFns;

use crate::arguments::carried;
use crate::callables::{CallName, NameForm};
use crate::classes::struct_listed;
use crate::coercion::{admits, coerce_into};
use crate::diagnostics::{lemma_noted_none, lemma_noted_one, noted, Log, Problem};
use crate::drop_reads::{noted_read, without, DropReads};
use crate::hir::{FuncId, HirExpr, HirExprId, HirPlace, HirProgram};
use crate::imports::ImportTable;
use crate::lattice::Lattice;
use crate::names::Symbol;
use crate::scope::{FnCtx, LocalOwnership};
use crate::sig_lookup::{lookup_function, reached_by};
use crate::signatures::SigTable;
use crate::source::Span;
use crate::ty::{interned, row_of, StructId, Type, TypeTable};

verus! {

/// The names the array surface is written with.
#[derive(Clone, Copy, PartialEq, Eq, Structural, Debug)]
pub struct ArrayWords {
    pub count: Symbol,
    pub append: Symbol,
    /// The member a type declares to be indexable.
    pub subscript: Symbol,
}

/// What an expected type says an array literal's elements are.
pub open spec fn element_expected(types: &TypeTable, expected: Option<Type>) -> Option<Type> {
    match expected {
        Some(ty) => types.element(ty),
        None => None,
    }
}

/// What an expected type says an array literal's elements are: nothing, unless it
/// is an array type.
pub fn expected_element(types: &TypeTable, expected: Option<Type>) -> (element: Option<Type>)
    ensures
        element == element_expected(types, expected),
{
    match expected {
        Some(ty) => types.element_of(ty),
        None => None,
    }
}

/// The type of the first of `values` that analyzed cleanly.
pub open spec fn first_sound(program: &HirProgram, values: Seq<HirExprId>) -> Option<Type>
    decreases values.len(),
{
    if values.len() == 0 {
        None
    } else if program.type_at(values[0]) != Type::Error {
        Some(program.type_at(values[0]))
    } else {
        first_sound(program, values.drop_first())
    }
}

/// What an array literal holds: what its position expects, and otherwise the type
/// of the first element that analyzed cleanly.
pub open spec fn literal_element(
    program: &HirProgram,
    values: Seq<HirExprId>,
    expected: Option<Type>,
) -> Option<Type> {
    match expected {
        Some(element) => Some(element),
        None => first_sound(program, values),
    }
}

/// Decides what an array literal holds, or `None` when it cannot be decided.
///
/// An empty literal nothing is expected of is reported. One whose every element
/// failed is not: they already spoke.
pub fn element_type(
    program: &HirProgram,
    values: &Vec<HirExprId>,
    expected: Option<Type>,
    span: Span,
    log: &mut Log,
) -> (element: Option<Type>)
    requires
        forall|k: int| 0 <= k < values@.len() ==> program.has_expr(#[trigger] values@[k]),
    ensures
        element == literal_element(program, values@, expected),
        final(log).source == old(log).source,
        if expected is None && values@.len() == 0 {
            final(log).reported(old(log), old(log).source, span, Problem::ArrayTypeUnknown)
        } else {
            final(log).quiet(old(log))
        },
{
    if expected.is_some() {
        return expected;
    }
    let mut i: usize = 0;
    assert(values@.skip(0) =~= values@);
    while i < values.len()
        invariant
            i <= values@.len(),
            expected is None,
            log.quiet(old(log)),
            forall|k: int| 0 <= k < values@.len() ==> program.has_expr(#[trigger] values@[k]),
            first_sound(program, values@) == first_sound(program, values@.skip(i as int)),
        decreases values@.len() - i,
    {
        assert(program.has_expr(values@[i as int]));
        let ty = program.type_of(values[i]);
        assert(values@.skip(i as int).drop_first() =~= values@.skip(i + 1));
        if ty != Type::Error {
            return Some(ty);
        }
        i += 1;
    }
    if values.len() == 0 {
        log.emit(span, Problem::ArrayTypeUnknown);
    }
    None
}

/// What the first `count` elements are refused for: each of a type the array does
/// not hold, at its own span.
pub open spec fn elements_refused(
    program: &HirProgram,
    lattice: &Lattice,
    values: Seq<HirExprId>,
    spans: Seq<Span>,
    element: Type,
    count: int,
) -> Seq<(Span, Problem)>
    decreases count,
{
    if count <= 0 {
        Seq::empty()
    } else {
        let before = elements_refused(program, lattice, values, spans, element, count - 1);
        let found = program.type_at(values[count - 1]);
        if lattice.admits(found, element) {
            before
        } else {
            before.push((spans[count - 1], Problem::ArrayElementMismatch { element, found }))
        }
    }
}

/// `results` are `values`, each carried into `element`.
pub open spec fn elements_carried(
    before: &HirProgram,
    after: &HirProgram,
    lattice: &Lattice,
    values: Seq<HirExprId>,
    element: Type,
    results: Seq<HirExprId>,
) -> bool {
    &&& results.len() == values.len()
    &&& forall|k: int|
        0 <= k < values.len() ==> carried(
            before,
            after,
            lattice,
            values[k],
            element,
            #[trigger] results[k],
        )
}

fn check_elements(
    program: &HirProgram,
    lattice: &Lattice,
    values: &Vec<HirExprId>,
    spans: &Vec<Span>,
    element: Type,
    log: &mut Log,
)
    requires
        values@.len() == spans@.len(),
        forall|k: int| 0 <= k < values@.len() ==> program.has_expr(#[trigger] values@[k]),
    ensures
        final(log).source == old(log).source,
        final(log).diagnostics@ == old(log).diagnostics@ + noted(
            old(log).source,
            elements_refused(
                program,
                lattice,
                values@,
                spans@,
                element,
                values@.len() as int,
            ),
        ),
{
    let ghost said = log.diagnostics@;
    let ghost source = log.source;
    let mut i: usize = 0;
    proof {
        lemma_noted_none(said, source);
    }
    while i < values.len()
        invariant
            i <= values@.len(),
            values@.len() == spans@.len(),
            forall|k: int| 0 <= k < values@.len() ==> program.has_expr(#[trigger] values@[k]),
            log.source == source,
            log.diagnostics@ == said + noted(
                source,
                elements_refused(program, lattice, values@, spans@, element, i as int),
            ),
        decreases values@.len() - i,
    {
        assert(program.has_expr(values@[i as int]));
        let found = program.type_of(values[i]);
        if !admits(lattice, found, element) {
            proof {
                lemma_noted_one(
                    said,
                    source,
                    elements_refused(program, lattice, values@, spans@, element, i as int),
                    spans@[i as int],
                    Problem::ArrayElementMismatch { element, found },
                );
            }
            log.emit(spans[i], Problem::ArrayElementMismatch { element, found });
        }
        i += 1;
    }
}

fn carry_elements(
    program: &mut HirProgram,
    lattice: &Lattice,
    values: &Vec<HirExprId>,
    element: Type,
) -> (results: Vec<HirExprId>)
    requires
        forall|k: int| 0 <= k < values@.len() ==> old(program).has_expr(#[trigger] values@[k]),
        old(program).exprs@.len() + values@.len() <= u32::MAX,
    ensures
        final(program).built_on(old(program)),
        final(program).stmts == old(program).stmts,
        final(program).exprs@.len() <= old(program).exprs@.len() + values@.len(),
        elements_carried(old(program), final(program), lattice, values@, element, results@),
        forall|k: int| 0 <= k < results@.len() ==> final(program).has_expr(#[trigger] results@[k]),
{
    let ghost start = *program;
    let mut results: Vec<HirExprId> = Vec::new();
    let mut i: usize = 0;
    while i < values.len()
        invariant
            i <= values@.len(),
            start == *old(program),
            forall|k: int| 0 <= k < values@.len() ==> start.has_expr(#[trigger] values@[k]),
            start.exprs@.len() + values@.len() <= u32::MAX,
            program.built_on(&start),
            program.stmts == start.stmts,
            program.exprs@.len() <= start.exprs@.len() + i,
            results@.len() == i,
            forall|k: int| 0 <= k < i ==> program.has_expr(#[trigger] results@[k]),
            forall|k: int|
                0 <= k < i ==> carried(
                    &start,
                    program,
                    lattice,
                    values@[k],
                    element,
                    #[trigger] results@[k],
                ),
        decreases values@.len() - i,
    {
        let ghost before = *program;
        let ghost held = results@;
        assert(start.has_expr(values@[i as int]));
        assert(program.at(values@[i as int]) == start.at(values@[i as int]));
        let result = coerce_into(program, lattice, values[i], element);
        results.push(result);
        proof {
            assert forall|k: int| 0 <= k < i + 1 implies carried(
                &start,
                program,
                lattice,
                values@[k],
                element,
                #[trigger] results@[k],
            ) && program.has_expr(results@[k]) by {
                if k < i {
                    assert(results@[k] == held[k]);
                    assert(before.has_expr(held[k]));
                    assert(program.at(held[k]) == before.at(held[k]));
                }
            }
        }
        i += 1;
    }
    results
}

/// Completes an array literal from its analyzed elements.
///
/// Every element is checked against the one element type, at its own span, so a
/// literal with two bad elements reports twice, and each is carried into it.
pub fn finish_array_literal(
    program: &mut HirProgram,
    lattice: &Lattice,
    values: &Vec<HirExprId>,
    spans: &Vec<Span>,
    expected: Option<Type>,
    span: Span,
    log: &mut Log,
) -> (id: HirExprId)
    requires
        values@.len() == spans@.len(),
        forall|k: int| 0 <= k < values@.len() ==> old(program).has_expr(#[trigger] values@[k]),
        old(program).exprs@.len() + values@.len() < u32::MAX,
        old(program).types.arrays@.len() < u32::MAX,
    ensures
        final(program).extends(old(program)),
        final(program).stmts == old(program).stmts,
        final(program).has_expr(id),
        final(log).source == old(log).source,
        match literal_element(old(program), values@, expected) {
            None => {
                &&& id.0 == old(program).exprs@.len()
                &&& final(program).exprs@ == old(program).exprs@.push(HirExpr::Error)
                &&& final(program).types == old(program).types
                &&& if values@.len() == 0 {
                    final(log).reported(old(log), old(log).source, span, Problem::ArrayTypeUnknown)
                } else {
                    final(log).quiet(old(log))
                }
            },
            Some(element) => {
                &&& final(program).types.arrays@ == interned(
                    old(program).types.arrays@,
                    element,
                )
                &&& (final(program).at(id) matches HirExpr::ArrayNew { ty, elements } && ty
                    == Type::Array(row_of(old(program).types.arrays@, element) as u32)
                    && elements_carried(
                    old(program),
                    final(program),
                    lattice,
                    values@,
                    element,
                    elements@,
                ))
                &&& final(log).diagnostics@ == old(log).diagnostics@ + noted(
                    old(log).source,
                    elements_refused(
                        old(program),
                        lattice,
                        values@,
                        spans@,
                        element,
                        values@.len() as int,
                    ),
                )
            },
        },
{
    let ghost start = *program;
    match element_type(program, values, expected, span, log) {
        None => program.add_expr(HirExpr::Error),
        Some(element) => {
            check_elements(program, lattice, values, spans, element, log);
            let elements = carry_elements(program, lattice, values, element);
            let ghost held = elements@;
            let ghost middle = *program;
            let ty = program.types.array_of(element);
            let id = program.add_expr(HirExpr::ArrayNew { ty, elements });
            proof {
                assert(elements_carried(&start, program, lattice, values@, element, held)) by {
                    assert forall|k: int| 0 <= k < values@.len() implies carried(
                        &start,
                        program,
                        lattice,
                        values@[k],
                        element,
                        #[trigger] held[k],
                    ) by {
                        assert(middle.has_expr(held[k]));
                        assert(program.at(held[k]) == middle.at(held[k]));
                    }
                }
            }
            id
        },
    }
}

/// The name `subscript` is registered under on a type spelled `owner`.
pub open spec fn subscript_name(words: ArrayWords, owner: Symbol) -> (NameForm, Seq<
    (usize, Symbol),
>) {
    (NameForm::Method { owner, name: words.subscript }, Seq::empty())
}

/// Whether a base of type `ty`, spelled `owner`, is indexed through a `subscript`
/// of its own.
pub open spec fn subscripted(
    table: &SigTable,
    imports: &ImportTable,
    words: ArrayWords,
    log: &Log,
    ty: Type,
    owner: Symbol,
) -> bool {
    ty is Struct && exists|i: int|
        0 <= i < table.sigs@.len() && reached_by(
            imports,
            log.source,
            #[trigger] table.sigs@[i],
            subscript_name(words, owner),
        )
}

/// Settles the probe that analyzed an index's base to learn its type: the
/// `subscript` the index calls, or, where the type declares none, everything the
/// probe reported and moved undone, so that the base can be analyzed again as an
/// array.
pub fn settle_subscript_probe(
    table: &SigTable,
    imports: &ImportTable,
    words: ArrayWords,
    ty: Type,
    owner: Symbol,
    mark: usize,
    snapshot: Vec<LocalOwnership>,
    waiting: Vec<(HirExprId, Span)>,
    ctx: &mut FnCtx,
    drops: &mut DropReads,
    log: &mut Log,
) -> (method: Option<FuncId>)
    requires
        table.sigs@.len() <= u32::MAX,
        mark <= old(log).diagnostics@.len(),
    ensures
        method is Some <==> subscripted(table, imports, words, old(log), ty, owner),
        method matches Some(id) ==> id.0 < table.sigs@.len() && reached_by(
            imports,
            old(log).source,
            table.sigs@[id.0 as int],
            subscript_name(words, owner),
        ),
        method is Some ==> *final(ctx) == *old(ctx) && *final(log) == *old(log)
            && *final(drops) == *old(drops),
        method is None ==> {
            &&& final(ctx).ownership == snapshot
            &&& *final(ctx) == (FnCtx { ownership: final(ctx).ownership, ..*old(ctx) })
            &&& final(drops).waiting == waiting
            &&& final(log).source == old(log).source
            &&& final(log).diagnostics@ == old(log).diagnostics@.take(mark as int)
        },
{
    if let Type::Struct(_) = ty {
        let name = CallName {
            form: NameForm::Method { owner, name: words.subscript },
            copies: Vec::new(),
        };
        assert(name@.1 =~= Seq::empty());
        if let Some(id) = lookup_function(table, imports, log.source, &name) {
            return Some(id);
        }
    }
    log.diagnostics.truncate(mark);
    ctx.ownership = snapshot;
    drops.restore(waiting);
    None
}

/// Requires an index to be an integer, of any spelling: an index is consumed as a
/// position, so its width carries no meaning.
pub fn check_index_type(program: &HirProgram, index: HirExprId, span: Span, log: &mut Log)
    requires
        program.has_expr(index),
    ensures
        final(log).source == old(log).source,
        ({
            let found = program.type_at(index);
            if found is Int || found is Error {
                final(log).quiet(old(log))
            } else {
                final(log).reported(
                    old(log),
                    old(log).source,
                    span,
                    (Problem::IndexNotInteger { found }),
                )
            }
        }),
{
    let found = program.type_of(index);
    match found {
        Type::Int(_) => {},
        Type::Error => {},
        _ => log.emit(span, Problem::IndexNotInteger { found }),
    }
}

/// How an index read goes on once its base and its index are analyzed.
#[derive(Clone, Copy, PartialEq, Eq, Structural, Debug)]
pub enum IndexStep {
    /// The read is refused; the node stands for it.
    Refused(HirExprId),
    /// The base points into foreign storage, which the read walks as C does.
    Foreign { pointer: u32 },
    /// The element, read without consuming the array: the value the array still
    /// owns is excused, and the one just read is noted.
    Read(HirExprId),
}

/// What an index into a base of type `base` is refused for.
pub open spec fn index_problem(
    types: &TypeTable,
    foreign_arrays: Seq<StructId>,
    elements: Symbol,
    base: Type,
) -> Option<Problem> {
    match base {
        Type::Struct(id) if foreign_arrays.contains(id) => Some(
            Problem::ForeignArrayIndexed { ty: base, field: elements },
        ),
        _ => if types.element(base) is None && base != Type::Error {
            Some(Problem::CannotIndex { ty: base })
        } else {
            None
        },
    }
}

/// Completes an index read from its analyzed base and index. `foreign_arrays`
/// are the structs that stand for inline C arrays, whose elements live in the field
/// `elements` and are indexed there.
pub fn finish_index(
    program: &mut HirProgram,
    foreign_arrays: &Vec<StructId>,
    elements: Symbol,
    lattice: &Lattice,
    base: HirExprId,
    index: HirExprId,
    span: Span,
    drops: &mut DropReads,
    log: &mut Log,
) -> (step: IndexStep)
    requires
        old(program).has_expr(base),
        old(program).exprs@.len() < u32::MAX,
    ensures
        final(log).source == old(log).source,
        ({
            let ty = old(program).type_at(base);
            match ty {
                Type::ForeignPtr(pointer) => step == (IndexStep::Foreign { pointer })
                    && *final(program) == *old(program) && final(log).quiet(old(log))
                    && final(drops).waiting@ == old(drops).waiting@,
                _ => {
                    let id = HirExprId(old(program).exprs@.len() as u32);
                    let node = match old(program).types.element(ty) {
                        Some(element) => HirExpr::Index { base, index, ty: element },
                        None => HirExpr::Error,
                    };
                    &&& *final(program) == (HirProgram {
                        exprs: final(program).exprs,
                        ..*old(program)
                    })
                    &&& final(program).exprs@ == old(program).exprs@.push(node)
                    &&& step == if node is Error {
                        IndexStep::Refused(id)
                    } else {
                        IndexStep::Read(id)
                    }
                    &&& final(drops).waiting@ == if node is Error {
                        old(drops).waiting@
                    } else {
                        noted_read(
                            without(old(drops).waiting@, base, old(drops).waiting@.len() as int),
                            final(program),
                            lattice,
                            id,
                            span,
                        )
                    }
                    &&& match index_problem(
                        &old(program).types,
                        foreign_arrays@,
                        elements,
                        ty,
                    ) {
                        Some(problem) => final(log).reported(
                            old(log),
                            old(log).source,
                            span,
                            problem,
                        ),
                        None => final(log).quiet(old(log)),
                    }
                },
            }
        }),
{
    let ty = program.type_of(base);
    if let Type::Struct(id) = ty {
        if struct_listed(foreign_arrays, id) {
            log.emit(span, Problem::ForeignArrayIndexed { ty, field: elements });
            return IndexStep::Refused(program.add_expr(HirExpr::Error));
        }
    }
    if let Type::ForeignPtr(pointer) = ty {
        return IndexStep::Foreign { pointer };
    }
    match program.types.element_of(ty) {
        None => {
            if ty != Type::Error {
                log.emit(span, Problem::CannotIndex { ty });
            }
            IndexStep::Refused(program.add_expr(HirExpr::Error))
        },
        Some(element) => {
            let read = program.add_expr(HirExpr::Index { base, index, ty: element });
            drops.excuse(base);
            drops.note(program, lattice, read, span);
            IndexStep::Read(read)
        },
    }
}

/// Reads a property of an array: `count`, which reads the array without consuming
/// it, or what `name` is refused for.
pub fn analyze_array_property(
    program: &mut HirProgram,
    words: ArrayWords,
    array: HirExprId,
    name: Symbol,
    span: Span,
    drops: &mut DropReads,
    log: &mut Log,
) -> (id: HirExprId)
    requires
        old(program).exprs@.len() < u32::MAX,
    ensures
        id.0 == old(program).exprs@.len(),
        *final(program) == (HirProgram { exprs: final(program).exprs, ..*old(program) }),
        final(program).exprs@ == old(program).exprs@.push(
            if name == words.count {
                HirExpr::ArrayLen { array }
            } else {
                HirExpr::Error
            },
        ),
        final(drops).waiting@ == if name == words.count {
            without(old(drops).waiting@, array, old(drops).waiting@.len() as int)
        } else {
            old(drops).waiting@
        },
        final(log).source == old(log).source,
        if name == words.count {
            final(log).quiet(old(log))
        } else {
            final(log).reported(
                old(log),
                old(log).source,
                span,
                if name == words.append {
                    Problem::AppendIsMethod
                } else {
                    Problem::NoArrayMember { member: name }
                },
            )
        },
{
    if name == words.count {
        drops.excuse(array);
        return program.add_expr(HirExpr::ArrayLen { array });
    }
    if name == words.append {
        log.emit(span, Problem::AppendIsMethod);
    } else {
        log.emit(span, Problem::NoArrayMember { member: name });
    }
    program.add_expr(HirExpr::Error)
}

/// Begins a method call on an array: whether it is an `append` to go on with.
/// Every other method is refused.
pub fn begin_array_method(words: ArrayWords, name: Symbol, span: Span, log: &mut Log) -> (append:
    bool)
    ensures
        append == (name == words.append && name != words.count),
        final(log).source == old(log).source,
        if append {
            final(log).quiet(old(log))
        } else {
            final(log).reported(
                old(log),
                old(log).source,
                span,
                if name == words.count {
                    Problem::CountIsProperty
                } else {
                    Problem::NoArrayMember { member: name }
                },
            )
        },
{
    if name == words.count {
        log.emit(span, Problem::CountIsProperty);
        return false;
    }
    if name != words.append {
        log.emit(span, Problem::NoArrayMember { member: name });
        return false;
    }
    true
}

/// Requires an `append` whose receiver is a place to take one argument.
pub fn check_append_arity(count: usize, span: Span, log: &mut Log) -> (fits: bool)
    ensures
        fits == (count == 1),
        final(log).source == old(log).source,
        if count == 1 {
            final(log).quiet(old(log))
        } else {
            final(log).reported(
                old(log),
                old(log).source,
                span,
                (Problem::AppendArity { found: count }),
            )
        },
{
    if count != 1 {
        log.emit(span, Problem::AppendArity { found: count });
    }
    count == 1
}

/// What appending a value of type `found` to a place of type `place_ty` is
/// refused for, and where.
pub open spec fn append_problem(
    types: &TypeTable,
    lattice: &Lattice,
    place_ty: Type,
    found: Type,
    method_span: Span,
    value_span: Span,
) -> Option<(Span, Problem)> {
    match types.element(place_ty) {
        None => if place_ty == Type::Error {
            None
        } else {
            Some((method_span, Problem::NoAppend { ty: place_ty }))
        },
        Some(element) => if lattice.admits(found, element) {
            None
        } else {
            Some((value_span, Problem::AppendMismatch { element, found }))
        },
    }
}

/// Completes an `append` of one analyzed value to a place: the write goes through
/// the place, into the storage its local holds.
pub fn finish_append(
    program: &mut HirProgram,
    lattice: &Lattice,
    place: HirPlace,
    place_ty: Type,
    value: HirExprId,
    method_span: Span,
    value_span: Span,
    log: &mut Log,
) -> (id: HirExprId)
    requires
        old(program).has_expr(value),
        old(program).exprs@.len() + 1 < u32::MAX,
    ensures
        final(program).built_on(old(program)),
        final(program).stmts == old(program).stmts,
        final(program).has_expr(id),
        final(log).source == old(log).source,
        match old(program).types.element(place_ty) {
            None => final(program).at(id) is Error,
            Some(element) => final(program).at(id) matches HirExpr::ArrayAppend {
                place: into,
                value: appended,
            } && into == place && carried(
                old(program),
                final(program),
                lattice,
                value,
                element,
                appended,
            ),
        },
        match append_problem(
            &old(program).types,
            lattice,
            place_ty,
            old(program).type_at(value),
            method_span,
            value_span,
        ) {
            Some((span, problem)) => final(log).reported(old(log), old(log).source, span, problem),
            None => final(log).quiet(old(log)),
        },
{
    match program.types.element_of(place_ty) {
        None => {
            if place_ty != Type::Error {
                log.emit(method_span, Problem::NoAppend { ty: place_ty });
            }
            program.add_expr(HirExpr::Error)
        },
        Some(element) => {
            let found = program.type_of(value);
            if !admits(lattice, found, element) {
                log.emit(value_span, Problem::AppendMismatch { element, found });
            }
            let appended = coerce_into(program, lattice, value, element);
            program.add_expr(HirExpr::ArrayAppend { place, value: appended })
        },
    }
}

/// What is said of a member an array does not have: the whole surface, because a
/// reader who guessed is better served by what does exist.
pub open spec fn unsupported_member_text(name: Seq<char>) -> Seq<char> {
    "an array has no `"@ + name + "`; an array has `.append(value)` and `.count`"@
}

/// What is said of a member an array does not have.
pub fn unsupported_member(name: &str) -> (text: String)
    ensures
        text@ == unsupported_member_text(name@),
{
    let mut text = "an array has no `".to_owned();
    text.append(name);
    text.append("`; an array has `.append(value)` and `.count`");
    text
}

/// A literal reports exactly its elements that do not fit, one diagnostic apiece,
/// each at its own span.
pub proof fn each_misfit_is_reported(
    program: &HirProgram,
    lattice: &Lattice,
    values: Seq<HirExprId>,
    spans: Seq<Span>,
    element: Type,
    entry: (Span, Problem),
)
    requires
        values.len() == spans.len(),
    ensures
        elements_refused(program, lattice, values, spans, element, values.len() as int).contains(
            entry,
        ) <==> exists|k: int| #[trigger]
            misfit(program, lattice, values, spans, element, k, entry),
{
    lemma_misfits(program, lattice, values, spans, element, values.len() as int, entry);
}

/// Element `k` does not fit, and `entry` is what is said of it.
pub open spec fn misfit(
    program: &HirProgram,
    lattice: &Lattice,
    values: Seq<HirExprId>,
    spans: Seq<Span>,
    element: Type,
    k: int,
    entry: (Span, Problem),
) -> bool {
    let found = program.type_at(values[k]);
    &&& 0 <= k < values.len()
    &&& !lattice.admits(found, element)
    &&& entry == (spans[k], Problem::ArrayElementMismatch { element, found })
}

proof fn lemma_misfits(
    program: &HirProgram,
    lattice: &Lattice,
    values: Seq<HirExprId>,
    spans: Seq<Span>,
    element: Type,
    count: int,
    entry: (Span, Problem),
)
    requires
        values.len() == spans.len(),
        count <= values.len(),
    ensures
        elements_refused(program, lattice, values, spans, element, count).contains(entry)
            <==> exists|k: int|
            k < count && #[trigger] misfit(program, lattice, values, spans, element, k, entry),
    decreases count,
{
    if count > 0 {
        lemma_misfits(program, lattice, values, spans, element, count - 1, entry);
        let before = elements_refused(program, lattice, values, spans, element, count - 1);
        let now = elements_refused(program, lattice, values, spans, element, count);
        if misfit(program, lattice, values, spans, element, count - 1, entry) {
            assert(now == before.push(entry));
            assert(now[before.len() as int] == entry);
        }
        if before.contains(entry) {
            let i = choose|i: int| 0 <= i < before.len() && before[i] == entry;
            assert(now[i] == entry);
        }
        if now.contains(entry) && !before.contains(entry) {
            let i = choose|i: int| 0 <= i < now.len() && now[i] == entry;
            if i < before.len() {
                assert(before[i] == entry);
            }
            assert(misfit(program, lattice, values, spans, element, count - 1, entry));
        }
    }
}

proof fn lemma_first_sound(program: &HirProgram, values: Seq<HirExprId>)
    ensures
        match first_sound(program, values) {
            Some(ty) => ty != Type::Error && exists|k: int|
                0 <= k < values.len() && program.type_at(#[trigger] values[k]) == ty && forall|j: int|
                    0 <= j < k ==> program.type_at(#[trigger] values[j]) == Type::Error,
            None => forall|k: int|
                0 <= k < values.len() ==> program.type_at(#[trigger] values[k]) == Type::Error,
        },
    decreases values.len(),
{
    if values.len() > 0 {
        if program.type_at(values[0]) == Type::Error {
            let rest = values.drop_first();
            lemma_first_sound(program, rest);
            match first_sound(program, rest) {
                Some(ty) => {
                    let k = choose|k: int|
                        0 <= k < rest.len() && program.type_at(#[trigger] rest[k]) == ty && forall|
                            j: int,
                        |
                            0 <= j < k ==> program.type_at(#[trigger] rest[j]) == Type::Error;
                    assert(values[k + 1] == rest[k]);
                    assert forall|j: int| 0 <= j < k + 1 implies program.type_at(
                        #[trigger] values[j],
                    ) == Type::Error by {
                        if j > 0 {
                            assert(values[j] == rest[j - 1]);
                        }
                    }
                },
                None => {
                    assert forall|k: int| 0 <= k < values.len() implies program.type_at(
                        #[trigger] values[k],
                    ) == Type::Error by {
                        if k > 0 {
                            assert(values[k] == rest[k - 1]);
                        }
                    }
                },
            }
        } else {
            assert(program.type_at(values[0]) != Type::Error);
        }
    }
}

/// An array literal holds what its position expects, whatever its elements are; without
/// an expectation it holds the type of its first element that has one.
pub proof fn a_literal_holds_what_is_expected_of_it(
    program: &HirProgram,
    values: Seq<HirExprId>,
    expected: Option<Type>,
    k: int,
)
    ensures
        expected is Some ==> literal_element(program, values, expected) == expected,
        expected is None && 0 <= k < values.len() && program.type_at(values[k]) != Type::Error && (
        forall|j: int| 0 <= j < k ==> program.type_at(#[trigger] values[j]) == Type::Error)
            ==> literal_element(program, values, expected) == Some(program.type_at(values[k])),
        expected is None && (forall|j: int|
            0 <= j < values.len() ==> program.type_at(#[trigger] values[j]) == Type::Error)
            ==> literal_element(program, values, expected) is None,
{
    lemma_first_sound(program, values);
    if let Some(ty) = first_sound(program, values) {
        let i = choose|i: int|
            0 <= i < values.len() && program.type_at(#[trigger] values[i]) == ty && forall|j: int|
                0 <= j < i ==> program.type_at(#[trigger] values[j]) == Type::Error;
        assert(program.type_at(values[i]) == ty);
        if 0 <= k < values.len() && program.type_at(values[k]) != Type::Error && k < i {
            assert(program.type_at(values[k]) == Type::Error);
        }
    }
}

/// A literal that is refused nothing fits whole: every element is of a type the array
/// admits.
pub proof fn a_silent_literal_fits(
    program: &HirProgram,
    lattice: &Lattice,
    values: Seq<HirExprId>,
    spans: Seq<Span>,
    element: Type,
    k: int,
)
    requires
        values.len() == spans.len(),
        elements_refused(program, lattice, values, spans, element, values.len() as int).len() == 0,
        0 <= k < values.len(),
    ensures
        lattice.assignable@.contains((program.type_at(values[k]), element)),
{
    lemma_element_fits(program, lattice, values, spans, element, values.len() as int, k);
}

proof fn lemma_element_fits(
    program: &HirProgram,
    lattice: &Lattice,
    values: Seq<HirExprId>,
    spans: Seq<Span>,
    element: Type,
    count: int,
    k: int,
)
    requires
        0 <= k < count,
        elements_refused(program, lattice, values, spans, element, count).len() == 0,
    ensures
        lattice.admits(program.type_at(values[k]), element),
    decreases count,
{
    if k < count - 1 {
        lemma_element_fits(program, lattice, values, spans, element, count - 1, k);
    }
}

/// An index is refused exactly on a base that is a foreign array, or that holds no
/// elements and analyzed cleanly.
pub proof fn only_what_holds_elements_is_indexed(
    types: &TypeTable,
    foreign_arrays: Seq<StructId>,
    elements: Symbol,
    base: Type,
)
    ensures
        index_problem(types, foreign_arrays, elements, base) is None <==> {
            &&& !(base matches Type::Struct(id) && foreign_arrays.contains(id))
            &&& base == Type::Error || types.element(base) is Some
        },
{
}

/// Appending is refused exactly on a place that holds no elements and analyzed cleanly,
/// blaming the method, and for a value the place does not hold, blaming the value.
pub proof fn a_silent_append_fits(
    types: &TypeTable,
    lattice: &Lattice,
    place_ty: Type,
    found: Type,
    method_span: Span,
    value_span: Span,
)
    ensures
        append_problem(types, lattice, place_ty, found, method_span, value_span) is None <==> {
            ||| types.element(place_ty) is None && place_ty == Type::Error
            ||| types.element(place_ty) matches Some(element) && lattice.assignable@.contains(
                (found, element),
            )
        },
        append_problem(types, lattice, place_ty, found, method_span, value_span) matches Some(
            (at, _),
        ) ==> at == if types.element(place_ty) is None {
            method_span
        } else {
            value_span
        },
{
}

/// An array literal where a type is expected is expected to hold what that type holds,
/// and nothing is expected of it where none is.
pub proof fn a_literal_is_expected_to_hold_the_positions_elements(
    types: &TypeTable,
    expected: Option<Type>,
)
    ensures
        expected matches Some(ty) ==> element_expected(types, expected) == types.element(ty),
        expected is None ==> element_expected(types, expected) is None,
{
}

/// A value is indexed through its own type exactly if it is a struct that has a reachable
/// `subscript` method registered under its spelling.
pub proof fn only_a_struct_with_a_subscript_is_subscripted(
    table: &SigTable,
    imports: &ImportTable,
    words: ArrayWords,
    log: &Log,
    ty: Type,
    owner: Symbol,
)
    ensures
        subscripted(table, imports, words, log, ty, owner) <==> ty is Struct && exists|i: int|
            0 <= i < table.sigs@.len() && (#[trigger] table.sigs@[i]).indexed
                && table.sigs@[i].name@.0 == (NameForm::Method {
                owner,
                name: words.subscript,
            }) && table.sigs@[i].name@.1.len() == 0,
{
    let name = subscript_name(words, owner);
    if exists|i: int|
        0 <= i < table.sigs@.len() && (#[trigger] table.sigs@[i]).indexed && table.sigs@[i].name@.0
            == (NameForm::Method { owner, name: words.subscript })
            && table.sigs@[i].name@.1.len() == 0 {
        let i = choose|i: int|
            0 <= i < table.sigs@.len() && (#[trigger] table.sigs@[i]).indexed
                && table.sigs@[i].name@.0 == (NameForm::Method {
                owner,
                name: words.subscript,
            }) && table.sigs@[i].name@.1.len() == 0;
        assert(table.sigs@[i].name@.1 =~= name.1);
        assert(reached_by(imports, log.source, table.sigs@[i], name));
    }
}

/// Every element of a literal keeps its place.
pub proof fn every_element_keeps_its_place(
    before: &HirProgram,
    after: &HirProgram,
    lattice: &Lattice,
    values: Seq<HirExprId>,
    element: Type,
    results: Seq<HirExprId>,
    k: int,
)
    requires
        elements_carried(before, after, lattice, values, element, results),
        0 <= k < values.len(),
    ensures
        results.len() == values.len(),
        carried(before, after, lattice, values[k], element, results[k]),
{
    assert(carried(before, after, lattice, values[k], element, results[k]));
}

} // verus!
