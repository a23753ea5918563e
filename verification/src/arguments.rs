//! Checking analyzed arguments against parameters, and carrying each across.

use vstd::prelude::*;

use crate::coercion::{admits, coerce_into, crossing};
use crate::diagnostics::{lemma_noted_none, lemma_noted_one, noted, CalleeName, Log, Problem};
use crate::hir::{ConvertKind, HirExpr, HirExprId, HirProgram};
use crate::lattice::Lattice;
use crate::source::Span;
use crate::ty::Type;

verus! {

/// What the first `count` arguments are refused for: each that its parameter's
/// type does not admit.
pub open spec fn mismatches(
    program: &HirProgram,
    lattice: &Lattice,
    values: Seq<HirExprId>,
    params: Seq<Type>,
    callee: CalleeName,
    span: Span,
    count: int,
) -> Seq<(Span, Problem)>
    decreases count,
{
    if count <= 0 {
        Seq::empty()
    } else {
        let before = mismatches(program, lattice, values, params, callee, span, count - 1);
        let found = program.type_at(values[count - 1]);
        let expected = params[count - 1];
        if lattice.admits(found, expected) {
            before
        } else {
            before.push(
                (
                    span,
                    Problem::ArgumentMismatch {
                        callee,
                        place: count as usize,
                        expected,
                        found,
                    },
                ),
            )
        }
    }
}

/// `result` is `value` carried into `expected`.
pub open spec fn carried(
    before: &HirProgram,
    after: &HirProgram,
    lattice: &Lattice,
    value: HirExprId,
    expected: Type,
    result: HirExprId,
) -> bool {
    match crossing(lattice, value, before.at(value), expected) {
        Some(node) => after.has_expr(result) && after.at(result) == node,
        None => result == value,
    }
}

/// How many arguments have a parameter.
pub open spec fn paired(values: int, params: int) -> int {
    if values < params {
        values
    } else {
        params
    }
}

/// Every argument that has a parameter, carried into its type; the others as they
/// are.
pub open spec fn all_carried(
    before: &HirProgram,
    after: &HirProgram,
    lattice: &Lattice,
    values: Seq<HirExprId>,
    params: Seq<Type>,
    results: Seq<HirExprId>,
) -> bool {
    &&& results.len() == values.len()
    &&& forall|k: int|
        0 <= k < values.len() ==> if k < params.len() {
            carried(before, after, lattice, values[k], params[k], #[trigger] results[k])
        } else {
            results[k] == values[k]
        }
}

/// Checks every argument against its parameter, reporting each that does not fit,
/// and carries each into its parameter's type.
pub fn carry_arguments(
    program: &mut HirProgram,
    lattice: &Lattice,
    values: &Vec<HirExprId>,
    params: &Vec<Type>,
    callee: CalleeName,
    span: Span,
    log: &mut Log,
) -> (results: Vec<HirExprId>)
    requires
        forall|k: int| 0 <= k < values@.len() ==> old(program).has_expr(#[trigger] values@[k]),
        old(program).exprs@.len() + values@.len() <= u32::MAX,
    ensures
        final(program).built_on(old(program)),
        final(program).stmts == old(program).stmts,
        final(program).exprs@.len() <= old(program).exprs@.len() + values@.len(),
        forall|k: int| 0 <= k < results@.len() ==> final(program).has_expr(#[trigger] results@[k]),
        all_carried(old(program), final(program), lattice, values@, params@, results@),
        final(log).source == old(log).source,
        final(log).diagnostics@ == old(log).diagnostics@ + noted(
            old(log).source,
            mismatches(
                old(program),
                lattice,
                values@,
                params@,
                callee,
                span,
                paired(values@.len() as int, params@.len() as int),
            ),
        ),
{
    let ghost start = *program;
    let ghost said = log.diagnostics@;
    let ghost source = log.source;
    let mut results: Vec<HirExprId> = Vec::new();
    let mut i: usize = 0;
    proof {
        lemma_noted_none(said, source);
    }
    while i < values.len()
        invariant
            i <= values@.len(),
            start == *old(program),
            source == log.source,
            forall|k: int| 0 <= k < values@.len() ==> start.has_expr(#[trigger] values@[k]),
            start.exprs@.len() + values@.len() <= u32::MAX,
            program.built_on(&start),
            program.stmts == start.stmts,
            program.exprs@.len() <= start.exprs@.len() + i,
            results@.len() == i,
            forall|k: int| 0 <= k < i ==> program.has_expr(#[trigger] results@[k]),
            forall|k: int|
                0 <= k < i ==> if k < params@.len() {
                    carried(&start, program, lattice, values@[k], params@[k], #[trigger] results@[k])
                } else {
                    results@[k] == values@[k]
                },
            log.diagnostics@ == said + noted(
                source,
                mismatches(
                    &start,
                    lattice,
                    values@,
                    params@,
                    callee,
                    span,
                    paired(i as int, params@.len() as int),
                ),
            ),
        decreases values@.len() - i,
    {
        let value = values[i];
        let ghost before = *program;
        let ghost held = results@;
        assert(start.has_expr(values@[i as int]));
        assert(program.at(value) == start.at(value));
        if i < params.len() {
            let expected = params[i];
            let found = program.type_of(value);
            if !admits(lattice, found, expected) {
                proof {
                    lemma_noted_one(
                        said,
                        source,
                        mismatches(
                            &start,
                            lattice,
                            values@,
                            params@,
                            callee,
                            span,
                            i as int,
                        ),
                        span,
                        Problem::ArgumentMismatch {
                            callee,
                            place: (i + 1) as usize,
                            expected,
                            found,
                        },
                    );
                }
                log.emit(
                    span,
                    Problem::ArgumentMismatch { callee, place: i + 1, expected, found },
                );
            }
            let result = coerce_into(program, lattice, value, expected);
            results.push(result);
        } else {
            results.push(value);
        }
        proof {
            assert forall|k: int| 0 <= k < i + 1 implies if k < params@.len() {
                carried(&start, program, lattice, values@[k], params@[k], #[trigger] results@[k])
            } else {
                results@[k] == values@[k]
            } by {
                if k < i {
                    assert(results@[k] == held[k]);
                    assert(before.has_expr(held[k]));
                    assert(program.at(held[k]) == before.at(held[k]));
                }
            }
            assert forall|k: int| 0 <= k < i + 1 implies program.has_expr(
                #[trigger] results@[k],
            ) by {
                if k < i {
                    assert(results@[k] == held[k]);
                    assert(before.has_expr(held[k]));
                }
            }
        }
        i += 1;
    }
    results
}

proof fn lemma_mismatches(
    program: &HirProgram,
    lattice: &Lattice,
    values: Seq<HirExprId>,
    params: Seq<Type>,
    callee: CalleeName,
    span: Span,
    count: int,
)
    ensures
        mismatches(program, lattice, values, params, callee, span, count).len() == 0 <==> forall|
            k: int,
        |
            0 <= k < count ==> lattice.admits(program.type_at(values[k]), #[trigger] params[k]),
    decreases count,
{
    if count > 0 {
        lemma_mismatches(program, lattice, values, params, callee, span, count - 1);
        if mismatches(program, lattice, values, params, callee, span, count).len() != 0
            && mismatches(program, lattice, values, params, callee, span, count - 1).len() == 0 {
            assert(!lattice.admits(program.type_at(values[count - 1]), params[count - 1]));
        }
    }
}

/// Checking arguments says nothing exactly if every argument that has a parameter is of a
/// type the parameter's admits.
pub proof fn silent_arguments_fit(
    program: &HirProgram,
    lattice: &Lattice,
    values: Seq<HirExprId>,
    params: Seq<Type>,
    callee: CalleeName,
    span: Span,
)
    ensures
        mismatches(
            program,
            lattice,
            values,
            params,
            callee,
            span,
            paired(values.len() as int, params.len() as int),
        ).len() == 0 <==> forall|k: int|
            0 <= k < values.len() && k < params.len() ==> lattice.admits(
                program.type_at(values[k]),
                #[trigger] params[k],
            ),
{
    lemma_mismatches(
        program,
        lattice,
        values,
        params,
        callee,
        span,
        paired(values.len() as int, params.len() as int),
    );
}

/// Every argument reaches the call in its own place: an argument whose type is its
/// parameter's is passed as it is, one that becomes an `Any` is wrapped, an integer whose
/// spelling the parameter's does not cover is converted, and one without a parameter is
/// passed as it is.
pub proof fn every_argument_is_carried_in_place(
    before: &HirProgram,
    after: &HirProgram,
    lattice: &Lattice,
    values: Seq<HirExprId>,
    params: Seq<Type>,
    results: Seq<HirExprId>,
    k: int,
)
    requires
        all_carried(before, after, lattice, values, params, results),
        0 <= k < values.len(),
    ensures
        results.len() == values.len(),
        k >= params.len() ==> results[k] == values[k],
        k < params.len() && before.at(values[k]).ty() == params[k] && params[k] != Type::Any
            ==> results[k] == values[k],
        k < params.len() && params[k] == Type::Any && lattice.erasable@.contains(
            before.at(values[k]).ty(),
        ) ==> after.at(results[k]) == (HirExpr::IntoAny {
            value: values[k],
            from: before.at(values[k]).ty(),
        }),
        k < params.len() ==> ((before.at(values[k]).ty(), params[k]) matches (
            Type::Int(from),
            Type::Int(to),
        ) ==> (!(before.at(values[k]) is Int) && !(to.low() <= from.low() && from.high()
            <= to.high()) ==> after.at(results[k]) == (HirExpr::Convert {
            operand: values[k],
            kind: ConvertKind::IntToInt,
            ty: params[k],
        }))),
{
    assert(results[k] == results[k]);
}

} // verus!
