//! Where a value crosses into a wider declared type.
//!
//! [`admits`] answers whether a position accepts a value and [`coerce_into`]
//! inserts the node that makes it true, and the two are one pair on purpose: a
//! position that admits a value without inserting the node would hand a backend
//! a value in the wrong machine form.

use vstd::prelude::*;

use crate::diagnostics::{Log, Problem};
use crate::hir::{ConvertKind, HirExpr, HirExprId, HirProgram};
use crate::lattice::Lattice;
use crate::source::Span;
use crate::ty::{IntSpelling, Type};

verus! {

/// Whether a value of `actual` may be used where `expected` is declared: the
/// lattice's own rule, and nothing else.
pub fn admits(lattice: &Lattice, actual: Type, expected: Type) -> (res: bool)
    ensures
        res == lattice.admits(actual, expected),
{
    lattice.assignable_to(actual, expected)
}

/// The number a literal names in storage of spelling `to`.
///
/// A hexadecimal literal is a bit pattern, and the one way a literal can be
/// negative: as a `U64` it names the unsigned value of those bits.
pub open spec fn denoted(value: i64, to: IntSpelling) -> int {
    if to == IntSpelling::U64 && value < 0 {
        value + 0x1_0000_0000_0000_0000
    } else {
        value as int
    }
}

fn denoted_value(value: i64, to: IntSpelling) -> (number: i128)
    ensures
        number == denoted(value, to),
{
    if to == IntSpelling::U64 && value < 0 {
        value as i128 + 0x1_0000_0000_0000_0000i128
    } else {
        value as i128
    }
}

/// Whether an integer of spelling `from` reaches storage of spelling `to` as it
/// is: a literal that fits, or a spelling whose every value fits.
pub open spec fn fits_as_is(node: HirExpr, from: IntSpelling, to: IntSpelling) -> bool {
    ||| node matches HirExpr::Int(value) && to.low() <= denoted(value, to) <= to.high()
    ||| to.low() <= from.low() && from.high() <= to.high()
}

/// The node that carries the expression `expr`, which is `node`, into
/// `expected`, where one is needed.
pub open spec fn crossing(
    lattice: &Lattice,
    expr: HirExprId,
    node: HirExpr,
    expected: Type,
) -> Option<HirExpr> {
    if expected == Type::Any {
        if lattice.erasable@.contains(node.ty()) {
            Some(HirExpr::IntoAny { value: expr, from: node.ty() })
        } else {
            None
        }
    } else {
        match (node.ty(), expected) {
            (Type::Int(from), Type::Int(to)) => if from != to && !fits_as_is(node, from, to) {
                Some(HirExpr::Convert { operand: expr, kind: ConvertKind::IntToInt, ty: expected })
            } else {
                None
            },
            _ => None,
        }
    }
}

/// `result` is `expr` carried into `expected`: itself where no node is needed,
/// and the one added node where one is.
pub open spec fn coerced(
    before: &HirProgram,
    after: &HirProgram,
    lattice: &Lattice,
    expr: HirExprId,
    expected: Type,
    result: HirExprId,
) -> bool {
    match crossing(lattice, expr, before.at(expr), expected) {
        Some(node) => {
            &&& result.0 == before.exprs@.len()
            &&& after.exprs@ == before.exprs@.push(node)
            &&& *after == (HirProgram { exprs: after.exprs, ..*before })
        },
        None => result == expr && *after == *before,
    }
}

/// Carries `expr` into `expected`, inserting the crossing when there is one.
///
/// This never reports: an unassignable value is its caller's diagnostic to
/// raise.
pub fn coerce_into(
    program: &mut HirProgram,
    lattice: &Lattice,
    expr: HirExprId,
    expected: Type,
) -> (result: HirExprId)
    requires
        old(program).has_expr(expr),
        old(program).exprs@.len() < u32::MAX,
    ensures
        coerced(old(program), final(program), lattice, expr, expected, result),
        final(program).built_on(old(program)),
        final(program).has_expr(result),
{
    let from = program.type_of(expr);
    if expected == Type::Any {
        if !lattice.erases_into_any(from) {
            return expr;
        }
        return program.add_expr(HirExpr::IntoAny { value: expr, from });
    }
    if let (Type::Int(from_spelling), Type::Int(to_spelling)) = (from, expected) {
        if from_spelling != to_spelling {
            return narrow_int(program, expr, from_spelling, to_spelling);
        }
    }
    expr
}

/// An integer reaching storage of another spelling: an identity when the literal
/// or every value of the source fits the destination, a checked narrowing
/// otherwise.
fn narrow_int(
    program: &mut HirProgram,
    expr: HirExprId,
    from: IntSpelling,
    to: IntSpelling,
) -> (result: HirExprId)
    requires
        old(program).has_expr(expr),
        old(program).exprs@.len() < u32::MAX,
    ensures
        if fits_as_is(old(program).at(expr), from, to) {
            result == expr && *final(program) == *old(program)
        } else {
            &&& result.0 == old(program).exprs@.len()
            &&& final(program).exprs@ == old(program).exprs@.push(
                (HirExpr::Convert {
                    operand: expr,
                    kind: ConvertKind::IntToInt,
                    ty: Type::Int(to),
                }),
            )
            &&& *final(program) == (HirProgram { exprs: final(program).exprs, ..*old(program) })
        },
{
    let literal = match &program.exprs[expr.0 as usize] {
        HirExpr::Int(value) => Some(*value),
        _ => None,
    };
    if let Some(value) = literal {
        if to.holds(denoted_value(value, to)) {
            return expr;
        }
    }
    if from.widens_into(to) {
        return expr;
    }
    program.add_expr(
        HirExpr::Convert { operand: expr, kind: ConvertKind::IntToInt, ty: Type::Int(to) },
    )
}

/// Whether a literal is too large for the spelling expected of it, if one is.
pub open spec fn overflows(value: i64, expected: Option<Type>) -> bool {
    expected matches Some(Type::Int(spelling)) && !(spelling.low() <= denoted(value, spelling)
        <= spelling.high())
}

/// An integer literal, checked against the spelling expected of it.
///
/// A literal adapts to any written width, so this is the one place a literal too
/// large for its slot can be refused rather than trapping when the value is
/// finally narrowed.
pub fn int_literal(
    program: &mut HirProgram,
    value: i64,
    span: Span,
    expected: Option<Type>,
    log: &mut Log,
) -> (id: HirExprId)
    requires
        old(program).exprs@.len() < u32::MAX,
    ensures
        id.0 == old(program).exprs@.len(),
        final(program).exprs@ == old(program).exprs@.push(
            if overflows(value, expected) {
                HirExpr::Error
            } else {
                HirExpr::Int(value)
            },
        ),
        *final(program) == (HirProgram { exprs: final(program).exprs, ..*old(program) }),
        final(log).source == old(log).source,
        match expected {
            Some(Type::Int(spelling)) if overflows(value, expected) => final(log).reported(
                old(log),
                old(log).source,
                span,
                (Problem::LiteralDoesNotFit { value, spelling }),
            ),
            _ => final(log).quiet(old(log)),
        },
{
    if let Some(Type::Int(spelling)) = expected {
        if !spelling.holds(denoted_value(value, spelling)) {
            log.emit(span, Problem::LiteralDoesNotFit { value, spelling });
            return program.add_expr(HirExpr::Error);
        }
    }
    program.add_expr(HirExpr::Int(value))
}

/// Carrying a value into a type it was already carried into adds nothing, where
/// an `Any` is not itself wrapped again.
pub proof fn coercing_twice_adds_nothing(
    before: &HirProgram,
    after: &HirProgram,
    lattice: &Lattice,
    expr: HirExprId,
    expected: Type,
    result: HirExprId,
)
    requires
        !lattice.erasable@.contains(Type::Any),
        before.has_expr(expr),
        coerced(before, after, lattice, expr, expected, result),
    ensures
        crossing(lattice, result, after.at(result), expected) is None,
{
}

/// A value that needs a crossing has, once carried over, exactly the type the
/// position declares.
pub proof fn a_crossing_gives_the_declared_type(
    before: &HirProgram,
    after: &HirProgram,
    lattice: &Lattice,
    expr: HirExprId,
    expected: Type,
    result: HirExprId,
)
    requires
        before.has_expr(expr),
        coerced(before, after, lattice, expr, expected, result),
        crossing(lattice, expr, before.at(expr), expected) is Some,
    ensures
        after.type_at(result) == expected,
{
}

/// An integer that is no literal reaches storage of another spelling as it is exactly
/// where every value its own spelling holds is one the destination holds. Everywhere
/// else it goes through one checked conversion into the destination.
pub proof fn an_integer_is_unconverted_only_where_every_value_fits(
    before: &HirProgram,
    after: &HirProgram,
    lattice: &Lattice,
    expr: HirExprId,
    from: IntSpelling,
    to: IntSpelling,
    result: HirExprId,
)
    requires
        before.has_expr(expr),
        before.at(expr).ty() == Type::Int(from),
        !(before.at(expr) is Int),
        coerced(before, after, lattice, expr, Type::Int(to), result),
    ensures
        result == expr <==> forall|v: int|
            #![trigger from.holds_value(v)]
            from.holds_value(v) ==> to.holds_value(v),
        result == expr <==> to.low() <= from.low() && from.high() <= to.high(),
        result == expr ==> *after == *before,
        result != expr ==> after.exprs@ == before.exprs@.push(
            HirExpr::Convert { operand: expr, kind: ConvertKind::IntToInt, ty: Type::Int(to) },
        ) && result.0 == before.exprs@.len(),
{
    if forall|v: int|
        #![trigger from.holds_value(v)]
        from.holds_value(v) ==> to.holds_value(v) {
        assert(from.holds_value(from.low()));
        assert(from.holds_value(from.high()));
    }
    crate::ty::spellings_are_machine_ranges();
}

/// A literal reaches storage as it is exactly where the number it names fits: its own
/// number, for every spelling but `U64`, which holds the 64 bits of any literal.
pub proof fn a_literal_is_unconverted_only_where_it_fits(
    before: &HirProgram,
    after: &HirProgram,
    lattice: &Lattice,
    expr: HirExprId,
    value: i64,
    to: IntSpelling,
    result: HirExprId,
)
    requires
        before.has_expr(expr),
        before.at(expr) == HirExpr::Int(value),
        coerced(before, after, lattice, expr, Type::Int(to), result),
    ensures
        to == IntSpelling::U64 ==> result == expr && *after == *before,
        to != IntSpelling::U64 ==> (result == expr <==> to.low() <= value <= to.high()),
        result == expr ==> *after == *before,
        result != expr ==> after.exprs@ == before.exprs@.push(
            HirExpr::Convert { operand: expr, kind: ConvertKind::IntToInt, ty: Type::Int(to) },
        ) && result.0 == before.exprs@.len(),
{
    crate::ty::spellings_are_machine_ranges();
}

/// A value enters `Any` by one wrapping that remembers its type, exactly where its type
/// can be erased; a value of any other type, and a value entering a position that is
/// neither `Any` nor an integer for an integer, is left as it is.
pub proof fn only_any_and_integers_are_crossed(
    before: &HirProgram,
    after: &HirProgram,
    lattice: &Lattice,
    expr: HirExprId,
    expected: Type,
    result: HirExprId,
)
    requires
        before.has_expr(expr),
        coerced(before, after, lattice, expr, expected, result),
    ensures
        expected == Type::Any && lattice.erasable@.contains(before.at(expr).ty())
            ==> after.exprs@ == before.exprs@.push(
            HirExpr::IntoAny { value: expr, from: before.at(expr).ty() },
        ) && result.0 == before.exprs@.len(),
        expected == Type::Any && !lattice.erasable@.contains(before.at(expr).ty()) ==> result
            == expr && *after == *before,
        expected != Type::Any && !(before.at(expr).ty() is Int && expected is Int) ==> result
            == expr && *after == *before,
        before.at(expr).ty() == expected && expected != Type::Any ==> result == expr && *after
            == *before,
{
}

/// A literal is refused exactly where the spelling asked of it cannot hold its number;
/// the 64 bits of any literal are a `U64`, and nothing else asks anything of it.
pub proof fn a_literal_overflows_only_where_it_does_not_fit(value: i64, expected: Option<Type>)
    ensures
        expected matches Some(Type::Int(spelling)) ==> (spelling != IntSpelling::U64 ==> (overflows(
            value,
            expected,
        ) <==> value < spelling.low() || value > spelling.high())),
        expected == Some(Type::Int(IntSpelling::U64)) ==> !overflows(value, expected),
        expected is None ==> !overflows(value, expected),
        expected matches Some(ty) ==> (!(ty is Int) ==> !overflows(value, expected)),
{
    crate::ty::spellings_are_machine_ranges();
}

} // verus!
