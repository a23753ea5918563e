//! What one function's body references: the constants it reads and the
//! functions it can enter, directly and through everything it calls.
//!
//! References are resolved ones. A call edge is a function id and a read is a
//! slot, so two declarations that merely share a name are never bridged.

use vstd::prelude::*;

use crate::graph::{
    flags_down, lemma_closed, lemma_reaches_self, lemma_reaches_step, lemma_unset_raise, reaches,
    unset, Edges,
};
use crate::hir::{
    AttemptStep, Callee, FuncId, HirExpr, HirExprId, HirPlace, HirPlaceStep, HirProgram, HirStmt,
    HirStmtId, HirWriteback, TaskTarget,
};

verus! {

/// The index expressions among the steps of a walk, in order.
pub open spec fn index_steps(path: Seq<HirPlaceStep>) -> Seq<HirExprId>
    decreases path.len(),
{
    if path.len() == 0 {
        Seq::empty()
    } else {
        index_steps(path.drop_last()) + match path.last() {
            HirPlaceStep::Index(index) => seq![index],
            HirPlaceStep::Field(_) => Seq::empty(),
        }
    }
}

/// The index expressions of every written-back place, in order.
pub open spec fn writeback_steps(writebacks: Seq<HirWriteback>) -> Seq<HirExprId>
    decreases writebacks.len(),
{
    if writebacks.len() == 0 {
        Seq::empty()
    } else {
        writeback_steps(writebacks.drop_last()) + index_steps(writebacks.last().place.path@)
    }
}

/// The expressions an expression is made of.
#[verifier::opaque]
pub open spec fn children(node: HirExpr) -> Seq<HirExprId> {
    match node {
        HirExpr::Call { args, writebacks, .. } => args@ + writeback_steps(writebacks@),
        HirExpr::TaskSpawn { args, .. } => args@,
        HirExpr::MainThreadCall { args, .. } => args@,
        HirExpr::Unary { operand, .. } => seq![operand],
        HirExpr::CellNew { value, .. } => seq![value],
        HirExpr::Field { base, .. } => seq![base],
        HirExpr::ForeignMemberAddress { base, .. } => seq![base],
        HirExpr::ForeignField { base, .. } => seq![base],
        HirExpr::ArrayLen { array } => seq![array],
        HirExpr::StringLen { text } => seq![text],
        HirExpr::ArrayElements { value, .. } => seq![value],
        HirExpr::ScalarText { value } => seq![value],
        HirExpr::StringOf { value } => seq![value],
        HirExpr::CLayoutAddress { value, .. } => seq![value],
        HirExpr::CStringNew { text } => seq![text],
        HirExpr::EnumTag { value } => seq![value],
        HirExpr::EnumPayload { value, .. } => seq![value],
        HirExpr::NativeState { value, .. } => seq![value],
        HirExpr::NativeUserData { state } => seq![state],
        HirExpr::NativeRecover { raw, .. } => seq![raw],
        HirExpr::NativeStateRetain { token } => seq![token],
        HirExpr::NativeStateRelease { token } => seq![token],
        HirExpr::Convert { operand, .. } => seq![operand],
        HirExpr::Distinct { value, .. } => seq![value],
        HirExpr::IntoAny { value, .. } => seq![value],
        HirExpr::TypeOf { value } => seq![value],
        HirExpr::TypeField { descriptor, .. } => seq![descriptor],
        HirExpr::TaskJoin { handle, .. } => seq![handle],
        HirExpr::TaskDetach { handle } => seq![handle],
        HirExpr::TaskCancel { handle } => seq![handle],
        HirExpr::MainThreadJoin { handle, .. } => seq![handle],
        HirExpr::Binary { lhs, rhs, .. } => seq![lhs, rhs],
        HirExpr::Select { cond, then, otherwise, .. } => seq![cond, then, otherwise],
        HirExpr::Copy { value, .. } => seq![value],
        HirExpr::TypeTest { value } => seq![value],
        HirExpr::TypeCast { value, .. } => seq![value],
        HirExpr::StructNew { fields, .. } => fields@,
        HirExpr::ArrayNew { elements, .. } => elements@,
        HirExpr::Index { base, index, .. } => seq![base, index],
        HirExpr::StringCharAt { text, index } => seq![text, index],
        HirExpr::StringSubstring { text, start, end } => seq![text, start, end],
        HirExpr::StringIndexOf { text, needle } => seq![text, needle],
        HirExpr::StringOperation { text, arguments, .. } => seq![text] + arguments@,
        HirExpr::MathOperation { operands, .. } => operands@,
        HirExpr::FileSystem { args, .. } => args@,
        HirExpr::Compiler { args, .. } => args@,
        HirExpr::Env { args, .. } => args@,
        HirExpr::ForeignElement { base, index, .. } => seq![base, index],
        HirExpr::ArrayAppend { place, value } => index_steps(place.path@).push(value),
        HirExpr::EnumNew { payload, .. } => match payload {
            Some(value) => seq![value],
            None => Seq::empty(),
        },
        _ => Seq::empty(),
    }
}

/// The slot an expression reads, when it is a read of a constant.
#[verifier::opaque]
pub open spec fn slot_read(node: HirExpr) -> Option<u32> {
    match node {
        HirExpr::ConstantGet { constant, .. } => Some(constant),
        _ => None,
    }
}

/// The function an expression can enter: a call, a task, a main-thread dispatch,
/// or a callback whose address it takes.
#[verifier::opaque]
pub open spec fn entered(program: &HirProgram, node: HirExpr) -> Option<FuncId> {
    match node {
        HirExpr::ForeignCallbackPtr { callback } if callback
            < program.foreign_callbacks@.len() => Some(
            program.foreign_callbacks@[callback as int],
        ),
        HirExpr::Call { callee: Callee::User(id), .. } => Some(id),
        HirExpr::TaskSpawn { target: TaskTarget::Call(id), .. } => Some(id),
        HirExpr::MainThreadCall { function, .. } => Some(function),
        _ => None,
    }
}

/// The expression reads slot `slot`.
pub open spec fn reads_slot(node: HirExpr, slot: int) -> bool {
    slot_read(node) matches Some(read) && read == slot
}

/// The expression can enter function `f`.
pub open spec fn enters(program: &HirProgram, node: HirExpr, f: int) -> bool {
    entered(program, node) matches Some(id) && id.0 == f
}

/// The statements of an attempt's steps, in order.
pub open spec fn attempt_stmts(steps: Seq<AttemptStep>) -> Seq<HirStmtId>
    decreases steps.len(),
{
    if steps.len() == 0 {
        Seq::empty()
    } else {
        attempt_stmts(steps.drop_last()) + steps.last().setup@ + steps.last().handler@
            + steps.last().success@
    }
}

/// The conditions of an attempt's steps, in order.
pub open spec fn attempt_exprs(steps: Seq<AttemptStep>) -> Seq<HirExprId>
    decreases steps.len(),
{
    if steps.len() == 0 {
        Seq::empty()
    } else {
        attempt_exprs(steps.drop_last()).push(steps.last().error_condition)
    }
}

/// The statements nested directly inside a statement.
#[verifier::opaque]
pub open spec fn nested_stmts(node: HirStmt) -> Seq<HirStmtId> {
    match node {
        HirStmt::If { then_body, else_body, .. } => then_body@ + else_body@,
        HirStmt::Attempt { steps, trailing } => attempt_stmts(steps@) + trailing@,
        HirStmt::While { body, .. } => body@,
        _ => Seq::empty(),
    }
}

/// The expressions a statement holds itself.
#[verifier::opaque]
pub open spec fn held_exprs(node: HirStmt) -> Seq<HirExprId> {
    match node {
        HirStmt::Let { init, .. } => seq![init],
        HirStmt::Assign { place, value } => index_steps(place.path@).push(value),
        HirStmt::CellSet { value, .. } => seq![value],
        HirStmt::Return { value } => match value {
            Some(value) => seq![value],
            None => Seq::empty(),
        },
        HirStmt::Expr { expr } => seq![expr],
        HirStmt::If { cond, .. } => seq![cond],
        HirStmt::Attempt { steps, .. } => attempt_exprs(steps@),
        HirStmt::While { cond, .. } => seq![cond],
        HirStmt::Break => Seq::empty(),
        HirStmt::Continue => Seq::empty(),
    }
}

/// Every id the program's nodes hold names a node, and every read a slot.
pub open spec fn resolved(program: &HirProgram) -> bool {
    &&& forall|e: int, k: int|
        0 <= e < program.exprs@.len() && 0 <= k < children(program.exprs@[e]).len()
            ==> (#[trigger] children(program.exprs@[e])[k]).0 < program.exprs@.len()
    &&& forall|e: int|
        0 <= e < program.exprs@.len() ==> (#[trigger] slot_read(program.exprs@[e]) matches Some(
            slot,
        ) ==> slot < program.constants@.len())
    &&& forall|s: int, k: int|
        0 <= s < program.stmts@.len() && 0 <= k < held_exprs(program.stmts@[s]).len()
            ==> (#[trigger] held_exprs(program.stmts@[s])[k]).0 < program.exprs@.len()
    &&& forall|s: int, k: int|
        0 <= s < program.stmts@.len() && 0 <= k < nested_stmts(program.stmts@[s]).len()
            ==> (#[trigger] nested_stmts(program.stmts@[s])[k]).0 < program.stmts@.len()
    &&& forall|f: int, k: int|
        0 <= f < program.functions@.len() && 0 <= k < program.functions@[f].body@.len()
            ==> (#[trigger] program.functions@[f].body@[k]).0 < program.stmts@.len()
}

/// From an expression to the expressions it is made of.
pub open spec fn expr_edges(program: &HirProgram) -> Edges {
    |a: int, b: int|
        0 <= a < program.exprs@.len() && children(program.exprs@[a]).contains(HirExprId(b as u32))
            && 0 <= b <= u32::MAX
}

/// From a statement to the statements nested inside it.
pub open spec fn stmt_edges(program: &HirProgram) -> Edges {
    |a: int, b: int|
        0 <= a < program.stmts@.len() && nested_stmts(program.stmts@[a]).contains(
            HirStmtId(b as u32),
        ) && 0 <= b <= u32::MAX
}

/// Statement `s` is one of `body`'s, at any depth.
pub open spec fn has_stmt(program: &HirProgram, body: Seq<HirStmtId>, s: int) -> bool {
    exists|root: HirStmtId|
        body.contains(root) && #[trigger] reaches(stmt_edges(program), root.0 as int, s)
}

/// Expression `root` is held by some statement of `body`.
pub open spec fn holds_expr(program: &HirProgram, body: Seq<HirStmtId>, root: HirExprId) -> bool {
    exists|s: int|
        0 <= s < program.stmts@.len() && #[trigger] has_stmt(program, body, s) && held_exprs(
            program.stmts@[s],
        ).contains(root)
}

/// Expression `e` runs as part of `body`, at any depth.
pub open spec fn runs(program: &HirProgram, body: Seq<HirStmtId>, e: int) -> bool {
    exists|root: HirExprId| #[trigger]
        holds_expr(program, body, root) && reaches(expr_edges(program), root.0 as int, e)
}

/// Expression `e` is one of `roots` or something they are made of.
pub open spec fn reached_expr(program: &HirProgram, roots: Seq<HirExprId>, e: int) -> bool {
    exists|root: HirExprId|
        roots.contains(root) && #[trigger] reaches(expr_edges(program), root.0 as int, e)
}

/// A body reads constant `slot`.
pub open spec fn body_reads(program: &HirProgram, body: Seq<HirStmtId>, slot: int) -> bool {
    exists|e: int|
        0 <= e < program.exprs@.len() && #[trigger] runs(program, body, e) && reads_slot(
            program.exprs@[e],
            slot,
        )
}

/// A body can enter function `f`.
pub open spec fn body_enters(program: &HirProgram, body: Seq<HirStmtId>, f: int) -> bool {
    exists|e: int|
        0 <= e < program.exprs@.len() && #[trigger] runs(program, body, e) && enters(program, program.exprs@[e], f)
}

/// Every constant slot and function one function's body references directly.
pub struct BodyRefs {
    /// By slot: whether the body reads it.
    pub constants: Vec<bool>,
    /// By function: whether the body can enter it.
    pub functions: Vec<bool>,
}

impl BodyRefs {
    /// The references are exactly those of `body`.
    pub open spec fn of(&self, program: &HirProgram, body: Seq<HirStmtId>) -> bool {
        &&& self.constants@.len() == program.constants@.len()
        &&& self.functions@.len() == program.functions@.len()
        &&& forall|slot: int|
            0 <= slot < self.constants@.len() ==> (#[trigger] self.constants@[slot] <==> body_reads(
                program,
                body,
                slot,
            ))
        &&& forall|f: int|
            0 <= f < self.functions@.len() ==> (#[trigger] self.functions@[f] <==> body_enters(
                program,
                body,
                f,
            ))
    }
}

fn push_exprs(queue: &mut Vec<HirExprId>, more: &Vec<HirExprId>)
    ensures
        final(queue)@ == old(queue)@ + more@,
{
    let mut i: usize = 0;
    while i < more.len()
        invariant
            i <= more.len(),
            queue@ == old(queue)@ + more@.take(i as int),
        decreases more.len() - i,
    {
        queue.push(more[i]);
        i += 1;
        assert(more@.take(i as int) =~= more@.take(i - 1).push(more@[i - 1]));
    }
    assert(more@.take(i as int) =~= more@);
}

fn push_stmts(queue: &mut Vec<HirStmtId>, more: &Vec<HirStmtId>)
    ensures
        final(queue)@ == old(queue)@ + more@,
{
    let mut i: usize = 0;
    while i < more.len()
        invariant
            i <= more.len(),
            queue@ == old(queue)@ + more@.take(i as int),
        decreases more.len() - i,
    {
        queue.push(more[i]);
        i += 1;
        assert(more@.take(i as int) =~= more@.take(i - 1).push(more@[i - 1]));
    }
    assert(more@.take(i as int) =~= more@);
}

/// Queues the index expressions inside one place's path.
fn place_indices(place: &HirPlace, queue: &mut Vec<HirExprId>)
    ensures
        final(queue)@ == old(queue)@ + index_steps(place.path@),
{
    let mut i: usize = 0;
    while i < place.path.len()
        invariant
            i <= place.path@.len(),
            queue@ == old(queue)@ + index_steps(place.path@.take(i as int)),
        decreases place.path@.len() - i,
    {
        match place.path[i] {
            HirPlaceStep::Index(index) => queue.push(index),
            HirPlaceStep::Field(_) => {},
        }
        i += 1;
        assert(place.path@.take(i as int).drop_last() =~= place.path@.take(i - 1));
    }
    assert(place.path@.take(i as int) =~= place.path@);
}

fn writeback_indices(writebacks: &Vec<HirWriteback>, queue: &mut Vec<HirExprId>)
    ensures
        final(queue)@ == old(queue)@ + writeback_steps(writebacks@),
{
    let mut i: usize = 0;
    while i < writebacks.len()
        invariant
            i <= writebacks@.len(),
            queue@ == old(queue)@ + writeback_steps(writebacks@.take(i as int)),
        decreases writebacks@.len() - i,
    {
        place_indices(&writebacks[i].place, queue);
        i += 1;
        assert(writebacks@.take(i as int).drop_last() =~= writebacks@.take(i - 1));
    }
    assert(writebacks@.take(i as int) =~= writebacks@);
}

/// Queues one statement's expressions and nested statements.
pub fn statement_refs(
    program: &HirProgram,
    id: HirStmtId,
    stmts: &mut Vec<HirStmtId>,
    exprs: &mut Vec<HirExprId>,
)
    requires
        id.0 < program.stmts@.len(),
    ensures
        final(stmts)@ == old(stmts)@ + nested_stmts(program.stmts@[id.0 as int]),
        final(exprs)@ == old(exprs)@ + held_exprs(program.stmts@[id.0 as int]),
{
    proof {
        reveal(nested_stmts);
        reveal(held_exprs);
    }
    match &program.stmts[id.0 as usize] {
        HirStmt::Let { init, .. } => exprs.push(*init),
        HirStmt::Assign { place, value } => {
            place_indices(place, exprs);
            exprs.push(*value);
        },
        HirStmt::CellSet { value, .. } => exprs.push(*value),
        HirStmt::Return { value } => match value {
            Some(value) => exprs.push(*value),
            None => {},
        },
        HirStmt::Expr { expr } => exprs.push(*expr),
        HirStmt::If { cond, then_body, else_body } => {
            exprs.push(*cond);
            push_stmts(stmts, then_body);
            push_stmts(stmts, else_body);
        },
        HirStmt::Attempt { steps, trailing } => {
            let mut i: usize = 0;
            while i < steps.len()
                invariant
                    i <= steps@.len(),
                    stmts@ == old(stmts)@ + attempt_stmts(steps@.take(i as int)),
                    exprs@ == old(exprs)@ + attempt_exprs(steps@.take(i as int)),
                decreases steps@.len() - i,
            {
                push_stmts(stmts, &steps[i].setup);
                exprs.push(steps[i].error_condition);
                push_stmts(stmts, &steps[i].handler);
                push_stmts(stmts, &steps[i].success);
                i += 1;
                assert(steps@.take(i as int).drop_last() =~= steps@.take(i - 1));
            }
            assert(steps@.take(i as int) =~= steps@);
            push_stmts(stmts, trailing);
        },
        HirStmt::While { cond, body } => {
            exprs.push(*cond);
            push_stmts(stmts, body);
        },
        HirStmt::Break => {},
        HirStmt::Continue => {},
    }
}

/// Records one expression's references and queues its children.
pub fn expression_refs(
    program: &HirProgram,
    id: HirExprId,
    refs: &mut BodyRefs,
    exprs: &mut Vec<HirExprId>,
)
    requires
        id.0 < program.exprs@.len(),
    ensures
        final(exprs)@ == old(exprs)@ + children(program.exprs@[id.0 as int]),
        final(refs).constants@ == (match slot_read(program.exprs@[id.0 as int]) {
            Some(slot) if slot < old(refs).constants@.len() => old(refs).constants@.update(
                slot as int,
                true,
            ),
            _ => old(refs).constants@,
        }),
        final(refs).functions@ == (match entered(program, program.exprs@[id.0 as int]) {
            Some(f) if f.0 < old(refs).functions@.len() => old(refs).functions@.update(
                f.0 as int,
                true,
            ),
            _ => old(refs).functions@,
        }),
{
    proof {
        reveal(children);
        reveal(slot_read);
        reveal(entered);
    }
    match &program.exprs[id.0 as usize] {
        HirExpr::ConstantGet { constant, .. } => {
            if (*constant as usize) < refs.constants.len() {
                refs.constants[*constant as usize] = true;
            }
        },
        HirExpr::ForeignCallbackPtr { callback } => {
            if (*callback as usize) < program.foreign_callbacks.len() {
                note_function(program.foreign_callbacks[*callback as usize], refs);
            }
        },
        HirExpr::Call { callee, args, writebacks, .. } => {
            if let Callee::User(target) = callee {
                note_function(*target, refs);
            }
            push_exprs(exprs, args);
            writeback_indices(writebacks, exprs);
        },
        HirExpr::TaskSpawn { target, args, .. } => {
            if let TaskTarget::Call(called) = target {
                note_function(*called, refs);
            }
            push_exprs(exprs, args);
        },
        HirExpr::MainThreadCall { function, args, .. } => {
            note_function(*function, refs);
            push_exprs(exprs, args);
        },
        HirExpr::Unary { operand, .. } => exprs.push(*operand),
        HirExpr::CellNew { value, .. } => exprs.push(*value),
        HirExpr::Field { base, .. } => exprs.push(*base),
        HirExpr::ForeignMemberAddress { base, .. } => exprs.push(*base),
        HirExpr::ForeignField { base, .. } => exprs.push(*base),
        HirExpr::ArrayLen { array } => exprs.push(*array),
        HirExpr::StringLen { text } => exprs.push(*text),
        HirExpr::ArrayElements { value, .. } => exprs.push(*value),
        HirExpr::ScalarText { value } => exprs.push(*value),
        HirExpr::StringOf { value } => exprs.push(*value),
        HirExpr::CLayoutAddress { value, .. } => exprs.push(*value),
        HirExpr::CStringNew { text } => exprs.push(*text),
        HirExpr::EnumTag { value } => exprs.push(*value),
        HirExpr::EnumPayload { value, .. } => exprs.push(*value),
        HirExpr::NativeState { value, .. } => exprs.push(*value),
        HirExpr::NativeUserData { state } => exprs.push(*state),
        HirExpr::NativeRecover { raw, .. } => exprs.push(*raw),
        HirExpr::NativeStateRetain { token } => exprs.push(*token),
        HirExpr::NativeStateRelease { token } => exprs.push(*token),
        HirExpr::Convert { operand, .. } => exprs.push(*operand),
        HirExpr::Distinct { value, .. } => exprs.push(*value),
        HirExpr::IntoAny { value, .. } => exprs.push(*value),
        HirExpr::TypeOf { value } => exprs.push(*value),
        HirExpr::TypeField { descriptor, .. } => exprs.push(*descriptor),
        HirExpr::TaskJoin { handle, .. } => exprs.push(*handle),
        HirExpr::TaskDetach { handle } => exprs.push(*handle),
        HirExpr::TaskCancel { handle } => exprs.push(*handle),
        HirExpr::MainThreadJoin { handle, .. } => exprs.push(*handle),
        HirExpr::Binary { lhs, rhs, .. } => {
            exprs.push(*lhs);
            exprs.push(*rhs);
        },
        HirExpr::Select { cond, then, otherwise, .. } => {
            exprs.push(*cond);
            exprs.push(*then);
            exprs.push(*otherwise);
        },
        HirExpr::Copy { value, .. } => exprs.push(*value),
        HirExpr::TypeTest { value } => exprs.push(*value),
        HirExpr::TypeCast { value, .. } => exprs.push(*value),
        HirExpr::StructNew { fields, .. } => push_exprs(exprs, fields),
        HirExpr::ArrayNew { elements, .. } => push_exprs(exprs, elements),
        HirExpr::Index { base, index, .. } => {
            exprs.push(*base);
            exprs.push(*index);
        },
        HirExpr::StringCharAt { text, index } => {
            exprs.push(*text);
            exprs.push(*index);
        },
        HirExpr::StringSubstring { text, start, end } => {
            exprs.push(*text);
            exprs.push(*start);
            exprs.push(*end);
        },
        HirExpr::StringIndexOf { text, needle } => {
            exprs.push(*text);
            exprs.push(*needle);
        },
        HirExpr::StringOperation { text, arguments, .. } => {
            exprs.push(*text);
            push_exprs(exprs, arguments);
        },
        HirExpr::MathOperation { operands, .. } => push_exprs(exprs, operands),
        HirExpr::FileSystem { args, .. } => push_exprs(exprs, args),
        HirExpr::Compiler { args, .. } => push_exprs(exprs, args),
        HirExpr::Env { args, .. } => push_exprs(exprs, args),
        HirExpr::ForeignElement { base, index, .. } => {
            exprs.push(*base);
            exprs.push(*index);
        },
        HirExpr::ArrayAppend { place, value } => {
            place_indices(place, exprs);
            exprs.push(*value);
        },
        HirExpr::EnumNew { payload, .. } => match payload {
            Some(value) => exprs.push(*value),
            None => {},
        },
        HirExpr::Int(_) => {},
        HirExpr::Float(_) => {},
        HirExpr::Bool(_) => {},
        HirExpr::Str(_) => {},
        HirExpr::RawPtrNull => {},
        HirExpr::CStringNull => {},
        HirExpr::CellNull { .. } => {},
        HirExpr::CellGet { .. } => {},
        HirExpr::Local { .. } => {},
        HirExpr::Error => {},
    }
    assert(exprs@ =~= old(exprs)@ + children(program.exprs@[id.0 as int]));
}

fn note_function(f: FuncId, refs: &mut BodyRefs)
    ensures
        final(refs).constants@ == old(refs).constants@,
        final(refs).functions@ == if f.0 < old(refs).functions@.len() {
            old(refs).functions@.update(f.0 as int, true)
        } else {
            old(refs).functions@
        },
{
    if (f.0 as usize) < refs.functions.len() {
        refs.functions[f.0 as usize] = true;
    }
}

/// Marks every statement of `body`, at any depth, and lists the expressions
/// those statements hold.
fn body_exprs(program: &HirProgram, body: &Vec<HirStmtId>) -> (exprs: Vec<HirExprId>)
    requires
        resolved(program),
        forall|k: int| 0 <= k < body@.len() ==> (#[trigger] body@[k]).0 < program.stmts@.len(),
    ensures
        forall|root: HirExprId| exprs@.contains(root) <==> #[trigger] holds_expr(
            program,
            body@,
            root,
        ),
        forall|k: int| 0 <= k < exprs@.len() ==> (#[trigger] exprs@[k]).0 < program.exprs@.len(),
{
    let mut seen: Vec<bool> = flags_down(program.stmts.len());
    let mut stmts: Vec<HirStmtId> = Vec::new();
    push_stmts(&mut stmts, body);
    let mut exprs: Vec<HirExprId> = Vec::new();
    let ghost edge = stmt_edges(program);
    proof {
        assert forall|k: int| 0 <= k < stmts@.len() implies has_stmt(
            program,
            body@,
            (#[trigger] stmts@[k]).0 as int,
        ) by {
            lemma_reaches_self(edge, stmts@[k].0 as int);
            assert(body@.contains(stmts@[k]));
        }
        assert forall|k: int| 0 <= k < body@.len() implies seen@[(#[trigger] body@[k]).0 as int]
            || stmts@.contains(body@[k]) by {
            assert(stmts@[k] == body@[k]);
        }
    }
    while stmts.len() > 0
        invariant
            resolved(program),
            edge == stmt_edges(program),
            seen@.len() == program.stmts@.len(),
            forall|k: int| 0 <= k < body@.len() ==> (#[trigger] body@[k]).0 < program.stmts@.len(),
            forall|k: int|
                0 <= k < stmts@.len() ==> (#[trigger] stmts@[k]).0 < program.stmts@.len(),
            forall|k: int|
                0 <= k < stmts@.len() ==> has_stmt(program, body@, (#[trigger] stmts@[k]).0 as int),
            forall|s: int| 0 <= s < seen@.len() && #[trigger] seen@[s] ==> has_stmt(program, body@, s),
            forall|k: int|
                0 <= k < body@.len() ==> seen@[(#[trigger] body@[k]).0 as int] || stmts@.contains(
                    body@[k],
                ),
            forall|a: int, b: int|
                0 <= a < seen@.len() && seen@[a] && #[trigger] edge(a, b) ==> seen@[b]
                    || stmts@.contains(HirStmtId(b as u32)),
            forall|k: int|
                0 <= k < exprs@.len() ==> (#[trigger] exprs@[k]).0 < program.exprs@.len(),
            forall|root: HirExprId|
                exprs@.contains(root) ==> #[trigger] holds_expr(program, body@, root),
            forall|s: int, k: int|
                0 <= s < seen@.len() && seen@[s] && 0 <= k < held_exprs(program.stmts@[s]).len()
                    ==> exprs@.contains(#[trigger] held_exprs(program.stmts@[s])[k]),
        decreases unset(seen@), stmts@.len(),
    {
        let ghost before = stmts@;
        let ghost held = exprs@;
        let ghost marked = seen@;
        let id = stmts.pop().unwrap();
        assert(id == before.last());
        assert(stmts@ == before.drop_last());
        assert forall|x: HirStmtId| #[trigger] before.contains(x) implies x == id || stmts@.contains(
            x,
        ) by {
            let j = choose|j: int| 0 <= j < before.len() && before[j] == x;
            if j < before.len() - 1 {
                assert(stmts@[j] == x);
            }
        }
        if !seen[id.0 as usize] {
            let ghost rest = stmts@;
            seen[id.0 as usize] = true;
            statement_refs(program, id, &mut stmts, &mut exprs);
            proof {
                let here = id.0 as int;
                lemma_unset_raise(marked, here);
                assert(seen@ == marked.update(here, true));
                let nested = nested_stmts(program.stmts@[here]);
                let own = held_exprs(program.stmts@[here]);
                let s0 = id.0 as int;
                assert(has_stmt(program, body@, s0)) by {
                    assert(before[before.len() - 1] == id);
                }
                assert forall|k: int| 0 <= k < stmts@.len() implies (#[trigger] stmts@[k]).0
                    < program.stmts@.len() && has_stmt(program, body@, stmts@[k].0 as int) by {
                    if k < rest.len() {
                        assert(stmts@[k] == rest[k] && rest[k] == before[k]);
                    } else {
                        let c = k - rest.len();
                        assert(stmts@[k] == nested[c]);
                        assert(nested.contains(nested[c]));
                        assert(edge(here, nested[c].0 as int));
                        let root = choose|root: HirStmtId|
                            body@.contains(root) && #[trigger] reaches(edge, root.0 as int, here);
                        lemma_reaches_step(edge, root.0 as int, here, nested[c].0 as int);
                    }
                }
                assert forall|x: HirStmtId| #[trigger] rest.contains(x) implies stmts@.contains(
                    x,
                ) by {
                    let j = choose|j: int| 0 <= j < rest.len() && rest[j] == x;
                    assert(stmts@[j] == x);
                }
                assert forall|x: HirStmtId| #[trigger] nested.contains(x) implies stmts@.contains(
                    x,
                ) by {
                    let j = choose|j: int| 0 <= j < nested.len() && nested[j] == x;
                    assert(stmts@[rest.len() + j] == x);
                }
                assert forall|x: HirExprId| #[trigger] held.contains(x) implies exprs@.contains(
                    x,
                ) by {
                    let j = choose|j: int| 0 <= j < held.len() && held[j] == x;
                    assert(exprs@[j] == x);
                }
                assert forall|a: int, b: int|
                    0 <= a < seen@.len() && seen@[a] && #[trigger] edge(a, b) implies seen@[b]
                    || stmts@.contains(HirStmtId(b as u32)) by {
                    if a == here {
                        assert(nested.contains(HirStmtId(b as u32)));
                    } else {
                        assert(marked[a]);
                        if before.contains(HirStmtId(b as u32)) && HirStmtId(b as u32) != id {
                            assert(rest.contains(HirStmtId(b as u32)));
                        }
                    }
                }
                assert forall|k: int| 0 <= k < body@.len() implies seen@[(
                #[trigger] body@[k]).0 as int] || stmts@.contains(body@[k]) by {
                    if before.contains(body@[k]) && body@[k] != id {
                        assert(rest.contains(body@[k]));
                    }
                }
                assert forall|k: int| 0 <= k < exprs@.len() implies (#[trigger] exprs@[k]).0
                    < program.exprs@.len() by {
                    if k >= held.len() {
                        assert(exprs@[k] == own[k - held.len()]);
                    } else {
                        assert(exprs@[k] == held[k]);
                    }
                }
                assert forall|root: HirExprId| exprs@.contains(root) implies #[trigger] holds_expr(
                    program,
                    body@,
                    root,
                ) by {
                    let j = choose|j: int| 0 <= j < exprs@.len() && exprs@[j] == root;
                    if j < held.len() {
                        assert(held[j] == root);
                        assert(held.contains(root));
                    } else {
                        assert(own[j - held.len()] == root);
                        assert(held_exprs(program.stmts@[s0]).contains(root));
                    }
                }
                assert forall|s: int, k: int|
                    0 <= s < seen@.len() && seen@[s] && 0 <= k < held_exprs(
                        program.stmts@[s],
                    ).len() implies exprs@.contains(
                    #[trigger] held_exprs(program.stmts@[s])[k],
                ) by {
                    if s == here {
                        assert(exprs@[held.len() + k] == own[k]);
                    } else {
                        assert(marked[s]);
                        assert(held.contains(held_exprs(program.stmts@[s])[k]));
                    }
                }
            }
        } else {
            assert forall|k: int| 0 <= k < stmts@.len() implies (#[trigger] stmts@[k]).0
                < program.stmts@.len() && has_stmt(program, body@, stmts@[k].0 as int) by {
                assert(stmts@[k] == before[k]);
            }
        }
    }
    proof {
        assert forall|root: HirExprId| #[trigger] holds_expr(
            program,
            body@,
            root,
        ) implies exprs@.contains(root) by {
            let s = choose|s: int|
                0 <= s < program.stmts@.len() && #[trigger] has_stmt(program, body@, s)
                    && held_exprs(program.stmts@[s]).contains(root);
            let top = choose|top: HirStmtId|
                body@.contains(top) && #[trigger] reaches(edge, top.0 as int, s);
            let k0 = choose|k: int| 0 <= k < body@.len() && body@[k] == top;
            assert(body@[k0] == top);
            let inside = |x: int| 0 <= x < seen@.len() && seen@[x];
            assert(inside(top.0 as int));
            assert forall|x: int, y: int| inside(x) && #[trigger] edge(x, y) implies inside(y) by {
                let nested = nested_stmts(program.stmts@[x]);
                let j = choose|j: int| 0 <= j < nested.len() && nested[j] == HirStmtId(y as u32);
                assert(nested[j].0 < program.stmts@.len());
            }
            lemma_closed(edge, inside, top.0 as int, s);
            let k = choose|k: int|
                0 <= k < held_exprs(program.stmts@[s]).len() && held_exprs(program.stmts@[s])[k]
                    == root;
            assert(held_exprs(program.stmts@[s])[k] == root);
        }
    }
    exprs
}


/// Marks every expression reached from `roots`, recording what each references.
fn expr_refs(program: &HirProgram, roots: &Vec<HirExprId>, refs: &mut BodyRefs)
    requires
        resolved(program),
        forall|k: int| 0 <= k < roots@.len() ==> (#[trigger] roots@[k]).0 < program.exprs@.len(),
        old(refs).constants@.len() == program.constants@.len(),
        old(refs).functions@.len() == program.functions@.len(),
        forall|slot: int| 0 <= slot < old(refs).constants@.len() ==> !#[trigger] old(refs).constants@[slot],
        forall|f: int| 0 <= f < old(refs).functions@.len() ==> !#[trigger] old(refs).functions@[f],
    ensures
        final(refs).constants@.len() == program.constants@.len(),
        final(refs).functions@.len() == program.functions@.len(),
        forall|slot: int|
            0 <= slot < final(refs).constants@.len() ==> (#[trigger] final(refs).constants@[slot]
                <==> exists|e: int|
                0 <= e < program.exprs@.len() && #[trigger] reached_expr(program, roots@, e)
                    && reads_slot(program.exprs@[e], slot)),
        forall|f: int|
            0 <= f < final(refs).functions@.len() ==> (#[trigger] final(refs).functions@[f]
                <==> exists|e: int|
                0 <= e < program.exprs@.len() && #[trigger] reached_expr(program, roots@, e) && enters(program, program.exprs@[e], f)),
{
    let mut seen: Vec<bool> = flags_down(program.exprs.len());
    let mut queue: Vec<HirExprId> = Vec::new();
    push_exprs(&mut queue, roots);
    let ghost edge = expr_edges(program);
    proof {
        assert forall|k: int| 0 <= k < queue@.len() implies reached_expr(
            program,
            roots@,
            (#[trigger] queue@[k]).0 as int,
        ) by {
            lemma_reaches_self(edge, queue@[k].0 as int);
            assert(roots@.contains(queue@[k]));
        }
        assert forall|k: int| 0 <= k < roots@.len() implies seen@[(#[trigger] roots@[k]).0 as int]
            || queue@.contains(roots@[k]) by {
            assert(queue@[k] == roots@[k]);
        }
    }
    while queue.len() > 0
        invariant
            resolved(program),
            edge == expr_edges(program),
            seen@.len() == program.exprs@.len(),
            refs.constants@.len() == program.constants@.len(),
            refs.functions@.len() == program.functions@.len(),
            forall|k: int|
                0 <= k < roots@.len() ==> (#[trigger] roots@[k]).0 < program.exprs@.len(),
            forall|k: int|
                0 <= k < queue@.len() ==> (#[trigger] queue@[k]).0 < program.exprs@.len(),
            forall|k: int|
                0 <= k < queue@.len() ==> reached_expr(
                    program,
                    roots@,
                    (#[trigger] queue@[k]).0 as int,
                ),
            forall|e: int|
                0 <= e < seen@.len() && #[trigger] seen@[e] ==> reached_expr(program, roots@, e),
            forall|k: int|
                0 <= k < roots@.len() ==> seen@[(#[trigger] roots@[k]).0 as int]
                    || queue@.contains(roots@[k]),
            forall|a: int, b: int|
                0 <= a < seen@.len() && seen@[a] && #[trigger] edge(a, b) ==> seen@[b]
                    || queue@.contains(HirExprId(b as u32)),
            forall|slot: int|
                0 <= slot < refs.constants@.len() && #[trigger] refs.constants@[slot] ==> exists|
                    e: int,
                |
                    0 <= e < seen@.len() && #[trigger] seen@[e] && reads_slot(program.exprs@[e], slot),
            forall|e: int|
                0 <= e < seen@.len() && #[trigger] seen@[e] ==> (slot_read(
                    program.exprs@[e],
                ) matches Some(slot) ==> refs.constants@[slot as int]),
            forall|f: int|
                0 <= f < refs.functions@.len() && #[trigger] refs.functions@[f] ==> exists|e: int|
                    0 <= e < seen@.len() && #[trigger] seen@[e] && enters(program, program.exprs@[e], f),
            forall|e: int|
                0 <= e < seen@.len() && #[trigger] seen@[e] ==> (entered(
                    program,
                    program.exprs@[e],
                ) matches Some(id) ==> id.0 < refs.functions@.len() ==> refs.functions@[id.0 as int]),
        decreases unset(seen@), queue@.len(),
    {
        let ghost before = queue@;
        let ghost marked = seen@;
        let ghost known = *refs;
        let id = queue.pop().unwrap();
        assert(id == before.last());
        assert(queue@ == before.drop_last());
        assert forall|x: HirExprId| #[trigger] before.contains(x) implies x == id || queue@.contains(
            x,
        ) by {
            let j = choose|j: int| 0 <= j < before.len() && before[j] == x;
            if j < before.len() - 1 {
                assert(queue@[j] == x);
            }
        }
        if !seen[id.0 as usize] {
            let ghost rest = queue@;
            seen[id.0 as usize] = true;
            expression_refs(program, id, refs, &mut queue);
            proof {
                let here = id.0 as int;
                lemma_unset_raise(marked, here);
                assert(seen@ == marked.update(here, true));
                let node = program.exprs@[here];
                let inner = children(node);
                assert(reached_expr(program, roots@, here)) by {
                    assert(before[before.len() - 1] == id);
                }
                assert forall|k: int| 0 <= k < queue@.len() implies (#[trigger] queue@[k]).0
                    < program.exprs@.len() && reached_expr(
                    program,
                    roots@,
                    queue@[k].0 as int,
                ) by {
                    if k < rest.len() {
                        assert(queue@[k] == rest[k] && rest[k] == before[k]);
                    } else {
                        let c = k - rest.len();
                        assert(queue@[k] == inner[c]);
                        assert(inner.contains(inner[c]));
                        assert(edge(here, inner[c].0 as int));
                        let root = choose|root: HirExprId|
                            roots@.contains(root) && #[trigger] reaches(edge, root.0 as int, here);
                        lemma_reaches_step(edge, root.0 as int, here, inner[c].0 as int);
                    }
                }
                assert forall|x: HirExprId| #[trigger] rest.contains(x) implies queue@.contains(
                    x,
                ) by {
                    let j = choose|j: int| 0 <= j < rest.len() && rest[j] == x;
                    assert(queue@[j] == x);
                }
                assert forall|x: HirExprId| #[trigger] inner.contains(x) implies queue@.contains(
                    x,
                ) by {
                    let j = choose|j: int| 0 <= j < inner.len() && inner[j] == x;
                    assert(queue@[rest.len() + j] == x);
                }
                assert forall|a: int, b: int|
                    0 <= a < seen@.len() && seen@[a] && #[trigger] edge(a, b) implies seen@[b]
                    || queue@.contains(HirExprId(b as u32)) by {
                    if a == here {
                        assert(inner.contains(HirExprId(b as u32)));
                    } else {
                        assert(marked[a]);
                        if before.contains(HirExprId(b as u32)) && HirExprId(b as u32) != id {
                            assert(rest.contains(HirExprId(b as u32)));
                        }
                    }
                }
                assert forall|k: int| 0 <= k < roots@.len() implies seen@[(
                #[trigger] roots@[k]).0 as int] || queue@.contains(roots@[k]) by {
                    if before.contains(roots@[k]) && roots@[k] != id {
                        assert(rest.contains(roots@[k]));
                    }
                }
                assert forall|slot: int|
                    0 <= slot < refs.constants@.len() && #[trigger] refs.constants@[slot] implies exists|
                    e: int,
                |
                    0 <= e < seen@.len() && #[trigger] seen@[e] && reads_slot(program.exprs@[e], slot) by {
                    if known.constants@[slot] {
                        let e = choose|e: int|
                            0 <= e < marked.len() && #[trigger] marked[e] && reads_slot(
                                program.exprs@[e],
                                slot,
                            );
                        assert(seen@[e]);
                    } else {
                        assert(seen@[here]);
                    }
                }
                assert forall|e: int| 0 <= e < seen@.len() && #[trigger] seen@[e] implies (
                slot_read(program.exprs@[e]) matches Some(slot) ==> refs.constants@[slot as int]) by {
                    if e != here {
                        assert(marked[e]);
                    }
                }
                assert forall|f: int|
                    0 <= f < refs.functions@.len() && #[trigger] refs.functions@[f] implies exists|
                    e: int,
                |
                    0 <= e < seen@.len() && #[trigger] seen@[e] && enters(program, program.exprs@[e], f) by {
                    if known.functions@[f] {
                        let e = choose|e: int|
                            0 <= e < marked.len() && #[trigger] marked[e] && enters(program, program.exprs@[e], f);
                        assert(seen@[e]);
                    } else {
                        assert(seen@[here]);
                    }
                }
                assert forall|e: int| 0 <= e < seen@.len() && #[trigger] seen@[e] implies (entered(
                    program,
                    program.exprs@[e],
                ) matches Some(id) ==> id.0 < refs.functions@.len()
                    ==> refs.functions@[id.0 as int]) by {
                    if e != here {
                        assert(marked[e]);
                    }
                }
            }
        } else {
            assert forall|k: int| 0 <= k < queue@.len() implies (#[trigger] queue@[k]).0
                < program.exprs@.len() && reached_expr(program, roots@, queue@[k].0 as int) by {
                assert(queue@[k] == before[k]);
            }
        }
    }
    proof {
        assert forall|e: int|
            0 <= e < program.exprs@.len() && #[trigger] reached_expr(
                program,
                roots@,
                e,
            ) implies seen@[e] by {
            let top = choose|top: HirExprId|
                roots@.contains(top) && #[trigger] reaches(edge, top.0 as int, e);
            let k0 = choose|k: int| 0 <= k < roots@.len() && roots@[k] == top;
            assert(roots@[k0] == top);
            let inside = |x: int| 0 <= x < seen@.len() && seen@[x];
            assert(inside(top.0 as int));
            assert forall|x: int, y: int| inside(x) && #[trigger] edge(x, y) implies inside(y) by {
                let inner = children(program.exprs@[x]);
                let j = choose|j: int| 0 <= j < inner.len() && inner[j] == HirExprId(y as u32);
                assert(inner[j].0 < program.exprs@.len());
            }
            lemma_closed(edge, inside, top.0 as int, e);
        }
    }
}

/// The slots and functions one body references directly.
pub fn function_body_refs(program: &HirProgram, body: &Vec<HirStmtId>) -> (refs: BodyRefs)
    requires
        resolved(program),
        forall|k: int| 0 <= k < body@.len() ==> (#[trigger] body@[k]).0 < program.stmts@.len(),
    ensures
        refs.of(program, body@),
{
    let roots = body_exprs(program, body);
    let mut refs = BodyRefs {
        constants: flags_down(program.constants.len()),
        functions: flags_down(program.functions.len()),
    };
    expr_refs(program, &roots, &mut refs);
    proof {
        assert forall|e: int| #[trigger] runs(program, body@, e) <==> reached_expr(
            program,
            roots@,
            e,
        ) by {
            if runs(program, body@, e) {
                let root = choose|root: HirExprId| #[trigger]
                    holds_expr(program, body@, root) && reaches(
                        expr_edges(program),
                        root.0 as int,
                        e,
                    );
                assert(roots@.contains(root) && reaches(expr_edges(program), root.0 as int, e));
            }
            if reached_expr(program, roots@, e) {
                let root = choose|root: HirExprId|
                    roots@.contains(root) && #[trigger] reaches(
                        expr_edges(program),
                        root.0 as int,
                        e,
                    );
                assert(holds_expr(program, body@, root));
            }
        }
        assert forall|slot: int| 0 <= slot < refs.constants@.len() implies (
        #[trigger] refs.constants@[slot] <==> body_reads(program, body@, slot)) by {
            if refs.constants@[slot] {
                let e = choose|e: int|
                    0 <= e < program.exprs@.len() && #[trigger] reached_expr(program, roots@, e)
                        && reads_slot(program.exprs@[e], slot);
                assert(runs(program, body@, e));
            }
            if body_reads(program, body@, slot) {
                let e = choose|e: int|
                    0 <= e < program.exprs@.len() && #[trigger] runs(program, body@, e) && reads_slot(
                        program.exprs@[e],
                        slot,
                    );
                assert(reached_expr(program, roots@, e));
            }
        }
        assert forall|f: int| 0 <= f < refs.functions@.len() implies (
        #[trigger] refs.functions@[f] <==> body_enters(program, body@, f)) by {
            if refs.functions@[f] {
                let e = choose|e: int|
                    0 <= e < program.exprs@.len() && #[trigger] reached_expr(program, roots@, e)
                        && enters(program, program.exprs@[e], f);
                assert(runs(program, body@, e));
            }
            if body_enters(program, body@, f) {
                let e = choose|e: int|
                    0 <= e < program.exprs@.len() && #[trigger] runs(program, body@, e) && enters(program, program.exprs@[e], f);
                assert(reached_expr(program, roots@, e));
            }
        }
    }
    refs
}

/// From a function to the functions its body can enter.
pub open spec fn call_edges(program: &HirProgram) -> Edges {
    |a: int, b: int|
        0 <= a < program.functions@.len() && body_enters(program, program.functions@[a].body@, b)
}

/// Running function `entry` can read constant `slot`, through anything it calls.
pub open spec fn can_read(program: &HirProgram, entry: FuncId, slot: int) -> bool {
    exists|f: int|
        0 <= f < program.functions@.len() && #[trigger] reaches(
            call_edges(program),
            entry.0 as int,
            f,
        ) && body_reads(program, program.functions@[f].body@, slot)
}

/// The references of every function, by function.
pub open spec fn refs_of_all(program: &HirProgram, refs: Seq<BodyRefs>) -> bool {
    refs.len() == program.functions@.len() && forall|f: int|
        0 <= f < refs.len() ==> (#[trigger] refs[f]).of(program, program.functions@[f].body@)
}

/// The references of every function of the program.
pub fn all_body_refs(program: &HirProgram) -> (all: Vec<BodyRefs>)
    requires
        resolved(program),
    ensures
        refs_of_all(program, all@),
{
    let mut all: Vec<BodyRefs> = Vec::new();
    let mut f: usize = 0;
    while f < program.functions.len()
        invariant
            resolved(program),
            f <= program.functions@.len(),
            all@.len() == f,
            forall|g: int|
                0 <= g < f ==> (#[trigger] all@[g]).of(program, program.functions@[g].body@),
        decreases program.functions@.len() - f,
    {
        let refs = function_body_refs(program, &program.functions[f].body);
        all.push(refs);
        f += 1;
    }
    all
}

/// Every constant slot the function `entry` can reach, transitively through
/// every function its call graph references.
///
/// A function id the program does not hold references nothing.
pub fn reachable_constants(
    program: &HirProgram,
    entry: FuncId,
    body_refs: &Vec<BodyRefs>,
) -> (constants: Vec<bool>)
    requires
        refs_of_all(program, body_refs@),
    ensures
        constants@.len() == program.constants@.len(),
        forall|slot: int|
            0 <= slot < constants@.len() ==> (#[trigger] constants@[slot] <==> can_read(
                program,
                entry,
                slot,
            )),
{
    let count: usize = program.functions.len();
    let slots: usize = program.constants.len();
    let mut constants: Vec<bool> = flags_down(slots);
    let mut visited: Vec<bool> = flags_down(count);
    let mut queue: Vec<usize> = Vec::new();
    let ghost edge = call_edges(program);
    let ghost start = entry.0 as int;
    if (entry.0 as usize) < count {
        queue.push(entry.0 as usize);
        proof {
            lemma_reaches_self(edge, start);
            assert(queue@[0] == start);
            assert(queue@.contains(start as usize));
        }
    }
    while queue.len() > 0
        invariant
            refs_of_all(program, body_refs@),
            edge == call_edges(program),
            start == entry.0,
            count == program.functions@.len(),
            slots == program.constants@.len(),
            visited@.len() == count,
            constants@.len() == slots,
            forall|k: int| 0 <= k < queue@.len() ==> (#[trigger] queue@[k]) < count,
            forall|k: int|
                0 <= k < queue@.len() ==> reaches(edge, start, (#[trigger] queue@[k]) as int),
            forall|f: int| 0 <= f < count && #[trigger] visited@[f] ==> reaches(edge, start, f),
            start < count ==> visited@[start] || queue@.contains(start as usize),
            forall|a: int, b: int|
                0 <= a < count && 0 <= b < count && visited@[a] && #[trigger] edge(a, b)
                    ==> visited@[b] || queue@.contains(b as usize),
            forall|slot: int|
                0 <= slot < slots && #[trigger] constants@[slot] ==> exists|f: int|
                    0 <= f < count && #[trigger] visited@[f] && body_refs@[f].constants@[slot],
            forall|f: int, slot: int|
                0 <= f < count && 0 <= slot < slots && visited@[f]
                    && #[trigger] body_refs@[f].constants@[slot] ==> constants@[slot],
        decreases unset(visited@), queue@.len(),
    {
        let ghost before = queue@;
        let ghost marked = visited@;
        let ghost known = constants@;
        let function: usize = queue.pop().unwrap();
        assert(queue@ == before.drop_last());
        assert(function == before[before.len() - 1]);
        assert forall|x: usize| #[trigger] before.contains(x) implies x == function
            || queue@.contains(x) by {
            let j = choose|j: int| 0 <= j < before.len() && before[j] == x;
            if j < before.len() - 1 {
                assert(queue@[j] == x);
            }
        }
        if !visited[function] {
            visited[function] = true;
            let refs = &body_refs[function];
            proof {
                lemma_unset_raise(marked, function as int);
            }
            assert(visited@ == marked.update(function as int, true));
            let mut slot: usize = 0;
            while slot < slots
                invariant
                    slot <= slots,
                    slots == refs.constants@.len(),
                    constants@.len() == slots,
                    known.len() == slots,
                    forall|s: int|
                        0 <= s < slots ==> (#[trigger] constants@[s] <==> known[s] || (s < slot
                            && refs.constants@[s])),
                decreases slots - slot,
            {
                if refs.constants[slot] {
                    constants[slot] = true;
                }
                slot += 1;
            }
            let ghost rest = queue@;
            let mut f: usize = 0;
            while f < count
                invariant
                    f <= count,
                    count == refs.functions@.len(),
                    rest.len() <= queue@.len(),
                    forall|k: int| 0 <= k < rest.len() ==> queue@[k] == #[trigger] rest[k],
                    forall|k: int|
                        rest.len() <= k < queue@.len() ==> (#[trigger] queue@[k]) < f
                            && refs.functions@[queue@[k] as int],
                    forall|g: int|
                        0 <= g < f && #[trigger] refs.functions@[g] ==> queue@.contains(g as usize),
                decreases count - f,
            {
                let ghost earlier = queue@;
                if refs.functions[f] {
                    queue.push(f);
                    assert(queue@[queue@.len() - 1] == f);
                }
                f += 1;
                assert forall|g: int| 0 <= g < f && #[trigger] refs.functions@[g] implies queue@.contains(
                    g as usize,
                ) by {
                    if g < f - 1 {
                        let j = choose|j: int|
                            0 <= j < earlier.len() && earlier[j] == g as usize;
                        assert(queue@[j] == g as usize);
                    }
                }
            }
            proof {
                let here = function as int;
                assert(body_refs@[here].of(program, program.functions@[here].body@));
                assert forall|x: usize| #[trigger] rest.contains(x) implies queue@.contains(x) by {
                    let j = choose|j: int| 0 <= j < rest.len() && rest[j] == x;
                    assert(queue@[j] == x);
                }
                assert forall|k: int| 0 <= k < queue@.len() implies (#[trigger] queue@[k]) < count
                    && reaches(edge, start, queue@[k] as int) by {
                    if k < rest.len() {
                        assert(queue@[k] == rest[k] && rest[k] == before[k]);
                    } else {
                        assert(refs.functions@[queue@[k] as int]);
                        assert(edge(here, queue@[k] as int));
                        lemma_reaches_step(edge, start, here, queue@[k] as int);
                    }
                }
                assert forall|a: int, b: int|
                    0 <= a < count && 0 <= b < count && visited@[a] && #[trigger] edge(
                        a,
                        b,
                    ) implies visited@[b] || queue@.contains(b as usize) by {
                    if a == here {
                        assert(refs.functions@[b]);
                    } else {
                        assert(marked[a]);
                        if before.contains(b as usize) && b != here {
                            assert(rest.contains(b as usize));
                        }
                    }
                }
                assert forall|s: int| 0 <= s < slots && #[trigger] constants@[s] implies exists|
                    f: int,
                |
                    0 <= f < count && #[trigger] visited@[f] && body_refs@[f].constants@[s] by {
                    if known[s] {
                        let f = choose|f: int|
                            0 <= f < count && #[trigger] marked[f] && body_refs@[f].constants@[s];
                        assert(visited@[f]);
                    } else {
                        assert(visited@[here]);
                    }
                }
                assert forall|f: int, s: int|
                    0 <= f < count && 0 <= s < slots && visited@[f]
                        && #[trigger] body_refs@[f].constants@[s] implies constants@[s] by {
                    if f != here {
                        assert(marked[f]);
                    }
                }
                if start < count && !visited@[start] {
                    assert(rest.contains(start as usize));
                }
            }
        } else {
            assert forall|k: int| 0 <= k < queue@.len() implies (#[trigger] queue@[k]) < count
                && reaches(edge, start, queue@[k] as int) by {
                assert(queue@[k] == before[k]);
            }
        }
    }
    proof {
        assert forall|slot: int| 0 <= slot < slots implies (#[trigger] constants@[slot]
            <==> can_read(program, entry, slot)) by {
            if constants@[slot] {
                let f = choose|f: int|
                    0 <= f < count && #[trigger] visited@[f] && body_refs@[f].constants@[slot];
                assert(body_refs@[f].of(program, program.functions@[f].body@));
                assert(reaches(edge, start, f));
            }
            if can_read(program, entry, slot) {
                let f = choose|f: int|
                    0 <= f < program.functions@.len() && #[trigger] reaches(edge, start, f)
                        && body_reads(program, program.functions@[f].body@, slot);
                // Past the program's own functions a walk goes nowhere.
                let inside = |x: int| x >= count || (0 <= x && visited@[x]);
                assert forall|x: int, y: int| inside(x) && #[trigger] edge(x, y) implies inside(
                    y,
                ) by {
                    if y < 0 {
                        assert(body_enters(program, program.functions@[x].body@, y));
                    }
                }
                assert(inside(start));
                lemma_closed(edge, inside, start, f);
                assert(body_refs@[f].of(program, program.functions@[f].body@));
                assert(body_refs@[f].constants@[slot]);
            }
        }
    }
    constants
}

/// Expression `id` stands in `node`: as an operand, as one of a list of operands, or
/// as an index on the way to a place the node writes.
pub open spec fn stands_in(node: HirExpr, id: HirExprId) -> bool {
    ||| node matches HirExpr::Call { args, writebacks, .. } && (args@.contains(id) || exists|
        w: int,
        step: int,
    |
        0 <= w < writebacks@.len() && 0 <= step < writebacks@[w].place.path@.len()
            && #[trigger] writebacks@[w].place.path@[step] == HirPlaceStep::Index(id))
    ||| node matches HirExpr::ArrayAppend { place, value } && (value == id || place.path@.contains(
        HirPlaceStep::Index(id),
    ))
    ||| node matches HirExpr::TaskSpawn { args, .. } && args@.contains(id)
    ||| node matches HirExpr::MainThreadCall { args, .. } && args@.contains(id)
    ||| node matches HirExpr::StructNew { fields, .. } && fields@.contains(id)
    ||| node matches HirExpr::ArrayNew { elements, .. } && elements@.contains(id)
    ||| node matches HirExpr::StringOperation { text, arguments, .. } && (text == id
        || arguments@.contains(id))
    ||| node matches HirExpr::MathOperation { operands, .. } && operands@.contains(id)
    ||| node matches HirExpr::FileSystem { args, .. } && args@.contains(id)
    ||| node matches HirExpr::Compiler { args, .. } && args@.contains(id)
    ||| node matches HirExpr::Env { args, .. } && args@.contains(id)
    ||| node matches HirExpr::EnumNew { payload, .. } && payload == Some(id)
    ||| node matches HirExpr::Binary { lhs, rhs, .. } && (lhs == id || rhs == id)
    ||| node matches HirExpr::Select { cond, then, otherwise, .. } && (cond == id || then == id
        || otherwise == id)
    ||| node matches HirExpr::Index { base, index, .. } && (base == id || index == id)
    ||| node matches HirExpr::ForeignElement { base, index, .. } && (base == id || index == id)
    ||| node matches HirExpr::StringCharAt { text, index } && (text == id || index == id)
    ||| node matches HirExpr::StringSubstring { text, start, end } && (text == id || start == id
        || end == id)
    ||| node matches HirExpr::StringIndexOf { text, needle } && (text == id || needle == id)
    ||| node matches HirExpr::Unary { operand, .. } && operand == id
    ||| node matches HirExpr::Convert { operand, .. } && operand == id
    ||| node matches HirExpr::Field { base, .. } && base == id
    ||| node matches HirExpr::ForeignMemberAddress { base, .. } && base == id
    ||| node matches HirExpr::ForeignField { base, .. } && base == id
    ||| node matches HirExpr::ArrayLen { array } && array == id
    ||| node matches HirExpr::StringLen { text } && text == id
    ||| node matches HirExpr::CStringNew { text } && text == id
    ||| node matches HirExpr::CellNew { value, .. } && value == id
    ||| node matches HirExpr::ArrayElements { value, .. } && value == id
    ||| node matches HirExpr::ScalarText { value } && value == id
    ||| node matches HirExpr::StringOf { value } && value == id
    ||| node matches HirExpr::CLayoutAddress { value, .. } && value == id
    ||| node matches HirExpr::EnumTag { value } && value == id
    ||| node matches HirExpr::EnumPayload { value, .. } && value == id
    ||| node matches HirExpr::NativeState { value, .. } && value == id
    ||| node matches HirExpr::NativeUserData { state } && state == id
    ||| node matches HirExpr::NativeRecover { raw, .. } && raw == id
    ||| node matches HirExpr::NativeStateRetain { token } && token == id
    ||| node matches HirExpr::NativeStateRelease { token } && token == id
    ||| node matches HirExpr::Distinct { value, .. } && value == id
    ||| node matches HirExpr::IntoAny { value, .. } && value == id
    ||| node matches HirExpr::TypeOf { value } && value == id
    ||| node matches HirExpr::TypeField { descriptor, .. } && descriptor == id
    ||| node matches HirExpr::TaskJoin { handle, .. } && handle == id
    ||| node matches HirExpr::TaskDetach { handle } && handle == id
    ||| node matches HirExpr::TaskCancel { handle } && handle == id
    ||| node matches HirExpr::MainThreadJoin { handle, .. } && handle == id
    ||| node matches HirExpr::Copy { value, .. } && value == id
    ||| node matches HirExpr::TypeTest { value } && value == id
    ||| node matches HirExpr::TypeCast { value, .. } && value == id
}

proof fn lemma_index_steps(path: Seq<HirPlaceStep>, id: HirExprId)
    ensures
        index_steps(path).contains(id) <==> path.contains(HirPlaceStep::Index(id)),
    decreases path.len(),
{
    if path.len() > 0 {
        let rest = path.drop_last();
        lemma_index_steps(rest, id);
        let all = index_steps(path);
        let before = index_steps(rest);
        let more: Seq<HirExprId> = match path.last() {
            HirPlaceStep::Index(index) => seq![index],
            HirPlaceStep::Field(_) => Seq::empty(),
        };
        lemma_sum_contains(before, more, id);
        if rest.contains(HirPlaceStep::Index(id)) {
            let k = choose|k: int| 0 <= k < rest.len() && rest[k] == HirPlaceStep::Index(id);
            assert(path[k] == HirPlaceStep::Index(id));
        }
        if path.contains(HirPlaceStep::Index(id)) {
            let k = choose|k: int| 0 <= k < path.len() && path[k] == HirPlaceStep::Index(id);
            if k < rest.len() {
                assert(rest[k] == HirPlaceStep::Index(id));
            } else {
                assert(more[0] == id);
            }
        }
        if more.contains(id) {
            assert(path[path.len() - 1] == HirPlaceStep::Index(id));
        }
    }
}

proof fn lemma_sum_contains<T>(a: Seq<T>, b: Seq<T>, x: T)
    ensures
        (a + b).contains(x) <==> a.contains(x) || b.contains(x),
{
    if a.contains(x) {
        let k = choose|k: int| 0 <= k < a.len() && a[k] == x;
        assert((a + b)[k] == x);
    }
    if b.contains(x) {
        let k = choose|k: int| 0 <= k < b.len() && b[k] == x;
        assert((a + b)[a.len() + k] == x);
    }
    if (a + b).contains(x) {
        let k = choose|k: int| 0 <= k < (a + b).len() && (a + b)[k] == x;
        if k < a.len() {
            assert(a[k] == x);
        } else {
            assert(b[k - a.len()] == x);
        }
    }
}

proof fn lemma_writeback_steps(writebacks: Seq<HirWriteback>, id: HirExprId)
    ensures
        writeback_steps(writebacks).contains(id) <==> exists|w: int, step: int|
            0 <= w < writebacks.len() && 0 <= step < writebacks[w].place.path@.len()
                && #[trigger] writebacks[w].place.path@[step] == HirPlaceStep::Index(id),
    decreases writebacks.len(),
{
    if writebacks.len() > 0 {
        let rest = writebacks.drop_last();
        let last = writebacks.last().place.path@;
        lemma_writeback_steps(rest, id);
        lemma_index_steps(last, id);
        lemma_sum_contains(writeback_steps(rest), index_steps(last), id);
        if writeback_steps(rest).contains(id) {
            let (w, step) = choose|w: int, step: int|
                0 <= w < rest.len() && 0 <= step < rest[w].place.path@.len()
                    && #[trigger] rest[w].place.path@[step] == HirPlaceStep::Index(id);
            assert(writebacks[w].place.path@[step] == HirPlaceStep::Index(id));
        }
        if last.contains(HirPlaceStep::Index(id)) {
            let step = choose|step: int|
                0 <= step < last.len() && last[step] == HirPlaceStep::Index(id);
            assert(writebacks[writebacks.len() - 1].place.path@[step] == HirPlaceStep::Index(id));
        }
        if exists|w: int, step: int|
            0 <= w < writebacks.len() && 0 <= step < writebacks[w].place.path@.len()
                && #[trigger] writebacks[w].place.path@[step] == HirPlaceStep::Index(id) {
            let (w, step) = choose|w: int, step: int|
                0 <= w < writebacks.len() && 0 <= step < writebacks[w].place.path@.len()
                    && #[trigger] writebacks[w].place.path@[step] == HirPlaceStep::Index(id);
            if w < rest.len() {
                assert(rest[w].place.path@[step] == HirPlaceStep::Index(id));
            } else {
                assert(last[step] == HirPlaceStep::Index(id));
            }
        }
    }
}

/// An expression is made of exactly the expressions that stand in it: none of its
/// operands is passed over, and nothing else is taken for one.
pub proof fn every_operand_is_visited(node: HirExpr, id: HirExprId)
    ensures
        children(node).contains(id) <==> stands_in(node, id),
{
    reveal(children);
    match node {
        HirExpr::Call { args, writebacks, .. } => {
            lemma_writeback_steps(writebacks@, id);
            lemma_sum_contains(args@, writeback_steps(writebacks@), id);
        },
        HirExpr::ArrayAppend { place, value } => {
            lemma_index_steps(place.path@, id);
            lemma_sum_contains(index_steps(place.path@), seq![value], id);
            assert(children(node) =~= index_steps(place.path@) + seq![value]);
            assert(seq![value].contains(id) <==> value == id) by {
                assert(seq![value][0] == value);
            }
        },
        HirExpr::StringOperation { text, arguments, .. } => {
            lemma_sum_contains(seq![text], arguments@, id);
            assert(seq![text].contains(id) <==> text == id) by {
                assert(seq![text][0] == text);
            }
        },
        HirExpr::TaskSpawn { .. } | HirExpr::MainThreadCall { .. } | HirExpr::StructNew { .. }
        | HirExpr::ArrayNew { .. } | HirExpr::MathOperation { .. } | HirExpr::FileSystem { .. }
        | HirExpr::Compiler { .. } | HirExpr::Env { .. } => {},
        _ => {
            let list = children(node);
            assert(list.len() <= 3);
            assert(list.contains(id) <==> ((list.len() > 0 && list[0] == id) || (list.len() > 1
                && list[1] == id) || (list.len() > 2 && list[2] == id)));
        },
    }
}

/// Statement `id` stands in `stmt`: in a branch, a loop body, or a step of an attempt.
pub open spec fn stmt_stands_in(stmt: HirStmt, id: HirStmtId) -> bool {
    ||| stmt matches HirStmt::If { then_body, else_body, .. } && (then_body@.contains(id)
        || else_body@.contains(id))
    ||| stmt matches HirStmt::While { body, .. } && body@.contains(id)
    ||| stmt matches HirStmt::Attempt { steps, trailing } && (trailing@.contains(id) || exists|
        k: int,
    |
        0 <= k < steps@.len() && ((#[trigger] steps@[k]).setup@.contains(id)
            || steps@[k].handler@.contains(id) || steps@[k].success@.contains(id)))
}

/// Expression `id` stands in `stmt` itself.
pub open spec fn expr_stands_in(stmt: HirStmt, id: HirExprId) -> bool {
    ||| stmt matches HirStmt::Let { init, .. } && init == id
    ||| stmt matches HirStmt::Assign { place, value } && (value == id || place.path@.contains(
        HirPlaceStep::Index(id),
    ))
    ||| stmt matches HirStmt::CellSet { value, .. } && value == id
    ||| stmt matches HirStmt::Return { value } && value == Some(id)
    ||| stmt matches HirStmt::Expr { expr } && expr == id
    ||| stmt matches HirStmt::If { cond, .. } && cond == id
    ||| stmt matches HirStmt::While { cond, .. } && cond == id
    ||| stmt matches HirStmt::Attempt { steps, .. } && exists|k: int|
        0 <= k < steps@.len() && (#[trigger] steps@[k]).error_condition == id
}

proof fn lemma_attempt_stmts(steps: Seq<AttemptStep>, id: HirStmtId)
    ensures
        attempt_stmts(steps).contains(id) <==> exists|k: int|
            0 <= k < steps.len() && ((#[trigger] steps[k]).setup@.contains(id)
                || steps[k].handler@.contains(id) || steps[k].success@.contains(id)),
    decreases steps.len(),
{
    if steps.len() > 0 {
        let rest = steps.drop_last();
        let last = steps.last();
        lemma_attempt_stmts(rest, id);
        let a = attempt_stmts(rest);
        lemma_sum_contains(a, last.setup@, id);
        lemma_sum_contains(a + last.setup@, last.handler@, id);
        lemma_sum_contains(a + last.setup@ + last.handler@, last.success@, id);
        assert(steps[steps.len() - 1] == last);
        if a.contains(id) {
            let k = choose|k: int|
                0 <= k < rest.len() && ((#[trigger] rest[k]).setup@.contains(id)
                    || rest[k].handler@.contains(id) || rest[k].success@.contains(id));
            assert(steps[k] == rest[k]);
        }
        if exists|k: int|
            0 <= k < steps.len() && ((#[trigger] steps[k]).setup@.contains(id)
                || steps[k].handler@.contains(id) || steps[k].success@.contains(id)) {
            let k = choose|k: int|
                0 <= k < steps.len() && ((#[trigger] steps[k]).setup@.contains(id)
                    || steps[k].handler@.contains(id) || steps[k].success@.contains(id));
            if k < rest.len() {
                assert(rest[k] == steps[k]);
            }
        }
    }
}

proof fn lemma_attempt_exprs(steps: Seq<AttemptStep>, id: HirExprId)
    ensures
        attempt_exprs(steps).contains(id) <==> exists|k: int|
            0 <= k < steps.len() && (#[trigger] steps[k]).error_condition == id,
    decreases steps.len(),
{
    if steps.len() > 0 {
        let rest = steps.drop_last();
        let last = steps.last();
        lemma_attempt_exprs(rest, id);
        lemma_sum_contains(attempt_exprs(rest), seq![last.error_condition], id);
        assert(attempt_exprs(steps) =~= attempt_exprs(rest) + seq![last.error_condition]);
        assert(seq![last.error_condition][0] == last.error_condition);
        assert(steps[steps.len() - 1] == last);
        if attempt_exprs(rest).contains(id) {
            let k = choose|k: int|
                0 <= k < rest.len() && (#[trigger] rest[k]).error_condition == id;
            assert(steps[k] == rest[k]);
        }
        if exists|k: int| 0 <= k < steps.len() && (#[trigger] steps[k]).error_condition == id {
            let k = choose|k: int|
                0 <= k < steps.len() && (#[trigger] steps[k]).error_condition == id;
            if k < rest.len() {
                assert(rest[k] == steps[k]);
            }
        }
    }
}

/// A statement leads to exactly the statements and the expressions that stand in it.
pub proof fn every_part_of_a_statement_is_visited(stmt: HirStmt, s: HirStmtId, e: HirExprId)
    ensures
        nested_stmts(stmt).contains(s) <==> stmt_stands_in(stmt, s),
        held_exprs(stmt).contains(e) <==> expr_stands_in(stmt, e),
{
    reveal(nested_stmts);
    reveal(held_exprs);
    match stmt {
        HirStmt::If { cond, then_body, else_body } => {
            lemma_sum_contains(then_body@, else_body@, s);
            assert(seq![cond][0] == cond);
        },
        HirStmt::While { cond, .. } => {
            assert(seq![cond][0] == cond);
        },
        HirStmt::Attempt { steps, trailing } => {
            lemma_attempt_stmts(steps@, s);
            lemma_attempt_exprs(steps@, e);
            lemma_sum_contains(attempt_stmts(steps@), trailing@, s);
        },
        HirStmt::Assign { place, value } => {
            lemma_index_steps(place.path@, e);
            lemma_sum_contains(index_steps(place.path@), seq![value], e);
            assert(held_exprs(stmt) =~= index_steps(place.path@) + seq![value]);
            assert(seq![value][0] == value);
        },
        HirStmt::Let { init, .. } => {
            assert(seq![init][0] == init);
        },
        HirStmt::CellSet { value, .. } => {
            assert(seq![value][0] == value);
        },
        HirStmt::Return { value } => {
            if let Some(value) = value {
                assert(seq![value][0] == value);
            }
        },
        HirStmt::Expr { expr } => {
            assert(seq![expr][0] == expr);
        },
        HirStmt::Break => {},
        HirStmt::Continue => {},
    }
}

/// `stmts` leads from a statement of `body` inwards, each statement standing in the one
/// before it, and `exprs` from an expression of the last of them inwards likewise.
pub open spec fn leads_to(
    program: &HirProgram,
    body: Seq<HirStmtId>,
    stmts: Seq<HirStmtId>,
    exprs: Seq<HirExprId>,
) -> bool {
    &&& stmts.len() > 0
    &&& exprs.len() > 0
    &&& body.contains(stmts[0])
    &&& forall|i: int| 0 <= i < stmts.len() ==> (#[trigger] stmts[i]).0 < program.stmts@.len()
    &&& forall|i: int| 0 <= i < exprs.len() ==> (#[trigger] exprs[i]).0 < program.exprs@.len()
    &&& forall|i: int|
        0 < i < stmts.len() ==> stmt_stands_in(
            program.stmts@[stmts[i - 1].0 as int],
            #[trigger] stmts[i],
        )
    &&& expr_stands_in(program.stmts@[stmts.last().0 as int], exprs[0])
    &&& forall|i: int|
        0 < i < exprs.len() ==> stands_in(
            program.exprs@[exprs[i - 1].0 as int],
            #[trigger] exprs[i],
        )
}

proof fn lemma_stmts_lead(program: &HirProgram, stmts: Seq<HirStmtId>, count: int)
    requires
        0 <= count < stmts.len(),
        forall|i: int| 0 <= i < stmts.len() ==> (#[trigger] stmts[i]).0 < program.stmts@.len(),
        forall|i: int|
            0 < i < stmts.len() ==> stmt_stands_in(
                program.stmts@[stmts[i - 1].0 as int],
                #[trigger] stmts[i],
            ),
    ensures
        reaches(stmt_edges(program), stmts[0].0 as int, stmts[count].0 as int),
    decreases count,
{
    let edge = stmt_edges(program);
    if count == 0 {
        lemma_reaches_self(edge, stmts[0].0 as int);
    } else {
        lemma_stmts_lead(program, stmts, count - 1);
        let outer = program.stmts@[stmts[count - 1].0 as int];
        assert(stmt_stands_in(outer, stmts[count]));
        every_part_of_a_statement_is_visited(outer, stmts[count], HirExprId(0));
        assert(edge(stmts[count - 1].0 as int, stmts[count].0 as int));
        lemma_reaches_step(
            edge,
            stmts[0].0 as int,
            stmts[count - 1].0 as int,
            stmts[count].0 as int,
        );
    }
}

proof fn lemma_exprs_lead(program: &HirProgram, exprs: Seq<HirExprId>, count: int)
    requires
        0 <= count < exprs.len(),
        forall|i: int| 0 <= i < exprs.len() ==> (#[trigger] exprs[i]).0 < program.exprs@.len(),
        forall|i: int|
            0 < i < exprs.len() ==> stands_in(
                program.exprs@[exprs[i - 1].0 as int],
                #[trigger] exprs[i],
            ),
    ensures
        reaches(expr_edges(program), exprs[0].0 as int, exprs[count].0 as int),
    decreases count,
{
    let edge = expr_edges(program);
    if count == 0 {
        lemma_reaches_self(edge, exprs[0].0 as int);
    } else {
        lemma_exprs_lead(program, exprs, count - 1);
        let outer = program.exprs@[exprs[count - 1].0 as int];
        assert(stands_in(outer, exprs[count]));
        every_operand_is_visited(outer, exprs[count]);
        assert(edge(exprs[count - 1].0 as int, exprs[count].0 as int));
        lemma_reaches_step(
            edge,
            exprs[0].0 as int,
            exprs[count - 1].0 as int,
            exprs[count].0 as int,
        );
    }
}

/// A read of a constant anywhere inside a body, however deep, is found: the body's
/// references hold the slot.
pub proof fn a_nested_read_is_found(
    program: &HirProgram,
    body: Seq<HirStmtId>,
    refs: &BodyRefs,
    stmts: Seq<HirStmtId>,
    exprs: Seq<HirExprId>,
)
    requires
        refs.of(program, body),
        leads_to(program, body, stmts, exprs),
        (program.exprs@[exprs.last().0 as int] matches HirExpr::ConstantGet { constant, .. }
            && constant < program.constants@.len()),
    ensures
        refs.constants@[program.exprs@[exprs.last().0 as int]->ConstantGet_constant as int],
{
    let slot = program.exprs@[exprs.last().0 as int]->ConstantGet_constant as int;
    lemma_leads_run(program, body, stmts, exprs);
    reveal(slot_read);
    assert(reads_slot(program.exprs@[exprs.last().0 as int], slot));
    assert(body_reads(program, body, slot));
    assert(refs.constants@[slot] <==> body_reads(program, body, slot));
}

proof fn lemma_leads_run(
    program: &HirProgram,
    body: Seq<HirStmtId>,
    stmts: Seq<HirStmtId>,
    exprs: Seq<HirExprId>,
)
    requires
        leads_to(program, body, stmts, exprs),
    ensures
        runs(program, body, exprs.last().0 as int),
{
    let last = stmts.last().0 as int;
    lemma_stmts_lead(program, stmts, stmts.len() - 1);
    lemma_exprs_lead(program, exprs, exprs.len() - 1);
    assert(has_stmt(program, body, last)) by {
        assert(body.contains(stmts[0]));
        assert(reaches(stmt_edges(program), stmts[0].0 as int, last));
    }
    every_part_of_a_statement_is_visited(program.stmts@[last], HirStmtId(0), exprs[0]);
    assert(0 <= last < program.stmts@.len()) by {
        assert(stmts[stmts.len() - 1].0 < program.stmts@.len());
    }
    assert(holds_expr(program, body, exprs[0]));
}

/// A call, a task, a main-thread dispatch or a callback anywhere inside a body is found:
/// the body's references hold the function it enters.
pub proof fn a_nested_call_is_found(
    program: &HirProgram,
    body: Seq<HirStmtId>,
    refs: &BodyRefs,
    stmts: Seq<HirStmtId>,
    exprs: Seq<HirExprId>,
    f: FuncId,
)
    requires
        refs.of(program, body),
        leads_to(program, body, stmts, exprs),
        f.0 < program.functions@.len(),
        match program.exprs@[exprs.last().0 as int] {
            HirExpr::Call { callee, .. } => callee == Callee::User(f),
            HirExpr::TaskSpawn { target, .. } => target == TaskTarget::Call(f),
            HirExpr::MainThreadCall { function, .. } => function == f,
            HirExpr::ForeignCallbackPtr { callback } => callback < program.foreign_callbacks@.len()
                && program.foreign_callbacks@[callback as int] == f,
            _ => false,
        },
    ensures
        refs.functions@[f.0 as int],
{
    lemma_leads_run(program, body, stmts, exprs);
    reveal(entered);
    assert(enters(program, program.exprs@[exprs.last().0 as int], f.0 as int));
    assert(body_enters(program, body, f.0 as int));
    assert(refs.functions@[f.0 as int] <==> body_enters(program, body, f.0 as int));
}

/// What a body is said to reference, it references: only a read of a constant makes a
/// slot a reference, and only something that enters a function makes that one.
pub proof fn only_reads_and_calls_are_references(program: &HirProgram, node: HirExpr, at: int)
    ensures
        reads_slot(node, at) <==> (node matches HirExpr::ConstantGet { constant, .. } && constant
            == at),
        enters(program, node, at) <==> {
            ||| node matches HirExpr::Call { callee: Callee::User(id), .. } && id.0 == at
            ||| node matches HirExpr::TaskSpawn { target: TaskTarget::Call(id), .. } && id.0 == at
            ||| node matches HirExpr::MainThreadCall { function, .. } && function.0 == at
            ||| node matches HirExpr::ForeignCallbackPtr { callback } && callback
                < program.foreign_callbacks@.len() && program.foreign_callbacks@[callback as int].0
                == at
        },
{
    reveal(slot_read);
    reveal(entered);
}

/// The chain `funcs` of functions, each entered from inside the body of the one before
/// it, where `entering` says at which expression: the outer statements and expressions
/// that lead to it.
pub open spec fn calls_along(
    program: &HirProgram,
    funcs: Seq<FuncId>,
    entering: Seq<(Seq<HirStmtId>, Seq<HirExprId>)>,
) -> bool {
    &&& funcs.len() > 0
    &&& entering.len() == funcs.len() - 1
    &&& forall|i: int| 0 <= i < funcs.len() ==> (#[trigger] funcs[i]).0 < program.functions@.len()
    &&& forall|i: int|
        #![trigger entering[i]]
        0 <= i < entering.len() ==> {
            let (stmts, exprs) = entering[i];
            &&& leads_to(program, program.functions@[funcs[i].0 as int].body@, stmts, exprs)
            &&& match program.exprs@[exprs.last().0 as int] {
                HirExpr::Call { callee, .. } => callee == Callee::User(funcs[i + 1]),
                HirExpr::TaskSpawn { target, .. } => target == TaskTarget::Call(funcs[i + 1]),
                HirExpr::MainThreadCall { function, .. } => function == funcs[i + 1],
                HirExpr::ForeignCallbackPtr { callback } => callback
                    < program.foreign_callbacks@.len()
                    && program.foreign_callbacks@[callback as int] == funcs[i + 1],
                _ => false,
            }
        }
}

proof fn lemma_calls_lead(
    program: &HirProgram,
    funcs: Seq<FuncId>,
    entering: Seq<(Seq<HirStmtId>, Seq<HirExprId>)>,
    count: int,
)
    requires
        calls_along(program, funcs, entering),
        0 <= count < funcs.len(),
    ensures
        reaches(call_edges(program), funcs[0].0 as int, funcs[count].0 as int),
    decreases count,
{
    let edge = call_edges(program);
    if count == 0 {
        lemma_reaches_self(edge, funcs[0].0 as int);
    } else {
        lemma_calls_lead(program, funcs, entering, count - 1);
        let (stmts, exprs) = entering[count - 1];
        let body = program.functions@[funcs[count - 1].0 as int].body@;
        lemma_leads_run(program, body, stmts, exprs);
        reveal(entered);
        assert(funcs[count].0 < program.functions@.len());
        assert(enters(program, program.exprs@[exprs.last().0 as int], funcs[count].0 as int));
        assert(body_enters(program, body, funcs[count].0 as int));
        assert(funcs[count - 1].0 < program.functions@.len());
        assert(edge(funcs[count - 1].0 as int, funcs[count].0 as int));
        lemma_reaches_step(
            edge,
            funcs[0].0 as int,
            funcs[count - 1].0 as int,
            funcs[count].0 as int,
        );
    }
}

/// Running a function can read a constant that stands anywhere inside its body, or
/// anywhere inside the body of a function that is entered from there, however far.
pub proof fn a_read_through_calls_is_found(
    program: &HirProgram,
    funcs: Seq<FuncId>,
    entering: Seq<(Seq<HirStmtId>, Seq<HirExprId>)>,
    stmts: Seq<HirStmtId>,
    exprs: Seq<HirExprId>,
    slot: u32,
    ty: crate::ty::Type,
)
    requires
        calls_along(program, funcs, entering),
        leads_to(program, program.functions@[funcs.last().0 as int].body@, stmts, exprs),
        program.exprs@[exprs.last().0 as int] == (HirExpr::ConstantGet { constant: slot, ty }),
    ensures
        can_read(program, funcs[0], slot as int),
{
    lemma_calls_lead(program, funcs, entering, funcs.len() - 1);
    let last = funcs.last().0 as int;
    assert(funcs[funcs.len() - 1].0 < program.functions@.len());
    lemma_leads_run(program, program.functions@[last].body@, stmts, exprs);
    reveal(slot_read);
    assert(reads_slot(program.exprs@[exprs.last().0 as int], slot as int));
    assert(body_reads(program, program.functions@[last].body@, slot as int));
    assert(reaches(call_edges(program), funcs[0].0 as int, last));
}

} // verus!
