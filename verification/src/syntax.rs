//! What was written: the syntax tree, and ids of what analysis only hands on.

use vstd::prelude::*;

use crate::hir::HirExprId;
use crate::lists::extend;
use crate::names::Symbol;
use crate::source::SourceId;
use crate::ty::Type;

verus! {

/// One expression as written.
#[derive(Clone, Copy, PartialEq, Eq, Structural, Debug)]
pub struct ExprId(pub u32);

/// One statement as written.
#[derive(Clone, Copy, PartialEq, Eq, Structural, Debug)]
pub struct StmtId(pub u32);

/// One type reference as written.
#[derive(Clone, Copy, PartialEq, Eq, Structural, Debug)]
pub struct TypeRefId(pub u32);

/// What a written type reference means.
#[derive(Clone, Copy, PartialEq, Eq, Structural, Debug)]
pub struct WrittenType {
    pub ty: Type,
    /// The element's type, where the reference is written as an array.
    pub list_of: Option<Type>,
    /// Whether the reference, or the element where it is an array, is written
    /// `some X`.
    pub some: bool,
}

/// What every written type reference means.
#[derive(Debug)]
pub struct TypeRefs {
    pub rows: Vec<WrittenType>,
}

impl TypeRefs {
    /// What a reference means; the error type for one that means nothing.
    pub open spec fn meaning(&self, id: TypeRefId) -> WrittenType {
        if id.0 < self.rows@.len() {
            self.rows@[id.0 as int]
        } else {
            WrittenType { ty: Type::Error, list_of: None, some: false }
        }
    }

    /// What a reference means.
    pub fn resolve(&self, id: TypeRefId) -> (written: WrittenType)
        ensures
            written == self.meaning(id),
    {
        if (id.0 as usize) < self.rows.len() {
            self.rows[id.0 as usize]
        } else {
            WrittenType { ty: Type::Error, list_of: None, some: false }
        }
    }
}

/// What a member is known by: its name together with the written types it takes,
/// because a name alone may be overloaded.
#[derive(Clone, Copy, PartialEq, Eq, Structural, Debug)]
pub struct MemberKey {
    /// The whole spelling, `name(types)`.
    pub text: Symbol,
    pub name: Symbol,
}

/// One declared default initializer, a field's or a parameter's, bound to the
/// file where it was declared.
#[derive(Clone, Copy, PartialEq, Eq, Structural, Debug)]
pub struct FieldDefault {
    /// The default expression as written.
    pub syntax: ExprId,
    /// The declaring file whose imports resolve its names.
    pub source: SourceId,
    /// The resolved expression shared by every use site.
    pub resolved: Option<HirExprId>,
}

impl FieldDefault {
    /// A default in its declaring file, not resolved yet.
    pub open spec fn written(syntax: ExprId, source: SourceId) -> FieldDefault {
        FieldDefault { syntax, source, resolved: None }
    }

    /// Records an unresolved default in its declaring file.
    pub fn new(syntax: ExprId, source: SourceId) -> (default: FieldDefault)
        ensures
            default == FieldDefault::written(syntax, source),
    {
        FieldDefault { syntax, source, resolved: None }
    }
}

/// One expression node, as far as its names and parts go.
#[allow(inconsistent_fields)]
#[derive(Debug)]
pub enum Expr {
    Name { symbol: Symbol },
    Closure { body: Vec<StmtId> },
    Unary { operand: ExprId },
    Binary { lhs: ExprId, rhs: ExprId },
    Conditional { cond: ExprId, then: ExprId, otherwise: ExprId },
    Call { callee: Symbol, args: Vec<ExprId>, children: Vec<ExprId> },
    StructLit { fields: Vec<ExprId> },
    MethodCall { receiver: ExprId, args: Vec<ExprId> },
    Field { base: ExprId },
    ArrayLit { elements: Vec<ExprId> },
    Index { base: ExprId, index: ExprId },
    DotMember { args: Vec<ExprId> },
    Try { value: ExprId },
    Ownership { operand: ExprId },
    ContentFor { iterable: ExprId, body: Vec<ExprId> },
    ContentIf { cond: ExprId, then_body: Vec<ExprId>, else_body: Vec<ExprId> },
    TaskSpawn { body: ExprId },
    /// A literal, or what failed to parse.
    Leaf,
}

/// What a `for` walks over.
#[derive(Clone, Copy, PartialEq, Eq, Structural, Debug)]
pub enum ForIterable {
    Range { start: ExprId, end: ExprId },
    Each { array: ExprId },
}

/// One statement node, as far as its parts go.
#[allow(inconsistent_fields)]
#[derive(Debug)]
pub enum Stmt {
    Let { init: ExprId },
    Assign { target: ExprId, value: ExprId },
    Return { value: Option<ExprId> },
    Expr { expr: ExprId },
    If { cond: ExprId, then_block: Vec<StmtId>, else_block: Vec<StmtId> },
    While { cond: ExprId, body: Vec<StmtId> },
    For { iterable: ForIterable, body: Vec<StmtId> },
    Match { subject: ExprId, arms: Vec<Vec<StmtId>> },
    Attempt { body: Vec<StmtId>, handlers: Vec<Vec<StmtId>> },
    /// A jump, or what failed to parse.
    Leaf,
}

/// Every expression and statement of a program as written.
#[derive(Debug)]
pub struct SyntaxTree {
    pub exprs: Vec<Expr>,
    pub stmts: Vec<Stmt>,
}

/// The statements of several blocks, in order.
pub open spec fn flat_blocks(blocks: Seq<Vec<StmtId>>) -> Seq<StmtId>
    decreases blocks.len(),
{
    if blocks.len() == 0 {
        Seq::empty()
    } else {
        flat_blocks(blocks.drop_last()) + blocks.last()@
    }
}

impl Expr {
    /// The name a node itself writes: the one it reads, or the one it calls.
    pub open spec fn written_name(&self) -> Option<Symbol> {
        match *self {
            Expr::Name { symbol } => Some(symbol),
            Expr::Call { callee, .. } => Some(callee),
            _ => None,
        }
    }

    /// The name a node itself writes.
    pub fn name(&self) -> (name: Option<Symbol>)
        ensures
            name == self.written_name(),
    {
        match self {
            Expr::Name { symbol } => Some(*symbol),
            Expr::Call { callee, .. } => Some(*callee),
            _ => None,
        }
    }

    /// The expressions directly inside an expression.
    pub open spec fn parts(&self) -> Seq<ExprId> {
        match *self {
            Expr::Name { .. } => Seq::empty(),
            Expr::Closure { .. } => Seq::empty(),
            Expr::Unary { operand } => seq![operand],
            Expr::Binary { lhs, rhs } => seq![lhs, rhs],
            Expr::Conditional { cond, then, otherwise } => seq![cond, then, otherwise],
            Expr::Call { args, children, .. } => args@ + children@,
            Expr::StructLit { fields } => fields@,
            Expr::MethodCall { receiver, args } => seq![receiver] + args@,
            Expr::Field { base } => seq![base],
            Expr::ArrayLit { elements } => elements@,
            Expr::Index { base, index } => seq![base, index],
            Expr::DotMember { args } => args@,
            Expr::Try { value } => seq![value],
            Expr::Ownership { operand } => seq![operand],
            Expr::ContentFor { iterable, body } => seq![iterable] + body@,
            Expr::ContentIf { cond, then_body, else_body } => seq![cond] + then_body@ + else_body@,
            Expr::TaskSpawn { body } => seq![body],
            Expr::Leaf => Seq::empty(),
        }
    }

    /// The expressions directly inside an expression.
    pub fn parts_of(&self) -> (parts: Vec<ExprId>)
        ensures
            parts@ == self.parts(),
    {
        let mut parts: Vec<ExprId> = Vec::new();
        match self {
            Expr::Name { .. } => {},
            Expr::Closure { .. } => {},
            Expr::Unary { operand } => parts.push(*operand),
            Expr::Binary { lhs, rhs } => {
                parts.push(*lhs);
                parts.push(*rhs);
            },
            Expr::Conditional { cond, then, otherwise } => {
                parts.push(*cond);
                parts.push(*then);
                parts.push(*otherwise);
            },
            Expr::Call { args, children, .. } => {
                extend(&mut parts, args);
                extend(&mut parts, children);
            },
            Expr::StructLit { fields } => extend(&mut parts, fields),
            Expr::MethodCall { receiver, args } => {
                parts.push(*receiver);
                extend(&mut parts, args);
            },
            Expr::Field { base } => parts.push(*base),
            Expr::ArrayLit { elements } => extend(&mut parts, elements),
            Expr::Index { base, index } => {
                parts.push(*base);
                parts.push(*index);
            },
            Expr::DotMember { args } => extend(&mut parts, args),
            Expr::Try { value } => parts.push(*value),
            Expr::Ownership { operand } => parts.push(*operand),
            Expr::ContentFor { iterable, body } => {
                parts.push(*iterable);
                extend(&mut parts, body);
            },
            Expr::ContentIf { cond, then_body, else_body } => {
                parts.push(*cond);
                extend(&mut parts, then_body);
                extend(&mut parts, else_body);
            },
            Expr::TaskSpawn { body } => parts.push(*body),
            Expr::Leaf => {},
        }
        assert(parts@ =~= self.parts());
        parts
    }
}

impl Stmt {
    /// The expressions directly inside a statement.
    pub open spec fn parts(&self) -> Seq<ExprId> {
        match *self {
            Stmt::Let { init } => seq![init],
            Stmt::Assign { target, value } => seq![target, value],
            Stmt::Return { value } => match value {
                Some(value) => seq![value],
                None => Seq::empty(),
            },
            Stmt::Expr { expr } => seq![expr],
            Stmt::If { cond, .. } => seq![cond],
            Stmt::While { cond, .. } => seq![cond],
            Stmt::For { iterable, .. } => match iterable {
                ForIterable::Range { start, end } => seq![start, end],
                ForIterable::Each { array } => seq![array],
            },
            Stmt::Match { subject, .. } => seq![subject],
            Stmt::Attempt { .. } => Seq::empty(),
            Stmt::Leaf => Seq::empty(),
        }
    }

    /// The statements directly inside a statement.
    pub open spec fn blocks(&self) -> Seq<StmtId> {
        match *self {
            Stmt::If { then_block, else_block, .. } => then_block@ + else_block@,
            Stmt::While { body, .. } => body@,
            Stmt::For { body, .. } => body@,
            Stmt::Match { arms, .. } => flat_blocks(arms@),
            Stmt::Attempt { body, handlers } => body@ + flat_blocks(handlers@),
            _ => Seq::empty(),
        }
    }

    /// The expressions directly inside a statement.
    pub fn parts_of(&self) -> (parts: Vec<ExprId>)
        ensures
            parts@ == self.parts(),
    {
        let mut parts: Vec<ExprId> = Vec::new();
        match self {
            Stmt::Let { init } => parts.push(*init),
            Stmt::Assign { target, value } => {
                parts.push(*target);
                parts.push(*value);
            },
            Stmt::Return { value } => {
                if let Some(value) = value {
                    parts.push(*value);
                }
            },
            Stmt::Expr { expr } => parts.push(*expr),
            Stmt::If { cond, .. } => parts.push(*cond),
            Stmt::While { cond, .. } => parts.push(*cond),
            Stmt::For { iterable, .. } => match iterable {
                ForIterable::Range { start, end } => {
                    parts.push(*start);
                    parts.push(*end);
                },
                ForIterable::Each { array } => parts.push(*array),
            },
            Stmt::Match { subject, .. } => parts.push(*subject),
            Stmt::Attempt { .. } => {},
            Stmt::Leaf => {},
        }
        assert(parts@ =~= self.parts());
        parts
    }

    /// The statements directly inside a statement.
    pub fn blocks_of(&self) -> (stmts: Vec<StmtId>)
        ensures
            stmts@ == self.blocks(),
    {
        let mut stmts: Vec<StmtId> = Vec::new();
        match self {
            Stmt::If { then_block, else_block, .. } => {
                extend(&mut stmts, then_block);
                extend(&mut stmts, else_block);
            },
            Stmt::While { body, .. } => extend(&mut stmts, body),
            Stmt::For { body, .. } => extend(&mut stmts, body),
            Stmt::Match { arms, .. } => extend_blocks(&mut stmts, arms),
            Stmt::Attempt { body, handlers } => {
                extend(&mut stmts, body);
                extend_blocks(&mut stmts, handlers);
            },
            _ => {},
        }
        assert(stmts@ =~= self.blocks());
        stmts
    }
}

fn extend_blocks(stmts: &mut Vec<StmtId>, blocks: &Vec<Vec<StmtId>>)
    ensures
        final(stmts)@ == old(stmts)@ + flat_blocks(blocks@),
{
    let mut i: usize = 0;
    while i < blocks.len()
        invariant
            i <= blocks@.len(),
            stmts@ == old(stmts)@ + flat_blocks(blocks@.take(i as int)),
        decreases blocks@.len() - i,
    {
        extend(stmts, &blocks[i]);
        i += 1;
        assert(blocks@.take(i as int).drop_last() =~= blocks@.take(i - 1));
        assert(stmts@ =~= old(stmts)@ + flat_blocks(blocks@.take(i as int)));
    }
    assert(blocks@.take(i as int) =~= blocks@);
}

proof fn lemma_joined<T>(a: Seq<T>, b: Seq<T>, x: T)
    ensures
        (a + b).contains(x) <==> a.contains(x) || b.contains(x),
{
    if a.contains(x) {
        let k = choose|k: int| 0 <= k < a.len() && a[k] == x;
        assert((a + b)[k] == x);
    }
    if b.contains(x) {
        let k = choose|k: int| 0 <= k < b.len() && b[k] == x;
        assert((a + b)[a.len() + k] == x);
    }
    if (a + b).contains(x) {
        let k = choose|k: int| 0 <= k < (a + b).len() && (a + b)[k] == x;
        if k < a.len() {
            assert(a[k] == x);
        } else {
            assert(b[k - a.len()] == x);
        }
    }
}

proof fn lemma_flat_blocks(blocks: Seq<Vec<StmtId>>, id: StmtId)
    ensures
        flat_blocks(blocks).contains(id) <==> exists|b: int|
            0 <= b < blocks.len() && (#[trigger] blocks[b])@.contains(id),
    decreases blocks.len(),
{
    if blocks.len() > 0 {
        let rest = blocks.drop_last();
        lemma_flat_blocks(rest, id);
        lemma_joined(flat_blocks(rest), blocks.last()@, id);
        assert(blocks[blocks.len() - 1] == blocks.last());
        if flat_blocks(rest).contains(id) {
            let b = choose|b: int| 0 <= b < rest.len() && (#[trigger] rest[b])@.contains(id);
            assert(blocks[b] == rest[b]);
        }
        if exists|b: int| 0 <= b < blocks.len() && (#[trigger] blocks[b])@.contains(id) {
            let b = choose|b: int| 0 <= b < blocks.len() && (#[trigger] blocks[b])@.contains(id);
            if b < rest.len() {
                assert(rest[b] == blocks[b]);
            }
        }
    }
}

/// Expression `id` is written directly inside `node`.
pub open spec fn written_in(node: Expr, id: ExprId) -> bool {
    ||| node matches Expr::Unary { operand } && operand == id
    ||| node matches Expr::Binary { lhs, rhs } && (lhs == id || rhs == id)
    ||| node matches Expr::Conditional { cond, then, otherwise } && (cond == id || then == id
        || otherwise == id)
    ||| node matches Expr::Call { args, children, .. } && (args@.contains(id) || children@.contains(
        id,
    ))
    ||| node matches Expr::StructLit { fields } && fields@.contains(id)
    ||| node matches Expr::MethodCall { receiver, args } && (receiver == id || args@.contains(id))
    ||| node matches Expr::Field { base } && base == id
    ||| node matches Expr::ArrayLit { elements } && elements@.contains(id)
    ||| node matches Expr::Index { base, index } && (base == id || index == id)
    ||| node matches Expr::DotMember { args } && args@.contains(id)
    ||| node matches Expr::Try { value } && value == id
    ||| node matches Expr::Ownership { operand } && operand == id
    ||| node matches Expr::ContentFor { iterable, body } && (iterable == id || body@.contains(id))
    ||| node matches Expr::ContentIf { cond, then_body, else_body } && (cond == id
        || then_body@.contains(id) || else_body@.contains(id))
    ||| node matches Expr::TaskSpawn { body } && body == id
}

/// The parts of an expression are exactly the expressions written directly inside it.
pub proof fn every_part_is_listed(node: Expr, id: ExprId)
    ensures
        node.parts().contains(id) <==> written_in(node, id),
{
    match node {
        Expr::Call { args, children, .. } => {
            lemma_joined(args@, children@, id);
        },
        Expr::MethodCall { receiver, args } => {
            lemma_joined(seq![receiver], args@, id);
            assert(seq![receiver][0] == receiver);
        },
        Expr::ContentFor { iterable, body } => {
            lemma_joined(seq![iterable], body@, id);
            assert(seq![iterable][0] == iterable);
        },
        Expr::ContentIf { cond, then_body, else_body } => {
            lemma_joined(seq![cond], then_body@, id);
            lemma_joined(seq![cond] + then_body@, else_body@, id);
            assert(seq![cond][0] == cond);
        },
        Expr::StructLit { .. } | Expr::ArrayLit { .. } | Expr::DotMember { .. } => {},
        _ => {
            let list = node.parts();
            assert(list.len() <= 3);
            assert(list.contains(id) <==> ((list.len() > 0 && list[0] == id) || (list.len() > 1
                && list[1] == id) || (list.len() > 2 && list[2] == id)));
        },
    }
}

/// The parts of a statement are exactly the expressions written directly inside it, and
/// its blocks the statements.
pub proof fn every_part_of_a_statement_is_listed(node: Stmt, e: ExprId, s: StmtId)
    ensures
        node.parts().contains(e) <==> {
            ||| node matches Stmt::Let { init } && init == e
            ||| node matches Stmt::Assign { target, value } && (target == e || value == e)
            ||| node matches Stmt::Return { value } && value == Some(e)
            ||| node matches Stmt::Expr { expr } && expr == e
            ||| node matches Stmt::If { cond, .. } && cond == e
            ||| node matches Stmt::While { cond, .. } && cond == e
            ||| node matches Stmt::For { iterable: ForIterable::Range { start, end }, .. } && (start
                == e || end == e)
            ||| node matches Stmt::For { iterable: ForIterable::Each { array }, .. } && array == e
            ||| node matches Stmt::Match { subject, .. } && subject == e
        },
        node.blocks().contains(s) <==> {
            ||| node matches Stmt::If { then_block, else_block, .. } && (then_block@.contains(s)
                || else_block@.contains(s))
            ||| node matches Stmt::While { body, .. } && body@.contains(s)
            ||| node matches Stmt::For { body, .. } && body@.contains(s)
            ||| node matches Stmt::Match { arms, .. } && exists|b: int|
                0 <= b < arms@.len() && (#[trigger] arms@[b])@.contains(s)
            ||| node matches Stmt::Attempt { body, handlers } && (body@.contains(s) || exists|b: int|
                0 <= b < handlers@.len() && (#[trigger] handlers@[b])@.contains(s))
        },
{
    let list = node.parts();
    assert(list.len() <= 2);
    assert(list.contains(e) <==> ((list.len() > 0 && list[0] == e) || (list.len() > 1 && list[1]
        == e)));
    match node {
        Stmt::If { then_block, else_block, .. } => {
            lemma_joined(then_block@, else_block@, s);
        },
        Stmt::Match { arms, .. } => {
            lemma_flat_blocks(arms@, s);
        },
        Stmt::Attempt { body, handlers } => {
            lemma_flat_blocks(handlers@, s);
            lemma_joined(body@, flat_blocks(handlers@), s);
        },
        _ => {},
    }
}

impl TypeRefs {
    /// A written type means what its row says, and one without a row is an error that lists
    /// nothing.
    pub proof fn a_written_type_means_what_its_row_says(&self, id: TypeRefId)
        ensures
            id.0 < self.rows@.len() ==> self.meaning(id) == self.rows@[id.0 as int],
            id.0 >= self.rows@.len() ==> self.meaning(id).ty == Type::Error && self.meaning(
                id,
            ).list_of is None && !self.meaning(id).some,
    {
    }
}

} // verus!
