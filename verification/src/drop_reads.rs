//! Reads that would make a second owner of a value that runs a user's `Drop`.
//!
//! A read of a member or an element produces a new value of its type, whose `Drop`
//! body would run again for storage the aggregate still owns. Whether the read is only
//! borrowed is told by the expression around it, which is built after the read. So a
//! read waits until its body is whole, and the expression that borrows it excuses it.

use vstd::prelude::*;

use crate::hir::{HirExprId, HirProgram};
use crate::lattice::Lattice;
use crate::lists::copied;
use crate::source::Span;

verus! {

/// The reads of one body that nothing has excused yet, in the order they were built.
#[derive(Debug)]
pub struct DropReads {
    pub waiting: Vec<(HirExprId, Span)>,
}

/// The first `count` of `waiting` but for the read `id`.
pub open spec fn without(
    waiting: Seq<(HirExprId, Span)>,
    id: HirExprId,
    count: int,
) -> Seq<(HirExprId, Span)>
    decreases count,
{
    if count <= 0 {
        Seq::empty()
    } else if waiting[count - 1].0 == id {
        without(waiting, id, count - 1)
    } else {
        without(waiting, id, count - 1).push(waiting[count - 1])
    }
}

/// What waits once the read `id`, at `span`, was noted.
pub open spec fn noted_read(
    waiting: Seq<(HirExprId, Span)>,
    program: &HirProgram,
    lattice: &Lattice,
    id: HirExprId,
    span: Span,
) -> Seq<(HirExprId, Span)> {
    if lattice.user_drop@.contains(program.type_at(id)) {
        waiting.push((id, span))
    } else {
        waiting
    }
}

impl DropReads {
    /// No read yet.
    pub fn new() -> (reads: DropReads)
        ensures
            reads.waiting@.len() == 0,
    {
        DropReads { waiting: Vec::new() }
    }

    /// Notes a read whose value runs a user's `Drop`.
    pub fn note(&mut self, program: &HirProgram, lattice: &Lattice, read: HirExprId, span: Span)
        requires
            program.has_expr(read),
        ensures
            final(self).waiting@ == noted_read(
                old(self).waiting@,
                program,
                lattice,
                read,
                span,
            ),
    {
        if lattice.runs_user_drop(program.type_of(read)) {
            self.waiting.push((read, span));
        }
    }

    /// Excuses a read that the expression around it only borrows.
    pub fn excuse(&mut self, read: HirExprId)
        ensures
            final(self).waiting@ == without(
                old(self).waiting@,
                read,
                old(self).waiting@.len() as int,
            ),
    {
        let mut kept: Vec<(HirExprId, Span)> = Vec::new();
        let mut i: usize = 0;
        while i < self.waiting.len()
            invariant
                i <= self.waiting@.len(),
                self.waiting@ == old(self).waiting@,
                kept@ == without(self.waiting@, read, i as int),
            decreases self.waiting@.len() - i,
        {
            if self.waiting[i].0.0 != read.0 {
                kept.push(self.waiting[i]);
            }
            i += 1;
        }
        self.waiting = kept;
    }

    /// What waits now, to be put back should what is analyzed next be undone.
    pub fn snapshot(&self) -> (waiting: Vec<(HirExprId, Span)>)
        ensures
            waiting@ == self.waiting@,
    {
        copied(&self.waiting)
    }

    /// Puts back what waited.
    pub fn restore(&mut self, waiting: Vec<(HirExprId, Span)>)
        ensures
            final(self).waiting == waiting,
    {
        self.waiting = waiting;
    }

    /// The reads a whole body leaves unexcused, to be refused; nothing waits any more.
    pub fn take_unclaimed(&mut self) -> (unclaimed: Vec<(HirExprId, Span)>)
        ensures
            unclaimed@ == old(self).waiting@,
            final(self).waiting@.len() == 0,
    {
        let unclaimed = copied(&self.waiting);
        self.waiting = Vec::new();
        unclaimed
    }
}

/// An excused read is refused no more, and every other read that waited still is.
pub proof fn excusing_takes_one_read(
    waiting: Seq<(HirExprId, Span)>,
    id: HirExprId,
    count: int,
    entry: (HirExprId, Span),
)
    requires
        0 <= count <= waiting.len(),
    ensures
        without(waiting, id, count).contains(entry) <==> entry.0 != id && waiting.take(
            count,
        ).contains(entry),
    decreases count,
{
    if count > 0 {
        excusing_takes_one_read(waiting, id, count - 1, entry);
        let before = without(waiting, id, count - 1);
        let after = without(waiting, id, count);
        let last = waiting[count - 1];
        if after.contains(entry) {
            let k = choose|k: int| 0 <= k < after.len() && after[k] == entry;
            if k < before.len() {
                assert(before[k] == entry);
                let shorter = waiting.take(count - 1);
                let j = choose|j: int| 0 <= j < shorter.len() && shorter[j] == entry;
                assert(waiting.take(count)[j] == entry);
            } else {
                assert(waiting.take(count)[count - 1] == entry);
            }
        }
        if entry.0 != id && waiting.take(count).contains(entry) {
            let longer = waiting.take(count);
            let j = choose|j: int| 0 <= j < longer.len() && longer[j] == entry;
            if j < count - 1 {
                assert(waiting.take(count - 1)[j] == entry);
                let k = choose|k: int| 0 <= k < before.len() && before[k] == entry;
                assert(after[k] == entry);
            } else {
                assert(after[after.len() - 1] == last);
            }
        }
    }
}

/// A read waits to be excused exactly if dropping what it reads runs a `Drop` body the
/// program wrote; noting a read forgets none before it.
pub proof fn only_a_droppable_read_waits(
    waiting: Seq<(HirExprId, Span)>,
    program: &HirProgram,
    lattice: &Lattice,
    id: HirExprId,
    span: Span,
    k: int,
)
    ensures
        lattice.user_drop@.contains(program.type_at(id)) ==> noted_read(
            waiting,
            program,
            lattice,
            id,
            span,
        ).last() == (id, span) && noted_read(waiting, program, lattice, id, span).len()
            == waiting.len() + 1,
        !lattice.user_drop@.contains(program.type_at(id)) ==> noted_read(
            waiting,
            program,
            lattice,
            id,
            span,
        ) == waiting,
        0 <= k < waiting.len() ==> noted_read(waiting, program, lattice, id, span)[k] == waiting[k],
{
}

} // verus!
