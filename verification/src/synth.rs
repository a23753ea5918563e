//! Synthesized functions: lifted closures, dispatchers and initializers.
//!
//! Every synthesized function sits after every declared one, and its id is
//! handed out before its body exists, so that a body can call another one that
//! is still being built.

use vstd::prelude::*;

use crate::hir::{FuncId, HirFunction};

verus! {

/// The synthesized functions, each a reserved id and, once built, a body.
#[derive(Debug)]
pub struct SynthTable {
    /// The number of functions the source declares, which every reserved id is
    /// offset from.
    pub base: u32,
    pub rows: Vec<Option<HirFunction>>,
}

impl SynthTable {
    /// Every reserved id fits in an id.
    pub open spec fn wf(&self) -> bool {
        self.base + self.rows@.len() <= u32::MAX
    }

    /// Whether `id` was reserved here.
    pub open spec fn reserved(&self, id: FuncId) -> bool {
        self.base <= id.0 < self.base + self.rows@.len()
    }

    /// The row of a reserved id.
    pub open spec fn row(&self, id: FuncId) -> Option<HirFunction> {
        self.rows@[id.0 - self.base]
    }

    /// The body of `id` is built.
    pub open spec fn filled(&self, id: FuncId) -> bool {
        self.reserved(id) && self.row(id) is Some
    }

    /// Rows were added after those of `before`, every one of them filled, and no
    /// row of `before` changed.
    pub open spec fn built_on(&self, before: &SynthTable) -> bool {
        &&& self.base == before.base
        &&& crate::hir::grew(before.rows@, self.rows@)
        &&& forall|i: int|
            before.rows@.len() <= i < self.rows@.len() ==> (#[trigger] self.rows@[i]) is Some
    }

    /// A table offset from `base`, with nothing reserved.
    pub fn new(base: u32) -> (table: SynthTable)
        ensures
            table.wf(),
            table.base == base,
            table.rows@.len() == 0,
    {
        SynthTable { base, rows: Vec::new() }
    }

    /// Reserves the next id, its body to come.
    pub fn reserve_synth(&mut self) -> (id: FuncId)
        requires
            old(self).wf(),
            old(self).base + old(self).rows@.len() < u32::MAX,
        ensures
            final(self).wf(),
            id.0 == old(self).base + old(self).rows@.len(),
            final(self).rows@ == old(self).rows@.push(None),
            final(self).base == old(self).base,
    {
        let id = FuncId(self.base + self.rows.len() as u32);
        self.rows.push(None);
        id
    }

    /// How many ids have been reserved so far.
    pub fn reserved_synth(&self) -> (count: usize)
        ensures
            count == self.rows@.len(),
    {
        self.rows.len()
    }

    /// Whether a reserved id is still waiting for its body.
    pub fn synth_needs_body(&self, id: FuncId) -> (res: bool)
        requires
            self.base <= id.0,
        ensures
            res == (self.reserved(id) && self.row(id) is None),
    {
        let index: usize = (id.0 - self.base) as usize;
        index < self.rows.len() && self.rows[index].is_none()
    }

    /// Records a synthesized function's body against its reserved id.
    pub fn fill_synth(&mut self, id: FuncId, function: HirFunction)
        requires
            old(self).base <= id.0,
        ensures
            final(self).base == old(self).base,
            final(self).rows@ == if old(self).reserved(id) {
                old(self).rows@.update(id.0 - old(self).base, Some(function))
            } else {
                old(self).rows@
            },
    {
        let index: usize = (id.0 - self.base) as usize;
        if index < self.rows.len() {
            self.rows[index] = Some(function);
        }
    }
}

/// A body that has been recorded is no longer waited for, and recording it
/// disturbs no other id.
pub proof fn filling_settles_one_id(
    before: &SynthTable,
    after: &SynthTable,
    id: FuncId,
    function: HirFunction,
    other: FuncId,
)
    requires
        before.reserved(id),
        after.base == before.base,
        after.rows@ == before.rows@.update(id.0 - before.base, Some(function)),
    ensures
        after.filled(id),
        after.row(id) == Some(function),
        before.reserved(other) && other != id ==> after.row(other) == before.row(other),
{
}

} // verus!
