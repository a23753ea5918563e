//! Module-scope constants: `let Name = value` written as an item.
//!
//! One value per program, computed once at program start and shared by every
//! reader. Each constant is a slot, a synthesized zero-argument function
//! computing it, and an entry in the value namespace.

use vstd::prelude::*;

use crate::source::{SourceId, Span};
use crate::symbol_map::SymbolMap;
use crate::ty::Type;

verus! {

/// One collected module-scope constant, as the value namespace sees it.
///
/// Indexed in lockstep with the program's constants, so the position of an
/// entry is the slot a read loads from.
#[derive(Clone, Copy, PartialEq, Eq, Structural, Debug)]
pub struct ConstantEntry {
    /// The resolved type: declared when written, inferred otherwise, `Error`
    /// until the initializer has been analyzed.
    pub ty: Type,
    /// The declaring file, which gates visibility the way a function's does.
    pub source: SourceId,
    /// Span of the name token.
    pub name_span: Span,
}

/// Every module-scope constant, by slot and by name.
#[derive(Debug)]
pub struct ConstantTable {
    pub entries: Vec<ConstantEntry>,
    /// Each constant's slot by name. Names are unique, so one slot answers a
    /// read.
    pub index: SymbolMap<u32>,
}

impl ConstantTable {
    /// Every indexed name has a slot.
    pub open spec fn wf(&self) -> bool {
        &&& self.index.wf()
        &&& self.entries@.len() <= u32::MAX
        &&& forall|i: int|
            0 <= i < self.index.rows@.len() ==> (#[trigger] self.index.rows@[i]).1
                < self.entries@.len()
    }
}

} // verus!
