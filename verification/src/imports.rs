//! Which files see which: packages, and what each file imports.

use vstd::prelude::*;

use crate::lists::copied;
use crate::names::Symbol;
use crate::source::SourceId;

verus! {

/// Every file's package and imports, by file.
#[derive(Debug)]
pub struct ImportTable {
    /// The package each file belongs to; a file past the end belongs to none.
    pub packages: Vec<Option<Symbol>>,
    /// The module each file is; a file past the end is none.
    pub modules: Vec<Option<Symbol>>,
    /// The packages each file imports, in order.
    pub imported: Vec<Vec<Symbol>>,
    /// The pairs `(reader, declared)` where declarations of the second file are
    /// nameable from the first.
    pub visible: Vec<(SourceId, SourceId)>,
}

impl ImportTable {
    /// The package `source` belongs to.
    pub open spec fn package(&self, source: SourceId) -> Option<Symbol> {
        if source.0 < self.packages@.len() {
            self.packages@[source.0 as int]
        } else {
            None
        }
    }

    /// The module `source` is.
    pub open spec fn module(&self, source: SourceId) -> Option<Symbol> {
        if source.0 < self.modules@.len() {
            self.modules@[source.0 as int]
        } else {
            None
        }
    }

    /// The packages `source` imports, in order.
    pub open spec fn imports_of(&self, source: SourceId) -> Seq<Symbol> {
        if source.0 < self.imported@.len() {
            self.imported@[source.0 as int]@
        } else {
            Seq::empty()
        }
    }

    /// Whether declarations of `declared` are nameable from `reader`.
    pub open spec fn seen(&self, reader: SourceId, declared: SourceId) -> bool {
        self.visible@.contains((reader, declared))
    }

    /// The package `source` belongs to, if any.
    pub fn package_of(&self, source: SourceId) -> (package: Option<Symbol>)
        ensures
            package == self.package(source),
    {
        if (source.0 as usize) < self.packages.len() {
            self.packages[source.0 as usize]
        } else {
            None
        }
    }

    /// The module `source` is, if any.
    pub fn module_of(&self, source: SourceId) -> (module: Option<Symbol>)
        ensures
            module == self.module(source),
    {
        if (source.0 as usize) < self.modules.len() {
            self.modules[source.0 as usize]
        } else {
            None
        }
    }

    /// The packages `source` imports, in order.
    pub fn imported_packages(&self, source: SourceId) -> (packages: Vec<Symbol>)
        ensures
            packages@ == self.imports_of(source),
    {
        if (source.0 as usize) < self.imported.len() {
            copied(&self.imported[source.0 as usize])
        } else {
            Vec::new()
        }
    }

    /// Whether declarations of `declared` are nameable from `reader`.
    pub fn sees(&self, reader: SourceId, declared: SourceId) -> (res: bool)
        ensures
            res == self.seen(reader, declared),
    {
        let mut i: usize = 0;
        while i < self.visible.len()
            invariant
                i <= self.visible@.len(),
                forall|k: int| 0 <= k < i ==> self.visible@[k] != (reader, declared),
            decreases self.visible@.len() - i,
        {
            let (from, to) = self.visible[i];
            if from == reader && to == declared {
                return true;
            }
            i += 1;
        }
        false
    }
}

} // verus!
