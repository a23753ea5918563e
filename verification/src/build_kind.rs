//! What the frontend is analyzing a program *as*: an application or a library.
//!
//! `@Main` is required above the backend split, so a library's absence of an
//! entrypoint cannot be excused inside any one backend. The requirement is
//! conditional on this kind, which makes the kind a frontend input.

use vstd::prelude::*;

verus! {

/// Whether a program is analyzed as a runnable application or as a library.
#[derive(Debug, Clone, Copy, PartialEq, Eq, Structural, Hash)]
pub enum BuildKind {
    /// A runnable program: it must declare exactly one `@Main` (`KSEM011`).
    ///
    /// The default, because a bare file handed to the compiler with no manifest
    /// is a program someone means to run.
    Application,
    /// A library: it has no entrypoint, and declaring one is an error.
    Library,
}

impl BuildKind {
    /// The word this kind is called in diagnostics and manifests.
    pub fn label(self) -> (word: &'static str)
        ensures
            word@ == match self {
                BuildKind::Application => "application"@,
                BuildKind::Library => "library"@,
            },
    {
        match self {
            BuildKind::Application => "application",
            BuildKind::Library => "library",
        }
    }

    /// Whether a program of this kind must declare a `@Main` entrypoint.
    pub fn requires_entrypoint(self) -> (required: bool)
        ensures
            required == (self == BuildKind::Application),
    {
        matches!(self, BuildKind::Application)
    }
}

impl Default for BuildKind {
    fn default() -> (kind: BuildKind)
        ensures
            kind == BuildKind::Application,
    {
        BuildKind::Application
    }
}

} // verus!
