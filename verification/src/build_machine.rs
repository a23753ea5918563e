//! Which machine the program being analyzed is being built *for*.
//!
//! A declaration can be unavailable on a machine, and the honest place to say so
//! is where the declaration is read. The two components are exactly a target
//! triple's operating system and architecture; the ABI is deliberately absent,
//! because no frontend rule turns on it.

use vstd::prelude::*;

use crate::names::{same_text, starts_with};

verus! {

/// The machine a build is aimed at, as much of it as a frontend rule turns on.
///
/// Both components are spelled the way a target triple spells them:
/// `linux`/`macos`/`windows`, `x86_64`/`aarch64`.
#[derive(Debug, Clone, PartialEq, Eq, Hash)]
pub struct BuildMachine {
    platform: String,
    architecture: String,
}

/// The operating systems a host is recognized as, by what it reports about
/// itself.
#[derive(Debug, Clone, Copy, PartialEq, Eq, Structural)]
pub struct HostSystem {
    pub macos: bool,
    pub windows: bool,
    pub linux: bool,
    pub ios: bool,
}

/// How a triple spells the host's operating system, `unknown` standing for one
/// that is none of the four.
pub open spec fn platform_text(system: HostSystem, unknown: Seq<char>) -> Seq<char> {
    if system.macos {
        "macos"@
    } else if system.windows {
        "windows"@
    } else if system.linux {
        "linux"@
    } else if system.ios {
        "ios"@
    } else {
        unknown
    }
}

impl BuildMachine {
    /// The operating system, as text.
    pub closed spec fn platform_view(&self) -> Seq<char> {
        self.platform@
    }

    /// The processor architecture, as text.
    pub closed spec fn architecture_view(&self) -> Seq<char> {
        self.architecture@
    }

    /// Names the machine a build targets by its OS and architecture.
    pub fn new(platform: String, architecture: String) -> (machine: BuildMachine)
        ensures
            machine.platform_view() == platform@,
            machine.architecture_view() == architecture@,
    {
        BuildMachine { platform, architecture }
    }

    /// Whether this is the machine that reports `system` and `architecture` about itself.
    pub open spec fn is_host(
        &self,
        system: HostSystem,
        unknown: Seq<char>,
        architecture: Seq<char>,
    ) -> bool {
        self.platform_view() == platform_text(system, unknown) && self.architecture_view()
            == architecture
    }

    /// The machine running the compiler, from what that machine reports.
    ///
    /// The answer for every caller that names no target: an editor's analysis
    /// and a plain build are both about this machine.
    pub fn host(system: HostSystem, unknown: &str, architecture: &str) -> (machine: BuildMachine)
        ensures
            machine.is_host(system, unknown@, architecture@),
    {
        BuildMachine::new(host_platform(system, unknown), host_architecture(architecture))
    }

    /// The machine a build is for that names none, from what the machine running the
    /// compiler reports.
    pub fn default(system: HostSystem, unknown: &str, architecture: &str) -> (machine:
        BuildMachine)
        ensures
            machine.is_host(system, unknown@, architecture@),
    {
        BuildMachine::host(system, unknown, architecture)
    }

    /// The operating system this build targets, as `Build.platform` spells it.
    pub fn platform(&self) -> (text: &str)
        ensures
            text@ == self.platform_view(),
    {
        self.platform.as_str()
    }

    /// The processor architecture this build targets.
    pub fn architecture(&self) -> (text: &str)
        ensures
            text@ == self.architecture_view(),
    {
        self.architecture.as_str()
    }

    /// Whether two values name one machine.
    pub fn same(&self, other: &BuildMachine) -> (res: bool)
        ensures
            res == (self.platform_view() == other.platform_view() && self.architecture_view()
                == other.architecture_view()),
    {
        same_text(self.platform.as_str(), other.platform.as_str()) && same_text(
            self.architecture.as_str(),
            other.architecture.as_str(),
        )
    }

    /// Whether the machine has an operating-system main thread: WebAssembly has
    /// none.
    pub fn lacks_main_thread(&self) -> (res: bool)
        ensures
            res == self.spec_lacks_main_thread(),
    {
        same_text(self.platform.as_str(), "emscripten") || starts_with(
            self.architecture.as_str(),
            "wasm",
        )
    }

    pub open spec fn spec_lacks_main_thread(&self) -> bool {
        self.platform_view() == "emscripten"@ || crate::names::has_prefix(
            self.architecture_view(),
            "wasm"@,
        )
    }
}

/// The operating system a host reports, as `Build.platform` spells it.
#[must_use]
pub fn host_platform(system: HostSystem, unknown: &str) -> (text: String)
    ensures
        text@ == platform_text(system, unknown@),
{
    if system.macos {
        "macos".to_owned()
    } else if system.windows {
        "windows".to_owned()
    } else if system.linux {
        "linux".to_owned()
    } else if system.ios {
        "ios".to_owned()
    } else {
        unknown.to_owned()
    }
}

/// The processor architecture a host reports, taken verbatim: the host already
/// uses the spelling a triple does.
#[must_use]
pub fn host_architecture(architecture: &str) -> (text: String)
    ensures
        text@ == architecture@,
{
    architecture.to_owned()
}

/// The machine of a build that names none is the host: nothing but what a host reports
/// decides which machine it is.
pub proof fn the_default_machine_is_the_host(
    host: &BuildMachine,
    default: &BuildMachine,
    system: HostSystem,
    unknown: Seq<char>,
    architecture: Seq<char>,
)
    requires
        host.is_host(system, unknown, architecture),
        default.is_host(system, unknown, architecture),
    ensures
        default.platform_view() == host.platform_view(),
        default.architecture_view() == host.architecture_view(),
{
}

/// A host has a platform, whatever it reports, as long as an unknown one is called
/// something; and one that is Linux alone is called `linux`.
pub proof fn a_host_has_a_platform(system: HostSystem, unknown: Seq<char>)
    requires
        unknown.len() > 0,
    ensures
        platform_text(system, unknown).len() > 0,
        system.linux && !system.macos && !system.windows ==> platform_text(system, unknown)
            == "linux"@,
{
    reveal_strlit("macos");
    reveal_strlit("windows");
    reveal_strlit("linux");
    reveal_strlit("ios");
}

/// Which machines have no main thread to hand work to: every one whose platform is
/// `emscripten`, every one whose architecture begins with `wasm`, and no other.
pub proof fn only_the_web_lacks_a_main_thread(machine: &BuildMachine)
    ensures
        machine.platform_view() == "emscripten"@ ==> machine.spec_lacks_main_thread(),
        ({
            let text = machine.architecture_view();
            text.len() >= 4 && text[0] == 'w' && text[1] == 'a' && text[2] == 's' && text[3] == 'm'
        }) ==> machine.spec_lacks_main_thread(),
        machine.platform_view() != "emscripten"@ && ({
            let text = machine.architecture_view();
            text.len() < 4 || text[0] != 'w' || text[1] != 'a' || text[2] != 's' || text[3] != 'm'
        }) ==> !machine.spec_lacks_main_thread(),
{
    reveal_strlit("wasm");
    let text = machine.architecture_view();
    if text.len() >= 4 {
        assert(text.take(4)[0] == text[0]);
        assert(text.take(4)[1] == text[1]);
        assert(text.take(4)[2] == text[2]);
        assert(text.take(4)[3] == text[3]);
        if text[0] == 'w' && text[1] == 'a' && text[2] == 's' && text[3] == 'm' {
            assert(text.take(4) =~= "wasm"@);
        }
    }
}

} // verus!
