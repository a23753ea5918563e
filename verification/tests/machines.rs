use kira_semantics::build_kind::BuildKind;
use kira_semantics::build_machine::{BuildMachine, HostSystem};

const LINUX: HostSystem = HostSystem { macos: false, windows: false, linux: true, ios: false };

fn linux_host() -> BuildMachine {
    BuildMachine::host(LINUX, "unknown", "x86_64")
}

#[test]
fn only_an_application_requires_an_entrypoint() {
    assert!(BuildKind::Application.requires_entrypoint());
    assert!(!BuildKind::Library.requires_entrypoint());
}

#[test]
fn the_default_is_the_runnable_kind() {
    // A file with no manifest is analyzed as a program, so a missing
    // `@Main` is still reported in the editor and on `kirac check`.
    assert_eq!(BuildKind::default(), BuildKind::Application);
}

#[test]
fn every_kind_has_its_manifest_label() {
    assert_eq!(BuildKind::Application.label(), "application");
    assert_eq!(BuildKind::Library.label(), "library");
}

/// The host answers in the spelling a triple would use, so a table keyed by
/// triple component finds it.
#[test]
fn the_host_machine_is_spelled_the_way_a_triple_spells_it() {
    let host = linux_host();
    assert_eq!(host, BuildMachine::default(LINUX, "unknown", "x86_64"));
    assert_eq!(host.architecture(), "x86_64");
    assert!(!host.platform().is_empty());
    assert_eq!(host.platform(), "linux");
}

/// A cross target is not the host, which is the whole reason this value exists.
#[test]
fn a_named_machine_keeps_the_components_it_was_given() {
    let machine = BuildMachine::new("linux".to_owned(), "aarch64".to_owned());
    assert_eq!(machine.platform(), "linux");
    assert_eq!(machine.architecture(), "aarch64");
    assert_ne!(machine, linux_host());
    assert!(!machine.same(&linux_host()));
}

#[test]
fn an_unrecognized_host_takes_the_unknown_spelling() {
    let none = HostSystem { macos: false, windows: false, linux: false, ios: false };
    assert_eq!(BuildMachine::host(none, "unknown", "riscv64").platform(), "unknown");
    let mac = HostSystem { macos: true, windows: false, linux: false, ios: false };
    assert_eq!(BuildMachine::host(mac, "unknown", "aarch64").platform(), "macos");
    let windows = HostSystem { macos: false, windows: true, linux: false, ios: false };
    assert_eq!(BuildMachine::host(windows, "unknown", "x86_64").platform(), "windows");
    let ios = HostSystem { macos: false, windows: false, linux: false, ios: true };
    assert_eq!(BuildMachine::host(ios, "unknown", "aarch64").platform(), "ios");
}

#[test]
fn only_wasm_machines_lack_a_main_thread() {
    assert!(BuildMachine::new("emscripten".to_owned(), "x86_64".to_owned()).lacks_main_thread());
    assert!(BuildMachine::new("linux".to_owned(), "wasm32".to_owned()).lacks_main_thread());
    assert!(!linux_host().lacks_main_thread());
}
