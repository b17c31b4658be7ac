use resolution_core::package::{PackageName, PackageQuery};
use resolution_core::condition::VersionCondition;
use resolution_core::resolve::ResolveStep;
use resolution_core::system::{RegistryError, System};

fn name(n: &str) -> PackageName {
    PackageName { name: n.to_string(), variant: String::new() }
}

fn empty_system() -> System {
    System::new(vec![], vec![])
}

#[test]
fn test_in_use_protection() {
    // b depends on a: a cannot leave while b is installed; b first,
    // then a, succeeds
    let mut sys = empty_system();
    let a = sys.install(name("a"), vec![]).unwrap();
    let b = sys.install(name("b"), vec![a]).unwrap();
    assert_eq!(sys.uninstall(a).unwrap_err(), RegistryError::InUse);
    sys.uninstall(b).unwrap();
    sys.uninstall(a).unwrap();
    assert!(!sys.is_installed(a));
    assert!(!sys.is_installed(b));
}

#[test]
fn test_reference_counts() {
    let mut sys = empty_system();
    let a = sys.install(name("a"), vec![]).unwrap();
    let b = sys.install(name("b"), vec![a]).unwrap();
    let c = sys.install(name("c"), vec![a, b]).unwrap();
    let count_of = |sys: &System, id: u16| {
        sys.installed.iter().find(|e| e.0 == id).unwrap().1.dependency_for
    };
    assert_eq!(count_of(&sys, a), 2);
    assert_eq!(count_of(&sys, b), 1);
    assert_eq!(count_of(&sys, c), 0);
    sys.uninstall(c).unwrap();
    assert_eq!(count_of(&sys, a), 1);
    assert_eq!(count_of(&sys, b), 0);
}

#[test]
fn test_missing_dependency() {
    let mut sys = empty_system();
    assert_eq!(
        sys.install(name("a"), vec![42]).unwrap_err(),
        RegistryError::MissingDependency
    );
}

#[test]
fn test_duplicate_dependency() {
    let mut sys = empty_system();
    let a = sys.install(name("a"), vec![]).unwrap();
    assert_eq!(
        sys.install(name("b"), vec![a, a]).unwrap_err(),
        RegistryError::DuplicateDependency
    );
}

#[test]
fn test_uninstall_not_installed() {
    let mut sys = empty_system();
    assert_eq!(sys.uninstall(9).unwrap_err(), RegistryError::NotInstalled);
}

#[test]
fn test_ids_monotonic() {
    let mut sys = empty_system();
    let a = sys.install(name("a"), vec![]).unwrap();
    assert_eq!(a, 0);
    sys.uninstall(a).unwrap();
    let b = sys.install(name("b"), vec![]).unwrap();
    assert_eq!(b, 1);
}

#[test]
fn test_ids_exhausted() {
    let mut sys = System {
        installed: vec![],
        next_id: 0x10000,
        indexes: vec![],
        trustees: vec![],
    };
    assert_eq!(
        sys.install(name("a"), vec![]).unwrap_err(),
        RegistryError::IdsExhausted
    );
}

#[test]
fn test_begin_resolve_uses_configuration() {
    let sys = empty_system();
    let q = PackageQuery { version: VersionCondition::GreaterThan(0), name: name("a") };
    let r = sys.begin_resolve(q);
    // no index configured: the resolution has already failed
    assert!(matches!(r.step(), ResolveStep::Failed { .. }));
}
