use resolution_core::index::{parse_response, Index, QueryError};
use resolution_core::package::{Package, PackageName, PackageQuery};
use resolution_core::condition::VersionCondition;
use resolution_core::resolve::{ResolveError, ResolveStep, Resolver, TrustVerdict};

fn name(n: &str) -> PackageName {
    PackageName { name: n.to_string(), variant: String::new() }
}

fn query(n: &str) -> PackageQuery {
    PackageQuery { version: VersionCondition::GreaterThan(0), name: name(n) }
}

fn package(n: &str, deps: &[&str]) -> Package {
    Package {
        name: name(n),
        dependencies: deps.iter().map(|d| query(d)).collect(),
        extractor: vec![],
    }
}

fn expect_query_index(r: &Resolver) -> usize {
    match r.step() {
        ResolveStep::QueryIndex { index } => index,
        _ => panic!("expected an index query"),
    }
}

fn expect_ask_trustee(r: &Resolver) -> usize {
    match r.step() {
        ResolveStep::AskTrustee { trustee } => trustee,
        _ => panic!("expected a trustee question"),
    }
}

fn expect_failed(r: &Resolver) -> ResolveError {
    match r.step() {
        ResolveStep::Failed { error } => error,
        _ => panic!("expected a failure"),
    }
}

#[test]
fn test_fallback_third_index_succeeds() {
    // two misses fall through; the third index answers; no fourth
    // index is ever asked
    let mut r = Resolver::new(query("app"), 3, 1);
    assert_eq!(expect_query_index(&r), 0);
    r.on_fetch(Err(QueryError::NotFound));
    assert_eq!(expect_query_index(&r), 1);
    r.on_fetch(Err(QueryError::NotFound));
    assert_eq!(expect_query_index(&r), 2);
    r.on_fetch(Ok(package("app", &[])));
    assert_eq!(expect_ask_trustee(&r), 0);
    r.on_verdict(TrustVerdict::Accept);
    assert!(matches!(r.step(), ResolveStep::Resolved));
    let packages = r.into_packages();
    assert_eq!(packages.len(), 1);
    assert_eq!(packages[0], package("app", &[]));
}

#[test]
fn test_all_indexes_miss() {
    let mut r = Resolver::new(query("app"), 2, 1);
    r.on_fetch(Err(QueryError::NotFound));
    r.on_fetch(Err(QueryError::NotFound));
    assert_eq!(expect_failed(&r), ResolveError::NotFound);
}

#[test]
fn test_no_index_configured() {
    let r = Resolver::new(query("app"), 0, 1);
    assert_eq!(expect_failed(&r), ResolveError::NotFound);
}

#[test]
fn test_corruption_is_fatal() {
    // an undecodable body from a reachable index fails the resolution
    // instead of silently trying the next index
    let mut r = Resolver::new(query("app"), 3, 1);
    let outcome = parse_response(&[0x99, 0x99, 0x99]);
    assert!(outcome.is_err());
    r.on_fetch(outcome);
    assert_eq!(expect_failed(&r), ResolveError::InvalidData);
}

#[test]
fn test_trustee_rejection() {
    let mut r = Resolver::new(query("app"), 1, 2);
    r.on_fetch(Ok(package("app", &[])));
    assert_eq!(expect_ask_trustee(&r), 0);
    r.on_verdict(TrustVerdict::Reject);
    assert_eq!(expect_failed(&r), ResolveError::UntrustedPackage);
}

#[test]
fn test_first_opinion_decides() {
    let mut r = Resolver::new(query("app"), 1, 3);
    r.on_fetch(Ok(package("app", &[])));
    assert_eq!(expect_ask_trustee(&r), 0);
    r.on_verdict(TrustVerdict::NoOpinion);
    assert_eq!(expect_ask_trustee(&r), 1);
    r.on_verdict(TrustVerdict::Accept);
    assert!(matches!(r.step(), ResolveStep::Resolved));
}

#[test]
fn test_no_opinion_at_all_rejects() {
    let mut r = Resolver::new(query("app"), 1, 2);
    r.on_fetch(Ok(package("app", &[])));
    r.on_verdict(TrustVerdict::NoOpinion);
    r.on_verdict(TrustVerdict::NoOpinion);
    assert_eq!(expect_failed(&r), ResolveError::UntrustedPackage);
}

#[test]
fn test_no_trustee_configured_rejects() {
    let mut r = Resolver::new(query("app"), 1, 0);
    r.on_fetch(Ok(package("app", &[])));
    assert_eq!(expect_failed(&r), ResolveError::UntrustedPackage);
}

#[test]
fn test_dependencies_resolved_depth_first() {
    // app depends on lib1 and lib2; lib1 is queried first, and its own
    // dependency liblow before lib2
    let mut r = Resolver::new(query("app"), 1, 1);
    r.on_fetch(Ok(package("app", &["lib1", "lib2"])));
    r.on_verdict(TrustVerdict::Accept);
    assert_eq!(r.current.as_ref().unwrap().query.name.name, "lib1");
    r.on_fetch(Ok(package("lib1", &["liblow"])));
    r.on_verdict(TrustVerdict::Accept);
    assert_eq!(r.current.as_ref().unwrap().query.name.name, "liblow");
    r.on_fetch(Ok(package("liblow", &[])));
    r.on_verdict(TrustVerdict::Accept);
    assert_eq!(r.current.as_ref().unwrap().query.name.name, "lib2");
    r.on_fetch(Ok(package("lib2", &[])));
    r.on_verdict(TrustVerdict::Accept);
    assert!(matches!(r.step(), ResolveStep::Resolved));
    let names: Vec<String> = r.into_packages().into_iter().map(|p| p.name.name).collect();
    assert_eq!(names, vec!["app", "lib1", "liblow", "lib2"]);
}

#[test]
fn test_dependency_cycle_rejected() {
    // a's closure would include a itself, through b
    let mut r = Resolver::new(query("a"), 1, 1);
    r.on_fetch(Ok(package("a", &["b"])));
    r.on_verdict(TrustVerdict::Accept);
    assert_eq!(r.current.as_ref().unwrap().query.name.name, "b");
    r.on_fetch(Ok(package("b", &["a"])));
    r.on_verdict(TrustVerdict::Accept);
    assert_eq!(expect_failed(&r), ResolveError::DependencyCycle);
}

#[test]
fn test_self_dependency_rejected() {
    let mut r = Resolver::new(query("a"), 1, 1);
    r.on_fetch(Ok(package("a", &["a"])));
    r.on_verdict(TrustVerdict::Accept);
    assert_eq!(expect_failed(&r), ResolveError::DependencyCycle);
}

#[test]
fn test_request_params() {
    let idx = Index { url: "http://index.example".to_string() };
    let q = PackageQuery {
        version: VersionCondition::GreaterThan(1),
        name: PackageName { name: "pkg".to_string(), variant: "arm".to_string() },
    };
    let params = idx.request_params(&q);
    assert_eq!(params.len(), 2);
    assert_eq!(params[0], ("name".to_string(), "pkg".to_string()));
    assert_eq!(params[1], ("variant".to_string(), "arm".to_string()));
}
