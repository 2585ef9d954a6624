use meow::errors::MeowError;
use meow::sync::{orphans, resolve_dependencies, upgrade_needed, Index, Manifest};

fn manifest(name: &str, deps: Vec<&str>) -> Manifest {
    Manifest {
        name: name.to_string(),
        version: "1".to_string(),
        release: 1,
        dependencies: deps.into_iter().map(|d| d.to_string()).collect(),
        source: "https://example.org/src.tar".to_string(),
    }
}

#[test]
fn resolver_puts_dependencies_first() {
    let idx = Index::from_manifests(vec![
        manifest("app", vec!["lib", "runtime"]),
        manifest("lib", vec!["runtime"]),
        manifest("runtime", vec![]),
    ])
    .unwrap();
    let mut packages: Vec<String> = Vec::new();
    let app = manifest("app", vec!["lib", "runtime"]);
    resolve_dependencies(&idx, &mut packages, &app).expect("closed index resolves");
    assert_eq!(
        packages,
        vec!["runtime".to_string(), "lib".to_string(), "app".to_string()]
    );
    // resolving again adds nothing
    resolve_dependencies(&idx, &mut packages, &app).unwrap();
    assert_eq!(packages.len(), 3);
}

#[test]
fn resolver_surfaces_a_missing_dependency() {
    let idx = Index::from_manifests(vec![manifest("a", vec!["ghost"])]).unwrap();
    let mut packages: Vec<String> = Vec::new();
    match resolve_dependencies(&idx, &mut packages, &manifest("a", vec!["ghost"])) {
        Err(MeowError::MissingPackage { name }) => assert_eq!(name, "ghost"),
        other => panic!("expected a missing package, got {:?}", other.map(|_| ())),
    }
}

#[test]
fn resolver_tolerates_a_cycle() {
    let idx = Index::from_manifests(vec![
        manifest("a", vec!["b"]),
        manifest("b", vec!["a"]),
    ])
    .unwrap();
    let mut packages: Vec<String> = Vec::new();
    resolve_dependencies(&idx, &mut packages, &manifest("a", vec!["b"]))
        .expect("the membership guard ignores the back-edge");
    let mut sorted = packages.clone();
    sorted.sort();
    assert_eq!(sorted, vec!["a".to_string(), "b".to_string()]);
}

#[test]
fn upgrade_delta_compares_identity_only() {
    let old = manifest("a", vec![]);
    let mut incoming = manifest("a", vec!["newdep"]);
    assert!(!upgrade_needed(Some(&old), &incoming));
    incoming.release = 2;
    assert!(upgrade_needed(Some(&old), &incoming));
    assert!(upgrade_needed(None, &incoming));
}

#[test]
fn orphans_are_the_installed_not_kept() {
    let installed = vec!["a".to_string(), "b".to_string(), "c".to_string()];
    let keep = vec!["b".to_string()];
    assert_eq!(orphans(&installed, &keep), vec!["a".to_string(), "c".to_string()]);
}

#[test]
fn fullname_is_dash_joined() {
    let mut m = manifest("pkg", vec![]);
    m.version = "1.2".to_string();
    m.release = 3;
    assert_eq!(m.fullname(), "pkg-1.2-3");
}

#[test]
fn duplicate_names_refuse_an_index() {
    assert!(Index::from_manifests(vec![manifest("a", vec![]), manifest("a", vec![])]).is_none());
}
