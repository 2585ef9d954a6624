use meow::conflict::{check_install, check_remove, dependents_of, DiskKind, PathContext};
use meow::db::{upgrade_removals, MeowDb};
use meow::errors::MeowError;
use meow::hash::{checksum_bytes, entry_for_directory, entry_for_regular};
use meow::meowzip::MeowZipMetadata;

fn meta(name: &str, version: &str, depends: Vec<&str>, files: Vec<(&str, &[u8])>) -> MeowZipMetadata {
    let mut filelist = vec![entry_for_directory("/".to_string(), 0o040755, 0, 0)];
    for (path, body) in files {
        filelist.push(entry_for_regular(path.to_string(), body, 0o100644, 0, 0));
    }
    MeowZipMetadata {
        name: name.to_string(),
        version: version.to_string(),
        release: 1,
        depends: depends.into_iter().map(|d| d.to_string()).collect(),
        packager: "p".to_string(),
        license: "MIT".to_string(),
        pre_install: Vec::new(),
        post_install: Vec::new(),
        pre_remove: Vec::new(),
        post_remove: Vec::new(),
        filelist,
    }
}

fn fresh_contexts(m: &MeowZipMetadata) -> Vec<PathContext> {
    m.filelist
        .iter()
        .map(|_| PathContext { old_record: None, on_disk: None })
        .collect()
}

#[test]
fn fresh_install_records_package_and_files() {
    let body: &[u8] = b"#!/bin/sh\necho hi\n";
    let h = checksum_bytes(body);
    let m = meta("hello", "1.0", vec![], vec![("/usr/bin/hello", body)]);
    let db = MeowDb::new();
    check_install(&db, &m, &fresh_contexts(&m), false, false).expect("fresh install is clean");
    let db = db.install_tx(&m);
    assert!(db.get_package(&"hello".to_string()).is_some());
    let rec = db.get_file(&"/usr/bin/hello".to_string()).expect("file row present");
    assert_eq!(rec.checksum, h);
    assert_eq!(rec.package, "hello");
    // the directory entry got no row
    assert!(db.get_file(&"/".to_string()).is_none());
}

#[test]
fn upgrade_drops_abandoned_paths() {
    let v1 = meta(
        "hello",
        "1.0",
        vec![],
        vec![("/usr/bin/hello", b"one"), ("/usr/share/hello/README", b"docs")],
    );
    let v2 = meta("hello", "1.1", vec![], vec![("/usr/bin/hello", b"two")]);
    let db = MeowDb::new().install_tx(&v1);
    // without --overwrite the second install is refused
    assert!(matches!(
        check_install(&db, &v2, &fresh_contexts(&v2), false, false),
        Err(MeowError::AlreadyInstalled { .. })
    ));
    let gone = upgrade_removals(&v1, &v2);
    assert_eq!(gone, vec!["/usr/share/hello/README".to_string()]);
    let db = db.install_tx(&v2);
    assert!(db.get_file(&"/usr/share/hello/README".to_string()).is_none());
    let rec = db.get_file(&"/usr/bin/hello".to_string()).unwrap();
    assert_eq!(rec.checksum, checksum_bytes(b"two"));
    let back = db.get_package(&"hello".to_string()).unwrap();
    assert_eq!(back.version, "1.1");
}

#[test]
fn conflicting_owner_is_refused() {
    let a = meta("a", "1", vec![], vec![("/etc/foo", b"a")]);
    let b = meta("b", "1", vec![], vec![("/etc/foo", b"b")]);
    let db = MeowDb::new().install_tx(&a);
    let mut ctxs = fresh_contexts(&b);
    ctxs[1] = PathContext {
        old_record: db.get_file(&"/etc/foo".to_string()).cloned(),
        on_disk: Some(DiskKind::Regular),
    };
    match check_install(&db, &b, &ctxs, false, false) {
        Err(MeowError::ConflictOwned { path, owner }) => {
            assert_eq!(path, "/etc/foo");
            assert_eq!(owner, "a");
        },
        other => panic!("expected an ownership conflict, got {:?}", other.map(|_| ())),
    }
    // the database was never touched
    assert!(db.get_package(&"b".to_string()).is_none());
}

#[test]
fn filetype_mismatch_is_refused() {
    let m = meta("c", "1", vec![], vec![("/etc/bar", b"x")]);
    let db = MeowDb::new();
    let mut ctxs = fresh_contexts(&m);
    ctxs[1] = PathContext { old_record: None, on_disk: Some(DiskKind::Symlink) };
    assert!(matches!(
        check_install(&db, &m, &ctxs, false, false),
        Err(MeowError::ConflictKind { .. })
    ));
}

#[test]
fn missing_dependency_blocks_install_unless_broken() {
    let x = meta("x", "1", vec!["y"], vec![("/usr/bin/x", b"x")]);
    let db = MeowDb::new();
    match check_install(&db, &x, &fresh_contexts(&x), false, false) {
        Err(MeowError::MissingDependencies { missing }) => {
            assert_eq!(missing, vec!["y".to_string()]);
        },
        other => panic!("expected missing dependencies, got {:?}", other.map(|_| ())),
    }
    check_install(&db, &x, &fresh_contexts(&x), false, true).expect("breakdeps installs anyway");
    let db = db.install_tx(&x);
    assert!(db.get_package(&"x".to_string()).is_some());
}

#[test]
fn duplicated_path_is_refused() {
    let m = meta(
        "dup",
        "1",
        vec![],
        vec![("/etc/twice", b"a"), ("/etc/twice", b"b")],
    );
    let db = MeowDb::new();
    match check_install(&db, &m, &fresh_contexts(&m), false, false) {
        Err(MeowError::DuplicatePath { path }) => assert_eq!(path, "/etc/twice"),
        other => panic!("expected the duplicate path error, got {:?}", other.map(|_| ())),
    }
}

#[test]
fn remove_deletes_package_and_file_rows() {
    let m = meta("hello", "1.0", vec![], vec![("/usr/bin/hello", b"hi")]);
    let db = MeowDb::new().install_tx(&m);
    check_remove(&db, &"hello".to_string(), false).expect("nothing depends on it");
    let db = db.remove_tx(&"hello".to_string());
    assert!(db.get_package(&"hello".to_string()).is_none());
    assert!(db.get_file(&"/usr/bin/hello".to_string()).is_none());
}

#[test]
fn remove_with_dependents_is_refused() {
    let base = meta("base", "1", vec![], vec![("/usr/lib/base", b"b")]);
    let app = meta("app", "1", vec!["base"], vec![("/usr/bin/app", b"a")]);
    let db = MeowDb::new().install_tx(&base).install_tx(&app);
    assert_eq!(dependents_of(&db, &"base".to_string()), vec!["app".to_string()]);
    match check_remove(&db, &"base".to_string(), false) {
        Err(MeowError::HasDependents { name, dependents }) => {
            assert_eq!(name, "base");
            assert_eq!(dependents, vec!["app".to_string()]);
        },
        other => panic!("expected dependents to block, got {:?}", other.map(|_| ())),
    }
    check_remove(&db, &"base".to_string(), true).expect("breakdeps removes anyway");
    assert!(matches!(
        check_remove(&db, &"ghost".to_string(), false),
        Err(MeowError::NotInstalled { .. })
    ));
}

#[test]
fn reinstalling_the_same_archive_changes_nothing() {
    let m = meta("same", "1.0", vec![], vec![("/usr/bin/same", b"s")]);
    let once = MeowDb::new().install_tx(&m);
    let twice = once.install_tx(&m);
    let p1 = once.get_package(&"same".to_string()).unwrap();
    let p2 = twice.get_package(&"same".to_string()).unwrap();
    assert_eq!(p1.version, p2.version);
    let r1 = once.get_file(&"/usr/bin/same".to_string()).unwrap();
    let r2 = twice.get_file(&"/usr/bin/same".to_string()).unwrap();
    assert_eq!(r1.checksum, r2.checksum);
    assert_eq!(r1.package, r2.package);
}
