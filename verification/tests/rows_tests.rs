use meow::db::MeowDb;
use meow::hash::entry_for_directory;
use meow::hash::entry_for_regular;
use meow::listing::{is_executable_mode, listing_rows, total_size};
use meow::mzlist::{get_filelist, split_archive, write_mzlist, Entry};
use meow::records::{decode_record, encode_record, FileRecord};

#[test]
fn record_rows_round_trip() {
    let rec = FileRecord {
        size: 42,
        mode: 0o100644,
        uid: 0,
        gid: 0,
        checksum: 0xdeadbeef,
        package: "hello".to_string(),
    };
    let bytes = encode_record(&rec);
    let back = decode_record(&bytes).expect("encoded row parses");
    assert_eq!(back.size, 42);
    assert_eq!(back.mode, 0o100644);
    assert_eq!(back.checksum, 0xdeadbeef);
    assert_eq!(back.package, "hello");
    assert!(decode_record(&bytes[..bytes.len() - 1]).is_err());
}

#[test]
fn mzlist_round_trips() {
    let rows = vec![
        Entry { path: "/usr".to_string(), size: 0, mode: 0o040755, uid: 0, gid: 0, hash: 0 },
        Entry { path: "/usr/x".to_string(), size: 3, mode: 0o100644, uid: 1, gid: 2, hash: 9 },
    ];
    let bytes = write_mzlist(&rows);
    assert_eq!(split_archive(&rows).unwrap(), bytes.len());
    let (back, pos) = get_filelist(&bytes).expect("list parses");
    assert_eq!(pos, bytes.len());
    assert_eq!(back.len(), 2);
    assert_eq!(back[1].path, "/usr/x");
    assert_eq!(back[1].size, 3);
    assert_eq!(back[1].hash, 9);
}

#[test]
fn listing_indents_under_directories() {
    let filelist = vec![
        entry_for_directory("/".to_string(), 0o040755, 0, 0),
        entry_for_directory("/usr".to_string(), 0o040755, 0, 0),
        entry_for_regular("/usr/hello".to_string(), b"x", 0o100755, 0, 0),
        entry_for_regular("/etc-file".to_string(), b"y", 0o100644, 0, 0),
    ];
    let rows = listing_rows(&filelist);
    assert_eq!(rows.len(), 4);
    assert_eq!(rows[0].name, "");
    assert_eq!(rows[0].depth, 0);
    assert_eq!(rows[1].name, "usr");
    assert_eq!(rows[1].depth, 1);
    assert_eq!(rows[2].name, "hello");
    assert_eq!(rows[2].depth, 2);
    assert_eq!(rows[3].name, "etc-file");
    assert_eq!(rows[3].depth, 1);
    assert!(is_executable_mode(rows[2].mode));
    assert!(!is_executable_mode(rows[3].mode));
}

#[test]
fn total_size_sums_entry_sizes() {
    let filelist = vec![
        entry_for_directory("/usr".to_string(), 0o040755, 0, 0),
        entry_for_regular("/usr/a".to_string(), b"abcd", 0o100644, 0, 0),
        entry_for_regular("/usr/b".to_string(), b"efg", 0o100644, 0, 0),
    ];
    assert_eq!(total_size(&filelist), 7);
}

#[test]
fn corrupt_rows_are_refused() {
    let rec = FileRecord {
        size: 1,
        mode: 0o100644,
        uid: 0,
        gid: 0,
        checksum: 1,
        package: "p".to_string(),
    };
    let dup = vec![
        ("/a".to_string(), rec.clone()),
        ("/a".to_string(), rec.clone()),
    ];
    assert!(MeowDb::from_rows(Vec::new(), dup).is_none());
    let dir_rec = FileRecord { mode: 0o040755, ..rec };
    assert!(MeowDb::from_rows(Vec::new(), vec![("/d".to_string(), dir_rec)]).is_none());
}

#[test]
fn database_survives_a_row_round_trip() {
    let m = meow::meowzip::MeowZipMetadata {
        name: "p".to_string(),
        version: "1".to_string(),
        release: 1,
        depends: Vec::new(),
        packager: "x".to_string(),
        license: "MIT".to_string(),
        pre_install: Vec::new(),
        post_install: Vec::new(),
        pre_remove: Vec::new(),
        post_remove: Vec::new(),
        filelist: vec![entry_for_regular("/usr/p".to_string(), b"p", 0o100644, 0, 0)],
    };
    let db = MeowDb::new().install_tx(&m);
    let pkg_rows: Vec<(String, meow::meowzip::MeowZipMetadata)> = db
        .packages()
        .iter()
        .map(|(k, v)| (k.clone(), v.clone()))
        .collect();
    let file_rows: Vec<(String, FileRecord)> = db
        .files()
        .iter()
        .map(|(k, v)| (k.clone(), v.clone()))
        .collect();
    let back = MeowDb::from_rows(pkg_rows, file_rows).expect("persisted rows reload");
    assert!(back.get_package(&"p".to_string()).is_some());
    assert_eq!(back.get_file(&"/usr/p".to_string()).unwrap().package, "p");
}
