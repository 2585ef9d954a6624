use meow::hash::{checksum_bytes, entry_for_directory, entry_for_regular, entry_for_symlink};
use meow::meowzip::{encode_header, ensure_extension_is_mz, read_metadata, MeowZipMetadata};
use meow::errors::MeowError;
use meow::strutil::{join_depends, split_depends, u64_to_dec};

fn sample_meta() -> MeowZipMetadata {
    let body = b"#!/bin/sh\necho hi\n";
    MeowZipMetadata {
        name: "hello".to_string(),
        version: "1.0".to_string(),
        release: 1,
        depends: vec!["base".to_string(), "sh".to_string()],
        packager: "someone <someone@example.org>".to_string(),
        license: "MIT".to_string(),
        pre_install: Vec::new(),
        post_install: b"echo done".to_vec(),
        pre_remove: Vec::new(),
        post_remove: Vec::new(),
        filelist: vec![
            entry_for_directory("/usr".to_string(), 0o040755, 0, 0),
            entry_for_directory("/usr/bin".to_string(), 0o040755, 0, 0),
            entry_for_regular("/usr/bin/hello".to_string(), body, 0o100755, 0, 0),
            entry_for_symlink("/usr/bin/hi".to_string(), "hello", 0o120777, 0, 0),
        ],
    }
}

#[test]
fn header_round_trips_through_bytes() {
    let meta = sample_meta();
    let mut bytes = encode_header(&meta);
    let header_len = bytes.len();
    bytes.extend_from_slice(b"payload-after-the-header");
    let (back, pos) = read_metadata(&bytes).expect("encoded header must parse");
    assert_eq!(pos, header_len);
    assert_eq!(back.name, "hello");
    assert_eq!(back.version, "1.0");
    assert_eq!(back.release, 1);
    assert_eq!(back.depends, vec!["base".to_string(), "sh".to_string()]);
    assert_eq!(back.packager, meta.packager);
    assert_eq!(back.license, meta.license);
    assert_eq!(back.post_install, meta.post_install);
    assert_eq!(back.filelist.len(), 4);
    assert_eq!(back.filelist[2].filepath, "/usr/bin/hello");
    assert_eq!(back.filelist[2].size, 18);
    assert_eq!(
        back.filelist[2].checksum,
        checksum_bytes(b"#!/bin/sh\necho hi\n")
    );
    assert_eq!(back.filelist[3].size, 5);
    assert_eq!(back.filelist[3].checksum, 0);
}

#[test]
fn wrong_magic_is_rejected() {
    let r = read_metadata(b"WOOFetc");
    assert!(matches!(r, Err(MeowError::BadMagic)));
}

#[test]
fn truncated_header_is_rejected() {
    let meta = sample_meta();
    let bytes = encode_header(&meta);
    let r = read_metadata(&bytes[..bytes.len() - 6]);
    assert!(matches!(r, Err(MeowError::Truncated)));
}

#[test]
fn unknown_compression_tag_is_reported() {
    let meta = sample_meta();
    let mut bytes = encode_header(&meta);
    let n = bytes.len();
    bytes[n - 4..n].copy_from_slice(b"GZIP");
    match read_metadata(&bytes) {
        Err(MeowError::UnknownCompression { tag }) => assert_eq!(tag, b"GZIP".to_vec()),
        other => panic!("expected the compression tag error, got {:?}", other.map(|_| ())),
    }
}

#[test]
fn extension_check_wants_dot_mz() {
    assert!(ensure_extension_is_mz("hello-1.0-1.mz").is_ok());
    // a trailing slash does not change the final component
    assert!(ensure_extension_is_mz("hello-1.0-1.mz/").is_ok());
    assert!(matches!(
        ensure_extension_is_mz("hello.tar"),
        Err(MeowError::BadExtension)
    ));
    assert!(matches!(
        ensure_extension_is_mz(".mz"),
        Err(MeowError::BadExtension)
    ));
}

#[test]
fn depends_string_splits_and_joins() {
    let parts = split_depends(" a , b,c");
    assert_eq!(parts, vec!["a".to_string(), "b".to_string(), "c".to_string()]);
    assert_eq!(split_depends(""), Vec::<String>::new());
    assert_eq!(join_depends(&parts), "a,b,c");
}

#[test]
fn decimal_rendering_matches() {
    assert_eq!(u64_to_dec(0), "0");
    assert_eq!(u64_to_dec(7), "7");
    assert_eq!(u64_to_dec(407), "407");
}
