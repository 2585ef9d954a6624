use meow::archive::{create_archive, open_archive, pack_unsigned, split_bodies, split_signed,
    verify_archive};
use meow::errors::MeowError;
use meow::hash::{entry_for_directory, entry_for_regular, entry_for_symlink};
use meow::meowzip::MeowZipMetadata;

fn sample() -> (MeowZipMetadata, Vec<Vec<u8>>) {
    let body = b"#!/bin/sh\necho hi\n".to_vec();
    let meta = MeowZipMetadata {
        name: "hello".to_string(),
        version: "1.0".to_string(),
        release: 1,
        depends: Vec::new(),
        packager: "p".to_string(),
        license: "MIT".to_string(),
        pre_install: Vec::new(),
        post_install: Vec::new(),
        pre_remove: Vec::new(),
        post_remove: Vec::new(),
        filelist: vec![
            entry_for_directory("/usr".to_string(), 0o040755, 0, 0),
            entry_for_regular("/usr/hello".to_string(), &body, 0o100755, 0, 0),
            entry_for_symlink("/usr/hi".to_string(), "hello", 0o120777, 0, 0),
        ],
    };
    let bodies = vec![Vec::new(), body, b"hello".to_vec()];
    (meta, bodies)
}

#[test]
fn archive_round_trips_with_signature() {
    let (meta, bodies) = sample();
    let kp = minisign::KeyPair::generate_unencrypted_keypair().unwrap();
    let bytes = create_archive(&meta, &bodies, &kp.sk).expect("create must succeed");
    let keys = vec![kp.pk.to_base64()];
    verify_archive(&bytes, &keys).expect("own key must validate the archive");
    let (back, back_bodies) = open_archive(&bytes).expect("archive must open");
    assert_eq!(back.name, "hello");
    assert_eq!(back_bodies, bodies);
}

#[test]
fn foreign_signature_is_rejected() {
    let (meta, bodies) = sample();
    let signer = minisign::KeyPair::generate_unencrypted_keypair().unwrap();
    let other = minisign::KeyPair::generate_unencrypted_keypair().unwrap();
    let bytes = create_archive(&meta, &bodies, &signer.sk).unwrap();
    let wrong_trust = vec![other.pk.to_base64()];
    assert!(matches!(
        verify_archive(&bytes, &wrong_trust),
        Err(MeowError::SignatureRejected)
    ));
    let no_trust: Vec<String> = Vec::new();
    assert!(matches!(
        verify_archive(&bytes, &no_trust),
        Err(MeowError::SignatureRejected)
    ));
}

#[test]
fn swapped_signature_from_other_key_fails() {
    let (meta, bodies) = sample();
    let signer = minisign::KeyPair::generate_unencrypted_keypair().unwrap();
    let imposter = minisign::KeyPair::generate_unencrypted_keypair().unwrap();
    let good = create_archive(&meta, &bodies, &signer.sk).unwrap();
    let (data_end, _) = split_signed(&good).unwrap();
    let unsigned = pack_unsigned(&meta, &bodies).unwrap();
    assert_eq!(&good[..data_end], &unsigned[..]);
    let forged = create_archive(&meta, &bodies, &imposter.sk).unwrap();
    let trust = vec![signer.pk.to_base64()];
    assert!(matches!(
        verify_archive(&forged, &trust),
        Err(MeowError::SignatureRejected)
    ));
    verify_archive(&good, &trust).expect("the untouched archive still validates");
}

#[test]
fn payload_is_cut_exactly_by_sizes() {
    let (meta, bodies) = sample();
    let payload: Vec<u8> = bodies.concat();
    let back = split_bodies(&payload, &meta.filelist).expect("exact payload must split");
    assert_eq!(back, bodies);
    let mut long = payload.clone();
    long.push(0);
    assert!(matches!(
        split_bodies(&long, &meta.filelist),
        Err(MeowError::PayloadMismatch)
    ));
    assert!(matches!(
        split_bodies(&payload[..payload.len() - 1], &meta.filelist),
        Err(MeowError::PayloadMismatch)
    ));
}

#[test]
fn truncated_trailer_is_rejected() {
    assert!(matches!(
        verify_archive(b"hi", &vec!["x".to_string()]),
        Err(MeowError::Truncated)
    ));
}
