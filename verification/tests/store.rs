//! Blob hashing, persistence, and identifier handling, end to end.
use std::io::Read;

use git_starter_rust::GitError;
use git_starter_rust::ObjectManipulator;
use git_starter_rust::ObjectWriter;
use git_starter_rust::get_object_path;
use git_starter_rust::resolve_among;
use git_starter_rust::valid_partial_sha1_name;

fn inflate(data: &[u8]) -> Vec<u8> {
    let mut decoder = flate2::read::ZlibDecoder::new(data);
    let mut out = Vec::new();
    decoder.read_to_end(&mut out).expect("stored bytes must decompress");
    out
}

#[test]
fn hash_known_blob() {
    let id = ObjectManipulator::hash_blob(b"hello\n");
    assert_eq!(id, "ce013625030ba8dba906f756967f9e9ca394464a");
}

#[test]
fn hash_empty_blob() {
    let id = ObjectManipulator::hash_blob(b"");
    assert_eq!(id, "e69de29bb2d1d6434b8b29ae775ad8c2e48c5391");
}

#[test]
fn write_blob_matches_hash_blob() {
    let contents = b"some file contents\n";
    let hashed = ObjectManipulator::hash_blob(contents);
    let written = ObjectManipulator::write_blob(contents);
    assert_eq!(hashed, written.id);
}

#[test]
fn write_blob_stores_serialized_form() {
    let written = ObjectManipulator::write_blob(b"hello\n");
    assert_eq!(written.id, "ce013625030ba8dba906f756967f9e9ca394464a");
    assert_eq!(inflate(&written.compressed), b"blob 6\0hello\n");
}

#[test]
fn read_blob_returns_written_bytes() {
    let contents = b"round trip payload \x00\xff bytes";
    let written = ObjectManipulator::write_blob(contents);
    let back = ObjectManipulator::read_blob(&written.compressed)
        .expect("a written blob must read back");
    assert_eq!(back.expect("the object is a blob"), contents);
}

#[test]
fn read_blob_rejects_garbage() {
    assert_eq!(
        ObjectManipulator::read_blob(b"this is not a zlib stream"),
        Err(GitError::CorruptObject)
    );
}

#[test]
fn object_writer_streams() {
    let mut w = ObjectWriter::new();
    w.write(b"blob 6\0");
    w.write(b"hello\n");
    let done = w.finalize();
    assert_eq!(done.id, "ce013625030ba8dba906f756967f9e9ca394464a");
    assert_eq!(inflate(&done.compressed), b"blob 6\0hello\n");
}

#[test]
fn partial_name_validation() {
    assert!(valid_partial_sha1_name("ce01"));
    assert!(valid_partial_sha1_name(
        "ce013625030ba8dba906f756967f9e9ca394464a"
    ));
    // Any lowercase letter is admitted, by design.
    assert!(valid_partial_sha1_name("zz99"));
    // Too short, too long, bad characters.
    assert!(!valid_partial_sha1_name("ce0"));
    assert!(!valid_partial_sha1_name(
        "ce013625030ba8dba906f756967f9e9ca394464a0"
    ));
    assert!(!valid_partial_sha1_name("ce0!"));
    assert!(!valid_partial_sha1_name("CE01"));
}

#[test]
fn object_path_splits_identifier() {
    let (dir, rest) = get_object_path("ce013625").expect("valid identifier");
    assert_eq!(dir, "ce");
    assert_eq!(rest, "013625");
}

#[test]
fn object_path_lowercases() {
    let (dir, rest) = get_object_path("CE01AB").expect("uppercase is folded");
    assert_eq!(dir, "ce");
    assert_eq!(rest, "01ab");
}

#[test]
fn object_path_rejects_bad_names() {
    assert_eq!(get_object_path("ce0"), Err(GitError::InvalidIdentifier));
    assert_eq!(get_object_path("ab/c"), Err(GitError::InvalidIdentifier));
    assert_eq!(get_object_path(""), Err(GitError::InvalidIdentifier));
}

#[test]
fn error_descriptions() {
    assert_eq!(GitError::CorruptObject.describe(), "corrupt object");
    assert_eq!(
        GitError::NotARepository.describe(),
        "fatal: not a git repository (or any of the parent directories): .git"
    );
    assert_eq!(
        GitError::SizeDrift.describe(),
        "disparity between the file size and the number of copied bytes"
    );
}

#[test]
fn resolution_pipeline() {
    // The two halves of resolution: split the identifier, then pick the
    // single stored filename the remainder begins.
    let stored = "013625030ba8dba906f756967f9e9ca394464a";
    let (dir, rest) = get_object_path("CE013625").expect("valid identifier");
    assert_eq!(dir, "ce");
    let names = vec![String::from(stored)];
    assert_eq!(resolve_among(&rest, &names).expect("unique"), stored);
    // The full identifier resolves to the same name as the prefix.
    let (_, full_rest) =
        get_object_path("ce013625030ba8dba906f756967f9e9ca394464a").expect("valid");
    assert_eq!(resolve_among(&full_rest, &names).expect("unique"), stored);
}

#[test]
fn prefix_resolution_unique() {
    let names = vec![String::from("013625030ba8dba906f756967f9e9ca394464a")];
    let hit = resolve_among("01", &names).expect("one candidate extends the prefix");
    assert_eq!(hit, "013625030ba8dba906f756967f9e9ca394464a");
}

#[test]
fn prefix_resolution_ambiguous_or_unknown() {
    let names = vec![
        String::from("013625030ba8dba906f756967f9e9ca394464a"),
        String::from("01ffffffffffffffffffffffffffffffffffff"),
    ];
    // Two candidates extend the short prefix.
    assert_eq!(
        resolve_among("01", &names),
        Err(GitError::AmbiguousOrUnknownObject)
    );
    // The full remainder still resolves.
    let hit = resolve_among("013625030ba8dba906f756967f9e9ca394464a", &names)
        .expect("the full name is unique");
    assert_eq!(hit, "013625030ba8dba906f756967f9e9ca394464a");
    // No candidate at all.
    assert_eq!(
        resolve_among("ffff", &names),
        Err(GitError::AmbiguousOrUnknownObject)
    );
}
