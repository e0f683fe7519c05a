//! Tree construction, canonical ordering, the entry codec, and commits.
use std::io::Read;

use git_starter_rust::CommitInfo;
use git_starter_rust::GitError;
use git_starter_rust::ObjectManipulator;
use git_starter_rust::TreeEntry;
use git_starter_rust::sort_entries;
use git_starter_rust::tree::parse_tree_payload;

fn inflate(data: &[u8]) -> Vec<u8> {
    let mut decoder = flate2::read::ZlibDecoder::new(data);
    let mut out = Vec::new();
    decoder.read_to_end(&mut out).expect("stored bytes must decompress");
    out
}

fn entry(mode: &str, name: &str, hash: &str) -> TreeEntry {
    TreeEntry::new(mode.to_string(), name.to_string(), hash.to_string())
        .expect("a well-formed entry")
}

#[test]
fn tree_of_two_files() {
    let blob_a = ObjectManipulator::write_blob(b"a");
    let blob_b = ObjectManipulator::write_blob(b"b");
    assert_eq!(blob_a.id, "2e65efe2a145dda7ee51d1741299f848e5bf752e");
    assert_eq!(blob_b.id, "63d8dbd40c23542e740659a7168a0ce3138ea748");
    let entries = vec![
        entry("100644", "b.txt", &blob_b.id),
        entry("100644", "a.txt", &blob_a.id),
    ];
    let written = ObjectManipulator::write_tree(entries);
    let back = ObjectManipulator::read_tree(&written.compressed)
        .expect("a written tree must read back");
    assert_eq!(back.len(), 2);
    assert_eq!(back[0].name(), "a.txt");
    assert_eq!(back[0].mode(), "100644");
    assert_eq!(back[0].hash(), "2e65efe2a145dda7ee51d1741299f848e5bf752e");
    assert_eq!(back[1].name(), "b.txt");
    assert_eq!(back[1].mode(), "100644");
    assert_eq!(back[1].hash(), "63d8dbd40c23542e740659a7168a0ce3138ea748");

    // An identical collection produces the identical tree.
    let again = ObjectManipulator::write_tree(vec![
        entry("100644", "a.txt", "2e65efe2a145dda7ee51d1741299f848e5bf752e"),
        entry("100644", "b.txt", "63d8dbd40c23542e740659a7168a0ce3138ea748"),
    ]);
    assert_eq!(written.id, again.id);
}

#[test]
fn tree_orders_names_bytewise() {
    let hash = "2e65efe2a145dda7ee51d1741299f848e5bf752e";
    let entries = vec![
        entry("100644", "b", hash),
        entry("100644", "a", hash),
        entry("100644", "aa", hash),
    ];
    let sorted = sort_entries(entries);
    let names: Vec<&str> = sorted.iter().map(|e| e.name()).collect();
    assert_eq!(names, ["a", "aa", "b"]);
}

#[test]
fn tree_read_back_in_sorted_order() {
    let hash = "2e65efe2a145dda7ee51d1741299f848e5bf752e";
    let written = ObjectManipulator::write_tree(vec![
        entry("100644", "b", hash),
        entry("40000", "a", hash),
        entry("100755", "aa", hash),
    ]);
    let back = ObjectManipulator::read_tree(&written.compressed).expect("read back");
    let names: Vec<&str> = back.iter().map(|e| e.name()).collect();
    assert_eq!(names, ["a", "aa", "b"]);
}

#[test]
fn empty_tree_has_empty_payload() {
    let written = ObjectManipulator::write_tree(Vec::new());
    assert_eq!(inflate(&written.compressed), b"tree 0\0");
}

#[test]
fn entry_codec_round_trip() {
    let e = entry(
        "100755",
        "spaced name.sh",
        "0123456789abcdef0123456789abcdef01234567",
    );
    let record = e.as_bytes();
    assert_eq!(record.len(), e.len_as_bytes());
    let back = parse_tree_payload(&record).expect("one exact record parses");
    assert_eq!(back.len(), 1);
    assert_eq!(back[0].mode(), "100755");
    assert_eq!(back[0].name(), "spaced name.sh");
    assert_eq!(back[0].hash(), "0123456789abcdef0123456789abcdef01234567");
}

#[test]
fn entry_codec_keeps_non_ascii_names() {
    let e = entry(
        "100644",
        "naïve–name.txt",
        "0123456789abcdef0123456789abcdef01234567",
    );
    let record = e.as_bytes();
    let back = parse_tree_payload(&record).expect("one exact record parses");
    assert_eq!(back.len(), 1);
    assert_eq!(back[0].name(), "naïve–name.txt");
}

#[test]
fn entry_rejects_ill_formed_fields() {
    let hash = "2e65efe2a145dda7ee51d1741299f848e5bf752e";
    assert!(TreeEntry::new("100600".to_string(), "a".to_string(), hash.to_string()).is_none());
    assert!(TreeEntry::new("100644".to_string(), "".to_string(), hash.to_string()).is_none());
    assert!(TreeEntry::new("100644".to_string(), "a/b".to_string(), hash.to_string()).is_none());
    assert!(TreeEntry::new("100644".to_string(), "a\0b".to_string(), hash.to_string()).is_none());
    assert!(TreeEntry::new("100644".to_string(), "a".to_string(), "2e65".to_string()).is_none());
    assert!(
        TreeEntry::new(
            "100644".to_string(),
            "a".to_string(),
            "2E65EFE2A145DDA7EE51D1741299F848E5BF752E".to_string()
        )
        .is_none()
    );
}

#[test]
fn truncated_tree_payload_is_corrupt() {
    let e = entry("100644", "a", "2e65efe2a145dda7ee51d1741299f848e5bf752e");
    let mut record = e.as_bytes();
    record.pop();
    assert!(matches!(
        parse_tree_payload(&record),
        Err(GitError::CorruptObject)
    ));
}

#[test]
fn read_tree_rejects_blobs() {
    let written = ObjectManipulator::write_blob(b"hello\n");
    assert!(matches!(
        ObjectManipulator::read_tree(&written.compressed),
        Err(GitError::CorruptObject)
    ));
}

#[test]
fn commit_text_layout() {
    let info = CommitInfo::new(
        "3b18e512dba79e4c8300dd08aeb37f8e728b8dad",
        None,
        "A Person",
        "a.person@example.net",
        "first commit",
        1700000000,
    );
    assert_eq!(
        info.into_string(),
        "tree 3b18e512dba79e4c8300dd08aeb37f8e728b8dad\n\
         author A Person <a.person@example.net> 1700000000 +0000\n\
         committer A Person <a.person@example.net> 1700000000 +0000\n\
         \nfirst commit\n"
    );
}

#[test]
fn commit_text_with_parent() {
    let info = CommitInfo::new(
        "3b18e512dba79e4c8300dd08aeb37f8e728b8dad",
        Some("ce013625030ba8dba906f756967f9e9ca394464a"),
        "A Person",
        "a.person@example.net",
        "second commit",
        7,
    );
    assert_eq!(
        info.into_string(),
        "tree 3b18e512dba79e4c8300dd08aeb37f8e728b8dad\n\
         parent ce013625030ba8dba906f756967f9e9ca394464a\n\
         author A Person <a.person@example.net> 7 +0000\n\
         committer A Person <a.person@example.net> 7 +0000\n\
         \nsecond commit\n"
    );
}

#[test]
fn write_commit_serializes_text() {
    let info = CommitInfo::new(
        "3b18e512dba79e4c8300dd08aeb37f8e728b8dad",
        None,
        "A Person",
        "a.person@example.net",
        "first commit",
        0,
    );
    let text = CommitInfo::new(
        "3b18e512dba79e4c8300dd08aeb37f8e728b8dad",
        None,
        "A Person",
        "a.person@example.net",
        "first commit",
        0,
    )
    .into_string();
    let written = ObjectManipulator::write_commit(info);
    let expected: Vec<u8> = [
        format!("commit {}\0", text.len()).into_bytes(),
        text.into_bytes(),
    ]
    .concat();
    assert_eq!(inflate(&written.compressed), expected);
    assert_eq!(written.id.len(), 40);
}
