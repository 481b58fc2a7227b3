use codecrafters_git::object::{CommitMetadata, GitObject, ObjectType, TreeEntry};
use codecrafters_git::GitRepository;

#[test]
fn object_type_names() {
    assert_eq!(ObjectType::Blob.as_str(), "blob");
    assert_eq!(ObjectType::Tree.as_str(), "tree");
    assert_eq!(ObjectType::Commit.as_str(), "commit");
}

#[test]
fn stored_form_has_header_length_and_content() {
    let obj = GitObject::new(ObjectType::Blob, b"hello".to_vec());
    assert_eq!(obj.stored_form(), b"blob 5\0hello".to_vec());
    let empty = GitObject::new(ObjectType::Tree, Vec::new());
    assert_eq!(empty.stored_form(), b"tree 0\0".to_vec());
}

#[test]
fn blob_hashes_match_git() {
    let empty = GitObject::new(ObjectType::Blob, Vec::new());
    assert_eq!(empty.hash_hex(), "e69de29bb2d1d6434b8b29ae775ad8c2e48c5391");
    let hello = GitObject::new(ObjectType::Blob, b"hello\n".to_vec());
    assert_eq!(hello.hash_hex(), "ce013625030ba8dba906f756967f9e9ca394464a");
}

#[test]
fn empty_tree_hash_matches_git() {
    let tree = GitRepository::write_tree(&[]);
    assert_eq!(tree.obj_type, ObjectType::Tree);
    assert!(tree.content.is_empty());
    assert_eq!(tree.hash_hex(), "4b825dc642cb6eb9a060e54bf8d69288fbee4904");
}

#[test]
fn hash_hex_is_forty_lowercase_hex_digits() {
    let obj = GitObject::new(ObjectType::Commit, b"anything at all".to_vec());
    let hex = obj.hash_hex();
    assert_eq!(hex.len(), 40);
    assert!(hex.chars().all(|c| c.is_ascii_hexdigit() && !c.is_ascii_uppercase()));
    let raw = obj.hash();
    let again: String = raw.iter().map(|b| format!("{:02x}", b)).collect();
    assert_eq!(hex, again);
}

#[test]
fn tree_entry_bytes() {
    let mut hash = [0u8; 20];
    hash[0] = 0xab;
    hash[19] = 0x01;
    let e = TreeEntry::new(100644, "file.txt".to_string(), hash);
    let mut expected = b"100644 file.txt\0".to_vec();
    expected.extend_from_slice(&hash);
    assert_eq!(e.to_bytes(), expected);
    assert_eq!(e.hash_hex(), "ab00000000000000000000000000000000000001");
}

#[test]
fn commit_bytes_without_parent() {
    let m = CommitMetadata::new(
        "t".to_string(),
        None,
        "A <a@x> 1 +0000".to_string(),
        "C <c@x> 2 +0000".to_string(),
        "msg".to_string(),
    );
    assert_eq!(
        m.to_bytes(),
        b"tree t\nauthor A <a@x> 1 +0000\ncommitter C <c@x> 2 +0000\n\nmsg\n".to_vec()
    );
}

#[test]
fn commit_bytes_with_parent() {
    let m = CommitMetadata::new(
        "t".to_string(),
        Some("p".to_string()),
        "a".to_string(),
        "c".to_string(),
        "m".to_string(),
    );
    assert_eq!(m.to_bytes(), b"tree t\nparent p\nauthor a\ncommitter c\n\nm\n".to_vec());
}

#[test]
fn commit_object_uses_default_identity() {
    let obj = GitRepository::commit_object("abc", Some("def"), "first", 1700000000);
    assert_eq!(obj.obj_type, ObjectType::Commit);
    let text = String::from_utf8(obj.content).unwrap();
    assert_eq!(
        text,
        "tree abc\nparent def\nauthor John Doe <john@example.com> 1700000000 +0000\n\
         committer John Doe <john@example.com> 1700000000 +0000\n\nfirst\n"
    );
    let root = GitRepository::commit_object("abc", None, "x", 0);
    let text = String::from_utf8(root.content).unwrap();
    assert!(text.starts_with("tree abc\nauthor John Doe <john@example.com> 0 +0000\n"));
}

#[test]
fn commit_tree_stamps_the_current_time() {
    let before = std::time::SystemTime::now()
        .duration_since(std::time::UNIX_EPOCH)
        .unwrap()
        .as_secs();
    let obj = GitRepository::commit_tree("abc", None, "now").unwrap();
    let after = std::time::SystemTime::now()
        .duration_since(std::time::UNIX_EPOCH)
        .unwrap()
        .as_secs();
    assert_eq!(obj.obj_type, ObjectType::Commit);
    let text = String::from_utf8(obj.content).unwrap();
    let prefix = "tree abc\nauthor John Doe <john@example.com> ";
    assert!(text.starts_with(prefix));
    let stamp: u64 = text[prefix.len()..].split(' ').next().unwrap().parse().unwrap();
    assert!(before <= stamp && stamp <= after);
    assert!(text.ends_with(&format!(
        "committer John Doe <john@example.com> {} +0000\n\nnow\n",
        stamp
    )));
}
