use std::io::Write;

use codecrafters_git::error::GitError;
use codecrafters_git::object::{GitObject, ObjectType, TreeEntry};
use codecrafters_git::GitRepository;

fn deflate(data: &[u8]) -> Vec<u8> {
    let mut e = flate2::write::ZlibEncoder::new(Vec::new(), flate2::Compression::default());
    e.write_all(data).unwrap();
    e.finish().unwrap()
}

#[test]
fn object_path_splits_after_two_bytes() {
    let p = GitRepository::object_path("abcdef").unwrap();
    assert_eq!(p, ".git/objects/ab/cdef");
    let p = GitRepository::object_path("ab").unwrap();
    assert_eq!(p, ".git/objects/ab/");
    match GitRepository::object_path("a") {
        Err(GitError::InvalidHash(h)) => assert_eq!(h, "a"),
        other => panic!("unexpected {:?}", other),
    }
}

#[test]
fn loose_object_reads_back() {
    let obj = GitObject::new(ObjectType::Blob, b"some content\n".to_vec());
    let (path, bytes) = GitRepository::loose_object(&obj).unwrap();
    let hex = obj.hash_hex();
    assert_eq!(path, format!(".git/objects/{}/{}", &hex[..2], &hex[2..]));
    let back = GitRepository::read_object(&bytes).unwrap();
    assert_eq!(back.obj_type, ObjectType::Blob);
    assert_eq!(back.content, obj.content);
    assert_eq!(GitRepository::cat_file(&bytes).unwrap(), "some content\n");
}

#[test]
fn read_object_rejects_bad_headers() {
    match GitRepository::read_object(&deflate(b"blob\0x")) {
        Err(GitError::Other(m)) => assert_eq!(m, "Invalid object header"),
        other => panic!("unexpected {:?}", other),
    }
    match GitRepository::read_object(&deflate(b"tag 3\0abc")) {
        Err(GitError::Other(m)) => assert_eq!(m, "Unknown object type: tag"),
        other => panic!("unexpected {:?}", other),
    }
    match GitRepository::read_object(&deflate(b"\xff\xfe 1\0a")) {
        Err(GitError::EncodingError(_)) => {}
        other => panic!("unexpected {:?}", other),
    }
    match GitRepository::read_object(b"not zlib at all") {
        Err(GitError::IoError(_)) => {}
        other => panic!("unexpected {:?}", other),
    }
}

#[test]
fn read_object_without_nul_has_empty_content() {
    let obj = GitRepository::read_object(&deflate(b"commit 7")).unwrap();
    assert_eq!(obj.obj_type, ObjectType::Commit);
    assert!(obj.content.is_empty());
}

#[test]
fn cat_file_rejects_binary_content() {
    match GitRepository::cat_file(&deflate(b"blob 2\0\xff\xff")) {
        Err(GitError::EncodingError(_)) => {}
        other => panic!("unexpected {:?}", other),
    }
}

#[test]
fn tree_entries_round_trip() {
    let a = TreeEntry::new(100644, "a.txt".to_string(), [1u8; 20]);
    let b = TreeEntry::new(40000, "dir".to_string(), [0u8; 20]);
    let tree = GitRepository::write_tree(&[a.clone(), b.clone()]);
    let parsed = GitRepository::parse_tree_entries(&tree.content).unwrap();
    assert_eq!(parsed.len(), 2);
    assert_eq!(parsed[0].mode, 100644);
    assert_eq!(parsed[0].name, "a.txt");
    assert_eq!(parsed[0].hash, [1u8; 20]);
    assert_eq!(parsed[1].mode, 40000);
    assert_eq!(parsed[1].name, "dir");
    assert_eq!(parsed[1].hash, [0u8; 20]);
}

#[test]
fn parse_tree_entries_errors() {
    let msg = |data: &[u8]| match GitRepository::parse_tree_entries(data) {
        Err(GitError::Other(m)) => m,
        other => panic!("unexpected {:?}", other),
    };
    assert_eq!(msg(b"100644 name"), "Malformed tree entry");
    assert_eq!(msg(b"100644\0aaaaaaaaaaaaaaaaaaaa"), "Invalid tree entry header");
    assert_eq!(msg(b" 100644 n\0aaaaaaaaaaaaaaaaaaaa"), "Invalid mode");
    assert_eq!(msg(b"10x644 n\0aaaaaaaaaaaaaaaaaaaa"), "Invalid mode");
    assert_eq!(msg(b"99999999999 n\0aaaaaaaaaaaaaaaaaaaa"), "Invalid mode");
    assert_eq!(msg(b"100644 n\0short"), "Truncated SHA1 hash");
    match GitRepository::parse_tree_entries(b"\xc3 n\0aaaaaaaaaaaaaaaaaaaa") {
        Err(GitError::EncodingError(_)) => {}
        other => panic!("unexpected {:?}", other),
    }
    assert!(GitRepository::parse_tree_entries(b"").unwrap().is_empty());
}

#[test]
fn parse_tree_entries_accepts_plus_sign_mode() {
    let mut data = b"+644 f\0".to_vec();
    data.extend_from_slice(&[7u8; 20]);
    let parsed = GitRepository::parse_tree_entries(&data).unwrap();
    assert_eq!(parsed[0].mode, 644);
    assert_eq!(parsed[0].name, "f");
}

#[test]
fn ls_tree_lists_entries() {
    let a = TreeEntry::new(100644, "a.txt".to_string(), [0x11u8; 20]);
    let b = TreeEntry::new(40000, "sub".to_string(), [0x22u8; 20]);
    let tree = GitRepository::write_tree(&[a, b]);
    let (_, stored) = GitRepository::loose_object(&tree).unwrap();
    assert_eq!(GitRepository::ls_tree(&stored, true).unwrap(), "a.txt\nsub\n");
    let full = GitRepository::ls_tree(&stored, false).unwrap();
    assert_eq!(
        full,
        format!("100644 a.txt\0{}\n40000 sub\0{}\n", "11".repeat(20), "22".repeat(20))
    );
}

#[test]
fn skipped_entries_and_order() {
    assert!(GitRepository::is_skipped_entry(".git"));
    assert!(GitRepository::is_skipped_entry(".gitignore"));
    assert!(!GitRepository::is_skipped_entry("src"));
    let keys: Vec<(String, bool)> =
        ["b", "a", "c", "a", "B"].iter().map(|s| (s.to_string(), false)).collect();
    let order = codecrafters_git::order::sorted_order(&keys);
    assert_eq!(order, vec![4, 1, 3, 0, 2]);
}

#[test]
fn io_errors_convert() {
    let e: GitError = std::io::Error::new(std::io::ErrorKind::Other, "x").into();
    assert!(matches!(e, GitError::IoError(_)));
}

#[test]
fn header_kind_names_the_type() {
    assert_eq!(GitRepository::header_kind(b"tree 12\0".to_vec()).unwrap(), ObjectType::Tree);
    assert_eq!(GitRepository::header_kind(b"  blob   0\0".to_vec()).unwrap(), ObjectType::Blob);
    assert_eq!(GitRepository::header_kind(b"commit 1 2".to_vec()).unwrap(), ObjectType::Commit);
    match GitRepository::header_kind(b"blob\0".to_vec()) {
        Err(GitError::Other(m)) => assert_eq!(m, "Invalid object header"),
        other => panic!("unexpected {:?}", other),
    }
    match GitRepository::header_kind(b"Blob 1\0".to_vec()) {
        Err(GitError::Other(m)) => assert_eq!(m, "Unknown object type: Blob"),
        other => panic!("unexpected {:?}", other),
    }
}

#[test]
fn tree_entry_names_keep_their_spaces() {
    let mut data = b"100644 a b\0".to_vec();
    data.extend_from_slice(&[0u8; 20]);
    let parsed = GitRepository::parse_tree_entries(&data).unwrap();
    assert_eq!(parsed.len(), 1);
    assert_eq!(parsed[0].mode, 100644);
    assert_eq!(parsed[0].name, "a b");
    assert_eq!(parsed[0].hash, [0u8; 20]);
    let mut odd = b"1 2 3\0".to_vec();
    odd.extend_from_slice(&[9u8; 20]);
    let parsed = GitRepository::parse_tree_entries(&odd).unwrap();
    assert_eq!(parsed[0].mode, 1);
    assert_eq!(parsed[0].name, "2 3");
    let e = TreeEntry::new(100644, "my file.txt".to_string(), [3u8; 20]);
    let tree = GitRepository::write_tree(&[e]);
    let back = GitRepository::parse_tree_entries(&tree.content).unwrap();
    assert_eq!(back[0].name, "my file.txt");
}

#[test]
fn directories_sort_as_if_ending_in_slash() {
    let keys = vec![
        ("a".to_string(), true),
        ("a.txt".to_string(), false),
        ("a-b".to_string(), false),
        ("a0".to_string(), false),
    ];
    // '-' (0x2d) < '.' (0x2e) < '/' (0x2f) < '0' (0x30)
    let order = codecrafters_git::order::sorted_order(&keys);
    assert_eq!(order, vec![2, 1, 0, 3]);
    let files = vec![("a".to_string(), false), ("a.txt".to_string(), false)];
    assert_eq!(codecrafters_git::order::sorted_order(&files), vec![0, 1]);
}

#[test]
fn write_tree_then_ls_tree_lists_sorted_names() {
    let keys = vec![("b".to_string(), false), ("a".to_string(), false)];
    let blobs = [
        GitObject::new(ObjectType::Blob, b"bee\n".to_vec()),
        GitObject::new(ObjectType::Blob, b"ay\n".to_vec()),
    ];
    let entries: Vec<TreeEntry> = codecrafters_git::order::sorted_order(&keys)
        .into_iter()
        .map(|i| TreeEntry::new(100644, keys[i].0.clone(), blobs[i].hash()))
        .collect();
    let tree = GitRepository::write_tree(&entries);
    let (_, stored) = GitRepository::loose_object(&tree).unwrap();
    assert_eq!(GitRepository::ls_tree(&stored, true).unwrap(), "a\nb\n");
}

#[test]
fn loose_object_of_an_empty_blob() {
    let obj = GitObject::new(ObjectType::Blob, Vec::new());
    let (path, bytes) = GitRepository::loose_object(&obj).unwrap();
    assert_eq!(path, ".git/objects/e6/9de29bb2d1d6434b8b29ae775ad8c2e48c5391");
    assert_eq!(GitRepository::read_object(&bytes).unwrap().content, Vec::<u8>::new());
}

#[test]
fn error_messages() {
    assert_eq!(GitError::Other("x".to_string()).message(), "Error: x");
    assert_eq!(GitError::NotFound("p".to_string()).message(), "Not found: p");
    assert_eq!(GitError::InvalidHash("h".to_string()).message(), "Invalid hash: h");
    assert_eq!(GitError::EncodingError("e".to_string()).message(), "Encoding error: e");
    assert_eq!(GitError::CompressionError("c".to_string()).message(), "Compression error: c");
    let io = GitError::IoError(std::io::Error::new(std::io::ErrorKind::Other, "disk"));
    assert_eq!(io.message(), "IO error: disk");
}
