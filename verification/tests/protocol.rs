use std::io::Write;

use codecrafters_git::clone::{
    add_pkt_line, build_upload_request, checkout_tree_entries, fetch_step, info_refs_url,
    parse_refs_response, read_refs, ref_file, upload_pack_url, FetchAction, FetchEvent, FetchState,
    RefTable, RefsRead,
};
use codecrafters_git::error::GitError;
use codecrafters_git::object::ObjectType;
use codecrafters_git::pack::PackFile;

fn pkt(line: &str) -> Vec<u8> {
    let mut v = format!("{:04x}", line.len() + 4).into_bytes();
    v.extend_from_slice(line.as_bytes());
    v
}

#[test]
fn pkt_line_prefix_is_hex_length() {
    let mut data = Vec::new();
    add_pkt_line(&mut data, b"done\n").unwrap();
    assert_eq!(data, b"0009done\n".to_vec());
    let mut big = Vec::new();
    add_pkt_line(&mut big, &vec![b'x'; 0x1000]).unwrap();
    assert_eq!(&big[..4], b"1004");
    let mut huge = Vec::new();
    add_pkt_line(&mut huge, &vec![b'y'; 0x10000]).unwrap();
    assert_eq!(&huge[..5], b"10004");
}

#[test]
fn ref_table_insert_and_get() {
    let mut t = RefTable::new();
    assert_eq!(t.len(), 0);
    t.insert("HEAD".to_string(), "a".to_string());
    t.insert("refs/heads/main".to_string(), "b".to_string());
    t.insert("HEAD".to_string(), "c".to_string());
    assert_eq!(t.len(), 2);
    assert_eq!(t.get("HEAD").map(|s| s.as_str()), Some("c"));
    assert_eq!(t.get("refs/heads/main").map(|s| s.as_str()), Some("b"));
    assert!(t.get("missing").is_none());
    let mut pairs = t.pairs();
    pairs.sort();
    assert_eq!(
        pairs,
        vec![
            ("HEAD".to_string(), "c".to_string()),
            ("refs/heads/main".to_string(), "b".to_string())
        ]
    );
}

#[test]
fn parses_refs_advertisement() {
    let mut data = b"# service=git-upload-pack\n0000".to_vec();
    data.extend(pkt("1111111111111111111111111111111111111111 HEAD\0multi_ack\n"));
    data.extend(pkt("2222222222222222222222222222222222222222 refs/heads/main\n"));
    data.extend(pkt("\n"));
    data.extend(pkt("lonely\n"));
    let end = data.len();
    data.extend(b"0000");
    data.extend(pkt("3333333333333333333333333333333333333333 refs/after/flush\n"));
    let (refs, pos) = parse_refs_response(&data).unwrap();
    assert_eq!(pos, end);
    assert_eq!(refs.len(), 2);
    // The capabilities after the NUL stay part of the second word.
    assert!(refs.get("HEAD").is_none());
    assert_eq!(
        refs.get("HEAD\0multi_ack").map(|s| s.as_str()),
        Some("1111111111111111111111111111111111111111")
    );
    assert_eq!(
        refs.get("refs/heads/main").map(|s| s.as_str()),
        Some("2222222222222222222222222222222222222222")
    );
}

#[test]
fn refs_parsing_stops_at_overlong_line_and_rejects_bad_length() {
    let data = b"svc\n0000ffffab".to_vec();
    let (refs, pos) = parse_refs_response(&data).unwrap();
    assert_eq!(refs.len(), 0);
    assert_eq!(pos, 12);
    let bad = b"svc\n00zz".to_vec();
    match parse_refs_response(&bad) {
        Err(GitError::Other(m)) => assert_eq!(m, "Invalid pkt-line length"),
        other => panic!("unexpected {:?}", other.map(|(_, p)| p)),
    }
    let (refs, pos) = parse_refs_response(b"no newline").unwrap();
    assert_eq!(refs.len(), 0);
    assert_eq!(pos, 10);
    let plus = b"s\n+00a0123 x\n".to_vec();
    let (refs, _) = parse_refs_response(&plus).unwrap();
    assert_eq!(refs.get("x").map(|s| s.as_str()), Some("0123"));
}

#[test]
fn upload_request_wants_head() {
    let mut refs = RefTable::new();
    refs.insert("HEAD".to_string(), "abc".to_string());
    let req = build_upload_request(&refs).unwrap();
    assert_eq!(req, b"000dwant abc\n00000009done\n".to_vec());
    let none = build_upload_request(&RefTable::new()).unwrap();
    assert_eq!(none, b"00000009done\n".to_vec());
}

#[test]
fn remote_urls() {
    assert_eq!(
        info_refs_url("https://h/r.git"),
        "https://h/r/info/refs?service=git-upload-pack"
    );
    assert_eq!(upload_pack_url("https://h/r.git.git"), "https://h/r/git-upload-pack");
    assert_eq!(upload_pack_url("https://h/r"), "https://h/r/git-upload-pack");
}

fn deflate(data: &[u8]) -> Vec<u8> {
    let mut e = flate2::write::ZlibEncoder::new(Vec::new(), flate2::Compression::default());
    e.write_all(data).unwrap();
    e.finish().unwrap()
}

fn pack_header(version: u32, count: u32) -> Vec<u8> {
    let mut v = b"PACK".to_vec();
    v.extend_from_slice(&version.to_be_bytes());
    v.extend_from_slice(&count.to_be_bytes());
    v
}

fn pack_msg(data: &[u8]) -> String {
    match PackFile::parse(data) {
        Err(GitError::Other(m)) => m,
        other => panic!("unexpected {:?}", other.map(|p| p.objects.len())),
    }
}

#[test]
fn pack_header_checks() {
    assert_eq!(pack_msg(&[0u8; 27]), "Packfile too small");
    let mut bad = pack_header(2, 0);
    bad[0] = b'K';
    bad.extend_from_slice(&[0u8; 16]);
    assert_eq!(pack_msg(&bad), "Invalid packfile magic");
    let mut v4 = pack_header(4, 0);
    v4.extend_from_slice(&[0u8; 16]);
    assert_eq!(pack_msg(&v4), "Unsupported packfile version: 4");
    let mut empty = pack_header(3, 0);
    empty.extend_from_slice(&[0u8; 16]);
    assert!(PackFile::parse(&empty).unwrap().objects.is_empty());
}

#[test]
fn pack_with_one_blob() {
    let mut data = pack_header(2, 1);
    data.push(0x80 | (3 << 4) | 5);
    data.push(0x00);
    data.extend(deflate(b"hello"));
    data.extend_from_slice(&[0u8; 20]);
    let pack = PackFile::parse(&data).unwrap();
    assert_eq!(pack.objects.len(), 1);
    assert_eq!(pack.objects[0].obj_type, ObjectType::Blob);
    assert_eq!(pack.objects[0].content, b"hello".to_vec());
}

#[test]
fn pack_object_errors() {
    let mut unknown = pack_header(2, 1);
    unknown.push(7 << 4);
    unknown.extend_from_slice(&[0u8; 20]);
    assert_eq!(pack_msg(&unknown), "Unknown object type: 7");
    let mut short = pack_header(2, 2);
    short.push(1 << 4);
    short.extend(deflate(b"tree 0123456789abcdefghijklmnopqrstuvwxyz"));
    assert!(short.len() >= 28);
    assert_eq!(pack_msg(&short), "Unexpected end of packfile");
    let mut into_trailer = pack_header(2, 2);
    into_trailer.push(1 << 4);
    into_trailer.extend(deflate(b"tree x"));
    into_trailer.extend_from_slice(&[0u8; 20]);
    assert_eq!(pack_msg(&into_trailer), "Unknown object type: 0");
    let mut corrupt = pack_header(2, 1);
    corrupt.push(2 << 4);
    corrupt.extend_from_slice(&[0xffu8; 20]);
    assert!(pack_msg(&corrupt).starts_with("Failed to decompress: "));
}

#[test]
fn length_field_below_four_aborts() {
    let mut data = b"svc\n0000".to_vec();
    data.extend(pkt("1111 HEAD\n"));
    data.extend(b"0003abc");
    assert!(matches!(read_refs(&data), RefsRead::Aborted));
    match read_refs(b"svc\n0000000aab cd\n") {
        RefsRead::Done(refs, pos) => {
            assert_eq!(pos, 18);
            assert_eq!(refs.get("cd").map(|s| s.as_str()), Some("ab"));
        }
        _ => panic!("expected the refs"),
    }
}

#[test]
fn fetch_steps_ask_for_refs_then_the_pack() {
    let url = "https://example.com/repo.git";
    let (state, action) = fetch_step(url, FetchState::Start, FetchEvent::Begin);
    assert!(matches!(state, FetchState::AwaitRefs));
    match action {
        FetchAction::Get(u) => {
            assert_eq!(u, "https://example.com/repo/info/refs?service=git-upload-pack")
        }
        _ => panic!("expected a GET"),
    }
    let mut body = b"# service=git-upload-pack\n0000".to_vec();
    body.extend(pkt("abc HEAD\n"));
    body.extend(b"0000");
    let (state, action) = fetch_step(url, state, FetchEvent::Body(body));
    match action {
        FetchAction::Post(u, req) => {
            assert_eq!(u, "https://example.com/repo/git-upload-pack");
            assert_eq!(req, b"000dwant abc\n00000009done\n".to_vec());
        }
        _ => panic!("expected a POST"),
    }
    let (state, action) = fetch_step(url, state, FetchEvent::Body(b"PACK...".to_vec()));
    assert!(matches!(state, FetchState::Start));
    match action {
        FetchAction::Done(pack, refs) => {
            assert_eq!(pack, b"PACK...".to_vec());
            assert_eq!(refs.get("HEAD").map(|s| s.as_str()), Some("abc"));
        }
        _ => panic!("expected the pack"),
    }
}

#[test]
fn fetch_step_stops_on_bad_refs() {
    let url = "https://example.com/repo";
    match fetch_step(url, FetchState::AwaitRefs, FetchEvent::Body(b"svc\n00zz".to_vec())).1 {
        FetchAction::Fail(GitError::Other(m)) => assert_eq!(m, "Invalid pkt-line length"),
        _ => panic!("expected a failure"),
    }
    let aborted = fetch_step(url, FetchState::AwaitRefs, FetchEvent::Body(b"svc\n0002".to_vec()));
    assert!(matches!(aborted.1, FetchAction::Abort));
}

#[test]
fn ref_files_hold_the_hash() {
    let (path, contents) = ref_file("dir", "refs/heads/main", "abc");
    assert_eq!(path, "dir/.git/refs/heads/main");
    assert_eq!(contents, "abc\n");
}

#[test]
fn checkout_reads_the_stored_tree() {
    assert!(checkout_tree_entries(&deflate(b"tree 0\0")).is_ok());
    assert!(checkout_tree_entries(&deflate(b"no header at all")).is_ok());
    assert!(matches!(checkout_tree_entries(b"not zlib"), Err(GitError::IoError(_))));
}

#[test]
fn pack_with_two_empty_blobs() {
    let z: [u8; 8] = [0x78, 0x9c, 0x03, 0x00, 0x00, 0x00, 0x00, 0x01];
    let mut data = pack_header(2, 2);
    data.push(0x30);
    data.extend_from_slice(&z);
    data.push(0x30);
    data.extend_from_slice(&z);
    data.extend_from_slice(&[0u8; 20]);
    let pack = PackFile::parse(&data).unwrap();
    assert_eq!(pack.objects.len(), 2);
    for o in &pack.objects {
        assert_eq!(o.obj_type, ObjectType::Blob);
        assert!(o.content.is_empty());
    }
}

#[test]
fn pack_objects_follow_each_other() {
    let mut data = pack_header(3, 3);
    for (ty, content) in [(0x10u8, &b"tree abc\n"[..]), (0x20, b""), (0x30, b"hello\n")] {
        data.push(ty | (content.len() as u8 & 0x0f));
        data.extend(deflate(content));
    }
    data.extend_from_slice(&[0u8; 20]);
    let pack = PackFile::parse(&data).unwrap();
    assert_eq!(pack.objects.len(), 3);
    assert_eq!(pack.objects[0].obj_type, ObjectType::Commit);
    assert_eq!(pack.objects[0].content, b"tree abc\n".to_vec());
    assert_eq!(pack.objects[1].obj_type, ObjectType::Tree);
    assert!(pack.objects[1].content.is_empty());
    assert_eq!(pack.objects[2].obj_type, ObjectType::Blob);
    assert_eq!(pack.objects[2].content, b"hello\n".to_vec());
}
