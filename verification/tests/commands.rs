use codecrafters_git::error::GitError;
use codecrafters_git::GitCommand;

fn args(v: &[&str]) -> Vec<String> {
    v.iter().map(|s| s.to_string()).collect()
}

fn err(v: &[&str]) -> String {
    match GitCommand::from_args(&args(v)) {
        Err(GitError::Other(m)) => m,
        Err(e) => panic!("unexpected error {:?}", e),
        Ok(_) => panic!("expected an error"),
    }
}

#[test]
fn parses_simple_commands() {
    assert!(matches!(GitCommand::from_args(&args(&["init"])), Ok(GitCommand::Init)));
    assert!(matches!(GitCommand::from_args(&args(&["write-tree"])), Ok(GitCommand::WriteTree)));
    match GitCommand::from_args(&args(&["cat-file", "-p", "abc"])) {
        Ok(GitCommand::CatFile(h)) => assert_eq!(h, "abc"),
        _ => panic!(),
    }
    match GitCommand::from_args(&args(&["clone", "u", "d"])) {
        Ok(GitCommand::Clone { url, target_dir }) => {
            assert_eq!(url, "u");
            assert_eq!(target_dir, "d");
        }
        _ => panic!(),
    }
}

#[test]
fn parses_flags() {
    match GitCommand::from_args(&args(&["hash-object", "-w", "f"])) {
        Ok(GitCommand::HashObject(f, w)) => assert!(f == "f" && w),
        _ => panic!(),
    }
    match GitCommand::from_args(&args(&["hash-object", "-w"])) {
        Ok(GitCommand::HashObject(f, w)) => assert!(f == "-w" && !w),
        _ => panic!(),
    }
    match GitCommand::from_args(&args(&["ls-tree", "--name-only", "h"])) {
        Ok(GitCommand::LsTree(h, n)) => assert!(h == "h" && n),
        _ => panic!(),
    }
    match GitCommand::from_args(&args(&["ls-tree", "h"])) {
        Ok(GitCommand::LsTree(h, n)) => assert!(h == "h" && !n),
        _ => panic!(),
    }
}

#[test]
fn parses_commit_tree() {
    match GitCommand::from_args(&args(&["commit-tree", "t", "-p", "p1", "-m", "hi", "-p", "p2"])) {
        Ok(GitCommand::CommitTree { tree, parent, message }) => {
            assert_eq!(tree, "t");
            assert_eq!(parent.as_deref(), Some("p2"));
            assert_eq!(message, "hi");
        }
        _ => panic!(),
    }
    match GitCommand::from_args(&args(&["commit-tree", "t", "-m", "only"])) {
        Ok(GitCommand::CommitTree { parent, message, .. }) => {
            assert!(parent.is_none());
            assert_eq!(message, "only");
        }
        _ => panic!(),
    }
}

#[test]
fn reports_usage_errors() {
    assert_eq!(err(&[]), "No command specified");
    assert_eq!(err(&["cat-file", "-x", "h"]), "Usage: git cat-file -p <hash>");
    assert_eq!(err(&["cat-file", "-p"]), "Usage: git cat-file -p <hash>");
    assert_eq!(err(&["hash-object"]), "Usage: git hash-object [-w] <file>");
    assert_eq!(err(&["ls-tree"]), "Usage: git ls-tree [--name-only] <hash>");
    assert_eq!(err(&["commit-tree", "t"]), "Usage: git commit-tree <tree> [-p <parent>] -m <message>");
    assert_eq!(err(&["commit-tree", "t", "-p"]), "Missing parent SHA");
    assert_eq!(err(&["commit-tree", "t", "-m"]), "Missing message");
    assert_eq!(err(&["commit-tree", "t", "-x"]), "Unknown flag: -x");
    assert_eq!(err(&["commit-tree", "t", "-p", "p"]), "Message is required (-m flag)");
    assert_eq!(err(&["clone", "u"]), "Usage: git clone <url> <directory>");
    assert_eq!(err(&["push"]), "Unknown command: push");
}
