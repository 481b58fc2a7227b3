//! The command-line grammar.

use vstd::prelude::*;
use vstd::string::StringExecFns;

use crate::error::{GitError, GitErrorView};

verus! {

/// Command-line interface for git commands.
pub enum GitCommand {
    /// Initialize repository.
    Init,
    /// Read object content.
    CatFile(String),
    /// Hash object.
    HashObject(String, bool),
    /// List tree.
    LsTree(String, bool),
    /// Write tree.
    WriteTree,
    /// Commit tree.
    CommitTree {
        /// Tree SHA.
        tree: String,
        /// Optional parent commit SHA.
        parent: Option<String>,
        /// Commit message.
        message: String,
    },
    /// Clone repository.
    Clone {
        /// Repository URL.
        url: String,
        /// Target directory.
        target_dir: String,
    },
}

/// A command, with its arguments as character sequences.
pub enum GitCommandView {
    Init,
    CatFile(Seq<char>),
    HashObject(Seq<char>, bool),
    LsTree(Seq<char>, bool),
    WriteTree,
    CommitTree { tree: Seq<char>, parent: Option<Seq<char>>, message: Seq<char> },
    Clone { url: Seq<char>, target_dir: Seq<char> },
}

/// An optional string by its characters.
pub open spec fn opt_view(o: Option<String>) -> Option<Seq<char>> {
    match o {
        Some(s) => Some(s@),
        None => None,
    }
}

impl View for GitCommand {
    type V = GitCommandView;

    open spec fn view(&self) -> GitCommandView {
        match self {
            GitCommand::Init => GitCommandView::Init,
            GitCommand::CatFile(h) => GitCommandView::CatFile(h@),
            GitCommand::HashObject(f, w) => GitCommandView::HashObject(f@, *w),
            GitCommand::LsTree(h, n) => GitCommandView::LsTree(h@, *n),
            GitCommand::WriteTree => GitCommandView::WriteTree,
            GitCommand::CommitTree { tree, parent, message } => GitCommandView::CommitTree {
                tree: tree@,
                parent: opt_view(*parent),
                message: message@,
            },
            GitCommand::Clone { url, target_dir } => GitCommandView::Clone {
                url: url@,
                target_dir: target_dir@,
            },
        }
    }
}

/// The arguments by their characters.
pub open spec fn args_view(args: Seq<String>) -> Seq<Seq<char>> {
    Seq::new(args.len(), |i: int| args[i]@)
}

/// The `-p <parent>` and `-m <message>` flags of `commit-tree` from position
/// `i` on; a later flag replaces an earlier one of the same kind.
pub open spec fn commit_flags(
    args: Seq<Seq<char>>,
    i: int,
    parent: Option<Seq<char>>,
    message: Option<Seq<char>>,
) -> Result<(Option<Seq<char>>, Option<Seq<char>>), GitErrorView>
    decreases args.len() - i,
{
    if i < 0 || i >= args.len() {
        Ok((parent, message))
    } else if args[i] == "-p"@ {
        if i + 1 >= args.len() {
            Err(GitErrorView::Other("Missing parent SHA"@))
        } else {
            commit_flags(args, i + 2, Some(args[i + 1]), message)
        }
    } else if args[i] == "-m"@ {
        if i + 1 >= args.len() {
            Err(GitErrorView::Other("Missing message"@))
        } else {
            commit_flags(args, i + 2, parent, Some(args[i + 1]))
        }
    } else {
        Err(GitErrorView::Other("Unknown flag: "@ + args[i]))
    }
}

/// The `commit-tree` command for the given arguments.
pub open spec fn commit_command(args: Seq<Seq<char>>) -> Result<GitCommandView, GitErrorView> {
    if args.len() < 3 {
        Err(GitErrorView::Other("Usage: git commit-tree <tree> [-p <parent>] -m <message>"@))
    } else {
        match commit_flags(args, 2, None, None) {
            Err(e) => Err(e),
            Ok((parent, message)) => match message {
                None => Err(GitErrorView::Other("Message is required (-m flag)"@)),
                Some(m) => Ok(GitCommandView::CommitTree { tree: args[1], parent, message: m }),
            },
        }
    }
}

/// The command that the arguments (without the program name) stand for.
pub open spec fn parse_command(args: Seq<Seq<char>>) -> Result<GitCommandView, GitErrorView> {
    if args.len() == 0 {
        Err(GitErrorView::Other("No command specified"@))
    } else {
        let cmd = args[0];
        if cmd == "init"@ {
            Ok(GitCommandView::Init)
        } else if cmd == "cat-file"@ {
            if args.len() < 3 || args[1] != "-p"@ {
                Err(GitErrorView::Other("Usage: git cat-file -p <hash>"@))
            } else {
                Ok(GitCommandView::CatFile(args[2]))
            }
        } else if cmd == "hash-object"@ {
            if args.len() < 2 {
                Err(GitErrorView::Other("Usage: git hash-object [-w] <file>"@))
            } else if args[1] == "-w"@ && args.len() >= 3 {
                Ok(GitCommandView::HashObject(args[2], true))
            } else {
                Ok(GitCommandView::HashObject(args[1], false))
            }
        } else if cmd == "ls-tree"@ {
            if args.len() < 2 {
                Err(GitErrorView::Other("Usage: git ls-tree [--name-only] <hash>"@))
            } else if args[1] == "--name-only"@ && args.len() >= 3 {
                Ok(GitCommandView::LsTree(args[2], true))
            } else {
                Ok(GitCommandView::LsTree(args[1], false))
            }
        } else if cmd == "write-tree"@ {
            Ok(GitCommandView::WriteTree)
        } else if cmd == "commit-tree"@ {
            commit_command(args)
        } else if cmd == "clone"@ {
            if args.len() < 3 {
                Err(GitErrorView::Other("Usage: git clone <url> <directory>"@))
            } else {
                Ok(GitCommandView::Clone { url: args[1], target_dir: args[2] })
            }
        } else {
            Err(GitErrorView::Other("Unknown command: "@ + cmd))
        }
    }
}

/// `hash-object` writes the object to the store only when asked with `-w`:
/// given just a file it only hashes it (whatever the file is called), given
/// `-w` and a file it writes that file, and given a first argument other than
/// `-w` it hashes that argument without writing, whatever follows.
pub proof fn lemma_hash_object_write_flag(f: Seq<char>, rest: Seq<Seq<char>>)
    ensures
        parse_command(seq!["hash-object"@, f]) == Ok::<GitCommandView, GitErrorView>(
            GitCommandView::HashObject(f, false),
        ),
        parse_command(seq!["hash-object"@, "-w"@, f] + rest) == Ok::<GitCommandView, GitErrorView>(
            GitCommandView::HashObject(f, true),
        ),
        f != "-w"@ ==> parse_command(seq!["hash-object"@, f] + rest) == Ok::<
            GitCommandView,
            GitErrorView,
        >(GitCommandView::HashObject(f, false)),
{
    reveal_strlit("hash-object");
    reveal_strlit("init");
    reveal_strlit("cat-file");
    reveal_strlit("-w");
    let a = seq!["hash-object"@, f];
    let b = seq!["hash-object"@, "-w"@, f] + rest;
    let c = seq!["hash-object"@, f] + rest;
    assert(a[0] == "hash-object"@ && a[1] == f);
    assert(b[0] == "hash-object"@ && b[1] == "-w"@ && b[2] == f && b.len() >= 3);
    assert(c[0] == "hash-object"@ && c[1] == f && c.len() >= 2);
    assert("hash-object"@ != "init"@) by {
        assert("hash-object"@.len() != "init"@.len());
    }
    assert("hash-object"@ != "cat-file"@) by {
        assert("hash-object"@.len() != "cat-file"@.len());
    }
}

/// Whether `s` reads `lit`.
fn is_word(s: &String, lit: &str) -> (b: bool)
    ensures
        b == (s@ == lit@),
{
    let l = lit.to_owned();
    *s == l
}

impl GitCommand {
    /// Parse command from arguments.
    pub fn from_args(args: &[String]) -> (r: Result<Self, GitError>)
        ensures
            match r {
                Ok(c) => parse_command(args_view(args@)) == Ok::<GitCommandView, GitErrorView>(
                    c@,
                ),
                Err(e) => parse_command(args_view(args@)) == Err::<GitCommandView, GitErrorView>(
                    e@,
                ),
            },
    {
        let ghost a = args_view(args@);
        if args.len() == 0 {
            return Err(GitError::other("No command specified"));
        }
        assert(a[0] == args@[0]@);
        let cmd = &args[0];
        if is_word(cmd, "init") {
            Ok(GitCommand::Init)
        } else if is_word(cmd, "cat-file") {
            if args.len() < 3 || !is_word(&args[1], "-p") {
                return Err(GitError::other("Usage: git cat-file -p <hash>"));
            }
            assert(a[1] == args@[1]@);
            assert(a[2] == args@[2]@);
            Ok(GitCommand::CatFile(args[2].clone()))
        } else if is_word(cmd, "hash-object") {
            if args.len() < 2 {
                return Err(GitError::other("Usage: git hash-object [-w] <file>"));
            }
            assert(a[1] == args@[1]@);
            let (write, file) = if is_word(&args[1], "-w") && args.len() >= 3 {
                assert(a[2] == args@[2]@);
                (true, &args[2])
            } else {
                (false, &args[1])
            };
            Ok(GitCommand::HashObject(file.clone(), write))
        } else if is_word(cmd, "ls-tree") {
            if args.len() < 2 {
                return Err(GitError::other("Usage: git ls-tree [--name-only] <hash>"));
            }
            assert(a[1] == args@[1]@);
            let (name_only, hash) = if is_word(&args[1], "--name-only") && args.len() >= 3 {
                assert(a[2] == args@[2]@);
                (true, &args[2])
            } else {
                (false, &args[1])
            };
            Ok(GitCommand::LsTree(hash.clone(), name_only))
        } else if is_word(cmd, "write-tree") {
            Ok(GitCommand::WriteTree)
        } else if is_word(cmd, "commit-tree") {
            if args.len() < 3 {
                return Err(
                    GitError::other("Usage: git commit-tree <tree> [-p <parent>] -m <message>"),
                );
            }
            assert(a[1] == args@[1]@);
            let tree = args[1].clone();
            let mut parent: Option<String> = None;
            let mut message: Option<String> = None;
            let mut i: usize = 2;
            while i < args.len()
                invariant
                    2 <= i,
                    a == args_view(args@),
                    a.len() >= 3,
                    a.len() == args@.len(),
                    parse_command(a) == commit_command(a),
                    commit_flags(a, 2, None, None) == commit_flags(
                        a,
                        i as int,
                        opt_view(parent),
                        opt_view(message),
                    ),
                decreases args.len() - i,
            {
                assert(a[i as int] == args@[i as int]@);
                if is_word(&args[i], "-p") {
                    if i + 1 >= args.len() {
                        return Err(GitError::other("Missing parent SHA"));
                    }
                    assert(a[i + 1] == args@[i + 1]@);
                    parent = Some(args[i + 1].clone());
                    i = i + 2;
                } else if is_word(&args[i], "-m") {
                    if i + 1 >= args.len() {
                        return Err(GitError::other("Missing message"));
                    }
                    assert(a[i + 1] == args@[i + 1]@);
                    message = Some(args[i + 1].clone());
                    i = i + 2;
                } else {
                    let mut msg = String::new();
                    msg.append("Unknown flag: ");
                    msg.append(args[i].as_str());
                    return Err(GitError::Other(msg));
                }
            }
            let message = match message {
                Some(m) => m,
                None => {
                    return Err(GitError::other("Message is required (-m flag)"));
                },
            };
            Ok(GitCommand::CommitTree { tree, parent, message })
        } else if is_word(cmd, "clone") {
            if args.len() < 3 {
                return Err(GitError::other("Usage: git clone <url> <directory>"));
            }
            assert(a[1] == args@[1]@);
            assert(a[2] == args@[2]@);
            Ok(GitCommand::Clone { url: args[1].clone(), target_dir: args[2].clone() })
        } else {
            let mut msg = String::new();
            msg.append("Unknown command: ");
            msg.append(cmd.as_str());
            Err(GitError::Other(msg))
        }
    }
}

} // verus!
