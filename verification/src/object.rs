//! Git object types and their encodings.

use vstd::prelude::*;
use vstd::string::StringExecFns;
use vstd::utf8::encode_utf8;

use crate::text::{
    dec_chars, hex_chars, is_lower_hex, lemma_hex_chars_shape, push_bytes, push_char, push_decimal,
    to_hex,
};

verus! {

/// Default author for commits.
pub const DEFAULT_AUTHOR: &'static str = "John Doe";

/// Default email for commits.
pub const DEFAULT_EMAIL: &'static str = "john@example.com";

/// Default timezone offset.
pub const DEFAULT_TIMEZONE: &'static str = "+0000";

// ---------------------------------------------------------------------------
// SHA-1
// ---------------------------------------------------------------------------

/// The SHA-1 digest of `data`.
pub uninterp spec fn sha1(data: Seq<u8>) -> Seq<u8>;

/// Calls `sha1_smol::Sha1::from(data).digest().bytes()`. Trusted to return the
/// SHA-1 digest of `data`, which depends on `data` alone.
#[verifier::external_body]
fn sha1_digest(data: &[u8]) -> (h: [u8; 20])
    ensures
        h@ == sha1(data@),
{
    sha1_smol::Sha1::from(data).digest().bytes()
}

// ---------------------------------------------------------------------------
// Object types
// ---------------------------------------------------------------------------

/// Git object type.
#[derive(Debug, Clone, Copy, PartialEq, Eq, Structural)]
pub enum ObjectType {
    /// Blob object type.
    Blob,
    /// Tree object type.
    Tree,
    /// Commit object type.
    Commit,
}

/// The name of an object type as it appears in object headers.
pub open spec fn kind_name(t: ObjectType) -> Seq<char> {
    match t {
        ObjectType::Blob => seq!['b', 'l', 'o', 'b'],
        ObjectType::Tree => seq!['t', 'r', 'e', 'e'],
        ObjectType::Commit => seq!['c', 'o', 'm', 'm', 'i', 't'],
    }
}

impl ObjectType {
    /// Convert to string representation.
    pub fn as_str(&self) -> (s: &'static str)
        ensures
            s@ == kind_name(*self),
    {
        match self {
            ObjectType::Blob => {
                proof {
                    reveal_strlit("blob");
                }
                "blob"
            },
            ObjectType::Tree => {
                proof {
                    reveal_strlit("tree");
                }
                "tree"
            },
            ObjectType::Commit => {
                proof {
                    reveal_strlit("commit");
                }
                "commit"
            },
        }
    }
}

// ---------------------------------------------------------------------------
// Objects
// ---------------------------------------------------------------------------

/// Represents a git object (blob, tree, commit).
#[derive(Debug, Clone)]
pub struct GitObject {
    /// Object type.
    pub obj_type: ObjectType,
    /// Object content.
    pub content: Vec<u8>,
}

/// The abstract value of an object: its type and its content bytes.
pub struct GitObjectView {
    pub obj_type: ObjectType,
    pub content: Seq<u8>,
}

impl View for GitObject {
    type V = GitObjectView;

    open spec fn view(&self) -> GitObjectView {
        GitObjectView { obj_type: self.obj_type, content: self.content@ }
    }
}

/// The header text of an object: `<type> <length>`.
pub open spec fn header_text(t: ObjectType, len: nat) -> Seq<char> {
    kind_name(t) + seq![' '] + dec_chars(len)
}

/// The stored form of an object: `<type> <length>\0<content>`.
pub open spec fn stored_form(o: GitObjectView) -> Seq<u8> {
    encode_utf8(header_text(o.obj_type, o.content.len())) + seq![0u8] + o.content
}

/// The stored form writes the content length as `format!("{}")` does: for
/// every digit string `d` with the length as its value and no leading zero
/// (or `0` alone), the stored form is `<type> <d>\0<content>`. A 3-byte blob
/// is stored as `blob 3\0...`.
pub proof fn lemma_stored_form_length(o: GitObjectView, d: Seq<char>)
    requires
        d.len() > 0,
        crate::text::all_digits(d),
        d.len() == 1 || d[0] != '0',
        crate::text::dec_value(d) == o.content.len(),
    ensures
        stored_form(o) == encode_utf8(kind_name(o.obj_type) + seq![' '] + d) + seq![0u8]
            + o.content,
{
    crate::text::lemma_dec_chars_canonical(o.content.len(), d);
}

/// The content address of an object: the SHA-1 digest of its stored form.
pub open spec fn object_id(o: GitObjectView) -> Seq<u8> {
    sha1(stored_form(o))
}

/// The hexadecimal content address of an object.
pub open spec fn hex_id(o: GitObjectView) -> Seq<char> {
    hex_chars(object_id(o))
}

impl GitObject {
    /// Create a new git object.
    pub fn new(obj_type: ObjectType, content: Vec<u8>) -> (o: Self)
        ensures
            o.obj_type == obj_type,
            o.content@ == content@,
    {
        Self { obj_type, content }
    }

    /// The stored form of the object, `<type> <length>\0<content>`, over which
    /// its hash is taken.
    pub fn stored_form(&self) -> (bytes: Vec<u8>)
        ensures
            bytes@ == stored_form(self@),
    {
        let mut header = String::new();
        header.append(self.obj_type.as_str());
        push_char(&mut header, ' ');
        push_decimal(&mut header, self.content.len() as u64);
        let mut bytes: Vec<u8> = Vec::new();
        push_bytes(&mut bytes, header.as_str().as_bytes());
        bytes.push(0u8);
        push_bytes(&mut bytes, self.content.as_slice());
        assert(header@ =~= header_text(self.obj_type, self.content@.len()));
        assert(bytes@ =~= stored_form(self@));
        bytes
    }

    /// Calculate SHA1 hash of the object.
    pub fn hash(&self) -> (h: [u8; 20])
        ensures
            h@ == object_id(self@),
    {
        let bytes = self.stored_form();
        sha1_digest(bytes.as_slice())
    }

    /// Get hex representation of the hash.
    pub fn hash_hex(&self) -> (s: String)
        ensures
            s@ == hex_chars(object_id(self@)),
            s@.len() == 40,
            forall|i: int| 0 <= i < s@.len() ==> is_lower_hex(#[trigger] s@[i]),
    {
        let h = self.hash();
        proof {
            lemma_hex_chars_shape(h@);
        }
        to_hex(&h)
    }
}

// ---------------------------------------------------------------------------
// Tree entries
// ---------------------------------------------------------------------------

/// Tree entry representing a file or directory in a git tree.
#[derive(Debug, Clone)]
pub struct TreeEntry {
    /// File mode (e.g., 100644 for file, 40000 for directory).
    pub mode: u32,
    /// File name.
    pub name: String,
    /// SHA1 hash of the object.
    pub hash: [u8; 20],
}

/// The abstract value of a tree entry.
pub struct TreeEntryView {
    pub mode: u32,
    pub name: Seq<char>,
    pub hash: Seq<u8>,
}

impl View for TreeEntry {
    type V = TreeEntryView;

    open spec fn view(&self) -> TreeEntryView {
        TreeEntryView { mode: self.mode, name: self.name@, hash: self.hash@ }
    }
}

/// The header text of a tree entry: `<mode> <name>`.
pub open spec fn entry_header(e: TreeEntryView) -> Seq<char> {
    dec_chars(e.mode as nat) + seq![' '] + e.name
}

/// The encoding of a tree entry: `<mode> <name>\0` followed by the raw hash.
pub open spec fn entry_bytes(e: TreeEntryView) -> Seq<u8> {
    encode_utf8(entry_header(e)) + seq![0u8] + e.hash
}

impl TreeEntry {
    /// Create a new tree entry.
    pub fn new(mode: u32, name: String, hash: [u8; 20]) -> (e: Self)
        ensures
            e.mode == mode,
            e.name@ == name@,
            e.hash@ == hash@,
    {
        Self { mode, name, hash }
    }

    /// Serialize entry to bytes for tree storage.
    pub fn to_bytes(&self) -> (bytes: Vec<u8>)
        ensures
            bytes@ == entry_bytes(self@),
    {
        let mut header = String::new();
        push_decimal(&mut header, self.mode as u64);
        push_char(&mut header, ' ');
        header.append(self.name.as_str());
        let mut bytes: Vec<u8> = Vec::new();
        push_bytes(&mut bytes, header.as_str().as_bytes());
        bytes.push(0u8);
        push_bytes(&mut bytes, &self.hash);
        assert(header@ =~= entry_header(self@));
        assert(bytes@ =~= entry_bytes(self@));
        bytes
    }

    /// Get hex representation of the hash.
    pub fn hash_hex(&self) -> (s: String)
        ensures
            s@ == hex_chars(self.hash@),
            s@.len() == 40,
    {
        proof {
            lemma_hex_chars_shape(self.hash@);
        }
        to_hex(&self.hash)
    }
}

// ---------------------------------------------------------------------------
// Commits
// ---------------------------------------------------------------------------

/// Commit metadata for a git commit object.
#[derive(Debug, Clone)]
pub struct CommitMetadata {
    /// Tree SHA-1 hash (hex format).
    pub tree: String,
    /// Optional parent commit SHA-1 hash (hex format).
    pub parent: Option<String>,
    /// Author name and email.
    pub author: String,
    /// Committer name and email.
    pub committer: String,
    /// Commit message.
    pub message: String,
}

/// The text of a commit object:
/// `tree <tree>\n[parent <parent>\n]author <author>\ncommitter <committer>\n\n<message>\n`.
pub open spec fn commit_text(
    tree: Seq<char>,
    parent: Option<Seq<char>>,
    author: Seq<char>,
    committer: Seq<char>,
    message: Seq<char>,
) -> Seq<char> {
    let parent_line = match parent {
        Some(p) => "parent "@ + p + seq!['\n'],
        None => Seq::empty(),
    };
    "tree "@ + tree + seq!['\n'] + parent_line + "author "@ + author + seq!['\n'] + "committer "@
        + committer + seq!['\n'] + seq!['\n'] + message + seq!['\n']
}

/// The optional parent of a commit, by its characters.
pub open spec fn parent_view(p: Option<String>) -> Option<Seq<char>> {
    match p {
        Some(s) => Some(s@),
        None => None,
    }
}

impl CommitMetadata {
    /// Create a new commit metadata.
    pub fn new(
        tree: String,
        parent: Option<String>,
        author: String,
        committer: String,
        message: String,
    ) -> (m: Self)
        ensures
            m.tree@ == tree@,
            parent_view(m.parent) == parent_view(parent),
            m.author@ == author@,
            m.committer@ == committer@,
            m.message@ == message@,
    {
        Self { tree, parent, author, committer, message }
    }

    /// The commit text that `to_bytes` encodes.
    pub open spec fn spec_text(&self) -> Seq<char> {
        commit_text(
            self.tree@,
            parent_view(self.parent),
            self.author@,
            self.committer@,
            self.message@,
        )
    }

    /// Serialize commit metadata to bytes.
    pub fn to_bytes(&self) -> (bytes: Vec<u8>)
        ensures
            bytes@ == encode_utf8(self.spec_text()),
    {
        let mut text = String::new();
        text.append("tree ");
        text.append(self.tree.as_str());
        push_char(&mut text, '\n');
        let ghost after_tree = text@;
        match &self.parent {
            Some(parent) => {
                text.append("parent ");
                text.append(parent.as_str());
                push_char(&mut text, '\n');
            },
            None => {},
        }
        let ghost after_parent = text@;
        text.append("author ");
        text.append(self.author.as_str());
        push_char(&mut text, '\n');
        text.append("committer ");
        text.append(self.committer.as_str());
        push_char(&mut text, '\n');
        push_char(&mut text, '\n');
        text.append(self.message.as_str());
        push_char(&mut text, '\n');
        assert(text@ =~= self.spec_text());
        let mut bytes: Vec<u8> = Vec::new();
        push_bytes(&mut bytes, text.as_str().as_bytes());
        assert(bytes@ =~= encode_utf8(self.spec_text()));
        bytes
    }
}

} // verus!
