//! Core git repository operations: the object store layout, reading and
//! writing loose objects, trees and commits.

use vstd::prelude::*;
use vstd::string::StringExecFns;
use vstd::string::StringSliceAdditionalSpecFns;
use vstd::utf8::{decode_utf8, encode_utf8, is_char_boundary, valid_utf8};

use crate::error::{GitError, GitErrorView};
use crate::object::{
    commit_text, entry_bytes, entry_header, header_text, hex_id, kind_name, object_id, stored_form,
    CommitMetadata, GitObject, GitObjectView, ObjectType, TreeEntry, TreeEntryView,
    DEFAULT_AUTHOR, DEFAULT_EMAIL, DEFAULT_TIMEZONE,
};
use crate::text::{
    chars_eq, chars_of, dec_chars, hex_chars, parse_u32, parse_u32_spec, push_char, push_chars,
    push_decimal, split_whitespace, split_ws, string_from_utf8, string_of, trim_end_char,
    trim_end_matching, utf8_error_text, words_view,
};
pub use crate::command::GitCommand;
use crate::clock::{now, since_epoch, whole_seconds};
use crate::order::{stable_sorted_order, text_lt, tree_key};
use crate::zlib::{
    after_first_nul, compress, first_nul, inflate_parts, inflate_split, through_first_nul,
    zlib_compress,
};

verus! {

/// The repository directory.
pub const GIT_DIR: &'static str = ".git";

/// The object store directory.
pub const OBJECTS_DIR: &'static str = ".git/objects";

/// The refs directory.
pub const REFS_DIR: &'static str = ".git/refs";

/// The HEAD file.
pub const HEAD_FILE: &'static str = ".git/HEAD";

/// The initial contents of HEAD.
pub const HEAD_DEFAULT: &'static str = "ref: refs/heads/main\n";

/// The mode of a file in a tree.
pub const FILE_MODE: u32 = 100644;

/// The mode of a directory in a tree.
pub const DIR_MODE: u32 = 40000;

/// The ignore file, left out of trees.
pub const GITIGNORE_FILE: &'static str = ".gitignore";

/// Git repository interface.
pub struct GitRepository;

// ---------------------------------------------------------------------------
// Reading objects
// ---------------------------------------------------------------------------

/// The object type that a header word names.
pub open spec fn parse_kind(w: Seq<char>) -> Option<ObjectType> {
    if w == kind_name(ObjectType::Blob) {
        Some(ObjectType::Blob)
    } else if w == kind_name(ObjectType::Tree) {
        Some(ObjectType::Tree)
    } else if w == kind_name(ObjectType::Commit) {
        Some(ObjectType::Commit)
    } else {
        None
    }
}

/// The type that an object header names: the header, up to and including
/// its first zero byte, must be UTF-8 with at least two words once trailing
/// NULs are removed, the first naming the type.
pub open spec fn header_kind_spec(h: Seq<u8>) -> Result<ObjectType, GitErrorView> {
    if !valid_utf8(h) {
        Err(GitErrorView::Encoding(utf8_error_text(h)))
    } else {
        let words = split_ws(trim_end_char(decode_utf8(h), '\0'));
        if words.len() < 2 {
            Err(GitErrorView::Other("Invalid object header"@))
        } else {
            match parse_kind(words[0]) {
                None => Err(GitErrorView::Other("Unknown object type: "@ + words[0])),
                Some(t) => Ok(t),
            }
        }
    }
}

/// The result of reading a stored (compressed) object: the type that its
/// header names, and the rest as content.
pub open spec fn read_object_spec(stored: Seq<u8>) -> Result<GitObjectView, GitErrorView> {
    match inflate_split(stored).0 {
        None => Err(GitErrorView::Io),
        Some(h) => match header_kind_spec(h) {
            Err(e) => Err(e),
            Ok(t) => match inflate_split(stored).1 {
                None => Err(GitErrorView::Io),
                Some(body) => Ok(GitObjectView { obj_type: t, content: body }),
            },
        },
    }
}

/// The result of printing a stored object as text.
pub open spec fn cat_file_spec(stored: Seq<u8>) -> Result<Seq<char>, GitErrorView> {
    match read_object_spec(stored) {
        Err(e) => Err(e),
        Ok(o) => if valid_utf8(o.content) {
            Ok(decode_utf8(o.content))
        } else {
            Err(GitErrorView::Encoding(utf8_error_text(o.content)))
        },
    }
}

/// The type named by a header word.
fn kind_of(w: &Vec<char>) -> (t: Option<ObjectType>)
    ensures
        t == parse_kind(w@),
{
    let blob = chars_of(ObjectType::Blob.as_str());
    let tree = chars_of(ObjectType::Tree.as_str());
    let commit = chars_of(ObjectType::Commit.as_str());
    if chars_eq(w.as_slice(), blob.as_slice()) {
        Some(ObjectType::Blob)
    } else if chars_eq(w.as_slice(), tree.as_slice()) {
        Some(ObjectType::Tree)
    } else if chars_eq(w.as_slice(), commit.as_slice()) {
        Some(ObjectType::Commit)
    } else {
        None
    }
}

// ---------------------------------------------------------------------------
// Trees
// ---------------------------------------------------------------------------

/// The position of the first space in `s`, if there is one.
pub open spec fn first_space(s: Seq<char>) -> Option<nat>
    decreases s.len(),
{
    if s.len() == 0 {
        None
    } else if s[0] == ' ' {
        Some(0)
    } else {
        match first_space(s.drop_first()) {
            Some(i) => Some(i + 1),
            None => None,
        }
    }
}

/// `first_space` finds a space with no space before it.
proof fn lemma_first_space_at(s: Seq<char>, k: int)
    requires
        0 <= k < s.len(),
        s[k] == ' ',
        forall|j: int| 0 <= j < k ==> s[j] != ' ',
    ensures
        first_space(s) == Some(k as nat),
    decreases k,
{
    if k > 0 {
        assert forall|j: int| 0 <= j < k - 1 implies s.drop_first()[j] != ' ' by {
            assert(s.drop_first()[j] == s[j + 1]);
        }
        lemma_first_space_at(s.drop_first(), k - 1);
    }
}

/// `first_space` finds nothing in a text without spaces.
proof fn lemma_first_space_none(s: Seq<char>)
    requires
        forall|j: int| 0 <= j < s.len() ==> s[j] != ' ',
    ensures
        first_space(s) == None::<nat>,
    decreases s.len(),
{
    if s.len() > 0 {
        assert forall|j: int| 0 <= j < s.drop_first().len() implies s.drop_first()[j] != ' ' by {
            assert(s.drop_first()[j] == s[j + 1]);
        }
        lemma_first_space_none(s.drop_first());
    }
}

/// The position of the first space among `cs`.
fn find_space(cs: &[char]) -> (r: Option<usize>)
    ensures
        match r {
            Some(i) => first_space(cs@) == Some(i as nat) && i < cs@.len(),
            None => first_space(cs@) == None::<nat>,
        },
{
    let mut i: usize = 0;
    while i < cs.len()
        invariant
            i <= cs@.len(),
            forall|j: int| 0 <= j < i ==> cs@[j] != ' ',
        decreases cs.len() - i,
    {
        if cs[i] == ' ' {
            proof {
                lemma_first_space_at(cs@, i as int);
            }
            return Some(i);
        }
        i = i + 1;
    }
    proof {
        lemma_first_space_none(cs@);
    }
    None
}

/// The result of parsing tree content: a sequence of entries
/// `<mode> <name>\0<20-byte hash>`.
pub open spec fn parse_tree_spec(data: Seq<u8>) -> Result<Seq<TreeEntryView>, GitErrorView>
    decreases data.len(),
{
    if data.len() == 0 {
        Ok(Seq::empty())
    } else {
        match first_nul(data) {
            None => Err(GitErrorView::Other("Malformed tree entry"@)),
            Some(n) => {
                let header = data.take(n as int);
                if !valid_utf8(header) {
                    Err(GitErrorView::Encoding(utf8_error_text(header)))
                } else {
                    let text = decode_utf8(header);
                    match first_space(text) {
                        None => Err(GitErrorView::Other("Invalid tree entry header"@)),
                        Some(sp) => match parse_u32_spec(text.take(sp as int)) {
                            None => Err(GitErrorView::Other("Invalid mode"@)),
                            Some(mode) => if n + 21 > data.len() {
                                Err(GitErrorView::Other("Truncated SHA1 hash"@))
                            } else {
                                let e = TreeEntryView {
                                    mode,
                                    name: text.skip(sp as int + 1),
                                    hash: data.subrange(n as int + 1, n as int + 21),
                                };
                                match parse_tree_spec(data.skip(n as int + 21)) {
                                    Ok(rest) => Ok(seq![e] + rest),
                                    Err(err) => Err(err),
                                }
                            },
                        }
                    }
                }
            },
        }
    }
}

/// The abstract values of a sequence of tree entries.
pub open spec fn entries_view(v: Seq<TreeEntry>) -> Seq<TreeEntryView> {
    Seq::new(v.len(), |i: int| v[i]@)
}

/// `acc` followed by the entries of `r`, or the error of `r`.
pub open spec fn prepend_entries(
    acc: Seq<TreeEntryView>,
    r: Result<Seq<TreeEntryView>, GitErrorView>,
) -> Result<Seq<TreeEntryView>, GitErrorView> {
    match r {
        Ok(rest) => Ok(acc + rest),
        Err(e) => Err(e),
    }
}

/// The encoding of a sequence of tree entries, one after another.
pub open spec fn tree_bytes(entries: Seq<TreeEntryView>) -> Seq<u8>
    decreases entries.len(),
{
    if entries.len() == 0 {
        Seq::empty()
    } else {
        entry_bytes(entries[0]) + tree_bytes(entries.drop_first())
    }
}

/// One line of `ls-tree` output for an entry.
pub open spec fn ls_line(e: TreeEntryView, name_only: bool) -> Seq<char> {
    if name_only {
        e.name + seq!['\n']
    } else {
        dec_chars(e.mode as nat) + seq![' '] + e.name + seq!['\0'] + hex_chars(e.hash) + seq![
            '\n',
        ]
    }
}

/// The `ls-tree` output for a sequence of entries.
pub open spec fn ls_text(entries: Seq<TreeEntryView>, name_only: bool) -> Seq<char>
    decreases entries.len(),
{
    if entries.len() == 0 {
        Seq::empty()
    } else {
        ls_text(entries.drop_last(), name_only) + ls_line(entries.last(), name_only)
    }
}

/// The result of listing a stored tree object.
pub open spec fn ls_tree_spec(stored: Seq<u8>, name_only: bool) -> Result<Seq<char>, GitErrorView> {
    match read_object_spec(stored) {
        Err(e) => Err(e),
        Ok(o) => match parse_tree_spec(o.content) {
            Err(e) => Err(e),
            Ok(entries) => Ok(ls_text(entries, name_only)),
        },
    }
}


// ---------------------------------------------------------------------------
// Laws
// ---------------------------------------------------------------------------

/// A name that a tree entry can carry and be read back with: one without
/// NUL, which ends the entry header (spaces and other whitespace are kept).
pub open spec fn valid_entry_name(name: Seq<char>) -> bool {
    crate::text::no_nul_char(name)
}

/// A tree entry that reads back as itself: a valid name and a 20-byte hash.
pub open spec fn valid_entry(e: TreeEntryView) -> bool {
    valid_entry_name(e.name) && e.hash.len() == 20
}

/// The header of an entry splits at its first space into its mode digits
/// and its name.
proof fn lemma_entry_header_words(e: TreeEntryView)
    requires
        valid_entry(e),
    ensures
        first_space(entry_header(e)) == Some(dec_chars(e.mode as nat).len()),
        entry_header(e).take(dec_chars(e.mode as nat).len() as int) == dec_chars(e.mode as nat),
        entry_header(e).skip(dec_chars(e.mode as nat).len() as int + 1) == e.name,
        crate::text::no_nul_char(entry_header(e)),
        parse_u32_spec(dec_chars(e.mode as nat)) == Some(e.mode),
{
    let d = dec_chars(e.mode as nat);
    crate::text::lemma_dec_chars(e.mode as nat);
    let h = entry_header(e);
    assert(h[d.len() as int] == ' ');
    assert forall|j: int| 0 <= j < d.len() implies h[j] != ' ' by {
        assert(h[j] == d[j]);
        assert(crate::text::is_digit(d[j]));
    }
    lemma_first_space_at(h, d.len() as int);
    assert(h.take(d.len() as int) =~= d);
    assert(h.skip(d.len() as int + 1) =~= e.name);
    assert forall|i: int| 0 <= i < h.len() implies #[trigger] h[i] != '\0' by {
        if i < d.len() {
            assert(h[i] == d[i]);
        } else if i > d.len() {
            assert(h[i] == e.name[i - d.len() - 1]);
        }
    }
    assert(crate::text::is_digit(d[0]));
    assert(crate::text::unsigned_digits(d) == d);
}

/// Reading the encoding of a tree gives back its entries: what `write-tree`
/// stores, `ls-tree` lists.
pub proof fn lemma_tree_roundtrip(entries: Seq<TreeEntryView>)
    requires
        forall|i: int| 0 <= i < entries.len() ==> valid_entry(#[trigger] entries[i]),
    ensures
        parse_tree_spec(tree_bytes(entries)) == Ok::<Seq<TreeEntryView>, GitErrorView>(entries),
    decreases entries.len(),
{
    if entries.len() == 0 {
        assert(tree_bytes(entries) =~= Seq::<u8>::empty());
        assert(entries =~= Seq::<TreeEntryView>::empty());
    } else {
        let e = entries[0];
        let rest = entries.drop_first();
        assert(valid_entry(e));
        assert forall|i: int| 0 <= i < rest.len() implies valid_entry(#[trigger] rest[i]) by {
            assert(rest[i] == entries[i + 1]);
        }
        lemma_tree_roundtrip(rest);
        let h = entry_header(e);
        let eh = encode_utf8(h);
        let data = tree_bytes(entries);
        lemma_entry_header_words(e);
        crate::text::lemma_encode_no_zero(h);
        assert(data == eh + seq![0u8] + e.hash + tree_bytes(rest));
        let n = eh.len();
        assert(data[n as int] == 0);
        assert forall|j: int| 0 <= j < n implies data[j] != 0 by {
            assert(data[j] == eh[j]);
        }
        crate::text::lemma_first_nul_at(data, n as int);
        assert(data.take(n as int) =~= eh);
        vstd::utf8::encode_utf8_valid_utf8(h);
        vstd::utf8::encode_utf8_decode_utf8(h);
        assert(data.subrange(n as int + 1, n as int + 21) =~= e.hash);
        assert(data.skip(n as int + 21) =~= tree_bytes(rest));
        assert(seq![e] + rest =~= entries);
        let d = dec_chars(e.mode as nat);
        assert(decode_utf8(data.take(n as int)) == h);
        assert(data.len() > 0);
        let ev = TreeEntryView {
            mode: e.mode,
            name: h.skip(d.len() as int + 1),
            hash: data.subrange(n as int + 1, n as int + 21),
        };
        assert(ev == e);
        assert(parse_tree_spec(data) == Ok::<Seq<TreeEntryView>, GitErrorView>(seq![e] + rest));
    }
}

/// Whether the compressed `stored` decompresses to `bytes`, read as a header
/// through the first zero byte and then the rest.
pub open spec fn decompresses_to(stored: Seq<u8>, bytes: Seq<u8>) -> bool {
    inflate_split(stored) == (Some(through_first_nul(bytes)), Some(after_first_nul(bytes)))
}

/// The header text of an object has no NUL, and its words are the type name
/// and the decimal length.
proof fn lemma_header_text(t: ObjectType, len: nat)
    ensures
        crate::text::no_nul_char(header_text(t, len)),
        split_ws(header_text(t, len)) == seq![kind_name(t), dec_chars(len)],
        header_text(t, len).last() != '\0',
        parse_kind(kind_name(t)) == Some(t),
{
    let k = kind_name(t);
    let d = dec_chars(len);
    crate::text::lemma_dec_chars(len);
    assert(crate::text::no_ws(k));
    assert(crate::text::no_nul_char(k));
    crate::text::lemma_split_ws_sep(k, ' ', d);
    crate::text::lemma_split_ws_word(k);
    crate::text::lemma_split_ws_word(d);
    assert(seq![k] + seq![d] =~= seq![k, d]);
    let h = header_text(t, len);
    assert forall|i: int| 0 <= i < h.len() implies #[trigger] h[i] != '\0' by {
        if i < k.len() {
            assert(h[i] == k[i]);
        } else if i > k.len() {
            assert(h[i] == d[i - k.len() - 1]);
        }
    }
    assert(h.last() == d.last());
    assert(d[d.len() - 1] != '\0');
}

/// Reading back a stored object gives the object that was stored: what
/// `hash-object -w` writes, `cat-file` reads.
pub proof fn lemma_object_roundtrip(o: GitObjectView, stored: Seq<u8>)
    requires
        decompresses_to(stored, stored_form(o)),
    ensures
        read_object_spec(stored) == Ok::<GitObjectView, GitErrorView>(o),
{
    let ht = header_text(o.obj_type, o.content.len());
    let eh = encode_utf8(ht);
    let sf = stored_form(o);
    lemma_header_text(o.obj_type, o.content.len());
    crate::text::lemma_encode_no_zero(ht);
    let n = eh.len();
    assert(sf[n as int] == 0);
    assert forall|j: int| 0 <= j < n implies sf[j] != 0 by {
        assert(sf[j] == eh[j]);
    }
    crate::text::lemma_first_nul_at(sf, n as int);
    let with_nul = ht + seq!['\0'];
    crate::text::lemma_encode_concat(ht, seq!['\0']);
    assert(encode_utf8(seq!['\0']) =~= seq![0u8]) by {
        let z = seq!['\0'];
        assert(z[0] as u32 == 0);
        assert((0u32 & 0x7F) as u8 == 0u8) by (bit_vector);
        assert(vstd::utf8::leading_byte_width_1(0) == 0u8);
        assert(z.drop_first() =~= Seq::<char>::empty());
        assert(vstd::utf8::encode_scalar(0) =~= seq![0u8]);
        assert(encode_utf8(z.drop_first()) =~= Seq::<u8>::empty());
        assert(encode_utf8(z) == vstd::utf8::encode_scalar(z[0] as u32) + encode_utf8(
            z.drop_first(),
        ));
    }
    assert(through_first_nul(sf) =~= encode_utf8(with_nul));
    vstd::utf8::encode_utf8_valid_utf8(with_nul);
    vstd::utf8::encode_utf8_decode_utf8(with_nul);
    crate::text::lemma_trim_appended_nul(ht);
    assert(after_first_nul(sf) =~= o.content);
}

/// Appending an entry appends its encoding.
proof fn lemma_tree_bytes_push(s: Seq<TreeEntryView>, e: TreeEntryView)
    ensures
        tree_bytes(s.push(e)) == tree_bytes(s) + entry_bytes(e),
    decreases s.len(),
{
    if s.len() == 0 {
        assert(s.push(e).drop_first() =~= Seq::<TreeEntryView>::empty());
        assert(tree_bytes(Seq::<TreeEntryView>::empty()) =~= Seq::<u8>::empty());
        assert(tree_bytes(s.push(e)) =~= tree_bytes(s) + entry_bytes(e));
    } else {
        lemma_tree_bytes_push(s.drop_first(), e);
        assert(s.push(e).drop_first() =~= s.drop_first().push(e));
        assert(s.push(e)[0] == s[0]);
        assert(tree_bytes(s.push(e)) =~= tree_bytes(s) + entry_bytes(e));
    }
}

/// Listing a tree object that was stored gives one line per entry that the
/// tree was written with.
pub proof fn lemma_ls_tree_after_write(entries: Seq<TreeEntryView>, stored: Seq<u8>, name_only: bool)
    requires
        forall|i: int| 0 <= i < entries.len() ==> valid_entry(#[trigger] entries[i]),
        decompresses_to(
            stored,
            stored_form(GitObjectView { obj_type: ObjectType::Tree, content: tree_bytes(entries) }),
        ),
    ensures
        ls_tree_spec(stored, name_only) == Ok::<Seq<char>, GitErrorView>(ls_text(entries, name_only)),
{
    lemma_object_roundtrip(
        GitObjectView { obj_type: ObjectType::Tree, content: tree_bytes(entries) },
        stored,
    );
    lemma_tree_roundtrip(entries);
}

/// What `ls-tree --name-only` prints for names: each followed by a newline.
pub open spec fn name_lines(names: Seq<Seq<char>>) -> Seq<char>
    decreases names.len(),
{
    if names.len() == 0 {
        Seq::empty()
    } else {
        name_lines(names.drop_last()) + names.last() + seq!['\n']
    }
}

/// The names of tree entries, in order.
pub open spec fn entry_names(entries: Seq<TreeEntryView>) -> Seq<Seq<char>> {
    Seq::new(entries.len(), |i: int| entries[i].name)
}

/// Listing entries by name prints their names, one per line.
proof fn lemma_ls_names(entries: Seq<TreeEntryView>)
    ensures
        ls_text(entries, true) == name_lines(entry_names(entries)),
    decreases entries.len(),
{
    if entries.len() > 0 {
        lemma_ls_names(entries.drop_last());
        assert(entry_names(entries.drop_last()) =~= entry_names(entries).drop_last());
    }
}

/// Listing by name a tree that `write-tree` stored for a directory gives the
/// names of its entries, one per line, in git's order: the entries, given
/// as (name, is a directory), were put into the tree sorted as
/// `sorted_order` sorts them.
pub proof fn lemma_ls_tree_lists_sorted_names(
    dir: Seq<(Seq<char>, bool)>,
    order: Seq<usize>,
    entries: Seq<TreeEntryView>,
    stored: Seq<u8>,
)
    requires
        stable_sorted_order(Seq::new(dir.len(), |i: int| tree_key(dir[i].0, dir[i].1)), order),
        entries.len() == order.len(),
        forall|i: int|
            0 <= i < entries.len() ==> #[trigger] entries[i].name == dir[order[i] as int].0
                && valid_entry(entries[i]),
        decompresses_to(
            stored,
            stored_form(GitObjectView { obj_type: ObjectType::Tree, content: tree_bytes(entries) }),
        ),
    ensures
        ls_tree_spec(stored, true) == Ok::<Seq<char>, GitErrorView>(
            name_lines(Seq::new(order.len(), |i: int| dir[order[i] as int].0)),
        ),
        forall|i: int, j: int|
            #![trigger order[i], order[j]]
            0 <= i < j < order.len() ==> !text_lt(
                tree_key(dir[order[j] as int].0, dir[order[j] as int].1),
                tree_key(dir[order[i] as int].0, dir[order[i] as int].1),
            ),
{
    let keys = Seq::new(dir.len(), |i: int| tree_key(dir[i].0, dir[i].1));
    assert forall|i: int| 0 <= i < entries.len() implies valid_entry(#[trigger] entries[i]) by {
        assert(entries[i].name == dir[order[i] as int].0 && valid_entry(entries[i]));
    }
    lemma_ls_tree_after_write(entries, stored, true);
    lemma_ls_names(entries);
    assert(entry_names(entries) =~= Seq::new(order.len(), |i: int| dir[order[i] as int].0));
    assert forall|i: int, j: int|
        #![trigger order[i], order[j]]
        0 <= i < j < order.len() implies !text_lt(
            tree_key(dir[order[j] as int].0, dir[order[j] as int].1),
            tree_key(dir[order[i] as int].0, dir[order[i] as int].1),
        ) by {
        assert(!text_lt(keys[order[j] as int], keys[order[i] as int]));
    }
}

/// A full `ls-tree` line, appended after the lines before it, shows the
/// entry's mode in decimal, a space, its name, a NUL, then its hash as 40
/// lower-case hexadecimal digits, byte by byte in stored order with the high
/// four bits first (as `TreeEntry::hash_hex` renders it), and a newline.
pub proof fn lemma_ls_full_line(entries: Seq<TreeEntryView>, e: TreeEntryView)
    requires
        e.hash.len() == 20,
    ensures
        ({
            let before = ls_text(entries, false);
            let t = ls_text(entries.push(e), false);
            let p = (before.len() + dec_chars(e.mode as nat).len() + e.name.len() + 2) as int;
            &&& t.len() == p + 41
            &&& t.take(before.len() as int) == before
            &&& t.subrange(before.len() as int, p - 1) == dec_chars(e.mode as nat) + seq![' ']
                + e.name
            &&& t[p - 1] == '\0'
            &&& t[p + 40] == '\n'
            &&& forall|j: int| 0 <= j < 40 ==> crate::text::is_lower_hex(#[trigger] t[p + j])
            &&& forall|i: int|
                0 <= i < 20 ==> crate::text::hex_char_value(#[trigger] t[p + 2 * i]) * 16
                    + crate::text::hex_char_value(t[p + 2 * i + 1]) == e.hash[i]
        }),
{
    let before = ls_text(entries, false);
    let all = entries.push(e);
    assert(all.drop_last() =~= entries);
    assert(all.last() == e);
    let t = ls_text(all, false);
    let head = dec_chars(e.mode as nat) + seq![' '] + e.name;
    let h = hex_chars(e.hash);
    crate::text::lemma_hex_chars_shape(e.hash);
    crate::text::lemma_hex_chars_values(e.hash);
    assert(t == before + (head + seq!['\0'] + h + seq!['\n']));
    let p = (before.len() + head.len() + 1) as int;
    assert(t.take(before.len() as int) =~= before);
    assert(t.subrange(before.len() as int, p - 1) =~= head);
    assert forall|j: int| 0 <= j < 40 implies crate::text::is_lower_hex(#[trigger] t[p + j]) by {
        assert(t[p + j] == h[j]);
    }
    assert forall|i: int| 0 <= i < 20 implies crate::text::hex_char_value(#[trigger] t[p + 2 * i])
        * 16 + crate::text::hex_char_value(t[p + 2 * i + 1]) == e.hash[i] by {
        assert(t[p + 2 * i] == h[2 * i]);
        assert(t[p + 2 * i + 1] == h[2 * i + 1]);
        let b = e.hash[i];
        assert(b == (b / 16) * 16 + b % 16);
    }
}

/// `cat-file` prints the content of any stored object, whatever its type:
/// an object that reads back with UTF-8 content is printed as that text, and
/// one whose content is not UTF-8 is refused with the encoding error.
pub proof fn lemma_cat_file_prints_content(stored: Seq<u8>, o: GitObjectView)
    requires
        read_object_spec(stored) == Ok::<GitObjectView, GitErrorView>(o),
    ensures
        valid_utf8(o.content) ==> cat_file_spec(stored) == Ok::<Seq<char>, GitErrorView>(
            decode_utf8(o.content),
        ),
        !valid_utf8(o.content) ==> cat_file_spec(stored) == Err::<Seq<char>, GitErrorView>(
            GitErrorView::Encoding(utf8_error_text(o.content)),
        ),
{
}

/// `cat-file` on what was stored for an object of any type, blob, tree or
/// commit, prints the object's content when it is UTF-8 text: a commit that
/// `commit-tree` stored reads back as its text.
pub proof fn lemma_cat_file_after_write(o: GitObjectView, stored: Seq<u8>)
    requires
        decompresses_to(stored, stored_form(o)),
        valid_utf8(o.content),
    ensures
        cat_file_spec(stored) == Ok::<Seq<char>, GitErrorView>(decode_utf8(o.content)),
{
    lemma_object_roundtrip(o, stored);
    lemma_cat_file_prints_content(stored, o);
}

/// Only `.git` and `.gitignore` are left out of a tree: every other name,
/// `.github`, `.gitattributes` and `.gitmodules` among them, goes in.
pub proof fn lemma_skipped_entries(name: Seq<char>)
    ensures
        skipped_entry(name) <==> (name == seq!['.', 'g', 'i', 't'] || name == seq![
            '.',
            'g',
            'i',
            't',
            'i',
            'g',
            'n',
            'o',
            'r',
            'e',
        ]),
{
    reveal_strlit(".git");
    reveal_strlit(".gitignore");
    assert(GIT_DIR@ =~= seq!['.', 'g', 'i', 't']);
    assert(GITIGNORE_FILE@ =~= seq!['.', 'g', 'i', 't', 'i', 'g', 'n', 'o', 'r', 'e']);
}

/// The path of the loose object whose hash is written in the UTF-8 bytes
/// `hash`: `.git/objects/<first two bytes>/<the rest>`.
pub open spec fn object_path_spec(hash: Seq<u8>) -> Seq<char> {
    OBJECTS_DIR@ + seq!['/'] + decode_utf8(hash.take(2)) + seq!['/'] + decode_utf8(hash.skip(2))
}

/// The first bytes of the encoding of ASCII text encode its first characters.
proof fn lemma_ascii_prefix(h: Seq<char>, k: int)
    requires
        vstd::utf8::is_ascii_chars(h),
        0 <= k <= h.len(),
    ensures
        encode_utf8(h).take(k) == encode_utf8(h.take(k)),
        encode_utf8(h).skip(k) == encode_utf8(h.skip(k)),
{
    assert(h =~= h.take(k) + h.skip(k));
    crate::text::lemma_encode_concat(h.take(k), h.skip(k));
    assert(vstd::utf8::is_ascii_chars(h.take(k))) by {
        assert forall|i| 0 <= i < h.take(k).len() implies '\0' <= #[trigger] h.take(k)[i]
            <= '\u{7f}' by {
            assert(h.take(k)[i] == h[i]);
        }
    }
    vstd::utf8::is_ascii_chars_encode_utf8(h.take(k));
    assert(encode_utf8(h).take(k) =~= encode_utf8(h.take(k)));
    assert(encode_utf8(h).skip(k) =~= encode_utf8(h.skip(k)));
}

/// The signature line of the default identity at a given time:
/// `John Doe <john@example.com> <timestamp> +0000`.
pub open spec fn signature(timestamp: u64) -> Seq<char> {
    DEFAULT_AUTHOR@ + seq![' ', '<'] + DEFAULT_EMAIL@ + seq!['>', ' '] + dec_chars(timestamp as nat)
        + seq![' '] + DEFAULT_TIMEZONE@
}

/// The optional parent of a commit, by its characters.
pub open spec fn parent_chars(p: Option<&str>) -> Option<Seq<char>> {
    match p {
        Some(s) => Some(s@),
        None => None,
    }
}

/// The commit object for a tree, an optional parent and a message, signed
/// by the default identity as author and committer at `timestamp`.
pub open spec fn commit_view(
    tree: Seq<char>,
    parent: Option<Seq<char>>,
    message: Seq<char>,
    timestamp: u64,
) -> GitObjectView {
    GitObjectView {
        obj_type: ObjectType::Commit,
        content: encode_utf8(
            commit_text(tree, parent, signature(timestamp), signature(timestamp), message),
        ),
    }
}

/// Whether a directory entry is left out of trees.
pub open spec fn skipped_entry(name: Seq<char>) -> bool {
    name == GIT_DIR@ || name == GITIGNORE_FILE@
}

impl GitRepository {
    /// The path of the loose object with the given hash. Fails when the hash
    /// is shorter than two bytes.
    pub fn object_path(hash: &str) -> (r: Result<String, GitError>)
        requires
            hash.len() >= 2 ==> is_char_boundary(hash.spec_bytes(), 2),
        ensures
            hash.len() < 2 <==> r is Err,
            r matches Err(e) ==> e@ == GitErrorView::InvalidHash(hash@),
            r matches Ok(p) ==> p@ == object_path_spec(hash.spec_bytes()),
            r matches Ok(p) ==> vstd::utf8::is_ascii_chars(hash@) ==> p@ == OBJECTS_DIR@ + seq![
                '/',
            ] + hash@.take(2) + seq!['/'] + hash@.skip(2),
    {
        if hash.len() < 2 {
            return Err(GitError::InvalidHash(hash.to_owned()));
        }
        let (folder, rest) = hash.split_at(2);
        let mut path = String::new();
        path.append(OBJECTS_DIR);
        push_char(&mut path, '/');
        path.append(folder);
        push_char(&mut path, '/');
        path.append(rest);
        proof {
            vstd::utf8::encode_utf8_decode_utf8(folder@);
            vstd::utf8::encode_utf8_decode_utf8(rest@);
            assert(path@ =~= object_path_spec(hash.spec_bytes()));
            if vstd::utf8::is_ascii_chars(hash@) {
                vstd::utf8::is_ascii_chars_encode_utf8(hash@);
                lemma_ascii_prefix(hash@, 2);
                vstd::utf8::encode_utf8_decode_utf8(hash@.take(2));
                vstd::utf8::encode_utf8_decode_utf8(hash@.skip(2));
            }
        }
        Ok(path)
    }

    /// What storing an object writes: the path of its loose object file and
    /// the compressed stored form. It always succeeds; reading those bytes
    /// back gives the object.
    pub fn loose_object(obj: &GitObject) -> (r: Result<(String, Vec<u8>), GitError>)
        ensures
            r matches Ok((path, bytes)) && {
                &&& path@ == OBJECTS_DIR@ + seq!['/'] + hex_id(obj@).take(2) + seq!['/']
                    + hex_id(obj@).skip(2)
                &&& bytes@ == zlib_compress(stored_form(obj@))
                &&& decompresses_to(bytes@, stored_form(obj@))
                &&& read_object_spec(bytes@) == Ok::<GitObjectView, GitErrorView>(obj@)
            },
    {
        let hex = obj.hash_hex();
        proof {
            crate::text::lemma_hex_chars_shape(object_id(obj@));
            assert(vstd::utf8::is_ascii_chars(hex@)) by {
                assert forall|i| 0 <= i < hex@.len() implies '\0' <= #[trigger] hex@[i]
                    <= '\u{7f}' by {
                    assert(crate::text::is_lower_hex(hex@[i]));
                }
            }
            vstd::utf8::is_ascii_chars_encode_utf8(hex@);
            vstd::utf8::encode_utf8_valid_utf8(hex@);
            let b = encode_utf8(hex@);
            assert(b[2] == hex@[2] as u8);
            assert(crate::text::is_lower_hex(hex@[2]));
            assert(!vstd::utf8::is_continuation_byte(b[2]));
            vstd::utf8::is_char_boundary_iff_not_is_continuation_byte(b, 2);
        }
        let path = match Self::object_path(hex.as_str()) {
            Ok(p) => p,
            Err(e) => {
                return Err(e);
            },
        };
        let stored = obj.stored_form();
        match compress(stored.as_slice()) {
            Err(e) => Err(GitError::IoError(e)),
            Ok(bytes) => {
                proof {
                    lemma_object_roundtrip(obj@, bytes@);
                }
                Ok((path, bytes))
            },
        }
    }

    /// The tree object holding the given entries, in order.
    pub fn write_tree(entries: &[TreeEntry]) -> (o: GitObject)
        ensures
            o@ == (GitObjectView {
                obj_type: ObjectType::Tree,
                content: tree_bytes(entries_view(entries@)),
            }),
    {
        let ghost ev = entries_view(entries@);
        let mut content: Vec<u8> = Vec::new();
        let mut i: usize = 0;
        assert(ev.take(0) =~= Seq::<TreeEntryView>::empty());
        assert(tree_bytes(ev.take(0)) =~= Seq::<u8>::empty());
        while i < entries.len()
            invariant
                i <= entries@.len(),
                ev == entries_view(entries@),
                content@ == tree_bytes(ev.take(i as int)),
            decreases entries.len() - i,
        {
            let bytes = entries[i].to_bytes();
            crate::text::push_bytes(&mut content, bytes.as_slice());
            proof {
                lemma_tree_bytes_push(ev.take(i as int), ev[i as int]);
                assert(ev.take(i + 1) =~= ev.take(i as int).push(ev[i as int]));
            }
            i = i + 1;
        }
        assert(ev.take(entries@.len() as int) =~= ev);
        GitObject::new(ObjectType::Tree, content)
    }

    /// The commit object for a tree, an optional parent and a message, with
    /// the default author and committer at the given time (seconds since the
    /// Unix epoch).
    pub fn commit_object(
        tree_sha: &str,
        parent_sha: Option<&str>,
        message: &str,
        timestamp: u64,
    ) -> (o: GitObject)
        ensures
            o@ == commit_view(tree_sha@, parent_chars(parent_sha), message@, timestamp),
    {
        let mut author = String::new();
        author.append(DEFAULT_AUTHOR);
        push_char(&mut author, ' ');
        push_char(&mut author, '<');
        author.append(DEFAULT_EMAIL);
        push_char(&mut author, '>');
        push_char(&mut author, ' ');
        push_decimal(&mut author, timestamp);
        push_char(&mut author, ' ');
        author.append(DEFAULT_TIMEZONE);
        assert(author@ =~= signature(timestamp));
        let committer = author.clone();
        let parent = match parent_sha {
            Some(p) => Some(p.to_owned()),
            None => None,
        };
        let metadata = CommitMetadata::new(
            tree_sha.to_owned(),
            parent,
            author,
            committer,
            message.to_owned(),
        );
        let content = metadata.to_bytes();
        GitObject::new(ObjectType::Commit, content)
    }

    /// Create a commit object stamped with the current time. Fails when the
    /// system clock is set before the Unix epoch.
    pub fn commit_tree(tree_sha: &str, parent_sha: Option<&str>, message: &str) -> (r: Result<
        GitObject,
        GitError,
    >)
        ensures
            r matches Err(e) ==> e@ == GitErrorView::Other("Failed to get system time"@),
            r matches Ok(o) ==> exists|timestamp: u64|
                o@ == #[trigger] commit_view(
                    tree_sha@,
                    parent_chars(parent_sha),
                    message@,
                    timestamp,
                ),
    {
        let now = now();
        let since = match since_epoch(&now) {
            Some(d) => d,
            None => {
                return Err(GitError::other("Failed to get system time"));
            },
        };
        let timestamp = whole_seconds(&since);
        let o = Self::commit_object(tree_sha, parent_sha, message, timestamp);
        assert(o@ == commit_view(tree_sha@, parent_chars(parent_sha), message@, timestamp));
        Ok(o)
    }

    /// Whether a directory entry with this name is left out of trees
    /// (`.git` and `.gitignore`).
    pub fn is_skipped_entry(name: &str) -> (b: bool)
        ensures
            b == skipped_entry(name@),
    {
        let cs = chars_of(name);
        let git = chars_of(GIT_DIR);
        let ignore = chars_of(GITIGNORE_FILE);
        chars_eq(cs.as_slice(), git.as_slice()) || chars_eq(cs.as_slice(), ignore.as_slice())
    }

    /// Read a git object from its stored (compressed) bytes.
    pub fn read_object(stored: &[u8]) -> (r: Result<GitObject, GitError>)
        ensures
            match r {
                Ok(o) => read_object_spec(stored@) == Ok::<GitObjectView, GitErrorView>(o@),
                Err(e) => read_object_spec(stored@) == Err::<GitObjectView, GitErrorView>(e@),
            },
    {
        let parts = inflate_parts(stored);
        let header = match parts.header {
            Err(e) => {
                return Err(GitError::IoError(e));
            },
            Ok(h) => h,
        };
        let obj_type = Self::header_kind(header)?;
        match parts.body.unwrap() {
            Err(e) => Err(GitError::IoError(e)),
            Ok(content) => Ok(GitObject::new(obj_type, content)),
        }
    }

    /// The type that an object header (the bytes through its first zero
    /// byte) names.
    pub fn header_kind(header: Vec<u8>) -> (r: Result<ObjectType, GitError>)
        ensures
            match r {
                Ok(t) => header_kind_spec(header@) == Ok::<ObjectType, GitErrorView>(t),
                Err(e) => header_kind_spec(header@) == Err::<ObjectType, GitErrorView>(e@),
            },
    {
        let header_str = match string_from_utf8(header) {
            Err(m) => {
                return Err(GitError::EncodingError(m));
            },
            Ok(s) => s,
        };
        let cs = chars_of(header_str.as_str());
        let trimmed = trim_end_matching(cs.as_slice(), '\0');
        let words = split_whitespace(trimmed.as_slice());
        if words.len() < 2 {
            return Err(GitError::other("Invalid object header"));
        }
        assert(words_view(words@)[0] == words@[0]@);
        match kind_of(&words[0]) {
            Some(t) => Ok(t),
            None => {
                let mut msg = String::new();
                msg.append("Unknown object type: ");
                push_chars(&mut msg, words[0].as_slice());
                Err(GitError::Other(msg))
            },
        }
    }

    /// Read a stored object and return its content as text.
    pub fn cat_file(stored: &[u8]) -> (r: Result<String, GitError>)
        ensures
            match r {
                Ok(s) => cat_file_spec(stored@) == Ok::<Seq<char>, GitErrorView>(s@),
                Err(e) => cat_file_spec(stored@) == Err::<Seq<char>, GitErrorView>(e@),
            },
    {
        let obj = Self::read_object(stored)?;
        match string_from_utf8(obj.content) {
            Ok(s) => Ok(s),
            Err(m) => Err(GitError::EncodingError(m)),
        }
    }

    /// Parse tree entries from raw bytes.
    pub fn parse_tree_entries(data: &[u8]) -> (r: Result<Vec<TreeEntry>, GitError>)
        ensures
            match r {
                Ok(v) => parse_tree_spec(data@) == Ok::<Seq<TreeEntryView>, GitErrorView>(
                    entries_view(v@),
                ),
                Err(e) => parse_tree_spec(data@) == Err::<Seq<TreeEntryView>, GitErrorView>(e@),
            },
    {
        let mut entries: Vec<TreeEntry> = Vec::new();
        let mut cursor: usize = 0;
        assert(data@.skip(0) =~= data@);
        assert(entries_view(entries@) =~= Seq::<TreeEntryView>::empty());
        while cursor < data.len()
            invariant
                cursor <= data@.len(),
                parse_tree_spec(data@) == prepend_entries(
                    entries_view(entries@),
                    parse_tree_spec(data@.skip(cursor as int)),
                ),
            decreases data.len() - cursor,
        {
            let ghost rest = data@.skip(cursor as int);
            let mut j: usize = cursor;
            while j < data.len() && data[j] != 0
                invariant
                    cursor <= j <= data@.len(),
                    forall|k: int| cursor <= k < j ==> data@[k] != 0,
                decreases data.len() - j,
            {
                j = j + 1;
            }
            if j == data.len() {
                proof {
                    assert forall|k: int| 0 <= k < rest.len() implies #[trigger] rest[k] != 0 by {
                        assert(rest[k] == data@[cursor + k]);
                    }
                    crate::text::lemma_first_nul_none(rest);
                }
                return Err(GitError::other("Malformed tree entry"));
            }
            proof {
                assert forall|k: int| 0 <= k < j - cursor implies rest[k] != 0 by {
                    assert(rest[k] == data@[cursor + k]);
                }
                assert(rest[j - cursor] == data@[j as int]);
                crate::text::lemma_first_nul_at(rest, j - cursor);
            }
            let mut header_bytes: Vec<u8> = Vec::new();
            crate::text::push_bytes(&mut header_bytes, &data[cursor..j]);
            assert(header_bytes@ =~= rest.take(j - cursor));
            let header = match string_from_utf8(header_bytes) {
                Err(m) => {
                    return Err(GitError::EncodingError(m));
                },
                Ok(s) => s,
            };
            let cs = chars_of(header.as_str());
            let sp = match find_space(cs.as_slice()) {
                Some(i) => i,
                None => {
                    return Err(GitError::other("Invalid tree entry header"));
                },
            };
            assert(sp < cs@.len());
            let after: usize = sp + 1;
            let mode_chars = &cs.as_slice()[0..sp];
            let name_chars = &cs.as_slice()[after..cs.len()];
            assert(mode_chars@ =~= cs@.take(sp as int));
            assert(name_chars@ =~= cs@.skip(sp + 1));
            let mode = match parse_u32(mode_chars) {
                Some(m) => m,
                None => {
                    return Err(GitError::other("Invalid mode"));
                },
            };
            let name = string_of(name_chars);
            let start = j + 1;
            if data.len() - start < 20 {
                return Err(GitError::other("Truncated SHA1 hash"));
            }
            let mut hash = [0u8; 20];
            let mut k: usize = 0;
            while k < 20
                invariant
                    k <= 20,
                    start + 20 <= data.len(),
                    forall|m: int| 0 <= m < k ==> hash@[m] == data@[start + m],
                decreases 20 - k,
            {
                let b = data[start + k];
                hash[k] = b;
                k = k + 1;
            }
            assert(hash@ =~= rest.subrange((j - cursor) + 1, (j - cursor) + 21));
            let entry = TreeEntry::new(mode, name, hash);
            let ghost before = entries_view(entries@);
            let ghost ev = entry@;
            entries.push(entry);
            assert(entries_view(entries@) =~= before + seq![ev]);
            proof {
                assert(rest.skip((j - cursor) + 21) =~= data@.skip(start + 20));
                match parse_tree_spec(data@.skip(start + 20)) {
                    Ok(more) => {
                        assert(before + (seq![ev] + more) =~= (before + seq![ev]) + more);
                    },
                    Err(_) => {},
                }
            }
            cursor = start + 20;
        }
        assert(data@.skip(cursor as int) =~= Seq::<u8>::empty());
        assert(entries_view(entries@) + Seq::<TreeEntryView>::empty() =~= entries_view(entries@));
        Ok(entries)
    }

    /// List tree contents of a stored tree object.
    pub fn ls_tree(stored: &[u8], name_only: bool) -> (r: Result<String, GitError>)
        ensures
            match r {
                Ok(s) => ls_tree_spec(stored@, name_only) == Ok::<Seq<char>, GitErrorView>(s@),
                Err(e) => ls_tree_spec(stored@, name_only) == Err::<Seq<char>, GitErrorView>(e@),
            },
    {
        let obj = Self::read_object(stored)?;
        let entries = Self::parse_tree_entries(obj.content.as_slice())?;
        let ghost ev = entries_view(entries@);
        let mut output = String::new();
        let mut i: usize = 0;
        while i < entries.len()
            invariant
                i <= entries@.len(),
                ev == entries_view(entries@),
                output@ == ls_text(ev.take(i as int), name_only),
            decreases entries.len() - i,
        {
            let entry = &entries[i];
            if name_only {
                output.append(entry.name.as_str());
                push_char(&mut output, '\n');
            } else {
                push_decimal(&mut output, entry.mode as u64);
                push_char(&mut output, ' ');
                output.append(entry.name.as_str());
                push_char(&mut output, '\0');
                let hex = entry.hash_hex();
                output.append(hex.as_str());
                push_char(&mut output, '\n');
            }
            assert(ev.take(i + 1).drop_last() =~= ev.take(i as int));
            assert(ev.take(i + 1).last() == entry@);
            i = i + 1;
            assert(output@ =~= ls_text(ev.take(i as int), name_only));
        }
        assert(ev.take(entries@.len() as int) =~= ev);
        Ok(output)
    }
}

} // verus!
