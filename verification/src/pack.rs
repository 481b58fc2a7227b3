//! Git packfile format parsing.

use vstd::prelude::*;
use vstd::string::StringExecFns;

use crate::error::{GitError, GitErrorView};
use crate::object::{GitObject, GitObjectView, ObjectType};
use crate::text::{dec_chars, push_decimal};
use crate::zlib::{inflate_front, inflate_prefix, stream_of};

verus! {

/// The big-endian value of four bytes.
pub open spec fn be_u32(b0: u8, b1: u8, b2: u8, b3: u8) -> nat {
    b0 as nat * 0x100_0000 + b1 as nat * 0x1_0000 + b2 as nat * 0x100 + b3 as nat
}

/// The object type that a packfile type number stands for.
pub open spec fn pack_object_type(n: nat) -> Option<ObjectType> {
    if n == 1 {
        Some(ObjectType::Commit)
    } else if n == 2 {
        Some(ObjectType::Tree)
    } else if n == 3 {
        Some(ObjectType::Blob)
    } else {
        None
    }
}

/// The position just past the variable-length size of an object header: while
/// the last byte read had its top bit set and input remains, one more byte
/// belongs to the size.
pub open spec fn after_size(data: Seq<u8>, pos: int, more: bool) -> int
    decreases data.len() - pos,
{
    if more && 0 <= pos < data.len() {
        after_size(data, pos + 1, data[pos] >= 128)
    } else {
        pos
    }
}

/// The result of parsing one packed object that starts at `pos`: the object
/// and the position just past its zlib stream, which the slice decoder stops
/// at.
pub open spec fn parse_object_spec(data: Seq<u8>, pos: int) -> Result<
    (GitObjectView, int),
    GitErrorView,
> {
    if pos < 0 || pos >= data.len() {
        Err(GitErrorView::Other("Unexpected end of packfile"@))
    } else {
        let byte = data[pos];
        let type_num = ((byte / 16) % 8) as nat;
        let p = after_size(data, pos + 1, byte >= 128);
        match pack_object_type(type_num) {
            None => Err(GitErrorView::Other("Unknown object type: "@ + dec_chars(type_num))),
            Some(t) => match inflate_prefix(data.skip(p)) {
                Err(msg) => Err(GitErrorView::Other("Failed to decompress: "@ + msg)),
                Ok((content, left)) => Ok(
                    (GitObjectView { obj_type: t, content }, data.len() - left),
                ),
            },
        }
    }
}

/// The result of parsing `count` objects one after another from `pos`.
pub open spec fn parse_objects_spec(data: Seq<u8>, pos: int, count: nat) -> Result<
    Seq<GitObjectView>,
    GitErrorView,
>
    decreases count,
{
    if count == 0 {
        Ok(Seq::empty())
    } else {
        match parse_object_spec(data, pos) {
            Err(e) => Err(e),
            Ok((o, next)) => match parse_objects_spec(data, next, (count - 1) as nat) {
                Err(e) => Err(e),
                Ok(rest) => Ok(seq![o] + rest),
            },
        }
    }
}

/// The bytes `PACK`.
pub open spec fn pack_magic() -> Seq<u8> {
    seq![0x50u8, 0x41u8, 0x43u8, 0x4bu8]
}

/// The result of parsing a whole packfile.
pub open spec fn parse_pack_spec(data: Seq<u8>) -> Result<Seq<GitObjectView>, GitErrorView> {
    if data.len() < 28 {
        Err(GitErrorView::Other("Packfile too small"@))
    } else if data.take(4) != pack_magic() {
        Err(GitErrorView::Other("Invalid packfile magic"@))
    } else {
        let version = be_u32(data[4], data[5], data[6], data[7]);
        if version != 2 && version != 3 {
            Err(GitErrorView::Other("Unsupported packfile version: "@ + dec_chars(version)))
        } else {
            parse_objects_spec(data, 12, be_u32(data[8], data[9], data[10], data[11]))
        }
    }
}

/// The abstract values of a sequence of objects.
pub open spec fn objects_view(v: Seq<GitObject>) -> Seq<GitObjectView> {
    Seq::new(v.len(), |i: int| v[i]@)
}

/// `acc` followed by the objects of `r`, or the error of `r`.
pub open spec fn prepend_objects(
    acc: Seq<GitObjectView>,
    r: Result<Seq<GitObjectView>, GitErrorView>,
) -> Result<Seq<GitObjectView>, GitErrorView> {
    match r {
        Ok(rest) => Ok(acc + rest),
        Err(e) => Err(e),
    }
}

/// Represents a Git packfile.
#[derive(Debug)]
pub struct PackFile {
    /// Objects in the packfile.
    pub objects: Vec<GitObject>,
}

/// The big-endian `u32` stored at `data[at..at + 4]`.
fn read_be_u32(data: &[u8], at: usize) -> (v: u32)
    requires
        at + 4 <= data@.len(),
    ensures
        v as nat == be_u32(data@[at as int], data@[at + 1], data@[at + 2], data@[at + 3]),
{
    let v = (data[at] as u32) * 0x100_0000 + (data[at + 1] as u32) * 0x1_0000 + (data[at + 2]
        as u32) * 0x100 + (data[at + 3] as u32);
    v
}

/// Parse a single object from packfile.
fn parse_object(data: &[u8], pos: usize) -> (r: Result<(GitObject, usize), GitError>)
    ensures
        match r {
            Ok((o, p)) => parse_object_spec(data@, pos as int) == Ok::<
                (GitObjectView, int),
                GitErrorView,
            >((o@, p as int)),
            Err(e) => parse_object_spec(data@, pos as int) == Err::<
                (GitObjectView, int),
                GitErrorView,
            >(e@),
        },
{
    if pos >= data.len() {
        return Err(GitError::other("Unexpected end of packfile"));
    }
    let byte = data[pos];
    let mut p: usize = pos + 1;
    let mut more: bool = byte >= 128;
    while more && p < data.len()
        invariant
            pos < p <= data@.len(),
            after_size(data@, pos + 1, byte >= 128) == after_size(data@, p as int, more),
        decreases data.len() - p,
    {
        more = data[p] >= 128;
        p = p + 1;
    }
    let type_num: u8 = (byte / 16) % 8;
    let obj_type = if type_num == 1 {
        ObjectType::Commit
    } else if type_num == 2 {
        ObjectType::Tree
    } else if type_num == 3 {
        ObjectType::Blob
    } else {
        let mut msg = String::new();
        msg.append("Unknown object type: ");
        push_decimal(&mut msg, type_num as u64);
        return Err(GitError::Other(msg));
    };
    let rest = &data[p..data.len()];
    assert(rest@ =~= data@.skip(p as int));
    match inflate_front(rest) {
        Err(text) => {
            let mut msg = String::new();
            msg.append("Failed to decompress: ");
            msg.append(text.as_str());
            Err(GitError::Other(msg))
        },
        Ok((content, left)) => {
            let next = data.len() - left;
            Ok((GitObject::new(obj_type, content), next))
        },
    }
}

impl PackFile {
    /// Parse a packfile from raw bytes.
    pub fn parse(data: &[u8]) -> (r: Result<Self, GitError>)
        ensures
            match r {
                Ok(pack) => parse_pack_spec(data@) == Ok::<Seq<GitObjectView>, GitErrorView>(
                    objects_view(pack.objects@),
                ),
                Err(e) => parse_pack_spec(data@) == Err::<Seq<GitObjectView>, GitErrorView>(
                    e@,
                ),
            },
    {
        if data.len() < 28 {
            return Err(GitError::other("Packfile too small"));
        }
        if data[0] != 0x50 || data[1] != 0x41 || data[2] != 0x43 || data[3] != 0x4b {
            assert(data@.take(4)[0] == data@[0]);
            assert(data@.take(4)[1] == data@[1]);
            assert(data@.take(4)[2] == data@[2]);
            assert(data@.take(4)[3] == data@[3]);
            return Err(GitError::other("Invalid packfile magic"));
        }
        assert(data@.take(4) =~= pack_magic());
        let version = read_be_u32(data, 4);
        if version != 2 && version != 3 {
            let mut msg = String::new();
            msg.append("Unsupported packfile version: ");
            push_decimal(&mut msg, version as u64);
            return Err(GitError::Other(msg));
        }
        let num_objects = read_be_u32(data, 8);
        let ghost total = num_objects as nat;
        let mut objects: Vec<GitObject> = Vec::new();
        let mut pos: usize = 12;
        let mut i: u32 = 0;
        assert(objects_view(objects@) =~= Seq::<GitObjectView>::empty());
        while i < num_objects
            invariant
                i <= num_objects,
                total == num_objects as nat,
                parse_pack_spec(data@) == prepend_objects(
                    objects_view(objects@),
                    parse_objects_spec(data@, pos as int, (total - i) as nat),
                ),
            decreases num_objects - i,
        {
            match parse_object(data, pos) {
                Err(e) => {
                    return Err(e);
                },
                Ok((obj, next)) => {
                    let ghost before = objects_view(objects@);
                    let ghost o = obj@;
                    objects.push(obj);
                    assert(objects_view(objects@) =~= before + seq![o]);
                    proof {
                        let tail = parse_objects_spec(data@, next as int, (total - i - 1) as nat);
                        match tail {
                            Ok(rest) => {
                                assert(before + (seq![o] + rest) =~= (before + seq![o]) + rest);
                            },
                            Err(_) => {},
                        }
                    }
                    pos = next;
                },
            }
            i = i + 1;
        }
        Ok(PackFile { objects })
    }
}

// ---------------------------------------------------------------------------
// Reading back a pack
// ---------------------------------------------------------------------------

/// Whether `h` is the header of a packed object of type `t`: the type number
/// in bits 4 to 6 of its first byte, and the top bit set on every byte but
/// the last (the size, which parsing skips).
pub open spec fn object_header(h: Seq<u8>, t: ObjectType) -> bool {
    &&& h.len() > 0
    &&& pack_object_type(((h[0] / 16) % 8) as nat) == Some(t)
    &&& forall|i: int| 0 <= i < h.len() - 1 ==> #[trigger] h[i] >= 128
    &&& h[h.len() - 1] < 128
}

/// One object as a pack holds it: its header, its zlib stream, and the type
/// and content that they stand for.
pub struct PackedObject {
    pub header: Seq<u8>,
    pub stream: Seq<u8>,
    pub obj_type: ObjectType,
    pub content: Seq<u8>,
}

/// Whether a packed object is well formed: its header names its type and
/// its stream is a complete zlib stream of its content.
pub open spec fn packed_ok(o: PackedObject) -> bool {
    object_header(o.header, o.obj_type) && stream_of(o.stream, o.content)
}

/// The bytes of packed objects, one after another.
pub open spec fn packed_bytes(objs: Seq<PackedObject>) -> Seq<u8>
    decreases objs.len(),
{
    if objs.len() == 0 {
        Seq::empty()
    } else {
        objs[0].header + objs[0].stream + packed_bytes(objs.drop_first())
    }
}

/// The objects that packed objects stand for.
pub open spec fn packed_view(objs: Seq<PackedObject>) -> Seq<GitObjectView> {
    Seq::new(
        objs.len(),
        |i: int| GitObjectView { obj_type: objs[i].obj_type, content: objs[i].content },
    )
}

/// Reading the size of a well-formed header stops just past the header.
proof fn lemma_after_header(data: Seq<u8>, pos: int, h: Seq<u8>, t: ObjectType, k: int)
    requires
        object_header(h, t),
        0 <= pos,
        pos + h.len() <= data.len(),
        forall|i: int| 0 <= i < h.len() ==> data[pos + i] == #[trigger] h[i],
        1 <= k <= h.len(),
    ensures
        after_size(data, pos + k, h[k - 1] >= 128) == pos + h.len(),
    decreases h.len() - k,
{
    if k < h.len() {
        assert(h[k - 1] >= 128);
        assert(data[pos + k] == h[k]);
        lemma_after_header(data, pos, h, t, k + 1);
    }
}

/// A well-formed packed object at `pos` parses as its object, and the next
/// object starts just past its zlib stream.
pub proof fn lemma_parse_packed_object(data: Seq<u8>, pos: int, o: PackedObject, rest: Seq<u8>)
    requires
        0 <= pos <= data.len(),
        data.skip(pos) == o.header + o.stream + rest,
        packed_ok(o),
    ensures
        parse_object_spec(data, pos) == Ok::<(GitObjectView, int), GitErrorView>(
            (
                GitObjectView { obj_type: o.obj_type, content: o.content },
                pos + o.header.len() + o.stream.len(),
            ),
        ),
{
    let h = o.header;
    let whole = o.header + o.stream + rest;
    assert(data.skip(pos).len() == data.len() - pos);
    assert(whole.len() == h.len() + o.stream.len() + rest.len());
    assert forall|i: int| 0 <= i < h.len() implies data[pos + i] == #[trigger] h[i] by {
        assert(data.skip(pos)[i] == data[pos + i]);
        assert((o.header + o.stream + rest)[i] == h[i]);
    }
    assert(data[pos] == h[0]);
    lemma_after_header(data, pos, h, o.obj_type, 1);
    let p = pos + h.len();
    assert(whole.skip(h.len() as int) =~= o.stream + rest);
    assert(data.skip(p) =~= data.skip(pos).skip(h.len() as int));
    assert(inflate_prefix(o.stream + rest) == Ok::<(Seq<u8>, nat), Seq<char>>(
        (o.content, rest.len()),
    ));
}

/// Well-formed packed objects, one after another from `pos`, parse as their
/// objects.
proof fn lemma_parse_packed_objects(
    data: Seq<u8>,
    pos: int,
    objs: Seq<PackedObject>,
    tail: Seq<u8>,
)
    requires
        0 <= pos <= data.len(),
        data.skip(pos) == packed_bytes(objs) + tail,
        forall|i: int| 0 <= i < objs.len() ==> packed_ok(#[trigger] objs[i]),
    ensures
        parse_objects_spec(data, pos, objs.len()) == Ok::<Seq<GitObjectView>, GitErrorView>(
            packed_view(objs),
        ),
    decreases objs.len(),
{
    if objs.len() == 0 {
        assert(packed_view(objs) =~= Seq::<GitObjectView>::empty());
    } else {
        let o = objs[0];
        let more = objs.drop_first();
        let rest = packed_bytes(more) + tail;
        assert(packed_ok(o));
        assert(data.skip(pos) =~= o.header + o.stream + rest);
        lemma_parse_packed_object(data, pos, o, rest);
        let next = pos + o.header.len() + o.stream.len();
        let whole = o.header + o.stream + rest;
        assert(data.skip(pos).len() == data.len() - pos);
        assert(whole.len() == o.header.len() + o.stream.len() + rest.len());
        assert(whole.skip((o.header.len() + o.stream.len()) as int) =~= rest);
        assert(data.skip(next) =~= data.skip(pos).skip((o.header.len() + o.stream.len()) as int));
        assert forall|i: int| 0 <= i < more.len() implies packed_ok(#[trigger] more[i]) by {
            assert(more[i] == objs[i + 1]);
        }
        lemma_parse_packed_objects(data, next, more, tail);
        let first = GitObjectView { obj_type: o.obj_type, content: o.content };
        assert(packed_view(objs) =~= seq![first] + packed_view(more));
    }
}

/// A pack: `PACK`, the version and the object count as big-endian 32-bit
/// numbers, the packed objects, and the trailing checksum.
pub open spec fn pack_bytes(version: u32, objs: Seq<PackedObject>, checksum: Seq<u8>) -> Seq<u8> {
    pack_magic() + be_bytes(version) + be_bytes(objs.len() as u32) + packed_bytes(objs) + checksum
}

/// The four big-endian bytes of a 32-bit number.
pub open spec fn be_bytes(n: u32) -> Seq<u8> {
    seq![(n / 0x100_0000) as u8, ((n / 0x1_0000) % 0x100) as u8, ((n / 0x100) % 0x100) as u8, (n
        % 0x100) as u8]
}

/// A pack of well-formed objects reads back as those objects, each found just
/// past the zlib stream of the one before.
pub proof fn lemma_pack_roundtrip(version: u32, objs: Seq<PackedObject>, checksum: Seq<u8>)
    requires
        version == 2 || version == 3,
        objs.len() <= u32::MAX,
        checksum.len() == 20,
        forall|i: int| 0 <= i < objs.len() ==> packed_ok(#[trigger] objs[i]),
    ensures
        parse_pack_spec(pack_bytes(version, objs, checksum)) == Ok::<
            Seq<GitObjectView>,
            GitErrorView,
        >(packed_view(objs)),
{
    let data = pack_bytes(version, objs, checksum);
    let n = objs.len() as u32;
    let vb = be_bytes(version);
    let nb = be_bytes(n);
    assert(be_u32(vb[0], vb[1], vb[2], vb[3]) == version);
    assert(be_u32(nb[0], nb[1], nb[2], nb[3]) == n);
    assert(data.take(4) =~= pack_magic());
    assert(data[4] == vb[0] && data[5] == vb[1] && data[6] == vb[2] && data[7] == vb[3]);
    assert(data[8] == nb[0] && data[9] == nb[1] && data[10] == nb[2] && data[11] == nb[3]);
    assert(data.skip(12) =~= packed_bytes(objs) + checksum);
    lemma_parse_packed_objects(data, 12, objs, checksum);
}

} // verus!
