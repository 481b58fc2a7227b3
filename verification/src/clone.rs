//! The smart HTTP protocol of `git clone`: pkt-lines, the refs
//! advertisement, the upload-pack request, the steps of fetching a pack, and
//! what the clone writes.

use vstd::prelude::*;
use vstd::string::StringExecFns;
use vstd::utf8::{decode_utf8, encode_utf8, valid_utf8};

use crate::error::{GitError, GitErrorView};
use crate::zlib::{inflate_parts, inflate_split};
use crate::text::{
    ascii_bytes, chars_eq, chars_of, hex_num, is_ws, no_ws, pad4, push_bytes, push_char,
    push_hex4_bytes, split_whitespace, split_ws, string_of, trim_end_ws, trim_start_ws,
    trim_whitespace, trim_ws, words_view,
};

verus! {

// ---------------------------------------------------------------------------
// A table of refs
// ---------------------------------------------------------------------------

/// Refs by name: a map from ref names to object hashes.
pub struct RefTable {
    entries: Vec<(String, String)>,
}

/// The map that a list of distinct-keyed pairs stands for.
pub open spec fn pairs_map(s: Seq<(String, String)>) -> Map<Seq<char>, Seq<char>> {
    Map::new(
        |k: Seq<char>| exists|i: int| 0 <= i < s.len() && s[i].0@ == k,
        |k: Seq<char>| s[choose|i: int| 0 <= i < s.len() && s[i].0@ == k].1@,
    )
}

/// No two pairs share a key.
pub open spec fn distinct_keys(s: Seq<(String, String)>) -> bool {
    forall|i: int, j: int|
        0 <= i < s.len() && 0 <= j < s.len() && i != j ==> s[i].0@ != s[j].0@
}

impl View for RefTable {
    type V = Map<Seq<char>, Seq<char>>;

    closed spec fn view(&self) -> Map<Seq<char>, Seq<char>> {
        pairs_map(self.entries@)
    }
}

impl RefTable {
    #[verifier::type_invariant]
    spec fn wf(&self) -> bool {
        distinct_keys(self.entries@)
    }

    /// An empty table.
    pub fn new() -> (t: Self)
        ensures
            t@ == Map::<Seq<char>, Seq<char>>::empty(),
    {
        let t = RefTable { entries: Vec::new() };
        assert(t@ =~= Map::<Seq<char>, Seq<char>>::empty());
        t
    }

    /// The number of refs.
    pub fn len(&self) -> (n: usize)
        ensures
            n == self@.len(),
    {
        proof {
            use_type_invariant(self);
            self.lemma_len();
        }
        self.entries.len()
    }

    proof fn lemma_len(&self)
        requires
            distinct_keys(self.entries@),
        ensures
            self@.len() == self.entries@.len(),
            self@.dom().finite(),
    {
        let s = self.entries@;
        let keys = Seq::new(s.len(), |i: int| s[i].0@);
        assert forall|k: Seq<char>| #[trigger] self@.dom().contains(k) <==> keys.to_set().contains(k) by {
            if self@.dom().contains(k) {
                let i = choose|i: int| 0 <= i < s.len() && s[i].0@ == k;
                assert(keys[i] == k);
            }
            if keys.to_set().contains(k) {
                let i = choose|i: int| 0 <= i < keys.len() && keys[i] == k;
                assert(s[i].0@ == k);
            }
        }
        assert(self@.dom() =~= keys.to_set());
        assert(keys.no_duplicates());
        keys.unique_seq_to_set();
    }

    /// The position of the pair with key `key`, if any.
    fn find(&self, key: &Vec<char>) -> (r: Option<usize>)
        ensures
            match r {
                Some(i) => i < self.entries@.len() && self.entries@[i as int].0@ == key@,
                None => forall|i: int|
                    0 <= i < self.entries@.len() ==> self.entries@[i].0@ != key@,
            },
    {
        let mut i: usize = 0;
        while i < self.entries.len()
            invariant
                i <= self.entries@.len(),
                forall|j: int| 0 <= j < i ==> self.entries@[j].0@ != key@,
            decreases self.entries.len() - i,
        {
            let k = chars_of(self.entries[i].0.as_str());
            if chars_eq(k.as_slice(), key.as_slice()) {
                return Some(i);
            }
            i = i + 1;
        }
        None
    }

    /// The hash of the ref named `name`, if there is one.
    pub fn get(&self, name: &str) -> (r: Option<&String>)
        ensures
            match r {
                Some(v) => self@.contains_key(name@) && self@[name@] == v@,
                None => !self@.contains_key(name@),
            },
    {
        proof {
            use_type_invariant(self);
        }
        let key = chars_of(name);
        match self.find(&key) {
            Some(i) => {
                assert(self.entries@[i as int].0@ == name@);
                Some(&self.entries[i].1)
            },
            None => None,
        }
    }

    /// The refs as (name, hash) pairs, each name once, in no particular order.
    pub fn pairs(&self) -> (v: Vec<(String, String)>)
        ensures
            pairs_map(v@) == self@,
            distinct_keys(v@),
    {
        proof {
            use_type_invariant(self);
        }
        let mut v: Vec<(String, String)> = Vec::new();
        let mut i: usize = 0;
        while i < self.entries.len()
            invariant
                i <= self.entries@.len(),
                v@ == self.entries@.take(i as int),
            decreases self.entries.len() - i,
        {
            let name = self.entries[i].0.clone();
            let hash = self.entries[i].1.clone();
            v.push((name, hash));
            i = i + 1;
            assert(v@ =~= self.entries@.take(i as int));
        }
        assert(self.entries@.take(self.entries@.len() as int) =~= self.entries@);
        v
    }

    /// Sets the ref named `name` to `hash`, replacing what it held.
    pub fn insert(&mut self, name: String, hash: String)
        ensures
            final(self)@ == old(self)@.insert(name@, hash@),
    {
        proof {
            use_type_invariant(&*self);
        }
        let key = chars_of(name.as_str());
        let ghost old_entries = self.entries@;
        match self.find(&key) {
            Some(i) => {
                let mut entries: Vec<(String, String)> = Vec::new();
                std::mem::swap(&mut entries, &mut self.entries);
                assert(entries@ == old_entries);
                entries.set(i, (name, hash));
                let ghost new_entries = entries@;
                proof {
                    assert(distinct_keys(new_entries)) by {
                        assert forall|a: int, b: int|
                            0 <= a < new_entries.len() && 0 <= b < new_entries.len() && a
                                != b implies new_entries[a].0@ != new_entries[b].0@ by {
                            if a != i && b != i {
                                assert(new_entries[a] == old_entries[a]);
                                assert(new_entries[b] == old_entries[b]);
                            } else if a == i {
                                assert(new_entries[b] == old_entries[b]);
                            } else {
                                assert(new_entries[a] == old_entries[a]);
                            }
                        }
                    }
                    assert(pairs_map(new_entries) =~= pairs_map(old_entries).insert(
                        name@,
                        hash@,
                    )) by {
                        assert forall|k: Seq<char>|
                            #![auto]
                            pairs_map(new_entries).dom().contains(k) == pairs_map(
                                old_entries,
                            ).insert(name@, hash@).dom().contains(k) by {
                            if k == name@ {
                                assert(new_entries[i as int].0@ == k);
                                assert(old_entries[i as int].0@ == k);
                            } else if exists|j: int|
                                0 <= j < old_entries.len() && old_entries[j].0@ == k {
                                let j = choose|j: int|
                                    0 <= j < old_entries.len() && old_entries[j].0@ == k;
                                assert(new_entries[j] == old_entries[j]);
                            } else if exists|j: int|
                                0 <= j < new_entries.len() && new_entries[j].0@ == k {
                                let j = choose|j: int|
                                    0 <= j < new_entries.len() && new_entries[j].0@ == k;
                                assert(j != i);
                                assert(new_entries[j] == old_entries[j]);
                            }
                        }
                        assert forall|k: Seq<char>|
                            #![auto]
                            pairs_map(new_entries).dom().contains(k) implies pairs_map(
                                new_entries,
                            )[k] == pairs_map(old_entries).insert(name@, hash@)[k] by {
                            let j = choose|j: int|
                                0 <= j < new_entries.len() && new_entries[j].0@ == k;
                            if k == name@ {
                                assert(j == i);
                            } else {
                                assert(j != i);
                                assert(new_entries[j] == old_entries[j]);
                                let j2 = choose|j2: int|
                                    0 <= j2 < old_entries.len() && old_entries[j2].0@ == k;
                                assert(j2 == j);
                            }
                        }
                    }
                }
                self.entries = entries;
            },
            None => {
                let mut entries: Vec<(String, String)> = Vec::new();
                std::mem::swap(&mut entries, &mut self.entries);
                entries.push((name, hash));
                let ghost new_entries = entries@;
                let ghost n = old_entries.len() as int;
                assert(new_entries[n].0@ == name@);
                assert forall|j: int| 0 <= j < n implies new_entries[j] == old_entries[j] by {}
                assert(pairs_map(new_entries) =~= pairs_map(old_entries).insert(name@, hash@))
                    by {
                    assert forall|k: Seq<char>|
                        #![auto]
                        pairs_map(new_entries).dom().contains(k) == pairs_map(old_entries).insert(
                            name@,
                            hash@,
                        ).dom().contains(k) by {
                        if k != name@ {
                            if exists|j: int| 0 <= j < new_entries.len() && new_entries[j].0@ == k {
                                let j = choose|j: int|
                                    0 <= j < new_entries.len() && new_entries[j].0@ == k;
                                assert(j < n);
                            }
                            if exists|j: int| 0 <= j < old_entries.len() && old_entries[j].0@ == k {
                                let j = choose|j: int|
                                    0 <= j < old_entries.len() && old_entries[j].0@ == k;
                                assert(new_entries[j] == old_entries[j]);
                            }
                        }
                    }
                    assert forall|k: Seq<char>|
                        #![auto]
                        pairs_map(new_entries).dom().contains(k) implies pairs_map(new_entries)[k]
                            == pairs_map(old_entries).insert(name@, hash@)[k] by {
                        let j = choose|j: int|
                            0 <= j < new_entries.len() && new_entries[j].0@ == k;
                        if k == name@ {
                            assert(j == n);
                        } else {
                            assert(j < n);
                            let j2 = choose|j2: int|
                                0 <= j2 < old_entries.len() && old_entries[j2].0@ == k;
                            assert(new_entries[j2] == old_entries[j2]);
                            assert(j2 == j);
                        }
                    }
                }
                assert(distinct_keys(new_entries)) by {
                    assert forall|a: int, b: int|
                        0 <= a < new_entries.len() && 0 <= b < new_entries.len() && a
                            != b implies new_entries[a].0@ != new_entries[b].0@ by {
                        if a < n && b < n {
                            assert(new_entries[a] == old_entries[a]);
                            assert(new_entries[b] == old_entries[b]);
                        } else if a == n {
                            assert(new_entries[b] == old_entries[b]);
                        } else {
                            assert(new_entries[a] == old_entries[a]);
                        }
                    }
                }
                self.entries = entries;
            },
        }
    }
}

// ---------------------------------------------------------------------------
// pkt-lines
// ---------------------------------------------------------------------------

/// A pkt-line: the length of the line plus four, as four (or more) lower-case
/// hexadecimal digits, then the line.
pub open spec fn pkt_line(line: Seq<u8>) -> Seq<u8> {
    ascii_bytes(pad4(hex_num((line.len() + 4) as nat))) + line
}

/// Add a pkt-line to the request.
pub fn add_pkt_line(data: &mut Vec<u8>, line: &[u8]) -> (r: Result<(), GitError>)
    requires
        line@.len() + 4 <= usize::MAX,
    ensures
        r is Ok,
        final(data)@ == old(data)@ + pkt_line(line@),
{
    let len = line.len() + 4;
    push_hex4_bytes(data, len);
    push_bytes(data, line);
    assert(data@ =~= old(data)@ + pkt_line(line@));
    Ok(())
}

/// The value of an ASCII hexadecimal digit, either case.
pub open spec fn hex_value(b: u8) -> Option<nat> {
    if 48 <= b <= 57 {
        Some((b - 48) as nat)
    } else if 97 <= b <= 102 {
        Some((b - 87) as nat)
    } else if 65 <= b <= 70 {
        Some((b - 55) as nat)
    } else {
        None
    }
}

/// The value of a string of hexadecimal digits.
pub open spec fn hex_digits_value(s: Seq<u8>) -> Option<nat>
    decreases s.len(),
{
    if s.len() == 0 {
        Some(0)
    } else {
        match hex_digits_value(s.drop_last()) {
            None => None,
            Some(v) => match hex_value(s.last()) {
                None => None,
                Some(d) => Some(v * 16 + d),
            },
        }
    }
}

/// The digits of a length field: without one leading `+`.
pub open spec fn pkt_len_digits(b: Seq<u8>) -> Seq<u8> {
    if b.len() > 0 && b[0] == 43 {
        b.drop_first()
    } else {
        b
    }
}

/// What `u16::from_str_radix(.., 16)` gives for the length field of a
/// pkt-line: an optional `+`, then at least one hexadecimal digit.
pub open spec fn pkt_len_value(b: Seq<u8>) -> Option<nat> {
    let d = pkt_len_digits(b);
    if d.len() == 0 {
        None
    } else {
        hex_digits_value(d)
    }
}

/// Reads the four-byte length field of a pkt-line.
fn read_pkt_len(data: &[u8], pos: usize) -> (r: Option<usize>)
    requires
        pos + 4 <= data@.len(),
    ensures
        match r {
            Some(v) => pkt_len_value(data@.subrange(pos as int, pos + 4)) == Some(v as nat),
            None => pkt_len_value(data@.subrange(pos as int, pos + 4)) is None,
        },
        r matches Some(v) ==> v <= 0xffff,
{
    let ghost b = data@.subrange(pos as int, pos + 4);
    let start: usize = if data[pos] == 43 {
        pos + 1
    } else {
        pos
    };
    let ghost d = data@.subrange(start as int, pos + 4);
    assert(d =~= pkt_len_digits(b));
    let mut v: usize = 0;
    let mut i: usize = start;
    assert(data@.subrange(start as int, start as int) =~= Seq::<u8>::empty());
    while i < pos + 4
        invariant
            pos <= start <= i <= pos + 4,
            pos + 4 <= data.len(),
            d == data@.subrange(start as int, pos + 4),
            d == pkt_len_digits(data@.subrange(pos as int, pos + 4)),
            hex_digits_value(data@.subrange(start as int, i as int)) == Some(v as nat),
            v < pow16(i - start),
            i - start <= 4,
        decreases pos + 4 - i,
    {
        let c = data[i];
        let ghost prev = data@.subrange(start as int, i as int);
        assert(data@.subrange(start as int, i + 1).drop_last() =~= prev);
        assert(data@.subrange(start as int, i + 1).last() == c);
        let digit: usize = if 48 <= c && c <= 57 {
            (c - 48) as usize
        } else if 97 <= c && c <= 102 {
            (c - 87) as usize
        } else if 65 <= c && c <= 70 {
            (c - 55) as usize
        } else {
            proof {
                lemma_hex_none_extends(d, (i + 1 - start) as int);
                assert(d.take(i + 1 - start) =~= data@.subrange(start as int, i + 1));
            }
            return None;
        };
        assert(pow16(i + 1 - start) == 16 * pow16(i - start));
        proof {
            lemma_pow16_small();
        }
        v = v * 16 + digit;
        i = i + 1;
    }
    if start == pos + 4 {
        return None;
    }
    assert(d =~= data@.subrange(start as int, i as int));
    proof {
        lemma_pow16_small();
    }
    if start == pos {
        assert(i - start == 4);
    } else {
        assert(pow16(3) == 4096);
    }
    Some(v)
}

/// The powers of sixteen up to the fourth.
proof fn lemma_pow16_small()
    ensures
        pow16(0) == 1,
        pow16(1) == 16,
        pow16(2) == 256,
        pow16(3) == 4096,
        pow16(4) == 65536,
{
    assert(pow16(0) == 1);
    assert(pow16(1) == 16);
    assert(pow16(2) == 256);
    assert(pow16(3) == 4096);
    assert(pow16(4) == 65536);
}

/// Sixteen to the power `n`.
pub open spec fn pow16(n: int) -> int
    decreases n,
{
    if n <= 0 {
        1
    } else {
        16 * pow16(n - 1)
    }
}

/// Once a prefix of a digit string fails to read, the whole string does.
proof fn lemma_hex_none_extends(s: Seq<u8>, k: int)
    requires
        0 <= k <= s.len(),
        hex_digits_value(s.take(k)) is None,
    ensures
        hex_digits_value(s) is None,
    decreases s.len() - k,
{
    if k < s.len() {
        assert(s.take(k + 1).drop_last() =~= s.take(k));
        lemma_hex_none_extends(s, k + 1);
    } else {
        assert(s.take(k) =~= s);
    }
}

/// The length field that `add_pkt_line` writes reads back as the length of
/// the pkt-line, for every line short enough for four hexadecimal digits.
pub proof fn lemma_pkt_len_roundtrip(line: Seq<u8>)
    requires
        line.len() + 4 <= 0xffff,
    ensures
        pkt_len_value(pkt_line(line).take(4)) == Some((line.len() + 4) as nat),
{
    let n = (line.len() + 4) as nat;
    let h = hex_num(n);
    lemma_hex_num_value(n);
    let p = pad4(h);
    let pb = ascii_bytes(p);
    assert(pkt_line(line).take(4) =~= pb);
    lemma_pad4_value(h);
    assert(pb[0] != 43) by {
        assert(hex_value(pb[0]) is Some);
    }
    assert(pkt_len_value(pb) == hex_digits_value(pb));
}

/// The value of a lower-case hexadecimal rendering read back as bytes.
pub open spec fn hex_chars_value(s: Seq<char>) -> Option<nat> {
    hex_digits_value(ascii_bytes(s))
}

/// `hex_num` renders at most four digits below 0x10000, and they read back
/// as the number.
proof fn lemma_hex_num_value(n: nat)
    requires
        n <= 0xffff,
    ensures
        hex_digits_value(ascii_bytes(hex_num(n))) == Some(n),
        1 <= hex_num(n).len() <= 4,
        n < pow16(hex_num(n).len() as int),
        hex_num(n).len() == 1 || n >= pow16(hex_num(n).len() - 1),
    decreases n,
{
    let h = hex_num(n);
    let d = (n % 16) as nat;
    let c = crate::text::hex_digit(d);
    assert((c as u8) == (if d < 10 {
        48 + d
    } else {
        87 + d
    }));
    assert(hex_value(c as u8) == Some(d));
    if n < 16 {
        assert(h =~= seq![c]);
        assert(ascii_bytes(h) =~= seq![c as u8]);
        assert(ascii_bytes(h).drop_last() =~= Seq::<u8>::empty());
        assert(hex_digits_value(Seq::<u8>::empty()) == Some(0nat));
        lemma_pow16_small();
    } else {
        lemma_hex_num_value(n / 16);
        let p = hex_num(n / 16);
        assert(h == p.push(c));
        assert(ascii_bytes(h).drop_last() =~= ascii_bytes(p));
        assert(ascii_bytes(h).last() == c as u8);
        assert(n == (n / 16) * 16 + d);
        assert(pow16(p.len() as int + 1) == 16 * pow16(p.len() as int));
        lemma_pow16_small();
        assert(pow16(p.len() as int) == 16 * pow16(p.len() - 1));
        if p.len() == 4 {
            assert(n / 16 >= 4096);
            assert(false);
        }
    }
}

/// Padding with leading zeros does not change the value read back, and the
/// padded field has exactly four digits.
proof fn lemma_pad4_value(h: Seq<char>)
    requires
        1 <= h.len() <= 4,
        hex_digits_value(ascii_bytes(h)) is Some,
    ensures
        ascii_bytes(pad4(h)).len() == 4,
        hex_digits_value(ascii_bytes(pad4(h))) == hex_digits_value(ascii_bytes(h)),
        hex_value(ascii_bytes(pad4(h))[0]) is Some,
    decreases 4 - h.len(),
{
    if h.len() < 4 {
        let z = Seq::new((4 - h.len()) as nat, |i: int| '0');
        let g = seq!['0'] + h;
        assert(pad4(h) =~= pad4(g)) by {
            if g.len() < 4 {
                assert(Seq::new((4 - g.len()) as nat, |i: int| '0') + g =~= z + h);
            } else {
                assert(z =~= seq!['0']);
            }
        }
        lemma_leading_zero(h);
        lemma_pad4_value(g);
    } else {
        assert(pad4(h) == h);
        lemma_first_hex_digit(ascii_bytes(h));
    }
}

/// A leading zero digit does not change the value read back.
proof fn lemma_leading_zero(h: Seq<char>)
    ensures
        hex_digits_value(ascii_bytes(seq!['0'] + h)) == hex_digits_value(ascii_bytes(h)),
    decreases h.len(),
{
    let g = seq!['0'] + h;
    if h.len() == 0 {
        assert(ascii_bytes(g) =~= seq![48u8]);
        assert(ascii_bytes(g).drop_last() =~= Seq::<u8>::empty());
        assert(ascii_bytes(h) =~= Seq::<u8>::empty());
    } else {
        lemma_leading_zero(h.drop_last());
        assert(g.drop_last() =~= seq!['0'] + h.drop_last());
        assert(ascii_bytes(g).drop_last() =~= ascii_bytes(g.drop_last()));
        assert(ascii_bytes(h).drop_last() =~= ascii_bytes(h.drop_last()));
        assert(ascii_bytes(g).last() == ascii_bytes(h).last());
    }
}

/// When a digit string reads, its first byte is a digit.
proof fn lemma_first_hex_digit(s: Seq<u8>)
    requires
        s.len() > 0,
        hex_digits_value(s) is Some,
    ensures
        hex_value(s[0]) is Some,
    decreases s.len(),
{
    if s.len() > 1 {
        lemma_first_hex_digit(s.drop_last());
        assert(s.drop_last()[0] == s[0]);
    } else {
        assert(s.drop_last() =~= Seq::<u8>::empty());
    }
}

// ---------------------------------------------------------------------------
// The refs advertisement
// ---------------------------------------------------------------------------

/// The text of a byte string that is not valid UTF-8, with the invalid
/// sequences replaced as `String::from_utf8_lossy` does.
pub uninterp spec fn utf8_lossy(bytes: Seq<u8>) -> Seq<char>;

/// The text of a byte string: the decoded text for valid UTF-8, else the
/// text with replacement characters.
pub open spec fn lossy_decode(bytes: Seq<u8>) -> Seq<char> {
    if valid_utf8(bytes) {
        decode_utf8(bytes)
    } else {
        utf8_lossy(bytes)
    }
}

/// Calls `String::from_utf8_lossy`. Trusted: valid UTF-8 decodes to its
/// characters, as the documentation states; for other input the result is
/// `utf8_lossy(bytes)`, which depends on the bytes alone.
#[verifier::external_body]
fn lossy_text(bytes: &[u8]) -> (s: String)
    ensures
        valid_utf8(bytes@) ==> s@ == decode_utf8(bytes@),
        !valid_utf8(bytes@) ==> s@ == utf8_lossy(bytes@),
{
    String::from_utf8_lossy(bytes).into_owned()
}

/// The position of the first newline at or after `pos`, if any.
pub open spec fn newline_from(data: Seq<u8>, pos: int) -> Option<int>
    decreases data.len() - pos,
{
    if pos < 0 || pos >= data.len() {
        None
    } else if data[pos] == 10 {
        Some(pos)
    } else {
        newline_from(data, pos + 1)
    }
}

/// Where the pkt-lines start: after the service line and, when present,
/// the flush packet `0000` that follows it.
pub open spec fn refs_start(data: Seq<u8>) -> int {
    let p = match newline_from(data, 0) {
        Some(i) => i + 1,
        None => data.len() as int,
    };
    if p + 4 <= data.len() && data.subrange(p, p + 4) == seq![48u8, 48u8, 48u8, 48u8] {
        p + 4
    } else {
        p
    }
}

/// How reading the refs advertisement ends.
pub enum RefsOutcome {
    /// The refs read and the position where reading stopped.
    Done(Map<Seq<char>, Seq<char>>, int),
    /// A length field that is not hexadecimal.
    Failed(GitErrorView),
    /// A length field below four, which makes the line's range run backwards.
    Aborted,
}

/// The refs that one pkt-line adds: a line of at least two words names the
/// ref by its second word and the hash by its first.
pub open spec fn add_ref_line(refs: Map<Seq<char>, Seq<char>>, line: Seq<u8>) -> Map<
    Seq<char>,
    Seq<char>,
> {
    let words = split_ws(trim_ws(lossy_decode(line)));
    if words.len() >= 2 {
        refs.insert(words[1], words[0])
    } else {
        refs
    }
}

/// Reads pkt-lines from `pos` on until the input ends, a flush packet, or a
/// line that does not fit.
pub open spec fn refs_lines(data: Seq<u8>, pos: int, refs: Map<Seq<char>, Seq<char>>) -> RefsOutcome
    decreases data.len() - pos,
{
    if pos < 0 || pos >= data.len() || pos + 4 > data.len() {
        RefsOutcome::Done(refs, pos)
    } else {
        match pkt_len_value(data.subrange(pos, pos + 4)) {
            None => RefsOutcome::Failed(GitErrorView::Other("Invalid pkt-line length"@)),
            Some(len) => if len == 0 {
                RefsOutcome::Done(refs, pos)
            } else if pos + 4 + len - 4 > data.len() {
                RefsOutcome::Done(refs, pos + 4)
            } else if len < 4 {
                RefsOutcome::Aborted
            } else {
                let next = pos + len;
                refs_lines(data, next, add_ref_line(refs, data.subrange(pos + 4, next)))
            },
        }
    }
}

/// The outcome of reading a whole refs advertisement.
pub open spec fn refs_outcome(data: Seq<u8>) -> RefsOutcome {
    refs_lines(data, refs_start(data), Map::empty())
}

/// What reading a refs advertisement gives: the refs and where reading
/// stopped, an error, or an abort on a length field below four.
pub enum RefsRead {
    Done(RefTable, usize),
    Failed(GitError),
    Aborted,
}

/// Reads a refs advertisement, reporting rather than performing the abort
/// that a length field below four causes.
pub fn read_refs(data: &[u8]) -> (r: RefsRead)
    ensures
        match r {
            RefsRead::Done(refs, pos) => refs_outcome(data@) == RefsOutcome::Done(
                refs@,
                pos as int,
            ),
            RefsRead::Failed(e) => refs_outcome(data@) == RefsOutcome::Failed(e@),
            RefsRead::Aborted => refs_outcome(data@) is Aborted,
        },
{
    let mut refs = RefTable::new();
    let mut pos: usize = 0;
    while pos < data.len() && data[pos] != 10
        invariant
            pos <= data@.len(),
            newline_from(data@, 0) == newline_from(data@, pos as int),
        decreases data.len() - pos,
    {
        pos = pos + 1;
    }
    if pos < data.len() {
        pos = pos + 1;
    }
    if pos <= data.len() && data.len() - pos >= 4 && data[pos] == 48 && data[pos + 1] == 48
        && data[pos + 2] == 48 && data[pos + 3] == 48 {
        assert(data@.subrange(pos as int, pos + 4) =~= seq![48u8, 48u8, 48u8, 48u8]);
        pos = pos + 4;
    } else {
        proof {
            if pos + 4 <= data@.len() {
                let s = data@.subrange(pos as int, pos + 4);
                if s == seq![48u8, 48u8, 48u8, 48u8] {
                    assert(s[0] == data@[pos as int]);
                    assert(s[1] == data@[pos + 1]);
                    assert(s[2] == data@[pos + 2]);
                    assert(s[3] == data@[pos + 3]);
                }
            }
        }
    }
    assert(pos as int == refs_start(data@));
    while pos < data.len()
        invariant_except_break
            refs_lines(data@, pos as int, refs@) == refs_outcome(data@),
        invariant
            pos <= data@.len(),
        ensures
            refs_outcome(data@) == RefsOutcome::Done(refs@, pos as int),
        decreases data.len() - pos,
    {
        if data.len() - pos < 4 {
            break;
        }
        let len = match read_pkt_len(data, pos) {
            Some(l) => l,
            None => {
                return RefsRead::Failed(GitError::other("Invalid pkt-line length"));
            },
        };
        if len == 0 {
            break;
        }
        let start = pos + 4;
        if len >= 4 && len - 4 > data.len() - start {
            pos = start;
            break;
        }
        if len < 4 {
            return RefsRead::Aborted;
        }
        let next = start + (len - 4);
        let line = lossy_text(&data[start..next]);
        let ghost line_bytes = data@.subrange(start as int, next as int);
        let cs = chars_of(line.as_str());
        let trimmed = trim_whitespace(cs.as_slice());
        if trimmed.len() != 0 {
            let parts = split_whitespace(trimmed.as_slice());
            if parts.len() >= 2 {
                assert(words_view(parts@)[0] == parts@[0]@);
                assert(words_view(parts@)[1] == parts@[1]@);
                let sha = string_of(parts[0].as_slice());
                let ref_name = string_of(parts[1].as_slice());
                refs.insert(ref_name, sha);
            }
        } else {
            proof {
                assert(trim_ws(lossy_decode(line_bytes)) =~= Seq::<char>::empty());
                assert(split_ws(Seq::<char>::empty()) =~= Seq::<Seq<char>>::empty());
            }
        }
        pos = next;
    }
    RefsRead::Done(refs, pos)
}

/// Parse Git protocol refs response.
pub fn parse_refs_response(data: &[u8]) -> (r: Result<(RefTable, usize), GitError>)
    requires
        !(refs_outcome(data@) is Aborted),
    ensures
        match r {
            Ok((refs, pos)) => refs_outcome(data@) == RefsOutcome::Done(refs@, pos as int),
            Err(e) => refs_outcome(data@) == RefsOutcome::Failed(e@),
        },
{
    match read_refs(data) {
        RefsRead::Done(refs, pos) => Ok((refs, pos)),
        RefsRead::Failed(e) => Err(e),
        RefsRead::Aborted => {
            assert(false);
            Err(GitError::other("Invalid pkt-line length"))
        },
    }
}


// ---------------------------------------------------------------------------
// Reading back an advertisement
// ---------------------------------------------------------------------------

/// A flush packet.
pub open spec fn flush_pkt() -> Seq<u8> {
    seq![48u8, 48u8, 48u8, 48u8]
}

/// The pkt-line that advertises one ref: `<hash> <name>\n`.
pub open spec fn ref_advert(hash: Seq<char>, name: Seq<char>) -> Seq<u8> {
    pkt_line(encode_utf8(hash + seq![' '] + name + seq!['\n']))
}

/// The pkt-lines advertising a list of (hash, name) refs, in order.
pub open spec fn ref_adverts(refs: Seq<(Seq<char>, Seq<char>)>) -> Seq<u8>
    decreases refs.len(),
{
    if refs.len() == 0 {
        Seq::empty()
    } else {
        ref_advert(refs[0].0, refs[0].1) + ref_adverts(refs.drop_first())
    }
}

/// `m` after recording a list of (hash, name) refs in order, a later ref
/// replacing an earlier one of the same name.
pub open spec fn record_refs(m: Map<Seq<char>, Seq<char>>, refs: Seq<(Seq<char>, Seq<char>)>) -> Map<
    Seq<char>,
    Seq<char>,
>
    decreases refs.len(),
{
    if refs.len() == 0 {
        m
    } else {
        record_refs(m.insert(refs[0].1, refs[0].0), refs.drop_first())
    }
}

/// A ref that an advertisement line can carry and be read back with:
/// hash and name non-empty and without whitespace, the line short enough
/// for a four-digit length field.
pub open spec fn advertisable(hash: Seq<char>, name: Seq<char>) -> bool {
    &&& hash.len() > 0
    &&& name.len() > 0
    &&& no_ws(hash)
    &&& no_ws(name)
    &&& encode_utf8(hash + seq![' '] + name + seq!['\n']).len() + 4 <= 0xffff
}

/// A refs advertisement: a service line, a flush packet, one pkt-line per
/// ref, and a closing flush packet.
pub open spec fn advertisement(service: Seq<u8>, refs: Seq<(Seq<char>, Seq<char>)>) -> Seq<u8> {
    service + seq![10u8] + flush_pkt() + ref_adverts(refs) + flush_pkt()
}

/// A flush packet reads as length zero.
proof fn lemma_flush_len()
    ensures
        pkt_len_value(flush_pkt()) == Some(0nat),
{
    let z = flush_pkt();
    assert(pkt_len_digits(z) == z);
    assert(z.drop_last() =~= seq![48u8, 48u8, 48u8]);
    assert(z.drop_last().drop_last() =~= seq![48u8, 48u8]);
    assert(z.drop_last().drop_last().drop_last() =~= seq![48u8]);
    assert(z.drop_last().drop_last().drop_last().drop_last() =~= Seq::<u8>::empty());
    assert(hex_digits_value(Seq::<u8>::empty()) == Some(0nat));
    assert(hex_digits_value(seq![48u8]) == Some(0nat));
    assert(hex_digits_value(seq![48u8, 48u8]) == Some(0nat));
    assert(hex_digits_value(seq![48u8, 48u8, 48u8]) == Some(0nat));
}

/// The text of an advertisement line trims to `<hash> <name>`, whose words
/// are the hash and the name.
proof fn lemma_advert_words(hash: Seq<char>, name: Seq<char>)
    requires
        advertisable(hash, name),
    ensures
        split_ws(trim_ws(hash + seq![' '] + name + seq!['\n'])) == seq![hash, name],
{
    let core = hash + seq![' '] + name;
    let t = core + seq!['\n'];
    assert(t[0] == hash[0]);
    assert(!is_ws(hash[0]));
    assert(trim_start_ws(t) == t);
    assert(is_ws('\n'));
    assert(t.drop_last() =~= core);
    assert(core.last() == name.last());
    assert(!is_ws(name[name.len() - 1]));
    assert(trim_end_ws(core) == core);
    assert(trim_end_ws(t) == core);
    crate::text::lemma_split_ws_sep(hash, ' ', name);
    crate::text::lemma_split_ws_word(hash);
    crate::text::lemma_split_ws_word(name);
    assert(seq![hash] + seq![name] =~= seq![hash, name]);
}

/// A pkt-line of a short line is its four-byte length field and the line.
proof fn lemma_pkt_line_shape(line: Seq<u8>)
    requires
        line.len() + 4 <= 0xffff,
    ensures
        pkt_line(line).len() == line.len() + 4,
        pkt_len_value(pkt_line(line).take(4)) == Some((line.len() + 4) as nat),
        pkt_line(line).skip(4) == line,
{
    let n = (line.len() + 4) as nat;
    lemma_hex_num_value(n);
    lemma_pad4_value(hex_num(n));
    lemma_pkt_len_roundtrip(line);
    assert(pkt_line(line).skip(4) =~= line);
}

/// Reading pkt-lines that advertise `refs`, then a flush packet, records
/// the refs in order and stops at the flush packet.
proof fn lemma_adverts_lines(
    data: Seq<u8>,
    p: int,
    refs: Seq<(Seq<char>, Seq<char>)>,
    m: Map<Seq<char>, Seq<char>>,
)
    requires
        0 <= p,
        p + ref_adverts(refs).len() + 4 <= data.len(),
        data.subrange(p, p + ref_adverts(refs).len() + 4) == ref_adverts(refs) + flush_pkt(),
        forall|i: int| 0 <= i < refs.len() ==> advertisable(#[trigger] refs[i].0, refs[i].1),
    ensures
        refs_lines(data, p, m) == RefsOutcome::Done(record_refs(m, refs), p + ref_adverts(refs).len()),
    decreases refs.len(),
{
    if refs.len() == 0 {
        assert(ref_adverts(refs) =~= Seq::<u8>::empty());
        lemma_flush_len();
        assert(data.subrange(p, p + 4) =~= flush_pkt());
    } else {
        let (hash, name) = refs[0];
        assert(advertisable(refs[0].0, refs[0].1));
        let text = hash + seq![' '] + name + seq!['\n'];
        let lb = encode_utf8(text);
        let line = pkt_line(lb);
        let rest = refs.drop_first();
        lemma_pkt_line_shape(lb);
        let len = line.len() as int;
        assert(ref_adverts(refs) == line + ref_adverts(rest));
        let whole = data.subrange(p, p + ref_adverts(refs).len() + 4);
        assert(data.subrange(p, p + 4) =~= whole.subrange(0, 4));
        assert(whole.subrange(0, 4) =~= line.take(4));
        assert(data.subrange(p + 4, p + len) =~= whole.subrange(4, len));
        assert(whole.subrange(4, len) =~= line.skip(4));
        vstd::utf8::encode_utf8_valid_utf8(text);
        vstd::utf8::encode_utf8_decode_utf8(text);
        lemma_advert_words(hash, name);
        assert(add_ref_line(m, lb) == m.insert(name, hash));
        assert forall|i: int| 0 <= i < rest.len() implies advertisable(
            #[trigger] rest[i].0,
            rest[i].1,
        ) by {
            assert(rest[i] == refs[i + 1]);
        }
        assert(data.subrange(p + len, p + len + ref_adverts(rest).len() + 4) =~= whole.subrange(
            len,
            ref_adverts(refs).len() as int + 4,
        ));
        assert(whole.subrange(len, ref_adverts(refs).len() as int + 4) =~= ref_adverts(rest)
            + flush_pkt());
        lemma_adverts_lines(data, p + len, rest, m.insert(name, hash));
    }
}

/// Reading an advertisement built from pkt-lines `<hash> <name>\n` gives back
/// each ref by name, a later one replacing an earlier one, and stops at the
/// closing flush packet.
pub proof fn lemma_refs_roundtrip(service: Seq<u8>, refs: Seq<(Seq<char>, Seq<char>)>)
    requires
        forall|i: int| 0 <= i < service.len() ==> service[i] != 10,
        forall|i: int| 0 <= i < refs.len() ==> advertisable(#[trigger] refs[i].0, refs[i].1),
    ensures
        refs_outcome(advertisement(service, refs)) == RefsOutcome::Done(
            record_refs(Map::empty(), refs),
            service.len() + 5 + ref_adverts(refs).len() as int,
        ),
{
    let data = advertisement(service, refs);
    let n = service.len() as int;
    lemma_newline_at(data, 0, n);
    assert(data.subrange(n + 1, n + 5) =~= flush_pkt());
    assert(refs_start(data) == n + 5);
    assert(data.subrange(n + 5, n + 5 + ref_adverts(refs).len() + 4) =~= ref_adverts(refs)
        + flush_pkt());
    lemma_adverts_lines(data, n + 5, refs, Map::empty());
}

/// `newline_from` finds the first newline at or after `pos`.
proof fn lemma_newline_at(data: Seq<u8>, pos: int, k: int)
    requires
        0 <= pos <= k < data.len(),
        data[k] == 10,
        forall|j: int| pos <= j < k ==> data[j] != 10,
    ensures
        newline_from(data, pos) == Some(k),
    decreases k - pos,
{
    if pos < k {
        lemma_newline_at(data, pos + 1, k);
    }
}

// ---------------------------------------------------------------------------
// The upload-pack request
// ---------------------------------------------------------------------------

/// The request for the pack: a `want` line for HEAD when the refs name it,
/// a flush packet, and `done`.
pub open spec fn upload_request_spec(refs: Map<Seq<char>, Seq<char>>) -> Seq<u8> {
    let want = if refs.contains_key("HEAD"@) {
        pkt_line(encode_utf8("want "@ + refs["HEAD"@] + seq!['\n']))
    } else {
        Seq::empty()
    };
    want + seq![48u8, 48u8, 48u8, 48u8] + pkt_line(seq![100u8, 111u8, 110u8, 101u8, 10u8])
}

/// Whether the `want` line for the refs' HEAD, where they name one, is short
/// enough for its pkt-line length to be counted in a `usize`.
pub open spec fn want_fits(refs: Map<Seq<char>, Seq<char>>) -> bool {
    refs.contains_key("HEAD"@) ==> encode_utf8("want "@ + refs["HEAD"@] + seq!['\n']).len() + 4
        <= usize::MAX
}

/// Build upload-pack request.
pub fn build_upload_request(refs: &RefTable) -> (r: Result<Vec<u8>, GitError>)
    requires
        want_fits(refs@),
    ensures
        r matches Ok(v) && v@ == upload_request_spec(refs@),
{
    let mut request: Vec<u8> = Vec::new();
    match refs.get("HEAD") {
        Some(head_sha) => {
            let mut want = String::new();
            want.append("want ");
            want.append(head_sha.as_str());
            push_char(&mut want, '\n');
            assert(want@ =~= "want "@ + refs@["HEAD"@] + seq!['\n']);
            let _ = add_pkt_line(&mut request, want.as_str().as_bytes());
        },
        None => {},
    }
    request.push(48u8);
    request.push(48u8);
    request.push(48u8);
    request.push(48u8);
    let mut done: Vec<u8> = Vec::new();
    done.push(100u8);
    done.push(111u8);
    done.push(110u8);
    done.push(101u8);
    done.push(10u8);
    assert(done@ =~= seq![100u8, 111u8, 110u8, 101u8, 10u8]);
    let _ = add_pkt_line(&mut request, done.as_slice());
    assert(request@ =~= upload_request_spec(refs@));
    Ok(request)
}

// ---------------------------------------------------------------------------
// Remote URLs
// ---------------------------------------------------------------------------

/// `url` with every trailing `.git` removed (`trim_end_matches(".git")`).
pub open spec fn trim_git_suffix(url: Seq<char>) -> Seq<char>
    decreases url.len(),
{
    if url.len() >= 4 && url.skip(url.len() - 4) == ".git"@ {
        trim_git_suffix(url.take(url.len() - 4))
    } else {
        url
    }
}

/// The base of a remote URL, without trailing `.git`.
fn remote_base(url: &str) -> (b: Vec<char>)
    ensures
        b@ == trim_git_suffix(url@),
{
    let suffix = chars_of(".git");
    let cs = chars_of(url);
    let mut end: usize = cs.len();
    assert(cs@.take(end as int) =~= url@);
    while end >= 4 && chars_eq(&cs.as_slice()[end - 4..end], suffix.as_slice())
        invariant
            end <= cs@.len(),
            cs@ == url@,
            suffix@ == ".git"@,
            trim_git_suffix(url@) == trim_git_suffix(cs@.take(end as int)),
        decreases end,
    {
        proof {
            let t = cs@.take(end as int);
            assert(cs@.subrange(end - 4, end as int) =~= t.skip(t.len() - 4));
            assert(t.take(t.len() - 4) =~= cs@.take(end - 4));
        }
        end = end - 4;
    }
    proof {
        let t = cs@.take(end as int);
        if end >= 4 {
            assert(cs@.subrange(end - 4, end as int) =~= t.skip(t.len() - 4));
        }
    }
    let mut b: Vec<char> = Vec::new();
    let mut k: usize = 0;
    while k < end
        invariant
            k <= end <= cs@.len(),
            b@ == cs@.take(k as int),
        decreases end - k,
    {
        b.push(cs[k]);
        k = k + 1;
        assert(b@ =~= cs@.take(k as int));
    }
    b
}

/// The URL of the refs advertisement of a remote repository.
pub fn info_refs_url(url: &str) -> (u: String)
    ensures
        u@ == trim_git_suffix(url@) + "/info/refs?service=git-upload-pack"@,
{
    let base = remote_base(url);
    let mut u = string_of(base.as_slice());
    u.append("/info/refs?service=git-upload-pack");
    u
}

/// The URL that the upload-pack request goes to.
pub fn upload_pack_url(url: &str) -> (u: String)
    ensures
        u@ == trim_git_suffix(url@) + "/git-upload-pack"@,
{
    let base = remote_base(url);
    let mut u = string_of(base.as_slice());
    u.append("/git-upload-pack");
    u
}

// ---------------------------------------------------------------------------
// Fetching a pack
// ---------------------------------------------------------------------------

/// Where fetching a pack from a remote stands.
pub enum FetchState {
    /// Nothing has been asked of the remote yet.
    Start,
    /// The refs advertisement has been asked for.
    AwaitRefs,
    /// The pack has been asked for; these are the advertised refs.
    AwaitPack(RefTable),
}

/// What happened since the last step.
pub enum FetchEvent {
    /// The fetch begins.
    Begin,
    /// The body of the remote's answer arrived.
    Body(Vec<u8>),
}

/// What to do next.
pub enum FetchAction {
    /// GET the URL and hand back the body of the answer.
    Get(String),
    /// POST the request to the URL as `application/x-git-upload-pack-request`
    /// and hand back the body of the answer.
    Post(String, Vec<u8>),
    /// The fetch is done: the pack data and the advertised refs.
    Done(Vec<u8>, RefTable),
    /// The fetch failed.
    Fail(GitError),
    /// Reading on is impossible: the refs advertisement has a length field
    /// below four, or its HEAD is too long for the `want` line to be counted.
    Abort,
}

/// What follows the refs advertisement `body` of the remote `url`: on to the
/// pack request with the refs it advertises, or the end of the fetch.
pub open spec fn after_refs(
    url: Seq<char>,
    body: Seq<u8>,
    next: FetchState,
    action: FetchAction,
) -> bool {
    match refs_outcome(body) {
        RefsOutcome::Failed(e) => next is Start && (action matches FetchAction::Fail(f) && f@ == e),
        RefsOutcome::Aborted => next is Start && action is Abort,
        RefsOutcome::Done(refs, _) => if want_fits(refs) {
            &&& next matches FetchState::AwaitPack(t) && t@ == refs
            &&& action matches FetchAction::Post(u, req) && u@ == trim_git_suffix(url)
                + "/git-upload-pack"@ && req@ == upload_request_spec(refs)
        } else {
            next is Start && action is Abort
        },
    }
}

/// One step of fetching a pack from the remote `url`: from where the fetch
/// stands and what happened, the next state and what to do. First the refs
/// advertisement is asked for, then the pack is requested with a `want` for
/// the advertised HEAD, and the answer to that is the pack.
pub fn fetch_step(url: &str, state: FetchState, event: FetchEvent) -> (r: (FetchState, FetchAction))
    requires
        (state is Start) == (event is Begin),
    ensures
        state is Start ==> {
            &&& r.0 is AwaitRefs
            &&& r.1 matches FetchAction::Get(u) && u@ == trim_git_suffix(url@)
                + "/info/refs?service=git-upload-pack"@
        },
        state is AwaitRefs ==> (event matches FetchEvent::Body(b) && after_refs(
            url@,
            b@,
            r.0,
            r.1,
        )),
        state matches FetchState::AwaitPack(refs) ==> {
            &&& r.0 is Start
            &&& event matches FetchEvent::Body(b) && r.1 matches FetchAction::Done(pack, t)
                && pack@ == b@ && t@ == refs@
        },
{
    match state {
        FetchState::Start => (FetchState::AwaitRefs, FetchAction::Get(info_refs_url(url))),
        FetchState::AwaitRefs => {
            let body = match event {
                FetchEvent::Body(b) => b,
                FetchEvent::Begin => {
                    return (FetchState::Start, FetchAction::Abort);
                },
            };
            let refs = match read_refs(body.as_slice()) {
                RefsRead::Done(refs, _) => refs,
                RefsRead::Failed(e) => {
                    return (FetchState::Start, FetchAction::Fail(e));
                },
                RefsRead::Aborted => {
                    return (FetchState::Start, FetchAction::Abort);
                },
            };
            let fits = match refs.get("HEAD") {
                Some(head) => {
                    let n = head.as_str().as_bytes().len();
                    proof {
                        lemma_want_len(head@);
                        assert(n == encode_utf8(head@).len());
                        assert(refs@["HEAD"@] == head@);
                    }
                    n <= usize::MAX - 10
                },
                None => true,
            };
            assert(fits == want_fits(refs@));
            if !fits {
                return (FetchState::Start, FetchAction::Abort);
            }
            let request = match build_upload_request(&refs) {
                Ok(req) => req,
                Err(e) => {
                    return (FetchState::Start, FetchAction::Fail(e));
                },
            };
            (FetchState::AwaitPack(refs), FetchAction::Post(upload_pack_url(url), request))
        },
        FetchState::AwaitPack(refs) => match event {
            FetchEvent::Body(pack) => (FetchState::Start, FetchAction::Done(pack, refs)),
            FetchEvent::Begin => (FetchState::Start, FetchAction::Abort),
        },
    }
}

/// The encoded `want` line for `head` is six bytes longer than `head`.
proof fn lemma_want_len(head: Seq<char>)
    ensures
        encode_utf8("want "@ + head + seq!['\n']).len() == encode_utf8(head).len() + 6,
{
    reveal_strlit("want ");
    let w = "want "@;
    crate::text::lemma_encode_concat(w + head, seq!['\n']);
    crate::text::lemma_encode_concat(w, head);
    assert(vstd::utf8::is_ascii_chars(w));
    vstd::utf8::is_ascii_chars_encode_utf8(w);
    assert(vstd::utf8::is_ascii_chars(seq!['\n']));
    vstd::utf8::is_ascii_chars_encode_utf8(seq!['\n']);
}

// ---------------------------------------------------------------------------
// Writing the clone
// ---------------------------------------------------------------------------

/// The file that records a ref of the repository cloned into `target_dir`,
/// and what it holds: the hash and a newline.
pub fn ref_file(target_dir: &str, ref_name: &str, sha: &str) -> (r: (String, String))
    ensures
        r.0@ == target_dir@ + "/.git/"@ + ref_name@,
        r.1@ == sha@ + seq!['\n'],
{
    let mut path = String::new();
    path.append(target_dir);
    path.append("/.git/");
    path.append(ref_name);
    let mut contents = String::new();
    contents.append(sha);
    push_char(&mut contents, '\n');
    (path, contents)
}

/// Reads the tree being checked out from its stored (compressed) bytes: the
/// header through its zero byte, then the entries, which are read and left
/// unused. Fails as those reads fail.
pub fn checkout_tree_entries(stored: &[u8]) -> (r: Result<(), GitError>)
    ensures
        r is Ok <==> (inflate_split(stored@).0 is Some && inflate_split(stored@).1 is Some),
        r matches Err(e) ==> e@ == GitErrorView::Io,
{
    let parts = inflate_parts(stored);
    match parts.header {
        Err(e) => Err(GitError::IoError(e)),
        Ok(_) => match parts.body {
            Some(Err(e)) => Err(GitError::IoError(e)),
            _ => Ok(()),
        },
    }
}

} // verus!
