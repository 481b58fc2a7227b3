//! Character and byte level text handling: whitespace, splitting, trimming,
//! decimal and hexadecimal rendering and parsing.

use vstd::prelude::*;
use vstd::string::StrSliceExecFns;
use vstd::utf8::*;

verus! {

// ---------------------------------------------------------------------------
// Whitespace
// ---------------------------------------------------------------------------

/// The Unicode `White_Space` property, the set of characters that
/// `char::is_whitespace` accepts.
pub open spec fn is_ws(c: char) -> bool {
    let v = c as u32;
    ||| (0x9 <= v && v <= 0xd)
    ||| v == 0x20
    ||| v == 0x85
    ||| v == 0xa0
    ||| v == 0x1680
    ||| (0x2000 <= v && v <= 0x200a)
    ||| v == 0x2028
    ||| v == 0x2029
    ||| v == 0x202f
    ||| v == 0x205f
    ||| v == 0x3000
}

/// Whether `c` is a Unicode whitespace character.
pub fn is_whitespace(c: char) -> (b: bool)
    ensures
        b == is_ws(c),
{
    let v = c as u32;
    (0x9 <= v && v <= 0xd) || v == 0x20 || v == 0x85 || v == 0xa0 || v == 0x1680 || (0x2000
        <= v && v <= 0x200a) || v == 0x2028 || v == 0x2029 || v == 0x202f || v == 0x205f || v
        == 0x3000
}

/// The words of `s`: its maximal runs of non-whitespace characters, in order.
pub open spec fn split_ws(s: Seq<char>) -> Seq<Seq<char>>
    decreases s.len(),
{
    if s.len() == 0 {
        Seq::empty()
    } else {
        let prev = split_ws(s.drop_last());
        let c = s.last();
        if is_ws(c) {
            prev
        } else if s.len() >= 2 && !is_ws(s[s.len() - 2]) {
            prev.drop_last().push(prev.last().push(c))
        } else {
            prev.push(seq![c])
        }
    }
}

/// A text whose last character is not whitespace has at least one word.
pub proof fn lemma_split_ws_nonempty(s: Seq<char>)
    requires
        s.len() > 0,
        !is_ws(s.last()),
    ensures
        split_ws(s).len() > 0,
    decreases s.len(),
{
    if s.len() >= 2 && !is_ws(s[s.len() - 2]) {
        lemma_split_ws_nonempty(s.drop_last());
    }
}

/// `s` with its leading whitespace removed.
pub open spec fn trim_start_ws(s: Seq<char>) -> Seq<char>
    decreases s.len(),
{
    if s.len() > 0 && is_ws(s[0]) {
        trim_start_ws(s.drop_first())
    } else {
        s
    }
}

/// `s` with its trailing whitespace removed.
pub open spec fn trim_end_ws(s: Seq<char>) -> Seq<char>
    decreases s.len(),
{
    if s.len() > 0 && is_ws(s.last()) {
        trim_end_ws(s.drop_last())
    } else {
        s
    }
}

/// `s` with whitespace removed at both ends, as `str::trim` does.
pub open spec fn trim_ws(s: Seq<char>) -> Seq<char> {
    trim_end_ws(trim_start_ws(s))
}

/// `s` with every trailing occurrence of `c` removed, as `str::trim_end_matches` does.
pub open spec fn trim_end_char(s: Seq<char>, c: char) -> Seq<char>
    decreases s.len(),
{
    if s.len() > 0 && s.last() == c {
        trim_end_char(s.drop_last(), c)
    } else {
        s
    }
}

// ---------------------------------------------------------------------------
// Strings and characters
// ---------------------------------------------------------------------------

/// Appends one character to a string (`String::push`).
#[verifier::external_body]
pub(crate) fn push_char(s: &mut String, c: char)
    ensures
        final(s)@ == old(s)@.push(c),
{
    s.push(c);
}

/// The characters of `s`, in order.
pub fn chars_of(s: &str) -> (v: Vec<char>)
    ensures
        v@ == s@,
{
    let n = s.unicode_len();
    let mut v: Vec<char> = Vec::new();
    let mut i: usize = 0;
    while i < n
        invariant
            n == s@.len(),
            i <= n,
            v@ == s@.take(i as int),
        decreases n - i,
    {
        let c = s.get_char(i);
        v.push(c);
        i = i + 1;
        assert(v@ =~= s@.take(i as int));
    }
    assert(v@ =~= s@);
    v
}

/// Appends the characters `cs` to `s`.
pub fn push_chars(s: &mut String, cs: &[char])
    ensures
        final(s)@ == old(s)@ + cs@,
{
    let mut i: usize = 0;
    while i < cs.len()
        invariant
            i <= cs@.len(),
            s@ == old(s)@ + cs@.take(i as int),
        decreases cs.len() - i,
    {
        push_char(s, cs[i]);
        i = i + 1;
        assert(s@ =~= old(s)@ + cs@.take(i as int));
    }
    assert(cs@.take(cs@.len() as int) =~= cs@);
}

/// A string holding the characters `cs`.
pub fn string_of(cs: &[char]) -> (s: String)
    ensures
        s@ == cs@,
{
    let mut s = String::new();
    push_chars(&mut s, cs);
    assert(s@ =~= cs@);
    s
}

/// Appends the bytes `b` to `v`.
pub fn push_bytes(v: &mut Vec<u8>, b: &[u8])
    ensures
        final(v)@ == old(v)@ + b@,
{
    let mut i: usize = 0;
    while i < b.len()
        invariant
            i <= b@.len(),
            v@ == old(v)@ + b@.take(i as int),
        decreases b.len() - i,
    {
        v.push(b[i]);
        i = i + 1;
        assert(v@ =~= old(v)@ + b@.take(i as int));
    }
    assert(b@.take(b@.len() as int) =~= b@);
}

/// The character views of a sequence of character vectors.
pub open spec fn words_view(v: Seq<Vec<char>>) -> Seq<Seq<char>> {
    Seq::new(v.len(), |i: int| v[i]@)
}

/// The words of `cs` (`str::split_whitespace`).
pub fn split_whitespace(cs: &[char]) -> (words: Vec<Vec<char>>)
    ensures
        words_view(words@) == split_ws(cs@),
{
    let mut words: Vec<Vec<char>> = Vec::new();
    let mut i: usize = 0;
    assert(words_view(words@) =~= split_ws(cs@.take(0)));
    while i < cs.len()
        invariant
            i <= cs@.len(),
            words_view(words@) == split_ws(cs@.take(i as int)),
        decreases cs.len() - i,
    {
        let c = cs[i];
        let ghost prev = cs@.take(i as int);
        let ghost before = words@;
        assert(cs@.take(i + 1).drop_last() =~= prev);
        assert(cs@.take(i + 1).last() == c);
        if is_whitespace(c) {
        } else if i >= 1 && !is_whitespace(cs[i - 1]) {
            proof {
                assert(prev.last() == cs@[i - 1]);
                lemma_split_ws_nonempty(prev);
                assert(cs@.take(i + 1)[i - 1] == cs@[i - 1]);
            }
            let mut last = words.pop().unwrap();
            let ghost rest = words@;
            assert(before =~= rest.push(last));
            assert(split_ws(prev).last() == last@) by {
                assert(words_view(before)[before.len() - 1] == before[before.len() - 1]@);
            }
            last.push(c);
            words.push(last);
            assert(words_view(words@) =~= split_ws(prev).drop_last().push(
                split_ws(prev).last().push(c),
            )) by {
                assert forall|j: int| 0 <= j < rest.len() implies words_view(words@)[j]
                    == split_ws(prev)[j] by {
                    assert(words_view(before)[j] == before[j]@);
                }
            }
        } else {
            let mut single: Vec<char> = Vec::new();
            single.push(c);
            assert(single@ =~= seq![c]);
            words.push(single);
            proof {
                assert(words_view(words@) =~= split_ws(prev).push(seq![c])) by {
                    assert forall|j: int| 0 <= j < before.len() implies words_view(words@)[j]
                        == split_ws(prev)[j] by {
                        assert(words_view(before)[j] == before[j]@);
                    }
                }
                if i >= 1 {
                    assert(cs@.take(i + 1)[i - 1] == cs@[i - 1]);
                }
            }
        }
        i = i + 1;
    }
    assert(cs@.take(cs@.len() as int) =~= cs@);
    words
}

/// `cs` without leading or trailing whitespace (`str::trim`).
pub fn trim_whitespace(cs: &[char]) -> (t: Vec<char>)
    ensures
        t@ == trim_ws(cs@),
{
    let mut lo: usize = 0;
    assert(cs@.skip(0) =~= cs@);
    while lo < cs.len() && is_whitespace(cs[lo])
        invariant
            lo <= cs@.len(),
            trim_start_ws(cs@) == trim_start_ws(cs@.skip(lo as int)),
        decreases cs.len() - lo,
    {
        assert(cs@.skip(lo as int).drop_first() =~= cs@.skip(lo + 1));
        lo = lo + 1;
    }
    let ghost mid = cs@.skip(lo as int);
    assert(trim_start_ws(mid) == mid);
    let mut hi: usize = cs.len();
    while hi > lo && is_whitespace(cs[hi - 1])
        invariant
            lo <= hi <= cs@.len(),
            mid == cs@.skip(lo as int),
            trim_end_ws(mid) == trim_end_ws(cs@.subrange(lo as int, hi as int)),
        decreases hi,
    {
        assert(cs@.subrange(lo as int, hi as int).drop_last() =~= cs@.subrange(
            lo as int,
            hi - 1,
        ));
        hi = hi - 1;
    }
    let mut t: Vec<char> = Vec::new();
    let mut k: usize = lo;
    while k < hi
        invariant
            lo <= k <= hi <= cs@.len(),
            t@ == cs@.subrange(lo as int, k as int),
        decreases hi - k,
    {
        t.push(cs[k]);
        k = k + 1;
        assert(t@ =~= cs@.subrange(lo as int, k as int));
    }
    assert(mid =~= cs@.subrange(lo as int, cs@.len() as int));
    t
}

/// `cs` without trailing occurrences of `c` (`str::trim_end_matches`).
pub fn trim_end_matching(cs: &[char], c: char) -> (t: Vec<char>)
    ensures
        t@ == trim_end_char(cs@, c),
{
    let mut hi: usize = cs.len();
    assert(cs@.take(hi as int) =~= cs@);
    while hi > 0 && cs[hi - 1] == c
        invariant
            hi <= cs@.len(),
            trim_end_char(cs@, c) == trim_end_char(cs@.take(hi as int), c),
        decreases hi,
    {
        assert(cs@.take(hi as int).drop_last() =~= cs@.take(hi - 1));
        hi = hi - 1;
    }
    let mut t: Vec<char> = Vec::new();
    let mut k: usize = 0;
    while k < hi
        invariant
            k <= hi <= cs@.len(),
            t@ == cs@.take(k as int),
        decreases hi - k,
    {
        t.push(cs[k]);
        k = k + 1;
        assert(t@ =~= cs@.take(k as int));
    }
    t
}

/// Whether two character sequences are equal.
pub fn chars_eq(a: &[char], b: &[char]) -> (r: bool)
    ensures
        r == (a@ == b@),
{
    if a.len() != b.len() {
        return false;
    }
    let mut i: usize = 0;
    while i < a.len()
        invariant
            a@.len() == b@.len(),
            i <= a@.len(),
            forall|j: int| 0 <= j < i ==> a@[j] == b@[j],
        decreases a.len() - i,
    {
        if a[i] != b[i] {
            return false;
        }
        i = i + 1;
    }
    assert(a@ =~= b@);
    true
}

// ---------------------------------------------------------------------------
// Decimal numbers
// ---------------------------------------------------------------------------

/// The ASCII digit for `d < 10`.
pub open spec fn digit_char(d: nat) -> char {
    (48 + d) as char
}

/// The decimal rendering of `n`, without leading zeros (`format!("{}", n)`).
pub open spec fn dec_chars(n: nat) -> Seq<char>
    decreases n,
{
    if n < 10 {
        seq![digit_char(n)]
    } else {
        dec_chars(n / 10).push(digit_char(n % 10))
    }
}

/// Appends the decimal rendering of `n` to `s`.
pub fn push_decimal(s: &mut String, n: u64)
    ensures
        final(s)@ == old(s)@ + dec_chars(n as nat),
    decreases n,
{
    if n >= 10 {
        push_decimal(s, n / 10);
    }
    let d: u8 = (n % 10) as u8;
    let c = (48u8 + d) as char;
    assert(c == digit_char((n % 10) as nat));
    push_char(s, c);
    assert(s@ =~= old(s)@ + dec_chars(n as nat));
}

/// Whether `c` is an ASCII decimal digit.
pub open spec fn is_digit(c: char) -> bool {
    48 <= (c as u32) && (c as u32) <= 57
}

/// The value of the ASCII digit `c`.
pub open spec fn digit_value(c: char) -> nat {
    ((c as u32) - 48) as nat
}

/// The value of a string of decimal digits.
pub open spec fn dec_value(d: Seq<char>) -> nat
    decreases d.len(),
{
    if d.len() == 0 {
        0
    } else {
        dec_value(d.drop_last()) * 10 + digit_value(d.last())
    }
}

/// Whether every character of `d` is a decimal digit.
pub open spec fn all_digits(d: Seq<char>) -> bool {
    forall|i: int| 0 <= i < d.len() ==> is_digit(#[trigger] d[i])
}

/// The digit part of an unsigned number: `s` without one leading `+`.
pub open spec fn unsigned_digits(s: Seq<char>) -> Seq<char> {
    if s.len() > 0 && s[0] == '+' {
        s.drop_first()
    } else {
        s
    }
}

/// What `str::parse::<u32>` gives for `s`: an optional `+` followed by at least
/// one decimal digit, with a value that fits in 32 bits.
pub open spec fn parse_u32_spec(s: Seq<char>) -> Option<u32> {
    let d = unsigned_digits(s);
    if d.len() > 0 && all_digits(d) && dec_value(d) <= u32::MAX {
        Some(dec_value(d) as u32)
    } else {
        None
    }
}

/// The value of a digit string never shrinks as digits are appended.
pub proof fn lemma_dec_value_grows(d: Seq<char>, k: int)
    requires
        0 <= k <= d.len(),
        all_digits(d),
    ensures
        dec_value(d.take(k)) <= dec_value(d),
    decreases d.len() - k,
{
    if k < d.len() {
        lemma_dec_value_grows(d, k + 1);
        assert(d.take(k + 1).drop_last() =~= d.take(k));
    } else {
        assert(d.take(k) =~= d);
    }
}

/// Parses a decimal `u32` as `str::parse::<u32>` does.
pub fn parse_u32(s: &[char]) -> (r: Option<u32>)
    ensures
        r == parse_u32_spec(s@),
{
    let start: usize = if s.len() > 0 && s[0] == '+' {
        1
    } else {
        0
    };
    let ghost d = s@.skip(start as int);
    assert(d =~= unsigned_digits(s@));
    if start >= s.len() {
        return None;
    }
    let mut acc: u64 = 0;
    let mut i: usize = start;
    while i < s.len()
        invariant
            start <= i <= s@.len(),
            start < s@.len(),
            d == s@.skip(start as int),
            d == unsigned_digits(s@),
            all_digits(s@.subrange(start as int, i as int)),
            acc == dec_value(s@.subrange(start as int, i as int)),
            acc <= u32::MAX,
        decreases s.len() - i,
    {
        let c = s[i];
        let v = c as u32;
        let ghost pre = s@.subrange(start as int, i as int);
        let ghost next = s@.subrange(start as int, i + 1);
        assert(next.drop_last() =~= pre);
        assert(d[i - start] == c);
        assert(next.last() == c);
        if v < 48 || v > 57 {
            assert(!is_digit(d[i - start]));
            return None;
        }
        assert(all_digits(next)) by {
            assert forall|j: int| 0 <= j < next.len() implies is_digit(#[trigger] next[j]) by {
                if j < pre.len() {
                    assert(next[j] == pre[j]);
                }
            }
        }
        acc = acc * 10 + (v - 48) as u64;
        assert(acc == dec_value(next));
        if acc > 0xffff_ffff {
            proof {
                assert(d.take(i + 1 - start) =~= next);
                if all_digits(d) {
                    lemma_dec_value_grows(d, i + 1 - start);
                }
            }
            return None;
        }
        i = i + 1;
    }
    assert(s@.subrange(start as int, s@.len() as int) =~= d);
    Some(acc as u32)
}

// ---------------------------------------------------------------------------
// Hexadecimal numbers
// ---------------------------------------------------------------------------

/// The lower-case hexadecimal digit for `d < 16`.
pub open spec fn hex_digit(d: nat) -> char {
    if d < 10 {
        (48 + d) as char
    } else {
        (87 + d) as char
    }
}

/// The two lower-case hexadecimal digits of one byte (`format!("{:02x}", b)`).
pub open spec fn hex_byte(b: u8) -> Seq<char> {
    seq![hex_digit((b / 16) as nat), hex_digit((b % 16) as nat)]
}

/// The lower-case hexadecimal rendering of `bytes`, two digits per byte.
pub open spec fn hex_chars(bytes: Seq<u8>) -> Seq<char>
    decreases bytes.len(),
{
    if bytes.len() == 0 {
        Seq::empty()
    } else {
        hex_chars(bytes.drop_last()) + hex_byte(bytes.last())
    }
}

/// Whether `c` is a lower-case hexadecimal digit.
pub open spec fn is_lower_hex(c: char) -> bool {
    ('0' <= c && c <= '9') || ('a' <= c && c <= 'f')
}

/// The hexadecimal rendering has two digits per byte, all lower-case.
pub proof fn lemma_hex_chars_shape(bytes: Seq<u8>)
    ensures
        hex_chars(bytes).len() == 2 * bytes.len(),
        forall|i: int| 0 <= i < hex_chars(bytes).len() ==> is_lower_hex(#[trigger] hex_chars(bytes)[i]),
    decreases bytes.len(),
{
    if bytes.len() > 0 {
        lemma_hex_chars_shape(bytes.drop_last());
        let b = bytes.last();
        assert(is_lower_hex(hex_digit((b / 16) as nat)));
        assert(is_lower_hex(hex_digit((b % 16) as nat)));
    }
}

/// The character of the hexadecimal digit `d < 16`.
fn hex_digit_exec(d: u8) -> (c: char)
    requires
        d < 16,
    ensures
        c == hex_digit(d as nat),
{
    if d < 10 {
        (48u8 + d) as char
    } else {
        (87u8 + d) as char
    }
}

/// The lower-case hexadecimal rendering of `bytes`.
pub fn to_hex(bytes: &[u8]) -> (s: String)
    ensures
        s@ == hex_chars(bytes@),
{
    let mut s = String::new();
    let mut i: usize = 0;
    while i < bytes.len()
        invariant
            i <= bytes@.len(),
            s@ == hex_chars(bytes@.take(i as int)),
        decreases bytes.len() - i,
    {
        let b = bytes[i];
        push_char(&mut s, hex_digit_exec(b / 16));
        push_char(&mut s, hex_digit_exec(b % 16));
        assert(bytes@.take(i + 1).drop_last() =~= bytes@.take(i as int));
        i = i + 1;
        assert(s@ =~= hex_chars(bytes@.take(i as int)));
    }
    assert(bytes@.take(bytes@.len() as int) =~= bytes@);
    s
}

/// The lower-case hexadecimal rendering of `n`, without leading zeros.
pub open spec fn hex_num(n: nat) -> Seq<char>
    decreases n,
{
    if n < 16 {
        seq![hex_digit(n)]
    } else {
        hex_num(n / 16).push(hex_digit(n % 16))
    }
}

/// `s` padded on the left with `0` up to four characters (`{:04x}`).
pub open spec fn pad4(s: Seq<char>) -> Seq<char> {
    if s.len() < 4 {
        Seq::new((4 - s.len()) as nat, |i: int| '0') + s
    } else {
        s
    }
}

/// Appends the lower-case hexadecimal rendering of `n` to `v`, as ASCII bytes.
fn push_hex_num_bytes(v: &mut Vec<u8>, n: usize)
    ensures
        final(v)@ == old(v)@ + ascii_bytes(hex_num(n as nat)),
    decreases n,
{
    if n >= 16 {
        push_hex_num_bytes(v, n / 16);
    }
    let d: u8 = (n % 16) as u8;
    let b: u8 = if d < 10 {
        48 + d
    } else {
        87 + d
    };
    v.push(b);
    proof {
        let h = hex_num(n as nat);
        if n >= 16 {
            assert(h == hex_num((n / 16) as nat).push(hex_digit((n % 16) as nat)));
            lemma_ascii_bytes_push(hex_num((n / 16) as nat), hex_digit((n % 16) as nat));
        } else {
            assert(h =~= seq![hex_digit(n as nat)]);
            lemma_ascii_bytes_push(Seq::empty(), hex_digit(n as nat));
            assert(Seq::<char>::empty().push(hex_digit(n as nat)) =~= h);
        }
    }
    assert(v@ =~= old(v)@ + ascii_bytes(hex_num(n as nat)));
}

/// Appends `{:04x}` of `n` to `v`, as ASCII bytes.
pub fn push_hex4_bytes(v: &mut Vec<u8>, n: usize)
    ensures
        final(v)@ == old(v)@ + ascii_bytes(pad4(hex_num(n as nat))),
{
    let ghost h = hex_num(n as nat);
    let mut digits: Vec<u8> = Vec::new();
    push_hex_num_bytes(&mut digits, n);
    assert(digits@ =~= ascii_bytes(h));
    let mut k: usize = digits.len();
    while k < 4
        invariant
            digits@.len() <= k <= 4 || (k == digits@.len() && k > 4),
            digits@.len() == h.len(),
            v@ == old(v)@ + Seq::new((k - digits@.len()) as nat, |i: int| 48u8),
        decreases 4 - k,
    {
        v.push(48u8);
        k = k + 1;
        assert(v@ =~= old(v)@ + Seq::new((k - digits@.len()) as nat, |i: int| 48u8));
    }
    let ghost padded = v@;
    push_bytes(v, digits.as_slice());
    proof {
        if h.len() < 4 {
            let zeros = Seq::new((4 - h.len()) as nat, |i: int| '0');
            lemma_ascii_bytes_concat(zeros, h);
            assert(ascii_bytes(zeros) =~= Seq::new((4 - h.len()) as nat, |i: int| 48u8));
            assert(v@ =~= old(v)@ + ascii_bytes(pad4(h)));
        } else {
            assert(Seq::new((k - digits@.len()) as nat, |i: int| 48u8) =~= Seq::<u8>::empty());
            assert(v@ =~= old(v)@ + ascii_bytes(pad4(h)));
        }
    }
}

// ---------------------------------------------------------------------------
// ASCII text as bytes
// ---------------------------------------------------------------------------

/// The one-byte codes of the characters of `s` (meaningful for ASCII text).
pub open spec fn ascii_bytes(s: Seq<char>) -> Seq<u8> {
    Seq::new(s.len(), |i: int| s[i] as u8)
}

/// `ascii_bytes` maps `push` to `push`.
pub proof fn lemma_ascii_bytes_push(s: Seq<char>, c: char)
    ensures
        ascii_bytes(s.push(c)) == ascii_bytes(s).push(c as u8),
{
    assert(ascii_bytes(s.push(c)) =~= ascii_bytes(s).push(c as u8));
}

/// `ascii_bytes` maps concatenation to concatenation.
pub proof fn lemma_ascii_bytes_concat(a: Seq<char>, b: Seq<char>)
    ensures
        ascii_bytes(a + b) == ascii_bytes(a) + ascii_bytes(b),
{
    assert(ascii_bytes(a + b) =~= ascii_bytes(a) + ascii_bytes(b));
}

// ---------------------------------------------------------------------------
// UTF-8
// ---------------------------------------------------------------------------

/// The message of the error that `String::from_utf8` reports for `bytes`.
pub uninterp spec fn utf8_error_text(bytes: Seq<u8>) -> Seq<char>;

/// Calls `String::from_utf8`, turning its error into its message. Trusted:
/// it succeeds exactly on valid UTF-8 and then holds the decoded characters;
/// otherwise the message is `utf8_error_text(bytes)`.
#[verifier::external_body]
pub(crate) fn string_from_utf8(bytes: Vec<u8>) -> (r: Result<String, String>)
    ensures
        match r {
            Ok(s) => valid_utf8(bytes@) && s@ == decode_utf8(bytes@),
            Err(m) => !valid_utf8(bytes@) && m@ == utf8_error_text(bytes@),
        },
{
    match String::from_utf8(bytes) {
        Ok(s) => Ok(s),
        Err(e) => Err(e.to_string()),
    }
}

/// Encoding a concatenation encodes each part in turn.
pub proof fn lemma_encode_concat(a: Seq<char>, b: Seq<char>)
    ensures
        encode_utf8(a + b) == encode_utf8(a) + encode_utf8(b),
    decreases a.len(),
{
    if a.len() == 0 {
        assert(a + b =~= b);
    } else {
        lemma_encode_concat(a.drop_first(), b);
        assert((a + b).drop_first() =~= a.drop_first() + b);
        assert((a + b)[0] == a[0]);
    }
}

/// Whether `s` holds no NUL character.
pub open spec fn no_nul_char(s: Seq<char>) -> bool {
    forall|i: int| 0 <= i < s.len() ==> #[trigger] s[i] != '\0'
}

/// Whether `s` holds no zero byte.
pub open spec fn no_zero_byte(s: Seq<u8>) -> bool {
    forall|i: int| 0 <= i < s.len() ==> #[trigger] s[i] != 0
}

/// The encoding of one character other than NUL holds no zero byte.
proof fn lemma_encode_scalar_no_zero(c: char)
    requires
        c != '\0',
    ensures
        no_zero_byte(encode_scalar(c as u32)),
{
    let v = c as u32;
    assert(v != 0);
    assert(0 < v <= 0x7f ==> (v & 0x7f) as u8 != 0) by (bit_vector);
    assert(0xC0u8 | ((v >> 6) & 0x1F) as u8 != 0) by (bit_vector);
    assert(0xE0u8 | ((v >> 12) & 0x0F) as u8 != 0) by (bit_vector);
    assert(0xF0u8 | ((v >> 18) & 0x7) as u8 != 0) by (bit_vector);
    assert(0x80u8 | (v & 0x3F) as u8 != 0) by (bit_vector);
    assert(0x80u8 | ((v >> 6) & 0x3F) as u8 != 0) by (bit_vector);
    assert(0x80u8 | ((v >> 12) & 0x3F) as u8 != 0) by (bit_vector);
}

/// Text without NUL characters encodes to bytes without zero bytes.
pub proof fn lemma_encode_no_zero(s: Seq<char>)
    requires
        no_nul_char(s),
    ensures
        no_zero_byte(encode_utf8(s)),
    decreases s.len(),
{
    if s.len() > 0 {
        assert(s[0] != '\0');
        lemma_encode_scalar_no_zero(s[0]);
        assert(no_nul_char(s.drop_first())) by {
            assert forall|i: int| 0 <= i < s.drop_first().len() implies #[trigger] s.drop_first()[i]
                != '\0' by {
                assert(s.drop_first()[i] == s[i + 1]);
            }
        }
        lemma_encode_no_zero(s.drop_first());
        let e1 = encode_scalar(s[0] as u32);
        let e2 = encode_utf8(s.drop_first());
        assert forall|i: int| 0 <= i < (e1 + e2).len() implies #[trigger] (e1 + e2)[i] != 0 by {
            if i < e1.len() {
                assert((e1 + e2)[i] == e1[i]);
            } else {
                assert((e1 + e2)[i] == e2[i - e1.len()]);
            }
        }
    }
}

// ---------------------------------------------------------------------------
// Facts about words and numbers
// ---------------------------------------------------------------------------

/// Whether `s` holds no whitespace.
pub open spec fn no_ws(s: Seq<char>) -> bool {
    forall|i: int| 0 <= i < s.len() ==> !is_ws(#[trigger] s[i])
}

/// A non-empty text without whitespace is a single word.
pub proof fn lemma_split_ws_word(w: Seq<char>)
    requires
        w.len() > 0,
        no_ws(w),
    ensures
        split_ws(w) == seq![w],
    decreases w.len(),
{
    if w.len() == 1 {
        assert(w.drop_last() =~= Seq::<char>::empty());
        assert(!is_ws(w[0]));
        assert(seq![w.last()] =~= w);
        assert(split_ws(w.drop_last()) =~= Seq::<Seq<char>>::empty());
        assert(split_ws(w) =~= seq![w]);
    } else {
        let p = w.drop_last();
        assert(no_ws(p)) by {
            assert forall|i: int| 0 <= i < p.len() implies !is_ws(#[trigger] p[i]) by {
                assert(p[i] == w[i]);
            }
        }
        lemma_split_ws_word(p);
        assert(!is_ws(w[w.len() - 2]));
        assert(!is_ws(w.last()));
        assert(p.push(w.last()) =~= w);
        assert(split_ws(w) =~= seq![w]);
    }
}

/// Words never span a whitespace character.
pub proof fn lemma_split_ws_sep(a: Seq<char>, c: char, b: Seq<char>)
    requires
        is_ws(c),
    ensures
        split_ws(a + seq![c] + b) == split_ws(a) + split_ws(b),
    decreases b.len(),
{
    let s = a + seq![c] + b;
    if b.len() == 0 {
        assert(s.drop_last() =~= a);
        assert(s.last() == c);
        assert(split_ws(b) =~= Seq::<Seq<char>>::empty());
        assert(split_ws(a) + split_ws(b) =~= split_ws(a));
    } else {
        let b1 = b.drop_last();
        let x = b.last();
        lemma_split_ws_sep(a, c, b1);
        assert(s.drop_last() =~= a + seq![c] + b1);
        assert(s.last() == x);
        let prev = split_ws(a + seq![c] + b1);
        assert(prev == split_ws(a) + split_ws(b1));
        if is_ws(x) {
        } else if b1.len() >= 1 && !is_ws(b1.last()) {
            assert(s[s.len() - 2] == b1.last());
            assert(b[b.len() - 2] == b1.last());
            lemma_split_ws_nonempty(b1);
            assert(split_ws(b) == split_ws(b1).drop_last().push(split_ws(b1).last().push(x)));
            assert(prev.last() == split_ws(b1).last());
            assert(prev.drop_last() =~= split_ws(a) + split_ws(b1).drop_last());
            assert(split_ws(s) =~= split_ws(a) + split_ws(b));
        } else {
            if b1.len() >= 1 {
                assert(s[s.len() - 2] == b1.last());
                assert(b[b.len() - 2] == b1.last());
            } else {
                assert(s[s.len() - 2] == c);
                assert(split_ws(b1) =~= Seq::<Seq<char>>::empty());
            }
            assert(split_ws(b) == split_ws(b1).push(seq![x]));
            assert(split_ws(s) =~= split_ws(a) + split_ws(b));
        }
    }
}

/// The decimal rendering of `n` is a non-empty digit string whose value is `n`.
pub proof fn lemma_dec_chars(n: nat)
    ensures
        dec_chars(n).len() > 0,
        all_digits(dec_chars(n)),
        no_ws(dec_chars(n)),
        no_nul_char(dec_chars(n)),
        dec_value(dec_chars(n)) == n,
    decreases n,
{
    let d = dec_chars(n);
    let c = digit_char(n % 10);
    assert((c as u32) == 48 + n % 10);
    assert(digit_value(c) == n % 10);
    if n < 10 {
        assert(d =~= seq![c]);
        assert(d.drop_last() =~= Seq::<char>::empty());
        assert(d.last() == c);
        assert(dec_value(d) == dec_value(d.drop_last()) * 10 + digit_value(c));
    } else {
        lemma_dec_chars(n / 10);
        let p = dec_chars(n / 10);
        assert(d == p.push(c));
        assert(d.drop_last() =~= p);
        assert(d.last() == c);
        assert(dec_value(d) == dec_value(p) * 10 + digit_value(c));
        assert(n == (n / 10) * 10 + n % 10);
        assert forall|i: int| 0 <= i < d.len() implies is_digit(#[trigger] d[i]) && !is_ws(d[i])
            && d[i] != '\0' by {
            if i < p.len() {
                assert(d[i] == p[i]);
                assert(is_digit(p[i]));
            }
        }
    }
}

/// A digit string that does not start with `0` has a positive value.
proof fn lemma_leading_digit_positive(d: Seq<char>)
    requires
        d.len() > 0,
        all_digits(d),
        d[0] != '0',
    ensures
        dec_value(d) > 0,
    decreases d.len(),
{
    if d.len() == 1 {
        assert(d.drop_last() =~= Seq::<char>::empty());
        assert(d.last() == d[0]);
        assert(is_digit(d[0]));
        vstd::utf8::char_u32_cast(d[0], d[0] as u32);
        vstd::utf8::char_u32_cast('0', '0' as u32);
    } else {
        let p = d.drop_last();
        assert(p[0] == d[0]);
        assert(all_digits(p)) by {
            assert forall|i: int| 0 <= i < p.len() implies is_digit(#[trigger] p[i]) by {
                assert(p[i] == d[i]);
            }
        }
        lemma_leading_digit_positive(p);
    }
}

/// The decimal rendering is canonical: for every digit string `d` of value
/// `n` that is `0` itself or has no leading zero, `dec_chars(n)` is `d`. So
/// `n` is written with exactly the digits `format!("{}", n)` writes.
pub proof fn lemma_dec_chars_canonical(n: nat, d: Seq<char>)
    requires
        d.len() > 0,
        all_digits(d),
        d.len() == 1 || d[0] != '0',
        dec_value(d) == n,
    ensures
        dec_chars(n) == d,
    decreases d.len(),
{
    let c = d.last();
    assert(is_digit(c));
    let p = d.drop_last();
    assert(dec_value(d) == dec_value(p) * 10 + digit_value(c));
    assert(digit_value(c) < 10);
    if d.len() == 1 {
        assert(p =~= Seq::<char>::empty());
        assert(n == digit_value(c));
        vstd::utf8::char_u32_cast(c, c as u32);
        assert(digit_char(n) == c);
        assert(dec_chars(n) =~= d);
    } else {
        assert(p[0] == d[0]);
        assert(all_digits(p)) by {
            assert forall|i: int| 0 <= i < p.len() implies is_digit(#[trigger] p[i]) by {
                assert(p[i] == d[i]);
            }
        }
        lemma_leading_digit_positive(p);
        assert(n >= 10);
        assert(n / 10 == dec_value(p) && n % 10 == digit_value(c)) by (nonlinear_arith)
            requires
                n == dec_value(p) * 10 + digit_value(c),
                digit_value(c) < 10,
        ;
        lemma_dec_chars_canonical(n / 10, p);
        vstd::utf8::char_u32_cast(c, c as u32);
        assert(digit_char(n % 10) == c);
        assert(dec_chars(n) =~= p.push(c));
        assert(p.push(c) =~= d);
    }
}

/// Numbers are written without leading zeros: a positive number's rendering
/// starts with a non-zero digit, and zero is written `0`.
pub proof fn lemma_dec_chars_no_leading_zero(n: nat)
    ensures
        n > 0 ==> dec_chars(n)[0] != '0',
        dec_chars(0) == seq!['0'],
    decreases n,
{
    assert(dec_chars(0) =~= seq!['0']);
    if n >= 10 {
        lemma_dec_chars_no_leading_zero(n / 10);
        lemma_dec_chars(n / 10);
        assert(dec_chars(n)[0] == dec_chars(n / 10)[0]);
    } else if n > 0 {
        assert((digit_char(n) as u32) != 48);
    }
}

/// The value of a lower-case hexadecimal digit.
pub open spec fn hex_char_value(c: char) -> int {
    if (c as u32) <= 57 {
        (c as u32) - 48
    } else {
        (c as u32) - 87
    }
}

/// The hexadecimal rendering shows each byte, in order, as two digits: the
/// high four bits, then the low four bits.
pub proof fn lemma_hex_chars_values(bytes: Seq<u8>)
    ensures
        hex_chars(bytes).len() == 2 * bytes.len(),
        forall|i: int|
            0 <= i < bytes.len() ==> hex_char_value(#[trigger] hex_chars(bytes)[2 * i]) == bytes[i]
                / 16 && hex_char_value(hex_chars(bytes)[2 * i + 1]) == bytes[i] % 16,
    decreases bytes.len(),
{
    lemma_hex_chars_shape(bytes);
    if bytes.len() > 0 {
        let p = bytes.drop_last();
        lemma_hex_chars_values(p);
        let b = bytes.last();
        let h = hex_chars(bytes);
        assert(h == hex_chars(p) + hex_byte(b));
        assert forall|i: int| 0 <= i < bytes.len() implies hex_char_value(#[trigger] h[2 * i])
            == bytes[i] / 16 && hex_char_value(h[2 * i + 1]) == bytes[i] % 16 by {
            if i < p.len() {
                assert(p[i] == bytes[i]);
                assert(h[2 * i] == hex_chars(p)[2 * i]);
                assert(h[2 * i + 1] == hex_chars(p)[2 * i + 1]);
            } else {
                assert(i == p.len());
                assert(h[2 * i] == hex_digit((b / 16) as nat));
                assert(h[2 * i + 1] == hex_digit((b % 16) as nat));
                let hi = (b / 16) as nat;
                let lo = (b % 16) as nat;
                if hi < 10 {
                    assert((hex_digit(hi) as u32) == 48 + hi);
                } else {
                    assert((hex_digit(hi) as u32) == 87 + hi);
                }
                if lo < 10 {
                    assert((hex_digit(lo) as u32) == 48 + lo);
                } else {
                    assert((hex_digit(lo) as u32) == 87 + lo);
                }
            }
        }
    }
}

/// Removing trailing NULs from a text with a NUL appended gives the text back,
/// when the text does not end in NUL.
pub proof fn lemma_trim_appended_nul(s: Seq<char>)
    requires
        s.len() > 0,
        s.last() != '\0',
    ensures
        trim_end_char(s + seq!['\0'], '\0') == s,
{
    assert((s + seq!['\0']).drop_last() =~= s);
    assert(trim_end_char(s, '\0') == s);
}

/// Characterizes `first_nul` by the position it reports.
pub proof fn lemma_first_nul_at(s: Seq<u8>, k: int)
    requires
        0 <= k < s.len(),
        s[k] == 0,
        forall|j: int| 0 <= j < k ==> s[j] != 0,
    ensures
        crate::zlib::first_nul(s) == Some(k as nat),
    decreases k,
{
    if k > 0 {
        assert forall|j: int| 0 <= j < k - 1 implies s.drop_first()[j] != 0 by {
            assert(s.drop_first()[j] == s[j + 1]);
        }
        lemma_first_nul_at(s.drop_first(), k - 1);
    }
}

/// `first_nul` finds nothing in a text without zero bytes.
pub proof fn lemma_first_nul_none(s: Seq<u8>)
    requires
        no_zero_byte(s),
    ensures
        crate::zlib::first_nul(s) == None::<nat>,
    decreases s.len(),
{
    if s.len() > 0 {
        assert(no_zero_byte(s.drop_first())) by {
            assert forall|j: int| 0 <= j < s.drop_first().len() implies #[trigger] s.drop_first()[j]
                != 0 by {
                assert(s.drop_first()[j] == s[j + 1]);
            }
        }
        lemma_first_nul_none(s.drop_first());
        assert(s[0] != 0);
    }
}

/// `first_nul` reports a zero byte with no zero byte before it.
pub proof fn lemma_first_nul_some(s: Seq<u8>)
    ensures
        crate::zlib::first_nul(s) matches Some(k) ==> k < s.len() && s[k as int] == 0 && forall|
            j: int,
        | 0 <= j < k ==> s[j] != 0,
        crate::zlib::first_nul(s) is None ==> no_zero_byte(s),
    decreases s.len(),
{
    if s.len() > 0 {
        lemma_first_nul_some(s.drop_first());
        match crate::zlib::first_nul(s.drop_first()) {
            Some(k) => {
                if s[0] != 0 {
                    assert forall|j: int| 0 <= j < k + 1 implies s[j] != 0 by {
                        if j > 0 {
                            assert(s[j] == s.drop_first()[j - 1]);
                        }
                    }
                }
            },
            None => {
                if s[0] != 0 {
                    assert forall|j: int| 0 <= j < s.len() implies #[trigger] s[j] != 0 by {
                        if j > 0 {
                            assert(s[j] == s.drop_first()[j - 1]);
                        }
                    }
                }
            },
        }
    }
}

} // verus!
