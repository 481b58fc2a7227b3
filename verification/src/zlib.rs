//! zlib compression and decompression, through `flate2`.

use std::io::{BufRead, Read, Write};

use vstd::prelude::*;

verus! {

/// The position of the first zero byte of `s`, if any.
pub open spec fn first_nul(s: Seq<u8>) -> Option<nat>
    decreases s.len(),
{
    if s.len() == 0 {
        None
    } else if s[0] == 0 {
        Some(0)
    } else {
        match first_nul(s.drop_first()) {
            Some(i) => Some(i + 1),
            None => None,
        }
    }
}

/// What `read_until(0, ..)` reads from a stream holding `s`: everything up to
/// and including the first zero byte, or all of `s` when it has none.
pub open spec fn through_first_nul(s: Seq<u8>) -> Seq<u8> {
    match first_nul(s) {
        Some(i) => s.take(i as int + 1),
        None => s,
    }
}

/// What is left of `s` after `through_first_nul(s)`.
pub open spec fn after_first_nul(s: Seq<u8>) -> Seq<u8> {
    match first_nul(s) {
        Some(i) => s.skip(i as int + 1),
        None => Seq::empty(),
    }
}

/// The zlib stream that `flate2::write::ZlibEncoder` at the default level
/// produces for `data`.
pub uninterp spec fn zlib_compress(data: Seq<u8>) -> Seq<u8>;

/// What reading a zlib-compressed `stored` gives: the bytes up to and
/// including the first zero byte (`read_until(0, ..)`), then the rest
/// (`read_to_end`); `None` where the read fails.
pub uninterp spec fn inflate_split(stored: Seq<u8>) -> (Option<Seq<u8>>, Option<Seq<u8>>);

/// What `read_to_end` over a `flate2::bufread::ZlibDecoder` on the slice
/// `data` gives: the decompressed bytes of the zlib stream at the front of
/// `data` and how many bytes of `data` follow that stream, or the text of the
/// error.
pub uninterp spec fn inflate_prefix(data: Seq<u8>) -> Result<(Seq<u8>, nat), Seq<char>>;

/// The two reads of a compressed object: the header through its terminating
/// zero byte, then, when that succeeded, the rest.
pub struct InflatedParts {
    pub header: Result<Vec<u8>, std::io::Error>,
    pub body: Option<Result<Vec<u8>, std::io::Error>>,
}

/// Whether `c` is a complete zlib stream of `data`: decoding `c` followed by
/// any bytes gives `data` and stops just past `c`.
pub open spec fn stream_of(c: Seq<u8>, data: Seq<u8>) -> bool {
    forall|rest: Seq<u8>|
        #[trigger] inflate_prefix(c + rest) == Ok::<(Seq<u8>, nat), Seq<char>>(
            (data, rest.len()),
        )
}

/// Compresses `data` with `flate2::write::ZlibEncoder` at
/// `Compression::default()` (`write_all`, then `finish`). Trusted: writing
/// into a `Vec` does not fail; the result is `zlib_compress(data)`, and
/// decompressing it gives `data` back, read either as `inflate_split`
/// describes or, followed by any bytes, by the slice decoder, which stops
/// just past the stream.
#[verifier::external_body]
pub(crate) fn compress(data: &[u8]) -> (r: Result<Vec<u8>, std::io::Error>)
    ensures
        r is Ok,
        r matches Ok(c) ==> {
            &&& c@ == zlib_compress(data@)
            &&& inflate_split(c@) == (Some(through_first_nul(data@)), Some(
                after_first_nul(data@),
            ))
            &&& stream_of(c@, data@)
        },
{
    let mut encoder = flate2::write::ZlibEncoder::new(Vec::new(), flate2::Compression::default());
    encoder.write_all(data)?;
    encoder.finish()
}

/// Reads a compressed object: wraps `stored` in `flate2::read::ZlibDecoder`
/// and a `std::io::BufReader`, calls `read_until(0, ..)`, then, if that
/// succeeded, `read_to_end`. Trusted: what is read is `inflate_split(stored)`.
#[verifier::external_body]
pub(crate) fn inflate_parts(stored: &[u8]) -> (r: InflatedParts)
    ensures
        (r.header is Ok) == (inflate_split(stored@).0 is Some),
        r.header matches Ok(h) ==> h@ == inflate_split(stored@).0.unwrap(),
        (r.body is Some) == (r.header is Ok),
        r.body matches Some(b) ==> (b is Ok) == (inflate_split(stored@).1 is Some),
        r.body matches Some(Ok(b)) ==> b@ == inflate_split(stored@).1.unwrap(),
{
    let mut reader = std::io::BufReader::new(flate2::read::ZlibDecoder::new(stored));
    let mut header = Vec::new();
    match reader.read_until(0, &mut header) {
        Err(e) => InflatedParts { header: Err(e), body: None },
        Ok(_) => {
            let mut body = Vec::new();
            let body = match reader.read_to_end(&mut body) {
                Ok(_) => Ok(body),
                Err(e) => Err(e),
            };
            InflatedParts { header: Ok(header), body: Some(body) }
        },
    }
}

/// Decompresses the zlib stream at the start of `data` with
/// `flate2::bufread::ZlibDecoder` over the slice and `read_to_end`, and
/// reports how long the slice still is (`get_ref().len()`): the decoder reads
/// one zlib stream and consumes nothing past it. Trusted: the result is
/// `inflate_prefix(data)`; what is left is never longer than `data`.
#[verifier::external_body]
pub(crate) fn inflate_front(data: &[u8]) -> (r: Result<(Vec<u8>, usize), String>)
    ensures
        match r {
            Ok((out, left)) => inflate_prefix(data@) == Ok::<(Seq<u8>, nat), Seq<char>>(
                (out@, left as nat),
            ) && left <= data.len(),
            Err(msg) => inflate_prefix(data@) == Err::<(Seq<u8>, nat), Seq<char>>(msg@),
        },
{
    let mut decoder = flate2::bufread::ZlibDecoder::new(data);
    let mut out = Vec::new();
    match decoder.read_to_end(&mut out) {
        Ok(_) => Ok((out, decoder.get_ref().len())),
        Err(e) => Err(e.to_string()),
    }
}

} // verus!
