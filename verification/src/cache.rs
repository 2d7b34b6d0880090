//! Contents of cache files: gzip, or plain where an older file holds plain bytes.

use std::io::Read;
use std::io::Write;
use vstd::prelude::*;

verus! {

/// What `flate2::read::GzDecoder` reads from bytes; none where it returns an error.
pub uninterp spec fn gunzipped(bytes: Seq<u8>) -> Option<Seq<u8>>;

/// `flate2::read::GzDecoder` read to its end: what it gives, and whether it fails, rests on the
/// bytes alone.
#[verifier::external_body]
fn gunzip(bytes: &[u8]) -> (r: Option<Vec<u8>>)
    ensures
        match r {
            Some(b) => gunzipped(bytes@) == Some(b@),
            None => gunzipped(bytes@) is None,
        },
{
    let mut out = Vec::new();
    flate2::read::GzDecoder::new(bytes).read_to_end(&mut out).ok().map(|_| out)
}

/// What `flate2::write::GzEncoder` writes into a vector for bytes, at the default level; none where
/// it returns an error.
pub uninterp spec fn gzipped(data: Seq<u8>) -> Option<Seq<u8>>;

/// `flate2::write::GzEncoder` over a vector, at the default level: what it writes, and whether it
/// fails, rests on the bytes alone, and what it writes is read back by `flate2::read::GzDecoder` as
/// the same bytes.
#[verifier::external_body]
fn gzip(data: &[u8]) -> (r: Option<Vec<u8>>)
    ensures
        match r {
            Some(b) => gzipped(data@) == Some(b@),
            None => gzipped(data@) is None,
        },
        r matches Some(b) ==> gunzipped(b@) == Some(data@),
{
    let mut enc = flate2::write::GzEncoder::new(Vec::new(), flate2::Compression::default());
    enc.write_all(data).ok()?;
    enc.finish().ok()
}

/// What a cache file holds: the bytes that were compressed into it, or its own bytes where it is not
/// gzip.
pub open spec fn cache_contents(file: Seq<u8>) -> Seq<u8> {
    match gunzipped(file) {
        Some(b) => b,
        None => file,
    }
}

/// The bytes of a cache file for `json`: gzip, whatever `json` holds, which [`read_gzip_cache`] reads
/// back as `json`. None where the encoder fails.
pub fn write_gzip_cache(json: &[u8]) -> (r: Option<Vec<u8>>)
    ensures
        match r {
            Some(file) => gzipped(json@) == Some(file@),
            None => gzipped(json@) is None,
        },
        r matches Some(file) ==> gunzipped(file@) == Some(json@),
        r matches Some(file) ==> cache_contents(file@) == json@,
{
    gzip(json)
}

/// What a cache file holds.
pub fn read_gzip_cache(file: &[u8]) -> (r: Vec<u8>)
    ensures
        r@ == cache_contents(file@),
{
    match gunzip(file) {
        Some(b) => b,
        None => {
            let mut out: Vec<u8> = Vec::new();
            let mut i: usize = 0;
            while i < file.len()
                invariant
                    0 <= i <= file@.len(),
                    out@ == file@.take(i as int),
                decreases file@.len() - i,
            {
                out.push(file[i]);
                i += 1;
            }
            proof {
                assert(file@.take(i as int) =~= file@);
            }
            out
        },
    }
}

/// What a cache file is read as: what was compressed into it where it is gzip, else its own bytes. So
/// what was written is read back as it was.
pub proof fn law_cache_is_read_back(
    json: &[u8],
    written: Option<Vec<u8>>,
    file: &[u8],
    read: Vec<u8>,
)
    requires
        call_ensures(write_gzip_cache, (json,), written),
        call_ensures(read_gzip_cache, (file,), read),
    ensures
        written matches Some(w) ==> (file@ == w@ ==> read@ == json@),
        gunzipped(file@) is None ==> read@ == file@,
        gunzipped(file@) matches Some(b) ==> read@ == b,
{
}

} // verus!
