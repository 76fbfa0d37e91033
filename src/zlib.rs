use vstd::prelude::*;
use std::io::Read;
use std::io::Write;

verus! {

/// What a complete, well-formed zlib stream at the start of `data`
/// decompresses to; `None` where `data` does not start with one.
pub uninterp spec fn zlib_inflated(data: Seq<u8>) -> Option<Seq<u8>>;

/// The first `limit` bytes of `s`, or all of `s` where it is shorter.
pub open spec fn prefix_up_to(s: Seq<u8>, limit: int) -> Seq<u8> {
    if s.len() <= limit {
        s
    } else {
        s.take(limit)
    }
}

/// Relies on flate2's `read::ZlibDecoder`, read through `Read::take(limit)`
/// to its end: it yields at most `limit` bytes, and of a well-formed stream
/// exactly its first `limit` bytes (all of them where it is shorter). The
/// decoder reports a stream that stops short as an error, never as an end,
/// so fewer than `limit` bytes come only from a complete stream.
#[verifier::external_body]
pub(crate) fn inflate_prefix(data: &[u8], limit: u64) -> (r: Option<Vec<u8>>)
    ensures
        r is Some ==> r->Some_0@.len() <= limit,
        r is Some && r->Some_0@.len() < limit ==> zlib_inflated(data@) == Some(r->Some_0@),
        zlib_inflated(data@) is Some ==> r is Some && r->Some_0@ == prefix_up_to(
            zlib_inflated(data@)->Some_0,
            limit as int,
        ),
{
    let mut out = Vec::new();
    match flate2::read::ZlibDecoder::new(data).take(limit).read_to_end(&mut out) {
        Ok(_) => Some(out),
        Err(_) => None,
    }
}

/// Relies on flate2's `write::ZlibEncoder` over a `Vec`: what `finish` hands
/// back is a complete zlib stream of the bytes written into it. Writing
/// into a `Vec` does not fail, and the encoder is used with no preset
/// dictionary, so neither call returns an error here.
#[verifier::external_body]
pub(crate) fn deflate(data: &[u8]) -> (r: Vec<u8>)
    ensures
        zlib_inflated(r@) == Some(data@),
{
    let mut e = flate2::write::ZlibEncoder::new(Vec::new(), flate2::Compression::default());
    e.write_all(data).expect("compressing into a Vec does not fail");
    e.finish().expect("compressing into a Vec does not fail")
}

} // verus!
