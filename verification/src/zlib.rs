//! zlib compression and decompression of the index block, through the
//! flate2 crate behind trusted wrappers. Both directions are functions of
//! the input bytes alone, so each result carries a name the contracts of
//! the codec speak of.
use vstd::prelude::*;

verus! {

/// What zlib decompression yields on a byte sequence: the decompressed
/// bytes, or nothing when the sequence is not a complete zlib stream.
pub uninterp spec fn inflate_of(compressed: Seq<u8>) -> Option<Seq<u8>>;

/// What zlib compression at the default level yields on a byte sequence.
pub uninterp spec fn deflate_of(raw: Seq<u8>) -> Seq<u8>;

/// Relies on flate2's `ZlibDecoder` (read to end): decompression is a
/// function of the input bytes alone, and fails exactly on input that is
/// not a complete zlib stream.
#[verifier::external_body]
pub fn zlib_decompress(data: &[u8]) -> (r: Option<Vec<u8>>)
    ensures
        match r {
            Some(v) => inflate_of(data@) == Some(v@),
            None => inflate_of(data@) is None,
        },
{
    let mut decoder = flate2::read::ZlibDecoder::new(data);
    let mut out: Vec<u8> = Vec::new();
    match std::io::Read::read_to_end(&mut decoder, &mut out) {
        Ok(_) => Some(out),
        Err(_) => None,
    }
}

/// Relies on flate2's `ZlibEncoder` at the default level: compression is a
/// function of the input bytes alone, cannot fail when writing into memory,
/// and compression is lossless, so decompressing the output restores the
/// input.
#[verifier::external_body]
pub fn zlib_compress(data: &[u8]) -> (r: Vec<u8>)
    ensures
        r@ == deflate_of(data@),
        inflate_of(r@) == Some(data@),
{
    let mut encoder = flate2::write::ZlibEncoder::new(Vec::new(), flate2::Compression::default());
    std::io::Write::write_all(&mut encoder, data).expect("writing into memory cannot fail");
    encoder.finish().expect("writing into memory cannot fail")
}

} // verus!
