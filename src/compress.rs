use vstd::prelude::*;

verus! {

/// What zlib inflation makes of the stream that starts at the front of `b`:
/// the inflated bytes and how many input bytes the stream took; or an error,
/// `true` when the input ends inside the stream and `false` when the stream
/// is corrupt.
pub uninterp spec fn zlib_inflate(b: Seq<u8>) -> Result<(Seq<u8>, nat), bool>;

/// The zlib stream, at the default compression level, of `b`.
pub uninterp spec fn zlib_deflate(b: Seq<u8>) -> Seq<u8>;

/// Relies on flate2's `bufread::ZlibDecoder` (with `total_in`): inflates the
/// zlib stream at the front of `data`, stops at its end, and counts the input
/// bytes that the decompressor consumed. Input that ends inside the stream is
/// reported as `UnexpectedEof`, a corrupt stream as another error.
#[verifier::external_body]
pub(crate) fn inflate_prefix(data: &[u8]) -> (r: Result<(Vec<u8>, usize), bool>)
    ensures
        match r {
            Ok((out, used)) => zlib_inflate(data@) == Ok::<(Seq<u8>, nat), bool>(
                (out@, used as nat),
            ) && used <= data@.len(),
            Err(cut) => zlib_inflate(data@) == Err::<(Seq<u8>, nat), bool>(cut),
        },
{
    let mut decoder = flate2::bufread::ZlibDecoder::new(data);
    let mut out = Vec::new();
    match std::io::Read::read_to_end(&mut decoder, &mut out) {
        Ok(_) => Ok((out, decoder.total_in() as usize)),
        Err(e) => Err(e.kind() == std::io::ErrorKind::UnexpectedEof),
    }
}

/// Relies on flate2's `read::ZlibEncoder` at `Compression::default()`:
/// compression is lossless, so inflating its output gives back `data` and
/// takes the whole stream, whatever bytes follow the stream.
#[verifier::external_body]
pub(crate) fn deflate(data: &[u8]) -> (r: Vec<u8>)
    ensures
        r@ == zlib_deflate(data@),
        forall|rest: Seq<u8>|
            #![trigger zlib_inflate(r@ + rest)]
            zlib_inflate(r@ + rest) == Ok::<(Seq<u8>, nat), bool>((data@, r@.len() as nat)),
{
    let mut encoder = flate2::read::ZlibEncoder::new(data, flate2::Compression::default());
    let mut out = Vec::new();
    match std::io::Read::read_to_end(&mut encoder, &mut out) {
        Ok(_) => out,
        Err(_) => Vec::new(),
    }
}

} // verus!
