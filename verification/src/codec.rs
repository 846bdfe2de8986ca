//! The byte codecs of rule files: gzip for writing, gzip or zlib for reading,
//! told apart by the first bytes of the stream. The codecs themselves are
//! those of `flate2`; their results are named here and not computed.
use std::io::Read;
use std::io::Write;
use vstd::prelude::*;

verus! {

/// `std::io::Error`: the error of a codec or of a file, carried through as it
/// is. Nothing is known of what it holds.
#[verifier::external_type_specification]
#[verifier::external_body]
pub struct ExIoError(std::io::Error);

/// The gzip stream that `flate2` writes for `data` at its default level, or
/// `None` where its compressor reports an error for `data`.
pub uninterp spec fn gzip_encoding(data: Seq<u8>) -> Option<Seq<u8>>;

/// What `flate2` reads out of the gzip stream `bytes`, where it is one.
pub uninterp spec fn gzip_decoding(bytes: Seq<u8>) -> Option<Seq<u8>>;

/// What `flate2` reads out of the zlib stream `bytes`, where it is one.
pub uninterp spec fn zlib_decoding(bytes: Seq<u8>) -> Option<Seq<u8>>;

/// The first nine bytes of a gzip stream that carries no name, no comment and
/// no time stamp and was written at the default level: the magic number, the
/// deflate method, no flags, a zero time and no extra flags.
pub open spec fn gzip_signature() -> Seq<u8> {
    seq![0x1fu8, 0x8bu8, 0x08u8, 0u8, 0u8, 0u8, 0u8, 0u8, 0u8]
}

/// `bytes` begins with the gzip signature.
pub open spec fn has_gzip_signature(bytes: Seq<u8>) -> bool {
    bytes.len() >= 9 && bytes.subrange(0, 9) == gzip_signature()
}

/// The bytes that a stream holds once decoded: by gzip where it begins with
/// the gzip signature, by zlib otherwise.
pub open spec fn decoding(bytes: Seq<u8>) -> Option<Seq<u8>> {
    if has_gzip_signature(bytes) {
        gzip_decoding(bytes)
    } else {
        zlib_decoding(bytes)
    }
}

/// Whether a stream begins with the gzip signature.
pub fn is_gzip(bytes: &[u8]) -> (b: bool)
    ensures
        b == has_gzip_signature(bytes@),
{
    if bytes.len() < 9 {
        return false;
    }
    let b = bytes[0] == 0x1f && bytes[1] == 0x8b && bytes[2] == 0x08 && bytes[3] == 0 && bytes[4]
        == 0 && bytes[5] == 0 && bytes[6] == 0 && bytes[7] == 0 && bytes[8] == 0;
    proof {
        let head = bytes@.subrange(0, 9);
        if b {
            assert(head =~= gzip_signature());
        } else {
            assert(head[0] == bytes@[0] && head[1] == bytes@[1] && head[2] == bytes@[2] && head[3]
                == bytes@[3] && head[4] == bytes@[4] && head[5] == bytes@[5] && head[6]
                == bytes@[6] && head[7] == bytes@[7] && head[8] == bytes@[8]);
        }
    }
    b
}

/// `flate2::write::GzEncoder` at `Compression::default()`, writing into
/// memory: `new`, `write_all` and `finish`. Trusted: what the call returns,
/// stream or error, is the gzip encoding of `data`, which depends on `data`
/// alone; a stream begins with the header that `GzBuilder` writes when
/// nothing is configured, whose first nine bytes are the signature above; and
/// the gzip decoder of the same crate reads `data` back out of it, as the
/// crate documents for the pair. That the compressor accepts every `data` is
/// not claimed.
#[verifier::external_body]
pub(crate) fn gzip_compress(data: &Vec<u8>) -> (res: Result<Vec<u8>, std::io::Error>)
    ensures
        match res {
            Ok(out) => gzip_encoding(data@) == Some(out@),
            Err(_) => gzip_encoding(data@).is_none(),
        },
        res matches Ok(out) ==> has_gzip_signature(out@),
        res matches Ok(out) ==> gzip_decoding(out@) == Some(data@),
{
    let mut encoder = flate2::write::GzEncoder::new(Vec::new(), flate2::Compression::default());
    encoder.write_all(data)?;
    encoder.finish()
}

/// `flate2::read::GzDecoder`, reading from memory to the end of the first
/// member. Trusted: what comes out is the gzip decoding of `bytes`, and an
/// error means that there is none.
#[verifier::external_body]
pub(crate) fn gzip_decompress(bytes: &[u8]) -> (res: Result<Vec<u8>, std::io::Error>)
    ensures
        match res {
            Ok(out) => gzip_decoding(bytes@) == Some(out@),
            Err(_) => gzip_decoding(bytes@).is_none(),
        },
{
    let mut out = Vec::new();
    flate2::read::GzDecoder::new(bytes).read_to_end(&mut out)?;
    Ok(out)
}

/// `flate2::read::ZlibDecoder`, reading from memory to the end of the stream.
/// Trusted: what comes out is the zlib decoding of `bytes`, and an error means
/// that there is none.
#[verifier::external_body]
pub(crate) fn zlib_decompress(bytes: &[u8]) -> (res: Result<Vec<u8>, std::io::Error>)
    ensures
        match res {
            Ok(out) => zlib_decoding(bytes@) == Some(out@),
            Err(_) => zlib_decoding(bytes@).is_none(),
        },
{
    let mut out = Vec::new();
    flate2::read::ZlibDecoder::new(bytes).read_to_end(&mut out)?;
    Ok(out)
}

} // verus!
