//! zlib compression support for the PNG text envelope.
//!
//! The metadata chunk's body is a zlib stream. Compression and inflation come
//! from the `miniz_oxide` crate; the library names the compressed form and
//! relies on inflation recovering it.

use vstd::prelude::*;

verus! {

/// The zlib stream that compressing a byte sequence at level 8 produces.
pub uninterp spec fn zlib_deflate_of(data: Seq<u8>) -> Seq<u8>;

/// Relies on `miniz_oxide::deflate::compress_to_vec_zlib` at level 8: the
/// compressed stream depends on the input bytes alone.
#[verifier::external_body]
pub(crate) fn zlib_compress(data: &[u8]) -> (r: Vec<u8>)
    ensures
        r@ == zlib_deflate_of(data@),
{
    miniz_oxide::deflate::compress_to_vec_zlib(data, 8)
}

/// Relies on `miniz_oxide::inflate::decompress_to_vec_zlib`: inflating a
/// stream that `compress_to_vec_zlib` produced recovers the exact bytes that
/// were compressed.
#[verifier::external_body]
pub(crate) fn zlib_decompress(data: &[u8]) -> (r: Option<Vec<u8>>)
    ensures
        forall|orig: Seq<u8>| data@ == zlib_deflate_of(orig) ==> r is Some && r->0@ == orig,
{
    match miniz_oxide::inflate::decompress_to_vec_zlib(data) {
        Ok(v) => Some(v),
        Err(_) => None,
    }
}

} // verus!
