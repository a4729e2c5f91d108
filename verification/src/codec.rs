//! The zlib codec that compresses and inflates single chunks.

use vstd::prelude::*;

verus! {

/// The zlib stream that `deflate::deflate_bytes_zlib_conf` produces for
/// `data` under `CompressionOptions::huffman_only()`.
pub uninterp spec fn deflate_zlib(data: Seq<u8>) -> Seq<u8>;

/// Calls `deflate::deflate_bytes_zlib_conf` with the options of
/// `deflate::CompressionOptions::huffman_only()`, which frames the input
/// with a zlib header and checksum and codes it byte by byte, without
/// looking for repeats. Nothing is claimed of the stream but that it is
/// determined by the input.
///
/// The search for repeats stays off on purpose. With it on, the encoder can
/// end a block on a repeat that reaches past the end of a 32768-byte
/// window; it then takes the block's bytes from the wrong place in its
/// buffer, and panics or writes a stream of other bytes. Without the search
/// no symbol reaches past a window.
#[verifier::external_body]
pub(crate) fn deflate_block(data: &[u8]) -> (stream: Vec<u8>)
    ensures
        stream@ == deflate_zlib(data@),
{
    deflate::deflate_bytes_zlib_conf(data, deflate::CompressionOptions::huffman_only())
}

/// Calls `inflate::inflate_bytes_zlib`, which inflates a zlib stream or
/// reports why it is malformed.
///
/// Nothing is claimed of the outcome, not even that the same bytes give
/// the same outcome twice. The decoder makes its window as a vector with
/// the capacity that the stream's first byte declares (256 to 32768 bytes)
/// and reads the window's size back from the vector's capacity, which std
/// may make larger than asked. A stream that refers farther back than the
/// window it declares is refused with the capacity asked for and can give
/// bytes with a larger one.
#[verifier::external_body]
pub(crate) fn inflate_stream(data: &[u8]) -> Result<Vec<u8>, String> {
    inflate::inflate_bytes_zlib(data)
}

} // verus!
