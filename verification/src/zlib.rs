//! Compressed streams.

use flate2::read::ZlibDecoder;
use flate2::write::ZlibEncoder;
use flate2::Compression;
use flate2::Decompress;
use flate2::FlushDecompress;
use std::io::Read;
use std::io::Write;
use vstd::prelude::*;

verus! {

/// How the zlib stream at the front of some bytes ends.
#[derive(Debug, Clone, Copy, PartialEq, Eq, Structural)]
pub enum ZlibEnd {
    /// It is whole, and its checksum holds.
    Complete,
    /// The bytes end before it does.
    Incomplete,
    Corrupt,
}

/// What `flate2::read::ZlibDecoder` makes of the zlib stream at the front of
/// some bytes: how it ends and, where it is whole, what it holds and how many
/// bytes it takes.
pub uninterp spec fn zlib_read(bytes: Seq<u8>) -> (ZlibEnd, Seq<u8>, u64);

/// What one call of `flate2::Decompress::decompress` on a fresh decompressor
/// puts into a buffer of a given length, or what it says where it fails.
pub uninterp spec fn zlib_window(bytes: Seq<u8>, limit: nat) -> Result<Seq<u8>, Seq<char>>;

/// The zlib stream that `flate2::write::ZlibEncoder` makes of some bytes at the
/// default level.
pub uninterp spec fn zlib_stream(bytes: Seq<u8>) -> Seq<u8>;

/// What came of reading a zlib stream.
pub struct ZlibRead {
    pub end: ZlibEnd,
    /// What the stream holds; where it does not end well, what of it was
    /// decompressed before that showed.
    pub output: Vec<u8>,
    /// The bytes of the input that were used up.
    pub consumed: u64,
    /// The bytes that were decompressed, in all.
    pub produced: u64,
}

/// Reads a `flate2::read::ZlibDecoder` over `bytes` to its end. How the stream
/// ends depends on the bytes alone, and so do what a whole stream holds and
/// how many of the bytes it takes. Nothing is said of the output of a stream
/// that does not end well.
#[verifier::external_body]
pub(crate) fn inflate_stream(bytes: &[u8]) -> (read: ZlibRead)
    ensures
        read.end == zlib_read(bytes@).0,
        read.end == ZlibEnd::Complete ==> read.output@ == zlib_read(bytes@).1 && read.consumed == zlib_read(
            bytes@,
        ).2 && read.consumed <= bytes@.len(),
{
    let mut decoder = ZlibDecoder::new(bytes);
    let mut output = Vec::new();
    let end = match decoder.read_to_end(&mut output) {
        Ok(_) => ZlibEnd::Complete,
        Err(err) if err.kind() == std::io::ErrorKind::UnexpectedEof => ZlibEnd::Incomplete,
        Err(_) => ZlibEnd::Corrupt,
    };
    ZlibRead { end, output, consumed: decoder.total_in(), produced: decoder.total_out() }
}

/// Calls `flate2::Decompress::decompress` once on a fresh decompressor, with
/// all of `bytes` as input and room for `limit` bytes of output, and returns
/// what was put there, or the text of the error. Either depends on the two
/// alone, and the output is no longer than the room for it. Which text an error
/// has is not stated.
#[verifier::external_body]
pub(crate) fn inflate_window(bytes: &[u8], limit: usize) -> (output: Result<Vec<u8>, String>)
    requires
        limit <= 0x7fff_ffff,
    ensures
        match output {
            Ok(output) => zlib_window(bytes@, limit as nat) == Ok::<Seq<u8>, Seq<char>>(output@)
                && output@.len() <= limit,
            Err(text) => zlib_window(bytes@, limit as nat) == Err::<Seq<u8>, Seq<char>>(text@),
        },
{
    let mut output = vec![0u8; limit];
    let mut decompress = Decompress::new(true);
    match decompress.decompress(bytes, &mut output, FlushDecompress::None) {
        Ok(_) => {
            output.truncate(decompress.total_out() as usize);
            Ok(output)
        },
        Err(err) => Err(err.to_string()),
    }
}

/// Writes `bytes` to a `flate2::write::ZlibEncoder` at the default level and
/// finishes it. The decoder reads the same bytes back from what it made,
/// whatever follows, and uses up all of it and nothing more; and a window of at
/// most 32768 bytes shows as many of them as fit. There always is a stream: the
/// compressor refuses only input behind the end of the stream, and the writes
/// go to a vector, which takes them all.
#[verifier::external_body]
pub(crate) fn deflate(bytes: &[u8]) -> (stream: Option<Vec<u8>>)
    ensures
        stream matches Some(stream) && {
            &&& stream@ == zlib_stream(bytes@)
            &&& stream@.len() > 0
            &&& forall|tail: Seq<u8>| #[trigger]
                zlib_read(stream@ + tail) == (ZlibEnd::Complete, bytes@, stream@.len() as u64)
            &&& forall|limit: nat|
                limit <= 32768 && limit < bytes@.len() ==> #[trigger] zlib_window(stream@, limit) == Ok::<
                    Seq<u8>,
                    Seq<char>,
                >(bytes@.take(limit as int))
            &&& forall|limit: nat|
                bytes@.len() <= limit <= 32768 ==> #[trigger] zlib_window(stream@, limit) == Ok::<
                    Seq<u8>,
                    Seq<char>,
                >(bytes@)
        },
{
    let mut encoder = ZlibEncoder::new(Vec::new(), Compression::default());
    encoder.write_all(bytes).ok()?;
    encoder.finish().ok()
}

} // verus!
