//! Compression codecs.
//!
//! A codec turns bytes into a compressed stream and a compressed stream back
//! into bytes. Both directions are functions of their input alone, and what
//! `compress` hands out decompresses to what it was given.

use crate::text::{decimal, decimal_text};
use vstd::prelude::*;
use vstd::string::StringExecFns;

verus! {

/// An error that can say what went wrong.
pub trait ErrorMessage {
    /// A description of the error for people to read.
    fn message(&self) -> String;
}

impl ErrorMessage for std::convert::Infallible {
    /// There is no such error, so there is nothing to say.
    fn message(&self) -> (text: String)
        ensures
            text@.len() == 0,
    {
        String::new()
    }
}

/// Compression codec for asset archives.
pub trait Codec {
    /// Errors that might occur during compression
    type CompressionError: ErrorMessage;

    /// Errors that might occur during decompression
    type DecompressionError: ErrorMessage;

    /// The stream that `compress` makes of `data`.
    spec fn compressed(&self, data: Seq<u8>) -> Seq<u8>;

    /// The bytes that `src` decompresses to in a destination of exactly `len`
    /// bytes, or `None` where `src` is malformed or holds more or fewer bytes.
    spec fn decompressed(&self, src: Seq<u8>, len: nat) -> Option<Seq<u8>>;

    /// Whether `compress` succeeds on every input.
    spec fn always_compresses(&self) -> bool;

    /// Compress data to a newly allocated vector.
    fn compress(&self, data: &[u8]) -> (r: Result<Vec<u8>, Self::CompressionError>)
        ensures
            self.always_compresses() ==> r is Ok,
            r matches Ok(out) ==> out@ == self.compressed(data@) && self.decompressed(
                out@,
                data@.len(),
            ) == Some(data@),
    ;

    /// Decompress data in `src` to `dst`.
    ///
    /// Fails if the length of `dst` doesn't exactly match the length of the uncompressed data.
    ///
    /// If decompression fails for any reason, the contents of `dst` are unspecified.
    fn decompress_checked(&self, src: &[u8], dst: &mut [u8]) -> (r: Result<
        (),
        Self::DecompressionError,
    >)
        ensures
            final(dst)@.len() == old(dst)@.len(),
            r is Ok <==> self.decompressed(src@, old(dst)@.len()) is Some,
            r is Ok ==> self.decompressed(src@, old(dst)@.len()) == Some(final(dst)@),
    ;

    /// Like [`Codec::decompress_checked`], for a `src` that is known to fill `dst`.
    fn decompress(&self, src: &[u8], dst: &mut [u8])
        requires
            self.decompressed(src@, old(dst)@.len()) is Some,
        ensures
            final(dst)@.len() == old(dst)@.len(),
            self.decompressed(src@, old(dst)@.len()) == Some(final(dst)@),
    {
        match self.decompress_checked(src, dst) {
            Ok(()) => {},
            Err(_) => vstd::pervasive::unreached(),
        }
    }

    /// Decompresses data into a new vector with the given length.
    fn try_decompress_with_length(&self, src: &[u8], len: usize) -> (r: Result<
        Vec<u8>,
        Self::DecompressionError,
    >)
        ensures
            r is Ok <==> self.decompressed(src@, len as nat) is Some,
            r matches Ok(out) ==> out@.len() == len && self.decompressed(src@, len as nat)
                == Some(out@),
    {
        let mut dst = vec![0u8; len];
        match self.decompress_checked(src, dst.as_mut_slice()) {
            Ok(()) => Ok(dst),
            Err(error) => Err(error),
        }
    }

    /// Decompresses data that is known to hold `len` bytes into a new vector.
    fn decompress_with_length(&self, src: &[u8], len: usize) -> (out: Vec<u8>)
        requires
            self.decompressed(src@, len as nat) is Some,
        ensures
            out@.len() == len,
            self.decompressed(src@, len as nat) == Some(out@),
    {
        let mut dst = vec![0u8; len];
        self.decompress(src, dst.as_mut_slice());
        dst
    }
}

/// Copies `src` over `dst`, which has the same length.
fn copy_bytes(dst: &mut [u8], src: &[u8])
    requires
        old(dst)@.len() == src@.len(),
    ensures
        final(dst)@ == src@,
{
    let n = src.len();
    let mut i: usize = 0;
    while i < n
        invariant
            n == src@.len(),
            dst@.len() == n,
            i <= n,
            forall|j: int| 0 <= j < i ==> dst@[j] == src@[j],
        decreases n - i,
    {
        dst[i] = src[i];
        i += 1;
    }
    assert(dst@ =~= src@);
}

/// No compression whatsoever
#[derive(Debug, Clone, Copy)]
pub struct Uncompressed {}

/// A stream that does not hold as many bytes as its destination.
#[derive(Debug, Clone, Copy)]
pub struct UncompressedSizeMismatch {
    pub expected: usize,
    pub actual: usize,
}

/// What `UncompressedSizeMismatch::message` says of two sizes.
pub open spec fn size_mismatch_text(expected: nat, actual: nat) -> Seq<char> {
    "unexpected uncompressed size: expected "@ + decimal_text(expected) + ", got "@
        + decimal_text(actual)
}

impl ErrorMessage for UncompressedSizeMismatch {
    fn message(&self) -> (text: String)
        ensures
            text@ == size_mismatch_text(self.expected as nat, self.actual as nat),
    {
        let mut text = String::from_str("unexpected uncompressed size: expected ");
        text.append(decimal(self.expected).as_str());
        text.append(", got ");
        text.append(decimal(self.actual).as_str());
        text
    }
}

impl Codec for Uncompressed {
    type CompressionError = std::convert::Infallible;

    type DecompressionError = UncompressedSizeMismatch;

    open spec fn compressed(&self, data: Seq<u8>) -> Seq<u8> {
        data
    }

    open spec fn decompressed(&self, src: Seq<u8>, len: nat) -> Option<Seq<u8>> {
        if src.len() == len {
            Some(src)
        } else {
            None
        }
    }

    open spec fn always_compresses(&self) -> bool {
        true
    }

    fn compress(&self, data: &[u8]) -> (r: Result<Vec<u8>, Self::CompressionError>) {
        Ok(vstd::slice::slice_to_vec(data))
    }

    /// Copy data from `src` to `dst`
    ///
    /// This can only fail if the lengths of `src` and `dst` do not match.
    fn decompress_checked(&self, src: &[u8], dst: &mut [u8]) -> (r: Result<
        (),
        Self::DecompressionError,
    >)
        ensures
            r matches Err(mismatch) ==> mismatch.expected == old(dst)@.len() && mismatch.actual
                == src@.len(),
    {
        if dst.len() == src.len() {
            copy_bytes(dst, src);
            Ok(())
        } else {
            Err(UncompressedSizeMismatch { expected: dst.len(), actual: src.len() })
        }
    }
}

/// The error of `lz4_flex`'s block decoder.
#[verifier::external_type_specification]
#[verifier::external_body]
pub struct ExLz4DecompressError(lz4_flex::block::DecompressError);

/// The error of the standard library's I/O, which `zstd` reports with.
#[verifier::external_type_specification]
#[verifier::external_body]
pub struct ExIoError(std::io::Error);

/// The error of `yazi`.
#[verifier::external_type_specification]
pub struct ExYaziError(yazi::Error);

/// The LZ4 block that `lz4_flex::block::compress` makes of `data`.
pub uninterp spec fn lz4_block(data: Seq<u8>) -> Seq<u8>;

/// The bytes that `lz4_flex::block::decompress_into` writes for `src` into a
/// destination of `capacity` bytes, or `None` where it fails.
pub uninterp spec fn lz4_unblock(src: Seq<u8>, capacity: nat) -> Option<Seq<u8>>;

/// Calls `lz4_flex::block::compress`. Trusted: the block is a function of `data`
/// alone, and the compression is lossless: decompressing the block into as
/// many bytes as `data` has gives `data`.
#[verifier::external_body]
fn lz4_compress(data: &[u8]) -> (out: Vec<u8>)
    ensures
        out@ == lz4_block(data@),
        lz4_unblock(out@, data@.len()) == Some(data@),
{
    lz4_flex::block::compress(data)
}

/// Calls `lz4_flex::block::decompress_into`. Trusted: whether it succeeds and
/// what it writes depend on `src` and the length of `dst` alone; on success it
/// returns how many bytes it wrote, from the start of `dst`.
#[verifier::external_body]
fn lz4_decompress_into(src: &[u8], dst: &mut [u8]) -> (r: Result<
    usize,
    lz4_flex::block::DecompressError,
>)
    ensures
        final(dst)@.len() == old(dst)@.len(),
        match lz4_unblock(src@, old(dst)@.len()) {
            Some(out) => r == Ok::<usize, lz4_flex::block::DecompressError>(out.len() as usize)
                && out.len() <= old(dst)@.len() && final(dst)@.subrange(0, out.len() as int)
                == out,
            None => r is Err,
        },
{
    lz4_flex::block::decompress_into(src, dst)
}

/// Formats an error of `lz4_flex`'s block decoder with its `Display`.
#[verifier::external_body]
fn lz4_error_text(error: &lz4_flex::block::DecompressError) -> String {
    error.to_string()
}

/// lz4 block compression
#[derive(Debug, Clone, Copy)]
pub struct Lz4 {}

/// Why an LZ4 block did not decompress into its destination.
#[derive(Debug)]
pub enum Lz4Error {
    /// The block is malformed or holds more bytes than the destination.
    Decode(lz4_flex::block::DecompressError),
    /// The block holds fewer bytes than the destination.
    UncompressedSizeDiffers { expected: usize, actual: usize },
}

/// What `Lz4Error::message` says of a block that holds too few bytes.
pub open spec fn size_differs_text(expected: nat, actual: nat) -> Seq<char> {
    "the expected decompressed size differs, actual "@ + decimal_text(actual) + ", expected "@
        + decimal_text(expected)
}

impl ErrorMessage for Lz4Error {
    fn message(&self) -> (text: String)
        ensures
            self matches Lz4Error::UncompressedSizeDiffers { expected, actual } ==> text@
                == size_differs_text(expected as nat, actual as nat),
    {
        match self {
            Lz4Error::Decode(error) => lz4_error_text(error),
            Lz4Error::UncompressedSizeDiffers { expected, actual } => {
                let mut text = String::from_str("the expected decompressed size differs, actual ");
                text.append(decimal(*actual).as_str());
                text.append(", expected ");
                text.append(decimal(*expected).as_str());
                text
            },
        }
    }
}

impl Codec for Lz4 {
    type CompressionError = std::convert::Infallible;

    type DecompressionError = Lz4Error;

    open spec fn compressed(&self, data: Seq<u8>) -> Seq<u8> {
        lz4_block(data)
    }

    open spec fn decompressed(&self, src: Seq<u8>, len: nat) -> Option<Seq<u8>> {
        match lz4_unblock(src, len) {
            Some(out) if out.len() == len => Some(out),
            _ => None,
        }
    }

    open spec fn always_compresses(&self) -> bool {
        true
    }

    fn compress(&self, data: &[u8]) -> (r: Result<Vec<u8>, Self::CompressionError>) {
        Ok(lz4_compress(data))
    }

    fn decompress_checked(&self, src: &[u8], dst: &mut [u8]) -> (r: Result<
        (),
        Self::DecompressionError,
    >)
        ensures
            r matches Err(Lz4Error::UncompressedSizeDiffers { expected, actual }) ==> {
                &&& expected == old(dst)@.len()
                &&& lz4_unblock(src@, old(dst)@.len()) is Some
                &&& lz4_unblock(src@, old(dst)@.len())->0.len() == actual
            },
            r matches Err(Lz4Error::Decode(_)) ==> lz4_unblock(src@, old(dst)@.len()) is None,
    {
        match lz4_decompress_into(src, dst) {
            Ok(uncompressed_size) => {
                if uncompressed_size != dst.len() {
                    Err(
                        Lz4Error::UncompressedSizeDiffers {
                            expected: dst.len(),
                            actual: uncompressed_size,
                        },
                    )
                } else {
                    assert(dst@.subrange(0, uncompressed_size as int) =~= dst@);
                    Ok(())
                }
            },
            Err(error) => Err(Lz4Error::Decode(error)),
        }
    }
}

/// The frame that `zstd::bulk::compress` makes of `data` at `level`.
pub uninterp spec fn zstd_frame(data: Seq<u8>, level: i32) -> Seq<u8>;

/// The bytes that `zstd::bulk::decompress_to_buffer` writes for `src` into a
/// destination of `capacity` bytes, or `None` where it fails.
pub uninterp spec fn zstd_unframe(src: Seq<u8>, capacity: nat) -> Option<Seq<u8>>;

/// Calls `zstd::bulk::compress`. Trusted: where it succeeds, the frame is a
/// function of `data` and `level` alone, and the compression is lossless:
/// decompressing the frame into as many bytes as `data` has gives `data`.
#[verifier::external_body]
fn zstd_compress(data: &[u8], level: i32) -> (r: Result<Vec<u8>, std::io::Error>)
    ensures
        r matches Ok(out) ==> out@ == zstd_frame(data@, level) && zstd_unframe(
            out@,
            data@.len(),
        ) == Some(data@),
{
    zstd::bulk::compress(data, level)
}

/// Calls `zstd::bulk::decompress_to_buffer`. Trusted: whether it succeeds and
/// what it writes depend on `src` and the length of `dst` alone; on success it
/// returns how many bytes it wrote, from the start of `dst`.
#[verifier::external_body]
fn zstd_decompress_to_buffer(src: &[u8], dst: &mut [u8]) -> (r: Result<usize, std::io::Error>)
    ensures
        final(dst)@.len() == old(dst)@.len(),
        match zstd_unframe(src@, old(dst)@.len()) {
            Some(out) => r == Ok::<usize, std::io::Error>(out.len() as usize) && out.len() <= old(
                dst,
            )@.len() && final(dst)@.subrange(0, out.len() as int) == out,
            None => r is Err,
        },
{
    zstd::bulk::decompress_to_buffer(src, dst)
}

/// Formats an I/O error with its `Display`.
#[verifier::external_body]
fn io_error_text(error: &std::io::Error) -> String {
    error.to_string()
}

impl ErrorMessage for std::io::Error {
    fn message(&self) -> String {
        io_error_text(self)
    }
}

/// zstd compression
#[derive(Debug, Clone, Copy)]
pub struct Zstd {
    /// Zstd compression level.
    ///
    /// Higher is better compression with slower speed.
    /// Level 5 is recommended.
    pub level: i32,
}

/// Why a zstd frame did not decompress into its destination.
#[derive(Debug)]
pub enum ZstdError {
    /// The frame is malformed or holds more bytes than the destination.
    Io(std::io::Error),
    /// The frame holds fewer bytes than the destination.
    Size(UncompressedSizeMismatch),
}

impl ErrorMessage for ZstdError {
    fn message(&self) -> (text: String)
        ensures
            self matches ZstdError::Size(mismatch) ==> text@ == size_mismatch_text(
                mismatch.expected as nat,
                mismatch.actual as nat,
            ),
    {
        match self {
            ZstdError::Io(error) => io_error_text(error),
            ZstdError::Size(mismatch) => mismatch.message(),
        }
    }
}

impl Codec for Zstd {
    type CompressionError = std::io::Error;

    type DecompressionError = ZstdError;

    open spec fn compressed(&self, data: Seq<u8>) -> Seq<u8> {
        zstd_frame(data, self.level)
    }

    open spec fn decompressed(&self, src: Seq<u8>, len: nat) -> Option<Seq<u8>> {
        match zstd_unframe(src, len) {
            Some(out) if out.len() == len => Some(out),
            _ => None,
        }
    }

    open spec fn always_compresses(&self) -> bool {
        false
    }

    fn compress(&self, data: &[u8]) -> (r: Result<Vec<u8>, Self::CompressionError>) {
        zstd_compress(data, self.level)
    }

    fn decompress_checked(&self, src: &[u8], dst: &mut [u8]) -> (r: Result<
        (),
        Self::DecompressionError,
    >)
        ensures
            r matches Err(ZstdError::Size(mismatch)) ==> {
                &&& mismatch.expected == old(dst)@.len()
                &&& zstd_unframe(src@, old(dst)@.len()) is Some
                &&& zstd_unframe(src@, old(dst)@.len())->0.len() == mismatch.actual
            },
            r matches Err(ZstdError::Io(_)) ==> zstd_unframe(src@, old(dst)@.len()) is None,
    {
        match zstd_decompress_to_buffer(src, dst) {
            Ok(uncompressed_size) => {
                if uncompressed_size != dst.len() {
                    Err(
                        ZstdError::Size(
                            UncompressedSizeMismatch {
                                expected: dst.len(),
                                actual: uncompressed_size,
                            },
                        ),
                    )
                } else {
                    assert(dst@.subrange(0, uncompressed_size as int) =~= dst@);
                    Ok(())
                }
            },
            Err(error) => Err(ZstdError::Io(error)),
        }
    }
}

/// The raw DEFLATE stream that `yazi::compress` makes of `data` at `level`.
pub uninterp spec fn deflate_stream(data: Seq<u8>, level: u8) -> Seq<u8>;

/// The bytes that a `yazi::Decoder` writes for the raw DEFLATE stream `src` into
/// a buffer of `capacity` bytes, or `None` where it fails.
pub uninterp spec fn inflated(src: Seq<u8>, capacity: nat) -> Option<Seq<u8>>;

/// Calls `yazi::compress` for a raw stream at a specific level. Trusted: it
/// succeeds on every input, since the encoder of `yazi` passes on only the
/// errors of what it writes to, and it writes to a vector here, which reports
/// none; the stream is a function of `data` and `level` alone; and the
/// compression is lossless: decoding the stream into as many bytes as `data`
/// has gives `data`.
#[verifier::external_body]
fn deflate_compress(data: &[u8], level: u8) -> (r: Result<Vec<u8>, yazi::Error>)
    ensures
        r is Ok,
        r matches Ok(out) ==> out@ == deflate_stream(data@, level) && inflated(
            out@,
            data@.len(),
        ) == Some(data@),
{
    yazi::compress(data, yazi::Format::Raw, yazi::CompressionLevel::Specific(level))
}

/// Runs one `yazi::Decoder` stream over `dst`: `stream_into_buf`, `write` of all
/// of `src`, `finish`. Trusted: whether that succeeds and what it writes depend
/// on `src` and the length of `dst` alone; on success it returns how many bytes
/// it wrote, from the start of `dst`.
#[verifier::external_body]
fn deflate_decode_into(src: &[u8], dst: &mut [u8]) -> (r: Result<u64, yazi::Error>)
    ensures
        final(dst)@.len() == old(dst)@.len(),
        match inflated(src@, old(dst)@.len()) {
            Some(out) => r == Ok::<u64, yazi::Error>(out.len() as u64) && out.len() <= old(
                dst,
            )@.len() && final(dst)@.subrange(0, out.len() as int) == out,
            None => r is Err,
        },
{
    let mut decoder = yazi::Decoder::new();
    let mut stream = decoder.stream_into_buf(dst);
    stream.write(src)?;
    let (uncompressed_size, _checksum) = stream.finish()?;
    Ok(uncompressed_size)
}

/// raw DEFLATE compression (no wrapper format)
#[derive(Debug, Clone, Copy)]
pub struct Deflate {
    /// Compression level
    ///
    /// Higher is better compression with slower speed.
    /// 0 is uncompressed, 10 is the maximum.
    pub level: u8,
}

/// An error of `yazi`, which can say what went wrong.
#[derive(Debug)]
pub struct YaziError(pub yazi::Error);

/// What `YaziError::message` says of an error that is no I/O error.
pub open spec fn yazi_text(error: yazi::Error) -> Seq<char> {
    match error {
        yazi::Error::Underflow => "yazi error: not enough input was provided"@,
        yazi::Error::InvalidBitstream => "yazi error: invalid bitstream"@,
        yazi::Error::Overflow => "yazi error: output buffer was too small"@,
        yazi::Error::Finished => "yazi error: attempted to write into a finished stream"@,
        yazi::Error::Io(_) => "yazi io error: "@,
    }
}

impl ErrorMessage for YaziError {
    fn message(&self) -> (text: String)
        ensures
            self.0 is Io ==> text@.len() >= yazi_text(self.0).len() && text@.subrange(
                0,
                yazi_text(self.0).len() as int,
            ) == yazi_text(self.0),
            !(self.0 is Io) ==> text@ == yazi_text(self.0),
    {
        match &self.0 {
            yazi::Error::Underflow => String::from_str("yazi error: not enough input was provided"),
            yazi::Error::InvalidBitstream => String::from_str("yazi error: invalid bitstream"),
            yazi::Error::Overflow => String::from_str("yazi error: output buffer was too small"),
            yazi::Error::Finished => String::from_str(
                "yazi error: attempted to write into a finished stream",
            ),
            yazi::Error::Io(error) => {
                let mut text = String::from_str("yazi io error: ");
                text.append(io_error_text(error).as_str());
                assert(text@.subrange(0, "yazi io error: "@.len() as int) =~= "yazi io error: "@);
                text
            },
        }
    }
}

impl Codec for Deflate {
    type CompressionError = YaziError;

    type DecompressionError = YaziError;

    open spec fn compressed(&self, data: Seq<u8>) -> Seq<u8> {
        deflate_stream(data, self.level)
    }

    open spec fn decompressed(&self, src: Seq<u8>, len: nat) -> Option<Seq<u8>> {
        match inflated(src, len) {
            Some(out) if out.len() == len => Some(out),
            _ => None,
        }
    }

    open spec fn always_compresses(&self) -> bool {
        true
    }

    fn compress(&self, data: &[u8]) -> (r: Result<Vec<u8>, Self::CompressionError>)
        ensures
            r is Ok,
    {
        match deflate_compress(data, self.level) {
            Ok(out) => Ok(out),
            Err(error) => Err(YaziError(error)),
        }
    }

    fn decompress_checked(&self, src: &[u8], dst: &mut [u8]) -> (r: Result<
        (),
        Self::DecompressionError,
    >)
        ensures
            (inflated(src@, old(dst)@.len()) is Some && inflated(src@, old(dst)@.len())->0.len()
                != old(dst)@.len()) ==> (r is Err && r->Err_0.0 is Underflow),
    {
        match deflate_decode_into(src, dst) {
            Ok(uncompressed_size) => {
                // Check if the output buffer has been fully overwritten
                if uncompressed_size != dst.len() as u64 {
                    Err(YaziError(yazi::Error::Underflow))
                } else {
                    assert(dst@.subrange(0, uncompressed_size as int) =~= dst@);
                    Ok(())
                }
            },
            Err(error) => Err(YaziError(error)),
        }
    }
}

} // verus!
