//! The streams of a package, and a codec chosen by name.

use crate::decode::codec::{Codec, Deflate, ErrorMessage, Lz4, Uncompressed, Zstd};
use crate::encode::parse::{Lit, OptionError};
use crate::model::names::{encoded, join, names_stream, nul_free, zero_free};
use crate::model::sizes::{le_bytes, lemma_sizes_stream_push, sizes_stream, LIMIT};
use crate::text::{decimal, decimal_text, str_eq};
use vstd::prelude::*;
use vstd::string::StringExecFns;

verus! {

/// One of the three compressed streams of a package.
#[derive(Debug, Clone, Copy)]
pub enum Stream {
    Names,
    Sizes,
    Data,
}

/// Why a manifest did not become a package.
#[derive(Debug)]
pub enum BuildError<E> {
    /// Two assets have this name.
    DuplicateName(String),
    /// This name holds a zero byte.
    NulInName(String),
    /// The names stream would have this many bytes, more than a package can record.
    NamesTooLong(usize),
    /// This asset has more bytes than a package can record.
    AssetTooBig { name: String, size: usize },
    /// The sizes stream would have this many bytes, more than a package can record.
    TooManyAssets(usize),
    /// The assets together have this many bytes, more than a package can record.
    TooMuchData(usize),
    /// The codec did not compress this stream.
    Compression { stream: Stream, error: E },
}

/// What `BuildError::message` says, but for the text of a codec's own error.
pub open spec fn build_error_text<E>(error: BuildError<E>) -> Seq<char> {
    match error {
        BuildError::DuplicateName(name) => "duplicate asset name: "@ + name@,
        BuildError::NulInName(name) => "asset name contains a null byte: "@ + name@,
        BuildError::NamesTooLong(bytes) => "uncompressed names are too long ("@ + decimal_text(
            bytes as nat,
        ) + " bytes)"@,
        BuildError::AssetTooBig { name, size } => "asset "@ + name@ + " is too big ("@
            + decimal_text(size as nat) + " bytes)"@,
        BuildError::TooManyAssets(bytes) =>
            "too many assets: size of uncompressed asset sizes is too big ("@ + decimal_text(
            bytes as nat,
        ) + " bytes)"@,
        BuildError::TooMuchData(bytes) => "too much data ("@ + decimal_text(bytes as nat)
            + " bytes)"@,
        BuildError::Compression { stream: Stream::Names, .. } => "couldn't compress asset names: "@,
        BuildError::Compression { stream: Stream::Sizes, .. } =>
            "couldn't compress asset data sizes: "@,
        BuildError::Compression { stream: Stream::Data, .. } => "couldn't compress asset data: "@,
    }
}

impl<E: ErrorMessage> ErrorMessage for BuildError<E> {
    /// Says what is wrong with the manifest; where the codec failed, says which
    /// stream it failed on and ends with the codec's own words.
    fn message(&self) -> (text: String)
        ensures
            !(self is Compression) ==> text@ == build_error_text(*self),
            self is Compression ==> text@.len() >= build_error_text(*self).len() && text@.subrange(
                0,
                build_error_text(*self).len() as int,
            ) == build_error_text(*self),
    {
        match self {
            BuildError::DuplicateName(name) => {
                let mut text = String::from_str("duplicate asset name: ");
                text.append(name.as_str());
                text
            },
            BuildError::NulInName(name) => {
                let mut text = String::from_str("asset name contains a null byte: ");
                text.append(name.as_str());
                text
            },
            BuildError::NamesTooLong(bytes) => {
                let mut text = String::from_str("uncompressed names are too long (");
                text.append(decimal(*bytes).as_str());
                text.append(" bytes)");
                text
            },
            BuildError::AssetTooBig { name, size } => {
                let mut text = String::from_str("asset ");
                text.append(name.as_str());
                text.append(" is too big (");
                text.append(decimal(*size).as_str());
                text.append(" bytes)");
                text
            },
            BuildError::TooManyAssets(bytes) => {
                let mut text = String::from_str(
                    "too many assets: size of uncompressed asset sizes is too big (",
                );
                text.append(decimal(*bytes).as_str());
                text.append(" bytes)");
                text
            },
            BuildError::TooMuchData(bytes) => {
                let mut text = String::from_str("too much data (");
                text.append(decimal(*bytes).as_str());
                text.append(" bytes)");
                text
            },
            BuildError::Compression { stream, error } => {
                let mut text = match stream {
                    Stream::Names => String::from_str("couldn't compress asset names: "),
                    Stream::Sizes => String::from_str("couldn't compress asset data sizes: "),
                    Stream::Data => String::from_str("couldn't compress asset data: "),
                };
                let ghost head = text@;
                text.append(error.message().as_str());
                assert(text@.subrange(0, head.len() as int) =~= head);
                text
            },
        }
    }
}

/// Appends `bytes` to `buffer`.
pub fn append_bytes(buffer: &mut Vec<u8>, bytes: &[u8])
    ensures
        final(buffer)@ == old(buffer)@ + bytes@,
{
    buffer.extend_from_slice(bytes);
    assert(buffer@ =~= old(buffer)@ + bytes@);
}

/// The four bytes that hold `value`, least significant byte first.
pub fn le_bytes_of(value: u32) -> (bytes: [u8; 4])
    ensures
        bytes@ == le_bytes(value as nat),
{
    let bytes = [
        (value % 0x100) as u8,
        ((value / 0x100) % 0x100) as u8,
        ((value / 0x1_0000) % 0x100) as u8,
        ((value / 0x100_0000) % 0x100) as u8,
    ];
    assert(bytes@ =~= le_bytes(value as nat));
    bytes
}

/// The sizes alone, without the names that they belong to.
pub open spec fn sizes_alone(sizes: Seq<(&str, usize)>) -> Seq<nat> {
    Seq::new(sizes.len(), |i: int| sizes[i].1 as nat)
}

/// Every size fits in a package.
pub open spec fn sizes_fit(sizes: Seq<nat>) -> bool {
    forall|i: int| 0 <= i < sizes.len() ==> sizes[i] <= LIMIT
}

/// Writes the sizes stream of a package and compresses it.
///
/// Each size comes with the name of its asset, which is reported if the asset
/// is too big.
pub fn compress_sizes<C: Codec>(codec: &C, sizes: &[(&str, usize)]) -> (r: Result<
    Vec<u8>,
    BuildError<C::CompressionError>,
>)
    ensures
        match r {
            Ok(out) => {
                &&& sizes_fit(sizes_alone(sizes@))
                &&& 4 * sizes@.len() <= LIMIT
                &&& out@ == codec.compressed(sizes_stream(sizes_alone(sizes@)))
                &&& codec.decompressed(out@, 4 * sizes@.len() as nat) == Some(
                    sizes_stream(sizes_alone(sizes@)),
                )
            },
            Err(BuildError::AssetTooBig { name, size }) => exists|i: int|
                {
                    &&& 0 <= i < sizes@.len()
                    &&& sizes_fit(sizes_alone(sizes@).take(i))
                    &&& #[trigger] sizes@[i].1 > LIMIT
                    &&& name@ == sizes@[i].0@
                    &&& size == sizes@[i].1
                },
            Err(BuildError::TooManyAssets(bytes)) => {
                &&& sizes_fit(sizes_alone(sizes@))
                &&& bytes == 4 * sizes@.len()
                &&& bytes > LIMIT
            },
            Err(BuildError::Compression { stream, .. }) => {
                &&& stream is Sizes
                &&& sizes_fit(sizes_alone(sizes@))
                &&& 4 * sizes@.len() <= LIMIT
                &&& !codec.always_compresses()
            },
            Err(_) => false,
        },
{
    let ghost all = sizes_alone(sizes@);
    let mut sizes_vec: Vec<u8> = Vec::new();
    let mut i: usize = 0;
    assert(sizes_stream(all.take(0)) =~= Seq::<u8>::empty());
    while i < sizes.len()
        invariant
            i <= sizes@.len(),
            all == sizes_alone(sizes@),
            sizes_fit(all.take(i as int)),
            sizes_vec@ == sizes_stream(all.take(i as int)),
        decreases sizes@.len() - i,
    {
        let (name, size) = sizes[i];
        if size > 0xffff_ffff {
            return Err(BuildError::AssetTooBig { name: String::from_str(name), size });
        }
        let size: u32 = size as u32;
        let bytes = le_bytes_of(size);
        append_bytes(&mut sizes_vec, bytes.as_slice());
        proof {
            lemma_sizes_stream_push(all.take(i as int), size as nat);
            assert(all.take(i + 1) =~= all.take(i as int).push(size as nat));
        }
        i += 1;
    }
    assert(all.take(i as int) =~= all);
    // ensure that the uncompressed lengths aren't longer than 4 GiB (i.e. the length fits in a u32)
    if sizes_vec.len() > 0xffff_ffff {
        return Err(BuildError::TooManyAssets(sizes_vec.len()));
    }
    match codec.compress(sizes_vec.as_slice()) {
        Ok(out) => Ok(out),
        Err(error) => Err(BuildError::Compression { stream: Stream::Sizes, error }),
    }
}

/// The text of each name.
pub open spec fn texts_of(names: Seq<&str>) -> Seq<Seq<char>> {
    Seq::new(names.len(), |i: int| names[i]@)
}

/// No name holds a zero byte.
pub open spec fn all_nul_free(names: Seq<Seq<char>>) -> bool {
    forall|i: int| 0 <= i < names.len() ==> nul_free(#[trigger] names[i])
}

/// Whether `bytes` holds a zero byte.
fn has_zero(bytes: &[u8]) -> (found: bool)
    ensures
        found == !zero_free(bytes@),
{
    let mut i: usize = 0;
    while i < bytes.len()
        invariant
            i <= bytes@.len(),
            forall|j: int| 0 <= j < i ==> bytes@[j] != 0,
        decreases bytes@.len() - i,
    {
        if bytes[i] == 0 {
            return true;
        }
        i += 1;
    }
    false
}

/// Writes the names stream of a package and compresses it. With the compressed
/// stream comes the size of the uncompressed one.
pub fn compress_names<C: Codec>(codec: &C, names: &[&str]) -> (r: Result<
    (Vec<u8>, u32),
    BuildError<C::CompressionError>,
>)
    ensures
        match r {
            Ok((out, size)) => {
                &&& all_nul_free(texts_of(names@))
                &&& size == names_stream(texts_of(names@)).len()
                &&& out@ == codec.compressed(names_stream(texts_of(names@)))
                &&& codec.decompressed(out@, size as nat) == Some(
                    names_stream(texts_of(names@)),
                )
            },
            Err(BuildError::NulInName(name)) => exists|i: int|
                {
                    &&& 0 <= i < names@.len()
                    &&& all_nul_free(texts_of(names@).take(i))
                    &&& !nul_free(#[trigger] names@[i]@)
                    &&& name@ == names@[i]@
                },
            Err(BuildError::NamesTooLong(bytes)) => {
                &&& all_nul_free(texts_of(names@))
                &&& bytes == names_stream(texts_of(names@)).len()
                &&& bytes > LIMIT
            },
            Err(BuildError::Compression { stream, .. }) => {
                &&& stream is Names
                &&& all_nul_free(texts_of(names@))
                &&& names_stream(texts_of(names@)).len() <= LIMIT
                &&& !codec.always_compresses()
            },
            Err(_) => false,
        },
{
    let ghost all = texts_of(names@);
    let mut uncompressed_names: Vec<u8> = Vec::new();
    let mut i: usize = 0;
    assert(encoded(all.take(0)) =~= Seq::<Seq<u8>>::empty());
    while i < names.len()
        invariant
            i <= names@.len(),
            all == texts_of(names@),
            all_nul_free(all.take(i as int)),
            uncompressed_names@ == names_stream(all.take(i as int)),
        decreases names@.len() - i,
    {
        let name = names[i];
        let bytes = name.as_bytes();
        if has_zero(bytes) {
            return Err(BuildError::NulInName(String::from_str(name)));
        }
        if i > 0 {
            uncompressed_names.push(0u8);
        }
        append_bytes(&mut uncompressed_names, bytes);
        proof {
            let pieces = encoded(all.take(i + 1));
            assert(pieces.drop_last() =~= encoded(all.take(i as int)));
            assert(pieces.last() == bytes@);
            if i > 0 {
                assert(uncompressed_names@ =~= join(pieces.drop_last()) + seq![0u8] + bytes@);
            } else {
                assert(uncompressed_names@ =~= bytes@);
            }
            assert forall|k: int| 0 <= k < i + 1 implies nul_free(
                #[trigger] all.take(i + 1)[k],
            ) by {
                if k < i {
                    assert(nul_free(all.take(i as int)[k]));
                }
            }
        }
        i += 1;
    }
    assert(all.take(i as int) =~= all);
    if uncompressed_names.len() > 0xffff_ffff {
        return Err(BuildError::NamesTooLong(uncompressed_names.len()));
    }
    let uncompressed_size = uncompressed_names.len() as u32;
    match codec.compress(uncompressed_names.as_slice()) {
        Ok(compressed_names) => Ok((compressed_names, uncompressed_size)),
        Err(error) => Err(BuildError::Compression { stream: Stream::Names, error }),
    }
}

/// The error of a codec whose kind is chosen at run time: the words of the
/// chosen codec's own error.
#[derive(Debug)]
pub struct MyError {
    text: String,
}

impl MyError {
    /// The words of the error.
    pub closed spec fn text(&self) -> Seq<char> {
        self.text@
    }

    /// An error with these words.
    pub fn new(text: String) -> (error: Self)
        ensures
            error.text() == text@,
    {
        Self { text }
    }
}

impl ErrorMessage for MyError {
    fn message(&self) -> (text: String)
        ensures
            text@ == self.text(),
    {
        self.text.clone()
    }
}

/// A codec that reports its errors as text, so that codecs of different kinds
/// can stand in for one another.
pub struct DynCodec<C> {
    codec: C,
}

impl<C> DynCodec<C> {
    /// The codec that does the work.
    pub closed spec fn inner(&self) -> C {
        self.codec
    }

    /// Wraps `codec`.
    pub fn new(codec: C) -> (wrapped: Self)
        ensures
            wrapped.inner() == codec,
    {
        Self { codec }
    }
}

impl<C: Codec> Codec for DynCodec<C> {
    type CompressionError = MyError;

    type DecompressionError = MyError;

    open spec fn compressed(&self, data: Seq<u8>) -> Seq<u8> {
        self.inner().compressed(data)
    }

    open spec fn decompressed(&self, src: Seq<u8>, len: nat) -> Option<Seq<u8>> {
        self.inner().decompressed(src, len)
    }

    open spec fn always_compresses(&self) -> bool {
        self.inner().always_compresses()
    }

    fn compress(&self, data: &[u8]) -> (r: Result<Vec<u8>, MyError>) {
        match self.codec.compress(data) {
            Ok(out) => Ok(out),
            Err(error) => Err(MyError { text: error.message() }),
        }
    }

    fn decompress_checked(&self, src: &[u8], dst: &mut [u8]) -> (r: Result<(), MyError>) {
        match self.codec.decompress_checked(src, dst) {
            Ok(()) => Ok(()),
            Err(error) => Err(MyError { text: error.message() }),
        }
    }
}

/// One of the codecs there are, chosen at run time.
#[derive(Debug, Clone, Copy)]
pub enum AnyCodec {
    Uncompressed(Uncompressed),
    Lz4(Lz4),
    Deflate(Deflate),
    Zstd(Zstd),
}

impl Codec for AnyCodec {
    type CompressionError = MyError;

    type DecompressionError = MyError;

    open spec fn compressed(&self, data: Seq<u8>) -> Seq<u8> {
        match *self {
            AnyCodec::Uncompressed(codec) => codec.compressed(data),
            AnyCodec::Lz4(codec) => codec.compressed(data),
            AnyCodec::Deflate(codec) => codec.compressed(data),
            AnyCodec::Zstd(codec) => codec.compressed(data),
        }
    }

    open spec fn decompressed(&self, src: Seq<u8>, len: nat) -> Option<Seq<u8>> {
        match *self {
            AnyCodec::Uncompressed(codec) => codec.decompressed(src, len),
            AnyCodec::Lz4(codec) => codec.decompressed(src, len),
            AnyCodec::Deflate(codec) => codec.decompressed(src, len),
            AnyCodec::Zstd(codec) => codec.decompressed(src, len),
        }
    }

    open spec fn always_compresses(&self) -> bool {
        match *self {
            AnyCodec::Uncompressed(codec) => codec.always_compresses(),
            AnyCodec::Lz4(codec) => codec.always_compresses(),
            AnyCodec::Deflate(codec) => codec.always_compresses(),
            AnyCodec::Zstd(codec) => codec.always_compresses(),
        }
    }

    fn compress(&self, data: &[u8]) -> (r: Result<Vec<u8>, MyError>) {
        match *self {
            AnyCodec::Uncompressed(codec) => DynCodec::new(codec).compress(data),
            AnyCodec::Lz4(codec) => DynCodec::new(codec).compress(data),
            AnyCodec::Deflate(codec) => DynCodec::new(codec).compress(data),
            AnyCodec::Zstd(codec) => DynCodec::new(codec).compress(data),
        }
    }

    fn decompress_checked(&self, src: &[u8], dst: &mut [u8]) -> (r: Result<(), MyError>) {
        match *self {
            AnyCodec::Uncompressed(codec) => DynCodec::new(codec).decompress_checked(src, dst),
            AnyCodec::Lz4(codec) => DynCodec::new(codec).decompress_checked(src, dst),
            AnyCodec::Deflate(codec) => DynCodec::new(codec).decompress_checked(src, dst),
            AnyCodec::Zstd(codec) => DynCodec::new(codec).decompress_checked(src, dst),
        }
    }
}

/// The name of the compression that the option asks for: `zstd` where there is
/// no option, and none where the option is no string.
pub open spec fn compression_name(compression: Option<&Lit>) -> Option<Seq<char>> {
    match compression {
        None => Some("zstd"@),
        Some(Lit::Str(name)) => Some(name@),
        Some(_) => None,
    }
}

/// The level that the option asks for: `default` where there is no option, and
/// none where the option is no integer from `low` to `high`.
pub open spec fn level_within(level: Option<&Lit>, default: int, low: int, high: int) -> Option<
    int,
> {
    match level {
        None => Some(default),
        Some(Lit::Int(value)) => if low <= *value <= high {
            Some(*value as int)
        } else {
            None
        },
        Some(_) => None,
    }
}

/// Chooses the codec that the options `compression` and `level` ask for.
///
/// Without `compression` it is zstd. Without `level`, deflate is at level 2 and
/// zstd at level 5. The other two take no level.
pub fn parse_codec(compression: Option<&Lit>, level: Option<&Lit>) -> (r: Result<
    AnyCodec,
    OptionError,
>)
    ensures
        match r {
            Ok(AnyCodec::Uncompressed(_)) => compression_name(compression) == Some(
                "uncompressed"@,
            ) && level is None,
            Ok(AnyCodec::Lz4(_)) => compression_name(compression) == Some("lz4"@) && level is None,
            Ok(AnyCodec::Deflate(codec)) => compression_name(compression) == Some("deflate"@)
                && level_within(level, 2, 0, 255) == Some(codec.level as int),
            Ok(AnyCodec::Zstd(codec)) => compression_name(compression) == Some("zstd"@)
                && level_within(level, 5, i32::MIN as int, i32::MAX as int) == Some(
                codec.level as int,
            ),
            Err(OptionError::InvalidCompression) => compression_name(compression) is None,
            Err(OptionError::LevelNotAllowed(name)) => {
                &&& compression_name(compression) == Some(name@)
                &&& name@ == "uncompressed"@ || name@ == "lz4"@
                &&& level is Some
            },
            Err(OptionError::InvalidLevel) => {
                ||| compression_name(compression) == Some("deflate"@) && level_within(
                    level,
                    2,
                    0,
                    255,
                ) is None
                ||| compression_name(compression) == Some("zstd"@) && level_within(
                    level,
                    5,
                    i32::MIN as int,
                    i32::MAX as int,
                ) is None
            },
            Err(OptionError::UnsupportedCompression(name)) => {
                &&& compression_name(compression) == Some(name@)
                &&& name@ != "uncompressed"@ && name@ != "lz4"@ && name@ != "deflate"@ && name@
                    != "zstd"@
            },
            Err(_) => false,
        },
{
    let compression_string: &str = match compression {
        None => "zstd",
        Some(Lit::Str(name)) => name.as_str(),
        Some(_) => {
            return Err(OptionError::InvalidCompression);
        },
    };
    if str_eq(compression_string, "uncompressed") {
        if level.is_some() {
            Err(OptionError::LevelNotAllowed(String::from_str(compression_string)))
        } else {
            Ok(AnyCodec::Uncompressed(Uncompressed {}))
        }
    } else if str_eq(compression_string, "lz4") {
        if level.is_some() {
            Err(OptionError::LevelNotAllowed(String::from_str(compression_string)))
        } else {
            Ok(AnyCodec::Lz4(Lz4 {}))
        }
    } else if str_eq(compression_string, "deflate") {
        match level {
            None => Ok(AnyCodec::Deflate(Deflate { level: 2 })),
            Some(Lit::Int(value)) => {
                if 0 <= *value && *value <= 255 {
                    Ok(AnyCodec::Deflate(Deflate { level: *value as u8 }))
                } else {
                    Err(OptionError::InvalidLevel)
                }
            },
            Some(_) => Err(OptionError::InvalidLevel),
        }
    } else if str_eq(compression_string, "zstd") {
        match level {
            None => Ok(AnyCodec::Zstd(Zstd { level: 5 })),
            Some(Lit::Int(value)) => {
                if -0x8000_0000 <= *value && *value <= 0x7fff_ffff {
                    Ok(AnyCodec::Zstd(Zstd { level: *value as i32 }))
                } else {
                    Err(OptionError::InvalidLevel)
                }
            },
            Some(_) => Err(OptionError::InvalidLevel),
        }
    } else {
        Err(OptionError::UnsupportedCompression(String::from_str(compression_string)))
    }
}

} // verus!
