//! Reading the sizes stream and the names stream of a package.

use crate::decode::codec::Codec;
use crate::model::names::{all_utf8, decoded, split, stream_names};
use crate::model::sizes::{
    le_value, lemma_le_value_bytes, ranges_of, stream_sizes, total, LIMIT,
};
use core::ops::Range;
use vstd::prelude::*;
use vstd::string::StringExecFns;
use vstd::utf8::{encode_utf8, valid_utf8};

verus! {

/// A number of a package as a number of this machine, which has at least 32 bits.
#[inline(always)]
pub fn u32_to_usize(x: u32) -> (r: usize)
    ensures
        r == x,
{
    x as usize
}

/// A range of a package as a range of this machine.
#[inline(always)]
pub fn u32_to_usize_range(range: &Range<u32>) -> (r: Range<usize>)
    ensures
        r.start == range.start,
        r.end == range.end,
{
    u32_to_usize(range.start)..u32_to_usize(range.end)
}

/// The ranges as pairs of numbers: where each starts and where it ends.
pub open spec fn spans(ranges: Seq<Range<u32>>) -> Seq<(nat, nat)> {
    Seq::new(ranges.len(), |i: int| (ranges[i].start as nat, ranges[i].end as nat))
}

/// The text of each name.
pub open spec fn texts(names: Seq<String>) -> Seq<Seq<char>> {
    Seq::new(names.len(), |i: int| names[i]@)
}

/// The number that the four bytes from `at` on hold, least significant byte first.
fn read_le_u32(bytes: &[u8], at: usize) -> (value: u32)
    requires
        at + 4 <= bytes@.len(),
    ensures
        value == le_value(bytes@.subrange(at as int, at + 4)),
{
    proof {
        lemma_le_value_bytes(bytes@.subrange(at as int, at + 4));
    }
    let b0 = bytes[at] as u32;
    let b1 = bytes[at + 1] as u32;
    let b2 = bytes[at + 2] as u32;
    let b3 = bytes[at + 3] as u32;
    b0 + 0x100 * b1 + 0x1_0000 * b2 + 0x100_0000 * b3
}

/// The byte range of each asset, from the sizes stream of a package.
///
/// There is none where the stream is no whole number of sizes, or where the
/// sizes add up to more than a package can hold.
pub fn ranges_from_sizes(stream: &[u8]) -> (r: Option<Vec<Range<u32>>>)
    ensures
        r is Some <==> stream@.len() % 4 == 0 && total(
            stream_sizes(stream@),
            stream_sizes(stream@).len() as int,
        ) <= LIMIT,
        r matches Some(ranges) ==> spans(ranges@) == ranges_of(stream_sizes(stream@)),
{
    if stream.len() % 4 != 0 {
        return None;
    }
    let count = stream.len() / 4;
    let ghost sizes = stream_sizes(stream@);
    let mut ranges: Vec<Range<u32>> = Vec::with_capacity(count);
    let mut start: u32 = 0;
    let mut i: usize = 0;
    while i < count
        invariant
            stream@.len() == 4 * count,
            stream@.len() <= usize::MAX,
            sizes == stream_sizes(stream@),
            sizes.len() == count,
            i <= count,
            ranges@.len() == i,
            start == total(sizes, i as int),
            forall|k: int|
                0 <= k < i ==> ranges@[k].start == total(sizes, k) && ranges@[k].end == total(
                    sizes,
                    k + 1,
                ),
        decreases count - i,
    {
        let len = read_le_u32(stream, 4 * i);
        assert(len == sizes[i as int]);
        let end = match start.checked_add(len) {
            Some(end) => end,
            None => {
                proof {
                    crate::model::sizes::lemma_total_monotone(sizes, i + 1, count as int);
                }
                return None;
            },
        };
        ranges.push(start..end);
        start = end;
        i += 1;
    }
    assert(spans(ranges@) =~= ranges_of(sizes));
    Some(ranges)
}

/// Why the sizes stream of a package gave no ranges.
#[derive(Debug)]
pub enum RangesError<E> {
    /// The stream of that many sizes is more than memory can address.
    TooManyEntries,
    /// The stream did not decompress to four bytes per entry.
    Decompression(E),
    /// The sizes add up to more than a package can hold.
    Overflow,
}

/// What the sizes stream of `number_of_entries` assets decompresses to.
pub open spec fn sizes_of<C: Codec>(
    codec: &C,
    compressed: Seq<u8>,
    number_of_entries: nat,
) -> Option<Seq<nat>> {
    match codec.decompressed(compressed, 4 * number_of_entries) {
        Some(stream) if stream.len() == 4 * number_of_entries => Some(stream_sizes(stream)),
        _ => None,
    }
}

/// Whether `decompress_ranges` can read these ranges.
pub open spec fn ranges_readable<C: Codec>(
    codec: &C,
    compressed: Seq<u8>,
    number_of_entries: nat,
) -> bool {
    &&& 4 * number_of_entries <= usize::MAX
    &&& sizes_of(codec, compressed, number_of_entries) matches Some(sizes)
    &&& total(sizes, sizes.len() as int) <= LIMIT
}

/// Decompresses the sizes stream of a package and lays the assets out one
/// after another from offset 0.
pub fn try_decompress_ranges<C: Codec>(
    codec: &C,
    compressed_lengths: &[u8],
    number_of_entries: usize,
) -> (r: Result<Vec<Range<u32>>, RangesError<C::DecompressionError>>)
    ensures
        match r {
            Ok(ranges) => {
                &&& ranges_readable(codec, compressed_lengths@, number_of_entries as nat)
                &&& spans(ranges@) == ranges_of(
                    sizes_of(codec, compressed_lengths@, number_of_entries as nat)->0,
                )
            },
            Err(RangesError::TooManyEntries) => 4 * number_of_entries > usize::MAX,
            Err(RangesError::Decompression(_)) => {
                &&& 4 * number_of_entries <= usize::MAX
                &&& codec.decompressed(compressed_lengths@, 4 * number_of_entries as nat) is None
            },
            Err(RangesError::Overflow) => {
                &&& 4 * number_of_entries <= usize::MAX
                &&& sizes_of(codec, compressed_lengths@, number_of_entries as nat) matches Some(
                    sizes,
                )
                &&& total(sizes, sizes.len() as int) > LIMIT
            },
        },
{
    let decompressed_len = match number_of_entries.checked_mul(4) {
        Some(len) => len,
        None => {
            return Err(RangesError::TooManyEntries);
        },
    };
    let decompressed_lengths = match codec.try_decompress_with_length(
        compressed_lengths,
        decompressed_len,
    ) {
        Ok(stream) => stream,
        Err(error) => {
            return Err(RangesError::Decompression(error));
        },
    };
    match ranges_from_sizes(decompressed_lengths.as_slice()) {
        Some(ranges) => Ok(ranges),
        None => Err(RangesError::Overflow),
    }
}

/// Decompresses the sizes stream of a well-formed package and lays the assets
/// out one after another from offset 0.
pub fn decompress_ranges<C: Codec>(
    codec: &C,
    compressed_lengths: &[u8],
    number_of_entries: usize,
) -> (ranges: Vec<Range<u32>>)
    requires
        ranges_readable(codec, compressed_lengths@, number_of_entries as nat),
    ensures
        spans(ranges@) == ranges_of(
            sizes_of(codec, compressed_lengths@, number_of_entries as nat)->0,
        ),
{
    match try_decompress_ranges(codec, compressed_lengths, number_of_entries) {
        Ok(ranges) => ranges,
        Err(_) => vstd::pervasive::unreached(),
    }
}

/// Calls `std::str::from_utf8`. Trusted: it succeeds on well-formed UTF-8 and
/// on nothing else, and the text it gives has exactly these bytes.
#[verifier::external_body]
fn str_from_utf8(bytes: &[u8]) -> (r: Option<&str>)
    ensures
        r is Some <==> valid_utf8(bytes@),
        r matches Some(text) ==> encode_utf8(text@) == bytes@,
{
    std::str::from_utf8(bytes).ok()
}

/// Where each piece of `stream` starts and ends.
fn piece_bounds(stream: &[u8]) -> (bounds: Vec<(usize, usize)>)
    ensures
        bounds@.len() == split(stream@).len(),
        forall|k: int|
            #![trigger bounds@[k]]
            0 <= k < bounds@.len() ==> bounds@[k].0 <= bounds@[k].1 <= stream@.len() && split(
                stream@,
            )[k] == stream@.subrange(bounds@[k].0 as int, bounds@[k].1 as int),
{
    let mut bounds: Vec<(usize, usize)> = Vec::new();
    let mut start: usize = 0;
    let mut i: usize = 0;
    assert(stream@.take(0) =~= Seq::<u8>::empty());
    assert(stream@.subrange(0, 0) =~= Seq::<u8>::empty());
    assert(split(stream@.take(0)) =~= seq![Seq::<u8>::empty()]);
    while i < stream.len()
        invariant
            start <= i <= stream@.len(),
            split(stream@.take(i as int)).len() == bounds@.len() + 1,
            split(stream@.take(i as int)).last() == stream@.subrange(start as int, i as int),
            forall|k: int|
                #![trigger bounds@[k]]
                0 <= k < bounds@.len() ==> bounds@[k].0 <= bounds@[k].1 <= stream@.len() && split(
                    stream@.take(i as int),
                )[k] == stream@.subrange(bounds@[k].0 as int, bounds@[k].1 as int),
        decreases stream@.len() - i,
    {
        let ghost before = split(stream@.take(i as int));
        assert(stream@.take(i + 1).drop_last() =~= stream@.take(i as int));
        assert(stream@.take(i + 1).last() == stream@[i as int]);
        let ghost old_bounds = bounds@;
        if stream[i] == 0 {
            bounds.push((start, i));
            start = i + 1;
            assert(stream@.subrange(start as int, i + 1) =~= Seq::<u8>::empty());
        } else {
            assert(stream@.subrange(start as int, i as int).push(stream@[i as int])
                =~= stream@.subrange(start as int, i + 1));
        }
        assert forall|k: int| 0 <= k < bounds@.len() implies bounds@[k].0 <= bounds@[k].1
            <= stream@.len() && split(stream@.take(i + 1))[k] == stream@.subrange(
            bounds@[k].0 as int,
            bounds@[k].1 as int,
        ) by {
            if k < old_bounds.len() {
                assert(bounds@[k] == old_bounds[k]);
                assert(split(stream@.take(i + 1))[k] == before[k]);
            }
        }
        i += 1;
    }
    assert(stream@.take(i as int) =~= stream@);
    let ghost old_bounds = bounds@;
    bounds.push((start, i));
    assert forall|k: int| 0 <= k < bounds@.len() implies bounds@[k].0 <= bounds@[k].1
        <= stream@.len() && split(stream@)[k] == stream@.subrange(
        bounds@[k].0 as int,
        bounds@[k].1 as int,
    ) by {
        if k < old_bounds.len() {
            assert(bounds@[k] == old_bounds[k]);
        }
    }
    bounds
}

/// The names in the names stream of a package, or, where a piece of the stream
/// is no well-formed UTF-8, the place of the first such piece.
pub fn names_from_stream(stream: &[u8]) -> (r: Result<Vec<String>, usize>)
    ensures
        match r {
            Ok(names) => stream_names(stream@) == Some(texts(names@)),
            Err(index) => {
                &&& index < split(stream@).len()
                &&& !valid_utf8(split(stream@)[index as int])
                &&& forall|k: int| 0 <= k < index ==> valid_utf8(#[trigger] split(stream@)[k])
            },
        },
{
    let bounds = piece_bounds(stream);
    let ghost pieces = split(stream@);
    let mut names: Vec<String> = Vec::with_capacity(bounds.len());
    let mut k: usize = 0;
    while k < bounds.len()
        invariant
            pieces == split(stream@),
            bounds@.len() == pieces.len(),
            forall|j: int|
                #![trigger bounds@[j]]
                0 <= j < bounds@.len() ==> bounds@[j].0 <= bounds@[j].1 <= stream@.len()
                    && pieces[j] == stream@.subrange(bounds@[j].0 as int, bounds@[j].1 as int),
            k <= bounds@.len(),
            names@.len() == k,
            forall|j: int| 0 <= j < k ==> valid_utf8(#[trigger] pieces[j]),
            forall|j: int| 0 <= j < k ==> names@[j]@ == vstd::utf8::decode_utf8(pieces[j]),
        decreases bounds@.len() - k,
    {
        let (start, end) = bounds[k];
        assert(pieces[k as int] == stream@.subrange(start as int, end as int));
        let piece = vstd::slice::slice_subrange(stream, start, end);
        match str_from_utf8(piece) {
            Some(text) => {
                proof {
                    vstd::utf8::encode_utf8_decode_utf8(text@);
                }
                names.push(String::from_str(text));
            },
            None => {
                return Err(k);
            },
        }
        k += 1;
    }
    assert(all_utf8(pieces));
    assert(texts(names@) =~= decoded(pieces));
    Ok(names)
}

/// Why the names stream of a package gave no names.
#[derive(Debug)]
pub enum NamesError<E> {
    /// The stream did not decompress to the recorded size.
    Decompression(E),
    /// The name at this place is no well-formed UTF-8.
    NotUtf8(usize),
}

/// The names that the names stream of a package holds.
pub open spec fn names_in<C: Codec>(
    codec: &C,
    compressed: Seq<u8>,
    decompressed_len: nat,
) -> Option<Seq<Seq<char>>> {
    match codec.decompressed(compressed, decompressed_len) {
        Some(stream) => stream_names(stream),
        None => None,
    }
}

/// Decompresses the names stream of a package and reads the names.
pub fn try_decompress_names<C: Codec>(
    codec: &C,
    compressed_names_with_null_delimiters: &[u8],
    decompressed_len: u32,
) -> (r: Result<Vec<String>, NamesError<C::DecompressionError>>)
    ensures
        match r {
            Ok(names) => names_in(
                codec,
                compressed_names_with_null_delimiters@,
                decompressed_len as nat,
            ) == Some(texts(names@)),
            Err(NamesError::Decompression(_)) => codec.decompressed(
                compressed_names_with_null_delimiters@,
                decompressed_len as nat,
            ) is None,
            Err(NamesError::NotUtf8(index)) => {
                &&& codec.decompressed(
                    compressed_names_with_null_delimiters@,
                    decompressed_len as nat,
                ) matches Some(stream)
                &&& index < split(stream).len()
                &&& !valid_utf8(split(stream)[index as int])
                &&& forall|k: int| 0 <= k < index ==> valid_utf8(#[trigger] split(stream)[k])
            },
        },
{
    let decompressed_data = match codec.try_decompress_with_length(
        compressed_names_with_null_delimiters,
        u32_to_usize(decompressed_len),
    ) {
        Ok(stream) => stream,
        Err(error) => {
            return Err(NamesError::Decompression(error));
        },
    };
    match names_from_stream(decompressed_data.as_slice()) {
        Ok(names) => Ok(names),
        Err(index) => Err(NamesError::NotUtf8(index)),
    }
}

/// Decompresses the names stream of a well-formed package and reads the names.
pub fn decompress_names<C: Codec>(
    codec: &C,
    compressed_names_with_null_delimiters: &[u8],
    decompressed_len: u32,
) -> (names: Vec<String>)
    requires
        names_in(codec, compressed_names_with_null_delimiters@, decompressed_len as nat) is Some,
    ensures
        names_in(codec, compressed_names_with_null_delimiters@, decompressed_len as nat) == Some(
            texts(names@),
        ),
{
    match try_decompress_names(codec, compressed_names_with_null_delimiters, decompressed_len) {
        Ok(names) => names,
        Err(_) => vstd::pervasive::unreached(),
    }
}

} // verus!
