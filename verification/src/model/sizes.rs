//! The stream of asset sizes and the byte ranges that follow from it.

use vstd::prelude::*;

verus! {

/// Largest size, count or offset that a package can record.
pub const LIMIT: u32 = 0xffff_ffff;

/// The number that four bytes hold, least significant byte first.
pub open spec fn le_value(bytes: Seq<u8>) -> nat
    recommends
        bytes.len() == 4,
{
    (bytes[0] as nat) + 0x100 * (bytes[1] as nat) + 0x1_0000 * (bytes[2] as nat) + 0x100_0000 * (
    bytes[3] as nat)
}

/// The four bytes that hold `value`, least significant byte first.
pub open spec fn le_bytes(value: nat) -> Seq<u8> {
    seq![
        (value % 0x100) as u8,
        ((value / 0x100) % 0x100) as u8,
        ((value / 0x1_0000) % 0x100) as u8,
        ((value / 0x100_0000) % 0x100) as u8,
    ]
}

/// The sizes stream of a package: each size as four bytes, in order.
pub open spec fn sizes_stream(sizes: Seq<nat>) -> Seq<u8> {
    Seq::new(4 * sizes.len(), |k: int| le_bytes(sizes[k / 4])[k % 4])
}

/// The sizes that a stream holds. Bytes after the last full group of four are ignored.
pub open spec fn stream_sizes(stream: Seq<u8>) -> Seq<nat> {
    Seq::new(stream.len() / 4, |i: int| le_value(stream.subrange(4 * i, 4 * i + 4)))
}

/// Sum of the first `n` sizes.
pub open spec fn total(sizes: Seq<nat>, n: int) -> nat
    decreases n,
{
    if n <= 0 || n > sizes.len() {
        0
    } else {
        total(sizes, n - 1) + sizes[n - 1]
    }
}

/// The half-open byte range of each asset within the concatenated data:
/// the first starts at 0 and each one starts where the one before it ends.
pub open spec fn ranges_of(sizes: Seq<nat>) -> Seq<(nat, nat)> {
    Seq::new(sizes.len(), |i: int| (total(sizes, i), total(sizes, i + 1)))
}

/// Four bytes hold a number below 2^32, and writing it out again gives the same bytes.
pub proof fn lemma_le_value_bytes(bytes: Seq<u8>)
    requires
        bytes.len() == 4,
    ensures
        le_value(bytes) <= LIMIT,
        le_bytes(le_value(bytes)) == bytes,
{
    let (b0, b1, b2, b3) = (bytes[0] as int, bytes[1] as int, bytes[2] as int, bytes[3] as int);
    let value = le_value(bytes) as int;
    let high = b1 + 0x100 * (b2 + 0x100 * b3);
    assert(value == b0 + 0x100 * high);
    assert(value % 0x100 == b0 && value / 0x100 == high);
    assert(high % 0x100 == b1 && high / 0x100 == b2 + 0x100 * b3);
    assert(value / 0x1_0000 == b2 + 0x100 * b3 && value / 0x100_0000 == b3);
    assert(le_bytes(le_value(bytes)) =~= bytes);
}

/// A number below 2^32 is read back from its four bytes.
pub proof fn lemma_le_bytes_value(value: nat)
    requires
        value <= LIMIT,
    ensures
        le_bytes(value).len() == 4,
        le_value(le_bytes(value)) == value,
{
}

/// The stream of `sizes` is four bytes per size, and reading it gives `sizes` back.
pub proof fn lemma_sizes_stream_read_back(sizes: Seq<nat>)
    requires
        forall|i: int| 0 <= i < sizes.len() ==> sizes[i] <= LIMIT,
    ensures
        sizes_stream(sizes).len() == 4 * sizes.len(),
        stream_sizes(sizes_stream(sizes)) == sizes,
{
    let stream = sizes_stream(sizes);
    assert forall|i: int| 0 <= i < sizes.len() implies stream_sizes(stream)[i] == sizes[i] by {
        assert(stream.subrange(4 * i, 4 * i + 4) =~= le_bytes(sizes[i]));
        lemma_le_bytes_value(sizes[i]);
    }
    assert(stream_sizes(stream) =~= sizes);
}

/// Appending one size appends its four bytes to the stream.
pub proof fn lemma_sizes_stream_push(sizes: Seq<nat>, size: nat)
    ensures
        sizes_stream(sizes.push(size)) == sizes_stream(sizes) + le_bytes(size),
{
    assert(sizes_stream(sizes.push(size)) =~= sizes_stream(sizes) + le_bytes(size));
}

/// The running total never shrinks.
pub proof fn lemma_total_monotone(sizes: Seq<nat>, i: int, j: int)
    requires
        0 <= i <= j <= sizes.len(),
    ensures
        total(sizes, i) <= total(sizes, j),
    decreases j - i,
{
    if i < j {
        lemma_total_monotone(sizes, i, j - 1);
    }
}

/// The running total of a prefix is that of the whole sequence.
pub proof fn lemma_total_prefix(sizes: Seq<nat>, n: int, i: int)
    requires
        0 <= i <= n <= sizes.len(),
    ensures
        total(sizes.take(n), i) == total(sizes, i),
    decreases i,
{
    if i > 0 {
        lemma_total_prefix(sizes, n, i - 1);
    }
}

} // verus!
