//! Archives of a fixed set of assets, each known by its ordinal.

use crate::decode::checksum::{blake2b512, check, Checksum, Mismatch};
use crate::decode::codec::Codec;
use crate::decode::common::u32_to_usize;
use crate::decode::named::digests;
use vstd::prelude::*;

verus! {

/// Trait for assets that can be looked up by enum.
///
/// The ordinals of the variants are 0, 1, 2, .. in the order of declaration, and
/// there is one end offset and one checksum for each of them.
pub trait AssetEnum: Sized {
    /// Compressed asset data
    const DATA: &'static [u8];

    /// Position of the end of the asset data for each enum within the uncompressed combined data.
    const DATA_END_OFFSETS: &'static [u32];

    /// Checksums for all assets
    const CHECKSUMS: &'static [Checksum];

    /// Type of compression codec
    type C: Codec;

    /// Compression codec with which to decompress the asset data
    const CODEC: Self::C;

    /// This method should map an enum variant to its discriminator (via `as` casting).
    ///
    /// The discriminator is the ordinal of the variant, so there is an end offset for it.
    fn index(self) -> (i: usize)
        ensures
            i < Self::DATA_END_OFFSETS@.len(),
    ;
}

/// `i` is the ordinal of the variant `e`: what `e.index()` gives.
pub open spec fn is_ordinal<E: AssetEnum>(e: E, i: usize) -> bool {
    call_ensures(E::index, (e,), i)
}

/// Where the asset with ordinal `i` starts, given where each asset ends.
pub open spec fn start_of(ends: Seq<u32>, i: int) -> nat {
    if i <= 0 {
        0
    } else {
        ends[i - 1] as nat
    }
}

/// No asset ends before it starts.
pub open spec fn nondecreasing(ends: Seq<u32>) -> bool {
    forall|i: int| 0 < i < ends.len() ==> ends[i - 1] <= #[trigger] ends[i]
}

/// Where the last asset ends, which is how many bytes all of them have together.
pub open spec fn end_of_all(ends: Seq<u32>) -> nat {
    if ends.len() == 0 {
        0
    } else {
        ends.last() as nat
    }
}

/// The bytes of each asset, cut out of `bytes` where the end offsets say.
pub open spec fn slices(bytes: Seq<u8>, ends: Seq<u32>) -> Seq<Seq<u8>> {
    Seq::new(ends.len(), |i: int| bytes.subrange(start_of(ends, i) as int, ends[i] as int))
}

/// Each asset has the digest that is recorded for it.
pub open spec fn digests_match(assets: Seq<Seq<u8>>, checksums: Seq<Seq<u8>>) -> bool {
    forall|i: int| 0 <= i < assets.len() ==> blake2b512(#[trigger] assets[i]) == checksums[i]
}

/// The assets that the data of an enum unpack to, by ordinal, or `None` where
/// the data do not decompress to the last end offset, there is not one checksum
/// per end offset, an asset ends before it starts, or a digest differs.
pub open spec fn unpacked_by_ordinal<C: Codec>(
    codec: &C,
    data: Seq<u8>,
    ends: Seq<u32>,
    checksums: Seq<Seq<u8>>,
) -> Option<Seq<Seq<u8>>> {
    match codec.decompressed(data, end_of_all(ends)) {
        Some(bytes) if checksums.len() == ends.len() && nondecreasing(ends) && digests_match(
            slices(bytes, ends),
            checksums,
        ) => Some(slices(bytes, ends)),
        _ => None,
    }
}

/// The assets that `E` unpacks to.
pub open spec fn assets_of<E: AssetEnum>() -> Option<Seq<Seq<u8>>> {
    unpacked_by_ordinal(&E::CODEC, E::DATA@, E::DATA_END_OFFSETS@, digests(E::CHECKSUMS@))
}

/// Where an end offset lies at or after every earlier one.
proof fn lemma_ends_ordered(ends: Seq<u32>, i: int, j: int)
    requires
        nondecreasing(ends),
        0 <= i <= j < ends.len(),
    ensures
        ends[i] <= ends[j],
        start_of(ends, i) <= ends[i],
    decreases j - i,
{
    if i < j {
        lemma_ends_ordered(ends, i, j - 1);
        assert(ends[j - 1] <= ends[j]);
    }
    if i > 0 {
        assert(ends[i - 1] <= ends[i]);
    }
}

/// Why the data of an enum did not unpack.
#[derive(Debug)]
pub enum EnumLoadError<E> {
    /// The data did not decompress to the last end offset.
    Data(E),
    /// There is not one checksum for each end offset.
    CountMismatch { offsets: usize, checksums: usize },
    /// The asset with this ordinal ends before it starts.
    Offsets { index: usize },
    /// The asset with this ordinal does not have the recorded digest.
    Checksum { index: usize, mismatch: Mismatch },
}

/// Archive holding uncompressed data for an [`AssetEnum`].
pub struct EnumArchive<E: AssetEnum> {
    data: Vec<u8>,
    _spooky: core::marker::PhantomData<E>,
}

impl<E: AssetEnum> View for EnumArchive<E> {
    type V = Seq<Seq<u8>>;

    /// The bytes of each asset, by ordinal.
    closed spec fn view(&self) -> Seq<Seq<u8>> {
        slices(self.data@, E::DATA_END_OFFSETS@)
    }
}

/// `f` can be called on these bytes.
pub open spec fn takes_bytes<T, F: Fn(&[u8]) -> T>(f: F, bytes: Seq<u8>) -> bool {
    forall|slice: &[u8]| slice@ == bytes ==> call_requires(f, (slice,))
}

/// `f`, called on these bytes, can return `value`.
pub open spec fn maps_bytes<T, F: Fn(&[u8]) -> T>(f: F, bytes: Seq<u8>, value: T) -> bool {
    exists|slice: &[u8]| slice@ == bytes && call_ensures(f, (slice,), value)
}

/// `f`, called on these bytes, can give a value rather than fail.
pub open spec fn maps_bytes_well<T, Fault, F: Fn(&[u8]) -> Result<T, Fault>>(
    f: F,
    bytes: Seq<u8>,
) -> bool {
    exists|value: T| maps_bytes(f, bytes, Ok::<T, Fault>(value))
}

/// `f`, called on this value, can give a value rather than fail.
pub open spec fn maps_value_well<T, U, Fault, F: Fn(&T) -> Result<U, Fault>>(
    f: F,
    value: T,
) -> bool {
    exists|mapped: U| call_ensures(f, (&value,), Ok::<U, Fault>(mapped))
}

impl<E: AssetEnum> EnumArchive<E> {
    /// The data are as long as the end offsets say, and no asset ends before it starts.
    #[verifier::type_invariant]
    spec fn inv(&self) -> bool {
        &&& nondecreasing(E::DATA_END_OFFSETS@)
        &&& self.data@.len() == end_of_all(E::DATA_END_OFFSETS@)
    }

    /// Load (decompress) the data of `E` and hold every asset against its checksum.
    pub fn try_load() -> (r: Result<Self, EnumLoadError<<E::C as Codec>::DecompressionError>>)
        ensures
            match r {
                Ok(archive) => assets_of::<E>() == Some(archive@),
                Err(error) => {
                    let ends = E::DATA_END_OFFSETS@;
                    let checksums = E::CHECKSUMS@;
                    let bytes = E::CODEC.decompressed(E::DATA@, end_of_all(ends));
                    match error {
                        EnumLoadError::Data(_) => bytes is None,
                        EnumLoadError::CountMismatch { offsets, checksums: found } => {
                            &&& bytes is Some
                            &&& offsets == ends.len() && found == checksums.len() && offsets
                                != found
                        },
                        EnumLoadError::Offsets { index } => {
                            &&& bytes is Some && ends.len() == checksums.len()
                            &&& 0 < index < ends.len() && ends[index - 1] > ends[index as int]
                            &&& nondecreasing(ends.take(index as int))
                        },
                        EnumLoadError::Checksum { index, mismatch } => {
                            &&& bytes is Some && ends.len() == checksums.len() && nondecreasing(
                                ends,
                            )
                            &&& index < ends.len()
                            &&& mismatch.expected == checksums[index as int]
                            &&& mismatch.actual@ == blake2b512(slices(bytes->0, ends)[index as int])
                            &&& mismatch.actual@ != mismatch.expected@
                            &&& digests_match(
                                slices(bytes->0, ends).take(index as int),
                                digests(checksums),
                            )
                        },
                    }
                },
            },
    {
        let ends = E::DATA_END_OFFSETS;
        let count = ends.len();
        let size = if count == 0 {
            0
        } else {
            ends[count - 1]
        };
        let data = match E::CODEC.try_decompress_with_length(E::DATA, u32_to_usize(size)) {
            Ok(data) => data,
            Err(error) => {
                return Err(EnumLoadError::Data(error));
            },
        };
        if E::CHECKSUMS.len() != count {
            return Err(
                EnumLoadError::CountMismatch { offsets: count, checksums: E::CHECKSUMS.len() },
            );
        }
        let mut i: usize = 1;
        while i < count
            invariant
                1 <= i,
                ends == E::DATA_END_OFFSETS,
                count == ends@.len(),
                count == E::CHECKSUMS@.len(),
                E::CODEC.decompressed(E::DATA@, end_of_all(ends@)) == Some(data@),
                count > 0 ==> i <= count && nondecreasing(ends@.take(i as int)),
            decreases count - i,
        {
            if ends[i - 1] > ends[i] {
                return Err(EnumLoadError::Offsets { index: i });
            }
            assert forall|k: int| 0 < k < i + 1 implies ends@.take(i + 1)[k - 1]
                <= #[trigger] ends@.take(i + 1)[k] by {
                if k < i {
                    assert(ends@.take(i as int)[k - 1] <= ends@.take(i as int)[k]);
                }
            }
            i += 1;
        }
        assert(nondecreasing(ends@)) by {
            if count > 0 {
                assert(ends@.take(count as int) =~= ends@);
            }
        }
        let result = EnumArchive { data, _spooky: core::marker::PhantomData };
        let mut i: usize = 0;
        while i < count
            invariant
                i <= count,
                count == E::DATA_END_OFFSETS@.len(),
                count == E::CHECKSUMS@.len(),
                E::CODEC.decompressed(E::DATA@, end_of_all(E::DATA_END_OFFSETS@)) == Some(
                    result.data@,
                ),
                nondecreasing(E::DATA_END_OFFSETS@),
                result.inv(),
                digests_match(result@.take(i as int), digests(E::CHECKSUMS@)),
            decreases count - i,
        {
            match check(result.lookup(i), &E::CHECKSUMS[i]) {
                Ok(()) => {},
                Err(mismatch) => {
                    return Err(EnumLoadError::Checksum { index: i, mismatch });
                },
            }
            assert forall|k: int| 0 <= k < i + 1 implies blake2b512(
                #[trigger] result@.take(i + 1)[k],
            ) == digests(E::CHECKSUMS@)[k] by {
                if k < i {
                    assert(result@.take(i as int)[k] == result@.take(i + 1)[k]);
                }
            }
            i += 1;
        }
        assert(result@.take(count as int) =~= result@);
        Ok(result)
    }

    /// Load (decompress) the data of an `E` that is known to be well-formed.
    pub fn load() -> (archive: Self)
        requires
            assets_of::<E>() is Some,
        ensures
            assets_of::<E>() == Some(archive@),
    {
        match Self::try_load() {
            Ok(archive) => archive,
            Err(_) => vstd::pervasive::unreached(),
        }
    }

    /// There is one asset for each end offset.
    pub proof fn lemma_len(&self)
        ensures
            self@.len() == E::DATA_END_OFFSETS@.len(),
    {
    }

    /// The bytes of the asset with ordinal `i`.
    fn lookup(&self, i: usize) -> (bytes: &[u8])
        requires
            i < E::DATA_END_OFFSETS@.len(),
        ensures
            bytes@ == self@[i as int],
    {
        proof {
            use_type_invariant(self);
            lemma_ends_ordered(E::DATA_END_OFFSETS@, i as int, E::DATA_END_OFFSETS@.len() - 1);
        }
        let end = u32_to_usize(E::DATA_END_OFFSETS[i]);
        let start = if i == 0 {
            0
        } else {
            u32_to_usize(E::DATA_END_OFFSETS[i - 1])
        };
        vstd::slice::slice_subrange(self.data.as_slice(), start, end)
    }

    /// Apply the mapping function to the asset data.
    pub fn map<T, F: Fn(&[u8]) -> T>(&self, f: F) -> (mapped: EnumMap<E, T>)
        requires
            forall|i: int| 0 <= i < self@.len() ==> takes_bytes(f, #[trigger] self@[i]),
        ensures
            mapped@.len() == self@.len(),
            forall|i: int|
                0 <= i < self@.len() ==> maps_bytes(f, self@[i], #[trigger] mapped@[i]),
    {
        let count = E::DATA_END_OFFSETS.len();
        let mut data: Vec<T> = Vec::with_capacity(count);
        let mut i: usize = 0;
        while i < count
            invariant
                i <= count,
                count == E::DATA_END_OFFSETS@.len(),
                count == self@.len(),
                data@.len() == i,
                forall|k: int| 0 <= k < self@.len() ==> takes_bytes(f, #[trigger] self@[k]),
                forall|k: int| 0 <= k < i ==> maps_bytes(f, self@[k], #[trigger] data@[k]),
            decreases count - i,
        {
            let bytes = self.lookup(i);
            assert(takes_bytes(f, self@[i as int]));
            data.push(f(bytes));
            i += 1;
        }
        EnumMap { data, _spooky: core::marker::PhantomData }
    }

    /// Apply a fallible mapping function to asset data and return an enum map if each
    /// invocation succeeds, or an `Err` otherwise.
    ///
    /// The error is that of the first asset on which the function fails.
    pub fn try_map<T, Fault, F: Fn(&[u8]) -> Result<T, Fault>>(&self, f: F) -> (r: Result<
        EnumMap<E, T>,
        Fault,
    >)
        requires
            forall|i: int| 0 <= i < self@.len() ==> takes_bytes(f, #[trigger] self@[i]),
        ensures
            match r {
                Ok(mapped) => {
                    &&& mapped@.len() == self@.len()
                    &&& forall|i: int|
                        0 <= i < self@.len() ==> maps_bytes(
                            f,
                            self@[i],
                            Ok::<T, Fault>(#[trigger] mapped@[i]),
                        )
                },
                Err(error) => exists|i: int|
                    {
                        &&& 0 <= i < self@.len()
                        &&& maps_bytes(f, #[trigger] self@[i], Err::<T, Fault>(error))
                        &&& forall|k: int| 0 <= k < i ==> #[trigger] maps_bytes_well(f, self@[k])
                    },
            },
    {
        let count = E::DATA_END_OFFSETS.len();
        let mut data: Vec<T> = Vec::with_capacity(count);
        let mut i: usize = 0;
        while i < count
            invariant
                i <= count,
                count == E::DATA_END_OFFSETS@.len(),
                count == self@.len(),
                data@.len() == i,
                forall|k: int| 0 <= k < self@.len() ==> takes_bytes(f, #[trigger] self@[k]),
                forall|k: int|
                    0 <= k < i ==> maps_bytes(f, self@[k], Ok::<T, Fault>(#[trigger] data@[k])),
            decreases count - i,
        {
            let bytes = self.lookup(i);
            assert(takes_bytes(f, self@[i as int]));
            match f(bytes) {
                Ok(value) => {
                    data.push(value);
                },
                Err(error) => {
                    proof {
                        assert(maps_bytes(f, self@[i as int], Err::<T, Fault>(error)));
                        assert forall|k: int| 0 <= k < i implies #[trigger] maps_bytes_well(
                            f,
                            self@[k],
                        ) by {
                            assert(maps_bytes(f, self@[k], Ok::<T, Fault>(data@[k])));
                        }
                    }
                    return Err(error);
                },
            }
            i += 1;
        }
        Ok(EnumMap { data, _spooky: core::marker::PhantomData })
    }
}

impl<E: AssetEnum> vstd::std_specs::core::IndexSpecImpl<E> for EnumArchive<E> {
    /// Every variant can index the archive.
    open spec fn index_req(&self, index: &E) -> bool {
        true
    }
}

impl<E: AssetEnum> core::ops::Index<E> for EnumArchive<E> {
    type Output = [u8];

    /// Look up the asset data corresponding to the enum variant
    fn index(&self, e: E) -> (bytes: &[u8])
        ensures
            exists|i: usize| is_ordinal(e, i) && i < self@.len() && bytes@ == self@[i as int],
    {
        let i = e.index();
        assert(is_ordinal(e, i));
        self.lookup(i)
    }
}

/// A structure which holds a value of some type `T` for each variant of an [`AssetEnum`]
pub struct EnumMap<E: AssetEnum, T> {
    data: Vec<T>,
    _spooky: core::marker::PhantomData<E>,
}

impl<E: AssetEnum, T> View for EnumMap<E, T> {
    type V = Seq<T>;

    /// The value of each variant, by ordinal.
    closed spec fn view(&self) -> Seq<T> {
        self.data@
    }
}

impl<E: AssetEnum, T> EnumMap<E, T> {
    /// There is one value for each variant.
    #[verifier::type_invariant]
    spec fn inv(&self) -> bool {
        self.data@.len() == E::DATA_END_OFFSETS@.len()
    }

    /// Apply the mapping function to the values.
    pub fn map<U, F: Fn(&T) -> U>(&self, f: F) -> (mapped: EnumMap<E, U>)
        requires
            forall|i: int| 0 <= i < self@.len() ==> call_requires(f, (&#[trigger] self@[i],)),
        ensures
            mapped@.len() == self@.len(),
            forall|i: int|
                0 <= i < self@.len() ==> call_ensures(f, (&self@[i],), #[trigger] mapped@[i]),
    {
        proof {
            use_type_invariant(self);
        }
        let count = self.data.len();
        let mut data: Vec<U> = Vec::with_capacity(count);
        let mut i: usize = 0;
        while i < count
            invariant
                i <= count,
                count == self@.len(),
                count == E::DATA_END_OFFSETS@.len(),
                data@.len() == i,
                forall|k: int| 0 <= k < self@.len() ==> call_requires(f, (&#[trigger] self@[k],)),
                forall|k: int| 0 <= k < i ==> call_ensures(f, (&self@[k],), #[trigger] data@[k]),
            decreases count - i,
        {
            data.push(f(&self.data[i]));
            i += 1;
        }
        EnumMap { data, _spooky: core::marker::PhantomData }
    }

    /// Apply a fallible mapping function to asset data and return an enum map if each
    /// invocation succeeds, or an `Err` otherwise.
    pub fn try_map<U, Fault, F: Fn(&T) -> Result<U, Fault>>(&self, f: F) -> (r: Result<
        EnumMap<E, U>,
        Fault,
    >)
        requires
            forall|i: int| 0 <= i < self@.len() ==> call_requires(f, (&#[trigger] self@[i],)),
        ensures
            match r {
                Ok(mapped) => {
                    &&& mapped@.len() == self@.len()
                    &&& forall|i: int|
                        0 <= i < self@.len() ==> call_ensures(
                            f,
                            (&self@[i],),
                            Ok::<U, Fault>(#[trigger] mapped@[i]),
                        )
                },
                Err(error) => exists|i: int|
                    {
                        &&& 0 <= i < self@.len()
                        &&& call_ensures(f, (&#[trigger] self@[i],), Err::<U, Fault>(error))
                        &&& forall|k: int| 0 <= k < i ==> #[trigger] maps_value_well(f, self@[k])
                    },
            },
    {
        proof {
            use_type_invariant(self);
        }
        let count = self.data.len();
        let mut data: Vec<U> = Vec::with_capacity(count);
        let mut i: usize = 0;
        while i < count
            invariant
                i <= count,
                count == self@.len(),
                count == E::DATA_END_OFFSETS@.len(),
                data@.len() == i,
                forall|k: int| 0 <= k < self@.len() ==> call_requires(f, (&#[trigger] self@[k],)),
                forall|k: int|
                    0 <= k < i ==> call_ensures(
                        f,
                        (&self@[k],),
                        Ok::<U, Fault>(#[trigger] data@[k]),
                    ),
            decreases count - i,
        {
            match f(&self.data[i]) {
                Ok(value) => {
                    data.push(value);
                },
                Err(error) => {
                    proof {
                        assert forall|k: int| 0 <= k < i implies #[trigger] maps_value_well(
                            f,
                            self@[k],
                        ) by {
                            assert(call_ensures(f, (&self@[k],), Ok::<U, Fault>(data@[k])));
                        }
                    }
                    return Err(error);
                },
            }
            i += 1;
        }
        Ok(EnumMap { data, _spooky: core::marker::PhantomData })
    }
}

impl<E: AssetEnum, T> vstd::std_specs::core::IndexSpecImpl<E> for EnumMap<E, T> {
    /// Every variant can index the map.
    open spec fn index_req(&self, index: &E) -> bool {
        true
    }
}

impl<E: AssetEnum, T> core::ops::Index<E> for EnumMap<E, T> {
    type Output = T;

    /// Look up the value for the given enum variant
    fn index(&self, e: E) -> (value: &T)
        ensures
            exists|i: usize| is_ordinal(e, i) && i < self@.len() && *value == self@[i as int],
    {
        proof {
            use_type_invariant(self);
        }
        let i = e.index();
        assert(is_ordinal(e, i));
        &self.data[i]
    }
}

impl<E: AssetEnum, T> core::ops::IndexMut<E> for EnumMap<E, T> {
    /// Provide an exclusive reference to the value for the given enum variant
    fn index_mut(&mut self, e: E) -> (value: &mut T)
        ensures
            exists|i: usize|
                {
                    &&& is_ordinal(e, i) && i < old(self)@.len()
                    &&& *value == old(self)@[i as int]
                    &&& final(self)@ == old(self)@.update(i as int, *final(value))
                },
    {
        proof {
            use_type_invariant(&*self);
        }
        let i = e.index();
        assert(is_ordinal(e, i));
        &mut self.data[i]
    }
}

} // verus!
