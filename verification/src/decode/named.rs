//! Named asset archives provide maps from path name to asset content.

use crate::decode::checksum::Checksum;
use crate::decode::codec::Codec;
use crate::decode::common::{
    names_in, ranges_readable, sizes_of, spans, texts, try_decompress_names,
    try_decompress_ranges, u32_to_usize, NamesError, RangesError,
};
use crate::model::names::split;
use crate::model::package::{table, ArchiveView, PackageView};
use crate::model::sizes::{lemma_total_monotone, ranges_of, total};
use core::ops::Range;
use vstd::hash_map::StringHashMap;
use vstd::prelude::*;
use vstd::utf8::valid_utf8;

verus! {

/// Compressed named archive
///
/// Contains the compressed asset data and all information required to uncompress it.
#[derive(Clone, Copy)]
pub struct CompressedNamedArchive<C: Codec> {
    /// Compression codec with which the data was compressed
    pub codec: C,
    /// Raw compressed data
    pub data: &'static [u8],
    /// Size of the data after decompression.
    /// Limited to at most 4 GiB.
    pub uncompressed_data_size: u32,
    /// Names of the assets in some order, separated by null bytes (U+0000)
    ///
    /// The order needs to match the order of blobs in the uncompressed archive data.
    /// The final name is _not_ null-terminated.
    ///
    /// Names are sorted such that all files in a directory are sorted.
    /// This is for two reasons:
    /// - It likely leads to better compression if all names with the same (path) prefix are
    ///   close together, and
    /// - It makes reproducible builds easier since we don't rely on file system iteration order.
    pub compressed_names: &'static [u8],
    /// Lengths of the uncompressed names (including separating null bytes)
    pub uncompressed_names_size: u32,
    /// List of asset checksums in the same order as [`CompressedNamedArchive::compressed_names`].
    pub checksums: &'static [Checksum],
    /// Compressed data sizes of the assets.
    ///
    /// Once uncompressed, these will be `u32`s (little endian) in the same order as
    /// [`CompressedNamedArchive::compressed_names`].
    pub compressed_sizes: &'static [u8],
}

/// The digests as plain byte strings.
pub open spec fn digests(checksums: Seq<Checksum>) -> Seq<Seq<u8>> {
    Seq::new(checksums.len(), |i: int| checksums[i]@)
}

impl<C: Codec> View for CompressedNamedArchive<C> {
    type V = PackageView;

    open spec fn view(&self) -> PackageView {
        PackageView {
            data: self.data@,
            uncompressed_data_size: self.uncompressed_data_size as nat,
            names: self.compressed_names@,
            uncompressed_names_size: self.uncompressed_names_size as nat,
            sizes: self.compressed_sizes@,
            checksums: digests(self.checksums@),
        }
    }
}

/// The archive that a package unpacks to under `codec`, or `None` where the
/// package is not well-formed: a stream does not decompress to its recorded
/// size, a name is no UTF-8, there are not as many names as sizes and digests,
/// or the sizes do not add up to the size of the data.
pub open spec fn unpacked<C: Codec>(codec: &C, package: PackageView) -> Option<ArchiveView> {
    let data = codec.decompressed(package.data, package.uncompressed_data_size);
    let names = names_in(codec, package.names, package.uncompressed_names_size);
    let count = package.checksums.len();
    if data is Some && names is Some && ranges_readable(codec, package.sizes, count) {
        let sizes = sizes_of(codec, package.sizes, count)->0;
        if names->0.len() == sizes.len() && total(sizes, sizes.len() as int)
            == package.uncompressed_data_size {
            Some(table(names->0, ranges_of(sizes), data->0))
        } else {
            None
        }
    } else {
        None
    }
}

/// Why a package did not unpack.
#[derive(Debug)]
pub enum LoadError<E> {
    /// The data did not decompress to its recorded size.
    Data(E),
    /// The names stream could not be read.
    Names(NamesError<E>),
    /// The sizes stream could not be read.
    Ranges(RangesError<E>),
    /// There are not as many names as there are sizes and digests.
    CountMismatch { names: usize, ranges: usize },
    /// The sizes do not add up to the recorded size of the data.
    SizeMismatch { end: u32, declared: u32 },
}

/// The bytes that each name's range cuts out of `data`.
pub open spec fn cut(ranges: Map<Seq<char>, Range<u32>>, data: Seq<u8>) -> ArchiveView {
    Map::new(
        |name: Seq<char>| ranges.contains_key(name),
        |name: Seq<char>| data.subrange(ranges[name].start as int, ranges[name].end as int),
    )
}

/// Unpacked archive of named assets
///
/// Can be used to look up assets by name (i.e. path).
pub struct NamedArchive {
    data: Vec<u8>,
    ranges: StringHashMap<Range<u32>>,
    names: Vec<String>,
}

impl View for NamedArchive {
    type V = ArchiveView;

    /// The bytes of each asset, by name.
    closed spec fn view(&self) -> ArchiveView {
        cut(self.ranges@, self.data@)
    }
}

impl NamedArchive {
    /// Every range lies within the data, and `names` lists the names that have
    /// a range, each once.
    #[verifier::type_invariant]
    spec fn inv(&self) -> bool {
        &&& forall|name: Seq<char>| #[trigger]
            self.ranges@.contains_key(name) ==> self.ranges@[name].start <= self.ranges@[name].end
                <= self.data@.len()
        &&& texts(self.names@).no_duplicates()
        &&& forall|name: Seq<char>|
            self.ranges@.contains_key(name) <==> #[trigger] texts(self.names@).contains(name)
    }

    /// Load (decompress) compressed asset archive at runtime
    pub fn try_load<C: Codec>(compressed: CompressedNamedArchive<C>) -> (r: Result<
        Self,
        LoadError<C::DecompressionError>,
    >)
        ensures
            match r {
                Ok(archive) => unpacked(&compressed.codec, compressed@) == Some(archive@),
                Err(error) => {
                    let package = compressed@;
                    let codec = &compressed.codec;
                    let data = codec.decompressed(package.data, package.uncompressed_data_size);
                    let names = names_in(codec, package.names, package.uncompressed_names_size);
                    let count = package.checksums.len();
                    let sizes = sizes_of(codec, package.sizes, count);
                    match error {
                        LoadError::Data(_) => data is None,
                        LoadError::Names(NamesError::Decompression(_)) => data is Some
                            && codec.decompressed(package.names, package.uncompressed_names_size)
                            is None,
                        LoadError::Names(NamesError::NotUtf8(index)) => {
                            let stream = codec.decompressed(
                                package.names,
                                package.uncompressed_names_size,
                            );
                            &&& data is Some && stream is Some && names is None
                            &&& index < split(stream->0).len()
                            &&& !valid_utf8(split(stream->0)[index as int])
                            &&& forall|k: int|
                                0 <= k < index ==> valid_utf8(#[trigger] split(stream->0)[k])
                        },
                        LoadError::Ranges(RangesError::TooManyEntries) => data is Some && names
                            is Some && 4 * count > usize::MAX,
                        LoadError::Ranges(RangesError::Decompression(_)) => data is Some && names
                            is Some && 4 * count <= usize::MAX && codec.decompressed(
                            package.sizes,
                            4 * count,
                        ) is None,
                        LoadError::Ranges(RangesError::Overflow) => {
                            &&& data is Some && names is Some && 4 * count <= usize::MAX
                            &&& sizes is Some
                            &&& total(sizes->0, sizes->0.len() as int) > crate::model::sizes::LIMIT
                        },
                        LoadError::CountMismatch { names: found, ranges } => {
                            &&& data is Some && names is Some && ranges_readable(
                                codec,
                                package.sizes,
                                count,
                            )
                            &&& found == names->0.len() && ranges == count && found != ranges
                        },
                        LoadError::SizeMismatch { end, declared } => {
                            &&& data is Some && names is Some && ranges_readable(
                                codec,
                                package.sizes,
                                count,
                            )
                            &&& names->0.len() == count
                            &&& end == total(sizes->0, count as int)
                            &&& declared == package.uncompressed_data_size
                            &&& end != declared
                        },
                    }
                },
            },
    {
        let CompressedNamedArchive {
            codec,
            data: compressed_data,
            uncompressed_data_size,
            compressed_names,
            uncompressed_names_size,
            checksums,
            compressed_sizes,
        } = compressed;

        // decompress data
        let data = match codec.try_decompress_with_length(
            compressed_data,
            u32_to_usize(uncompressed_data_size),
        ) {
            Ok(data) => data,
            Err(error) => {
                return Err(LoadError::Data(error));
            },
        };

        // decompress names and data ranges
        let names = match try_decompress_names(&codec, compressed_names, uncompressed_names_size) {
            Ok(names) => names,
            Err(error) => {
                return Err(LoadError::Names(error));
            },
        };
        let ranges = match try_decompress_ranges(&codec, compressed_sizes, checksums.len()) {
            Ok(ranges) => ranges,
            Err(error) => {
                return Err(LoadError::Ranges(error));
            },
        };
        let ghost sizes = sizes_of(&codec, compressed_sizes@, checksums@.len())->0;
        assert(spans(ranges@).len() == sizes.len());
        if names.len() != ranges.len() {
            return Err(LoadError::CountMismatch { names: names.len(), ranges: ranges.len() });
        }
        // Data ranges were constructed one after another from offset 0.
        // The final range should end where the data ends.

        let end = if ranges.len() == 0 {
            0
        } else {
            ranges[ranges.len() - 1].end
        };
        assert(end == total(sizes, sizes.len() as int)) by {
            if ranges@.len() > 0 {
                assert(spans(ranges@)[ranges@.len() - 1] == ranges_of(sizes)[ranges@.len() - 1]);
            }
        }
        if end != uncompressed_data_size {
            return Err(LoadError::SizeMismatch { end, declared: uncompressed_data_size });
        }
        let count = names.len();
        let ghost all_names = texts(names@);
        let ghost all_spans = spans(ranges@);
        let mut table_ranges: StringHashMap<Range<u32>> = StringHashMap::with_capacity(count);
        let mut table_names: Vec<String> = Vec::with_capacity(count);
        let mut i: usize = 0;
        assert(all_names.take(0) =~= Seq::empty());
        assert(cut(table_ranges@, data@) =~= table(all_names.take(0), all_spans.take(0), data@));
        while i < count
            invariant
                i <= count,
                count == names@.len(),
                count == ranges@.len(),
                count == sizes.len(),
                all_names == texts(names@),
                all_spans == spans(ranges@),
                all_spans == ranges_of(sizes),
                total(sizes, count as int) == data@.len(),
                cut(table_ranges@, data@) == table(
                    all_names.take(i as int),
                    all_spans.take(i as int),
                    data@,
                ),
                forall|name: Seq<char>| #[trigger]
                    table_ranges@.contains_key(name) ==> table_ranges@[name].start
                        <= table_ranges@[name].end <= data@.len(),
                texts(table_names@).no_duplicates(),
                forall|name: Seq<char>|
                    table_ranges@.contains_key(name) <==> #[trigger] texts(table_names@).contains(
                        name,
                    ),
            decreases count - i,
        {
            let name = names[i].clone();
            let range = ranges[i].start..ranges[i].end;
            proof {
                assert(all_spans[i as int] == (range.start as nat, range.end as nat));
                lemma_total_monotone(sizes, i as int, i + 1);
                lemma_total_monotone(sizes, i + 1, count as int);
                assert(all_names.take(i + 1).drop_last() =~= all_names.take(i as int));
                assert(all_spans.take(i + 1).drop_last() =~= all_spans.take(i as int));
                assert(all_names.take(i + 1).last() == name@);
            }
            let ghost old_ranges = table_ranges@;
            let ghost old_names = texts(table_names@);
            if !table_ranges.contains_key(name.as_str()) {
                table_names.push(name.clone());
                proof {
                    let new_names = texts(table_names@);
                    assert(new_names =~= old_names.push(name@));
                    assert forall|j: int, k: int|
                        0 <= j < new_names.len() && 0 <= k < new_names.len() && j
                            != k implies new_names[j] != new_names[k] by {
                        if j < old_names.len() && k < old_names.len() {
                            assert(old_names[j] != old_names[k]);
                        } else if j < old_names.len() {
                            assert(old_names.contains(old_names[j]));
                        } else {
                            assert(old_names.contains(old_names[k]));
                        }
                    }
                }
            }
            table_ranges.insert(name, range);
            proof {
                assert(cut(table_ranges@, data@) =~= cut(old_ranges, data@).insert(
                    name@,
                    data@.subrange(range.start as int, range.end as int),
                ));
                let new_names = texts(table_names@);
                assert forall|other: Seq<char>|
                    table_ranges@.contains_key(other) <==> #[trigger] new_names.contains(other) by {
                    if new_names.contains(other) {
                        let k = choose|k: int| 0 <= k < new_names.len() && new_names[k] == other;
                        if k < old_names.len() {
                            assert(old_names[k] == other);
                            assert(old_names.contains(other));
                        }
                    }
                    if old_names.contains(other) {
                        let k = choose|k: int| 0 <= k < old_names.len() && old_names[k] == other;
                        assert(new_names[k] == other);
                    }
                    if other == name@ && !old_ranges.contains_key(name@) {
                        assert(new_names[new_names.len() - 1] == other);
                    }
                }
            }
            i += 1;
        }
        assert(all_names.take(count as int) =~= all_names);
        assert(all_spans.take(count as int) =~= all_spans);
        Ok(Self { data, ranges: table_ranges, names: table_names })
    }

    /// Load (decompress) compressed asset archive at runtime
    ///
    /// This is for a package that is known to be well-formed.
    pub fn load<C: Codec>(compressed: CompressedNamedArchive<C>) -> (archive: Self)
        requires
            unpacked(&compressed.codec, compressed@) is Some,
        ensures
            unpacked(&compressed.codec, compressed@) == Some(archive@),
    {
        match Self::try_load(compressed) {
            Ok(archive) => archive,
            Err(_) => vstd::pervasive::unreached(),
        }
    }

    /// Get the content of the asset with the given `name`.
    ///
    /// Returns `None` if the archive does not contain an asset with this `name`.
    pub fn get<'a>(&'a self, name: &str) -> (r: Option<&'a [u8]>)
        ensures
            match r {
                Some(bytes) => self@.contains_key(name@) && bytes@ == self@[name@],
                None => !self@.contains_key(name@),
            },
    {
        proof {
            use_type_invariant(self);
        }
        match self.ranges.get(name) {
            Some(range) => {
                let range = crate::decode::common::u32_to_usize_range(range);
                Some(vstd::slice::slice_subrange(self.data.as_slice(), range.start, range.end))
            },
            None => None,
        }
    }

    /// Returns the number of assets included in the archive.
    pub fn number_of_assets(&self) -> (count: usize)
        ensures
            self@.dom().finite(),
            count == self@.len(),
    {
        proof {
            use_type_invariant(self);
            self.lemma_names();
        }
        assert(self@.dom() =~= self.ranges@.dom());
        self.ranges.len()
    }

    /// The names of the archive are finitely many: as many as `self.names` holds.
    proof fn lemma_names(&self)
        requires
            self.inv(),
        ensures
            self@.dom().finite(),
            self@.dom() == texts(self.names@).to_set(),
            self@.len() == self.names@.len(),
    {
        let names = texts(self.names@);
        vstd::seq_lib::seq_to_set_is_finite(names);
        assert(self@.dom() =~= names.to_set());
        names.unique_seq_to_set();
    }

    /// Returns all asset names and contents in unspecified order.
    pub fn assets(&self) -> (assets: Vec<(&str, &[u8])>)
        ensures
            assets@.len() == self@.len(),
            forall|i: int|
                0 <= i < assets@.len() ==> self@.contains_key(#[trigger] assets@[i].0@)
                    && assets@[i].1@ == self@[assets@[i].0@],
            forall|i: int, j: int| 0 <= i < j < assets@.len() ==> assets@[i].0@ != assets@[j].0@,
            forall|name: Seq<char>|
                self@.contains_key(name) ==> exists|i: int|
                    0 <= i < assets@.len() && #[trigger] assets@[i].0@ == name,
    {
        proof {
            use_type_invariant(self);
            self.lemma_names();
        }
        let mut assets: Vec<(&str, &[u8])> = Vec::with_capacity(self.names.len());
        let mut i: usize = 0;
        while i < self.names.len()
            invariant
                self.inv(),
                i <= self.names@.len(),
                assets@.len() == i,
                forall|k: int| 0 <= k < i ==> #[trigger] assets@[k].0@ == self.names@[k]@,
                forall|k: int| 0 <= k < i ==> assets@[k].1@ == self@[self.names@[k]@],
            decreases self.names@.len() - i,
        {
            let name = self.names[i].as_str();
            assert(texts(self.names@)[i as int] == name@);
            assert(texts(self.names@).contains(name@));
            match self.get(name) {
                Some(bytes) => {
                    assets.push((name, bytes));
                },
                None => {
                    assert(false);
                },
            }
            i += 1;
        }
        proof {
            let names = texts(self.names@);
            assert forall|k: int| 0 <= k < assets@.len() implies self@.contains_key(
                #[trigger] assets@[k].0@,
            ) && assets@[k].1@ == self@[assets@[k].0@] by {
                assert(names[k] == assets@[k].0@);
                assert(names.contains(assets@[k].0@));
            }
            assert forall|k: int, j: int| 0 <= k < j < assets@.len() implies assets@[k].0@
                != assets@[j].0@ by {
                assert(names[k] != names[j]);
            }
            assert forall|name: Seq<char>| self@.contains_key(name) implies exists|k: int|
                0 <= k < assets@.len() && #[trigger] assets@[k].0@ == name by {
                assert(names.contains(name));
                let k = choose|k: int| 0 <= k < names.len() && names[k] == name;
                assert(assets@[k].0@ == name);
            }
        }
        assets
    }

    /// Returns true if an asset with the given `name` is included in the archive.
    pub fn contains(&self, name: &str) -> (found: bool)
        ensures
            found == self@.contains_key(name@),
    {
        self.get(name).is_some()
    }

    /// Returns all asset names in unspecified order.
    pub fn names(&self) -> (names: Vec<&str>)
        ensures
            names@.len() == self@.len(),
            forall|i: int| 0 <= i < names@.len() ==> self@.contains_key(#[trigger] names@[i]@),
            forall|i: int, j: int| 0 <= i < j < names@.len() ==> names@[i]@ != names@[j]@,
            forall|name: Seq<char>|
                self@.contains_key(name) ==> exists|i: int|
                    0 <= i < names@.len() && #[trigger] names@[i]@ == name,
    {
        proof {
            use_type_invariant(self);
            self.lemma_names();
        }
        let mut names: Vec<&str> = Vec::with_capacity(self.names.len());
        let mut i: usize = 0;
        while i < self.names.len()
            invariant
                i <= self.names@.len(),
                names@.len() == i,
                forall|k: int| 0 <= k < i ==> #[trigger] names@[k]@ == self.names@[k]@,
            decreases self.names@.len() - i,
        {
            names.push(self.names[i].as_str());
            i += 1;
        }
        proof {
            let own = texts(self.names@);
            assert forall|k: int| 0 <= k < names@.len() implies self@.contains_key(
                #[trigger] names@[k]@,
            ) by {
                assert(own[k] == names@[k]@);
                assert(own.contains(names@[k]@));
            }
            assert forall|k: int, j: int| 0 <= k < j < names@.len() implies names@[k]@
                != names@[j]@ by {
                assert(own[k] != own[j]);
            }
            assert forall|name: Seq<char>| self@.contains_key(name) implies exists|k: int|
                0 <= k < names@.len() && #[trigger] names@[k]@ == name by {
                assert(own.contains(name));
                let k = choose|k: int| 0 <= k < own.len() && own[k] == name;
                assert(names@[k]@ == name);
            }
        }
        names
    }
}

impl<'a> vstd::std_specs::core::IndexSpecImpl<&'a str> for NamedArchive {
    /// Only the name of an asset of the archive can index it.
    open spec fn index_req(&self, index: &&'a str) -> bool {
        self@.contains_key(index@)
    }
}

impl<'a> core::ops::Index<&'a str> for NamedArchive {
    type Output = [u8];

    /// Return the contents of the asset with the given name.
    fn index(&self, s: &'a str) -> (bytes: &[u8])
        ensures
            bytes@ == self@[s@],
    {
        match self.get(s) {
            Some(data) => data,
            None => vstd::pervasive::unreached(),
        }
    }
}

} // verus!
