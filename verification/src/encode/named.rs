//! Packing a manifest of named assets.

use crate::decode::checksum::{blake2b512, compute_checksum, Checksum};
use crate::decode::codec::Codec;
use crate::decode::named::{digests, unpacked};
use crate::encode::common::{
    all_nul_free, append_bytes, compress_names, compress_sizes, sizes_alone, sizes_fit, texts_of,
    BuildError, Stream,
};
use crate::encode::parse::{Lit, OptionError};
use crate::encode::sort::{
    manifest, names_place, nondescending, permutes, reordered, sorted_order,
};
use crate::model::data::{concat, lengths};
use crate::model::names::{names_stream, nul_free};
use crate::model::order::{
    ascending, canonical, distinct_names, lemma_canonical_is, lemma_name_lt_irreflexive,
    lemma_name_lt_total, name_lt, names_of, AssetView,
};
use crate::model::package::{ArchiveView, PackageView};
use crate::model::sizes::{sizes_stream, LIMIT};
use crate::text::str_eq;
use vstd::prelude::*;

verus! {

/// A package of named assets, as it comes out of packing.
#[derive(Debug)]
pub struct NamedArchive {
    /// Compressed data
    ///
    /// All assets are concatenated
    /// The order of asset data must match the order of assets in `compressed_names`.
    pub compressed_data: Vec<u8>,
    /// Size of the data after decompression
    pub uncompressed_data_size: u32,
    /// Compressed names of the assets in ascending order, with separating null bytes
    pub compressed_names: Vec<u8>,
    /// Size of the uncompressed names (including separating null bytes)
    pub uncompressed_names_size: u32,
    /// Sizes of asset data, in the same order as `compressed_names`.
    pub compressed_sizes: Vec<u8>,
    /// Asset checksums, in the same order as `compressed_names`.
    pub checksums: Vec<Checksum>,
}

impl View for NamedArchive {
    type V = PackageView;

    open spec fn view(&self) -> PackageView {
        PackageView {
            data: self.compressed_data@,
            uncompressed_data_size: self.uncompressed_data_size as nat,
            names: self.compressed_names@,
            uncompressed_names_size: self.uncompressed_names_size as nat,
            sizes: self.compressed_sizes@,
            checksums: digests(self.checksums@),
        }
    }
}

/// The bytes of each asset, in their order.
pub open spec fn contents_of(assets: Seq<AssetView>) -> Seq<Seq<u8>> {
    Seq::new(assets.len(), |i: int| assets[i].1)
}

/// The digest of each blob.
pub open spec fn digests_of(blobs: Seq<Seq<u8>>) -> Seq<Seq<u8>> {
    Seq::new(blobs.len(), |i: int| blake2b512(blobs[i]))
}

/// A manifest can be packed: no name occurs twice or holds a zero byte, and
/// the names stream, each asset, the sizes stream and all assets together have
/// no more bytes than a package can record.
pub open spec fn fits(assets: Seq<AssetView>) -> bool {
    let sorted = canonical(assets);
    &&& distinct_names(assets)
    &&& all_nul_free(names_of(sorted))
    &&& names_stream(names_of(sorted)).len() <= LIMIT
    &&& sizes_fit(lengths(contents_of(sorted)))
    &&& 4 * assets.len() <= LIMIT
    &&& concat(contents_of(sorted)).len() <= LIMIT
}

/// The package of a manifest under `codec`: the assets in canonical order, their
/// bytes, names and sizes each compressed as one stream, and their digests.
pub open spec fn packed<C: Codec>(codec: &C, assets: Seq<AssetView>) -> PackageView {
    let sorted = canonical(assets);
    let data = concat(contents_of(sorted));
    let names = names_stream(names_of(sorted));
    PackageView {
        data: codec.compressed(data),
        uncompressed_data_size: data.len(),
        names: codec.compressed(names),
        uncompressed_names_size: names.len(),
        sizes: codec.compressed(sizes_stream(lengths(contents_of(sorted)))),
        checksums: digests_of(contents_of(sorted)),
    }
}

/// The manifest has an asset of this name.
pub open spec fn has_name(assets: Seq<AssetView>, name: Seq<char>) -> bool {
    exists|i: int| 0 <= i < assets.len() && #[trigger] assets[i].0 == name
}

/// The archive that hands out each asset of the manifest by its name. This is
/// meaningful where no name occurs twice.
pub open spec fn archive_of(assets: Seq<AssetView>) -> ArchiveView {
    Map::new(
        |name: Seq<char>| has_name(assets, name),
        |name: Seq<char>|
            assets[choose|i: int| 0 <= i < assets.len() && #[trigger] assets[i].0 == name].1,
    )
}

/// Two assets of the manifest have this name.
pub open spec fn twice(assets: Seq<AssetView>, name: Seq<char>) -> bool {
    exists|i: int, j: int|
        0 <= i < j < assets.len() && #[trigger] assets[i].0 == name && #[trigger] assets[j].0
            == name
}

/// In a sequence where no name comes before an earlier one, a name that stands
/// at two places stands at every place between them.
proof fn lemma_sandwich(sorted: Seq<AssetView>, p: int, q: int)
    requires
        nondescending(sorted),
        0 <= p < q < sorted.len(),
        sorted[p].0 == sorted[q].0,
    ensures
        sorted[q - 1].0 == sorted[q].0,
{
    if p < q - 1 {
        assert(!name_lt(sorted[q - 1].0, sorted[p].0));
        assert(!name_lt(sorted[q].0, sorted[q - 1].0));
        lemma_name_lt_total(sorted[q - 1].0, sorted[q].0);
    }
}

/// Reordering keeps the assets.
proof fn lemma_reordered_same(assets: Seq<AssetView>, order: Seq<usize>)
    requires
        permutes(order, assets.len()),
    ensures
        crate::model::order::same_assets(reordered(assets, order), assets),
{
    let sorted = reordered(assets, order);
    assert forall|x: AssetView| sorted.contains(x) <==> assets.contains(x) by {
        if sorted.contains(x) {
            let k = choose|k: int| 0 <= k < sorted.len() && sorted[k] == x;
            assert(order[k] < assets.len());
            assert(assets[order[k] as int] == x);
        }
        if assets.contains(x) {
            let i = choose|i: int| 0 <= i < assets.len() && assets[i] == x;
            assert(names_place(order, i));
            let k = choose|k: int| 0 <= k < order.len() && #[trigger] order[k] == i;
            assert(sorted[k] == x);
        }
    }
}

/// Where a manifest has a name twice, the first place in the order of names
/// that repeats the name before it holds the least such name.
proof fn lemma_least_twice(m: Seq<AssetView>, order: Seq<usize>, k: int)
    requires
        permutes(order, m.len()),
        nondescending(reordered(m, order)),
        1 <= k < m.len(),
        reordered(m, order)[k - 1].0 == reordered(m, order)[k].0,
        forall|j: int|
            1 <= j < k ==> reordered(m, order)[j - 1].0 != #[trigger] reordered(m, order)[j].0,
    ensures
        twice(m, reordered(m, order)[k].0),
        forall|other: Seq<char>| #[trigger]
            twice(m, other) ==> !name_lt(other, reordered(m, order)[k].0),
{
    let sorted = reordered(m, order);
    let name = sorted[k].0;
    let (x, y) = (order[k - 1] as int, order[k] as int);
    assert(x != y);
    assert(m[x].0 == name && m[y].0 == name);
    if x < y {
        assert(m[x].0 == name && m[y].0 == name);
    } else {
        assert(m[y].0 == name && m[x].0 == name);
    }
    assert forall|other: Seq<char>| #[trigger] twice(m, other) implies !name_lt(other, name) by {
        let (i, j) = choose|i: int, j: int|
            0 <= i < j < m.len() && #[trigger] m[i].0 == other && #[trigger] m[j].0 == other;
        assert(names_place(order, i) && names_place(order, j));
        let p = choose|p: int| 0 <= p < order.len() && #[trigger] order[p] == i;
        let q = choose|q: int| 0 <= q < order.len() && #[trigger] order[q] == j;
        assert(sorted[p].0 == other && sorted[q].0 == other);
        let (low, high) = if p < q {
            (p, q)
        } else {
            (q, p)
        };
        lemma_sandwich(sorted, low, high);
        // The later of the two places cannot lie before `k`.
        assert(high >= k);
        if high > k {
            assert(!name_lt(sorted[high].0, sorted[k].0));
        } else {
            lemma_name_lt_irreflexive(other);
        }
    }
}

/// Where no place in the order of names repeats the name before it, that order
/// is the canonical one and the manifest has no name twice.
proof fn lemma_sorted_is_canonical(m: Seq<AssetView>, order: Seq<usize>)
    requires
        permutes(order, m.len()),
        nondescending(reordered(m, order)),
        forall|j: int|
            1 <= j < m.len() ==> reordered(m, order)[j - 1].0 != #[trigger] reordered(
                m,
                order,
            )[j].0,
    ensures
        canonical(m) == reordered(m, order),
        distinct_names(m),
{
    let sorted = reordered(m, order);
    assert forall|a: int, b: int| 0 <= a < b < sorted.len() implies name_lt(
        names_of(sorted)[a],
        names_of(sorted)[b],
    ) by {
        assert(!name_lt(sorted[b].0, sorted[a].0));
        lemma_name_lt_total(sorted[a].0, sorted[b].0);
        if sorted[a].0 == sorted[b].0 {
            lemma_sandwich(sorted, a, b);
            assert(sorted[b - 1].0 != sorted[b].0);
        }
    }
    assert(ascending(names_of(sorted)));
    lemma_reordered_same(m, order);
    lemma_canonical_is(sorted, m);
    crate::model::order::lemma_ascending_distinct(sorted);
    assert forall|i: int, j: int| 0 <= i < j < m.len() implies m[i].0 != m[j].0 by {
        assert(names_place(order, i) && names_place(order, j));
        let p = choose|p: int| 0 <= p < order.len() && #[trigger] order[p] == i;
        let q = choose|q: int| 0 <= q < order.len() && #[trigger] order[q] == j;
        assert(sorted[p] == m[i] && sorted[q] == m[j]);
        if p < q {
            assert(sorted[p].0 != sorted[q].0);
        } else {
            assert(sorted[q].0 != sorted[p].0);
        }
    }
}

/// The first place in the order of names that repeats the name before it.
fn first_repeated(assets: &Vec<(String, Vec<u8>)>, order: &Vec<usize>) -> (r: Option<usize>)
    requires
        permutes(order@, assets@.len() as nat),
    ensures
        match r {
            Some(k) => {
                let sorted = reordered(manifest(assets@), order@);
                &&& 1 <= k < assets@.len()
                &&& sorted[k - 1].0 == sorted[k as int].0
                &&& forall|j: int| 1 <= j < k ==> sorted[j - 1].0 != #[trigger] sorted[j].0
            },
            None => {
                let sorted = reordered(manifest(assets@), order@);
                forall|j: int| 1 <= j < assets@.len() ==> sorted[j - 1].0 != #[trigger] sorted[j].0
            },
        },
{
    let count = assets.len();
    let ghost sorted = reordered(manifest(assets@), order@);
    let mut k: usize = 1;
    while k < count
        invariant
            1 <= k,
            count == assets@.len(),
            permutes(order@, count as nat),
            sorted == reordered(manifest(assets@), order@),
            forall|j: int| 1 <= j < k && j < count ==> sorted[j - 1].0 != #[trigger] sorted[j].0,
        decreases count - k,
    {
        assert(assets@[order@[k as int] as int].0@ == sorted[k as int].0);
        assert(assets@[order@[k - 1] as int].0@ == sorted[k - 1].0);
        if str_eq(assets[order[k - 1]].0.as_str(), assets[order[k]].0.as_str()) {
            return Some(k);
        }
        k += 1;
    }
    None
}

/// The four things that a package is made of, before compression.
struct Gathered<'a> {
    names: Vec<&'a str>,
    sizes: Vec<(&'a str, usize)>,
    checksums: Vec<Checksum>,
    data: Vec<u8>,
}

/// Goes through the assets in the given order and lists their names and their
/// sizes, computes their digests and puts their bytes one after another.
fn gather<'a>(assets: &'a Vec<(String, Vec<u8>)>, order: &Vec<usize>) -> (all: Gathered<'a>)
    requires
        permutes(order@, assets@.len() as nat),
    ensures
        texts_of(all.names@) == names_of(reordered(manifest(assets@), order@)),
        sizes_alone(all.sizes@) == lengths(contents_of(reordered(manifest(assets@), order@))),
        all.sizes@.len() == assets@.len(),
        forall|j: int|
            0 <= j < all.sizes@.len() ==> (#[trigger] all.sizes@[j]).0@ == reordered(
                manifest(assets@),
                order@,
            )[j].0,
        digests(all.checksums@) == digests_of(contents_of(reordered(manifest(assets@), order@))),
        all.data@ == concat(contents_of(reordered(manifest(assets@), order@))),
{
    let count = assets.len();
    let ghost sorted = reordered(manifest(assets@), order@);
    let mut names: Vec<&str> = Vec::with_capacity(count);
    let mut sizes: Vec<(&str, usize)> = Vec::with_capacity(count);
    let mut checksums: Vec<Checksum> = Vec::with_capacity(count);
    let mut data: Vec<u8> = Vec::new();
    let mut k: usize = 0;
    assert(contents_of(sorted).take(0) =~= Seq::<Seq<u8>>::empty());
    while k < count
        invariant
            k <= count,
            count == assets@.len(),
            permutes(order@, count as nat),
            sorted == reordered(manifest(assets@), order@),
            names@.len() == k,
            sizes@.len() == k,
            checksums@.len() == k,
            forall|j: int| 0 <= j < k ==> (#[trigger] names@[j])@ == sorted[j].0,
            forall|j: int|
                0 <= j < k ==> (#[trigger] sizes@[j]).0@ == sorted[j].0 && sizes@[j].1
                    == sorted[j].1.len(),
            forall|j: int| 0 <= j < k ==> (#[trigger] checksums@[j])@ == blake2b512(sorted[j].1),
            data@ == concat(contents_of(sorted).take(k as int)),
        decreases count - k,
    {
        let asset = &assets[order[k]];
        assert(asset.0@ == sorted[k as int].0 && asset.1@ == sorted[k as int].1);
        names.push(asset.0.as_str());
        sizes.push((asset.0.as_str(), asset.1.len()));
        checksums.push(compute_checksum(asset.1.as_slice()));
        append_bytes(&mut data, asset.1.as_slice());
        proof {
            let blobs = contents_of(sorted);
            assert(blobs.take(k + 1).drop_last() =~= blobs.take(k as int));
            assert(blobs.take(k + 1).last() == sorted[k as int].1);
        }
        k += 1;
    }
    proof {
        assert(contents_of(sorted).take(count as int) =~= contents_of(sorted));
        assert(texts_of(names@) =~= names_of(sorted));
        assert(sizes_alone(sizes@) =~= lengths(contents_of(sorted)));
        assert(digests(checksums@) =~= digests_of(contents_of(sorted)));
    }
    Gathered { names, sizes, checksums, data }
}

/// Packs a manifest of named assets: puts the assets in the order of their
/// names, compresses their names, their sizes and their bytes, each as one
/// stream, and computes the digest of each asset.
pub fn prepare_named_archive<C: Codec>(codec: &C, assets: Vec<(String, Vec<u8>)>) -> (r: Result<
    NamedArchive,
    BuildError<C::CompressionError>,
>)
    ensures
        fits(manifest(assets@)) && codec.always_compresses() ==> r is Ok,
        match r {
            Ok(package) => {
                &&& fits(manifest(assets@))
                &&& package@ == packed(codec, manifest(assets@))
                &&& assets@.len() >= 1 ==> unpacked(codec, package@) == Some(
                    archive_of(manifest(assets@)),
                )
            },
            Err(BuildError::DuplicateName(name)) => {
                &&& twice(manifest(assets@), name@)
                &&& forall|other: Seq<char>| #[trigger]
                    twice(manifest(assets@), other) ==> !name_lt(other, name@)
            },
            Err(BuildError::NulInName(name)) => {
                let names = names_of(canonical(manifest(assets@)));
                &&& distinct_names(manifest(assets@))
                &&& exists|i: int|
                    {
                        &&& 0 <= i < names.len()
                        &&& all_nul_free(names.take(i))
                        &&& !nul_free(#[trigger] names[i])
                        &&& name@ == names[i]
                    }
            },
            Err(BuildError::NamesTooLong(bytes)) => {
                let names = names_of(canonical(manifest(assets@)));
                &&& distinct_names(manifest(assets@))
                &&& all_nul_free(names)
                &&& bytes == names_stream(names).len()
                &&& bytes > LIMIT
            },
            Err(BuildError::AssetTooBig { name, size }) => {
                let sorted = canonical(manifest(assets@));
                &&& distinct_names(manifest(assets@))
                &&& all_nul_free(names_of(sorted))
                &&& names_stream(names_of(sorted)).len() <= LIMIT
                &&& exists|i: int|
                    {
                        &&& 0 <= i < sorted.len()
                        &&& sizes_fit(lengths(contents_of(sorted)).take(i))
                        &&& (#[trigger] sorted[i]).1.len() > LIMIT
                        &&& name@ == sorted[i].0
                        &&& size == sorted[i].1.len()
                    }
            },
            Err(BuildError::TooManyAssets(bytes)) => {
                let sorted = canonical(manifest(assets@));
                &&& distinct_names(manifest(assets@))
                &&& all_nul_free(names_of(sorted))
                &&& names_stream(names_of(sorted)).len() <= LIMIT
                &&& sizes_fit(lengths(contents_of(sorted)))
                &&& bytes == 4 * assets@.len()
                &&& bytes > LIMIT
            },
            Err(BuildError::TooMuchData(bytes)) => {
                let sorted = canonical(manifest(assets@));
                &&& distinct_names(manifest(assets@))
                &&& all_nul_free(names_of(sorted))
                &&& names_stream(names_of(sorted)).len() <= LIMIT
                &&& sizes_fit(lengths(contents_of(sorted)))
                &&& 4 * assets@.len() <= LIMIT
                &&& bytes == concat(contents_of(sorted)).len()
                &&& bytes > LIMIT
            },
            Err(BuildError::Compression { stream, .. }) => {
                let sorted = canonical(manifest(assets@));
                &&& !codec.always_compresses()
                &&& distinct_names(manifest(assets@))
                &&& all_nul_free(names_of(sorted))
                &&& names_stream(names_of(sorted)).len() <= LIMIT
                &&& !(stream is Names) ==> sizes_fit(lengths(contents_of(sorted))) && 4
                    * assets@.len() <= LIMIT
                &&& stream is Data ==> concat(contents_of(sorted)).len() <= LIMIT
            },
        },
{
    let order = sorted_order(&assets);
    let ghost m = manifest(assets@);
    let ghost sorted = reordered(m, order@);

    // ensure that names are unique
    if let Some(k) = first_repeated(&assets, &order) {
        proof {
            lemma_least_twice(m, order@, k as int);
        }
        assert(assets@[order@[k as int] as int].0@ == sorted[k as int].0);
        return Err(BuildError::DuplicateName(assets[order[k]].0.clone()));
    }
    proof {
        lemma_sorted_is_canonical(m, order@);
    }

    // compress asset names, sizes, and compute checksums
    let Gathered { names, sizes, checksums, data: uncompressed_data } = gather(&assets, &order);
    let (compressed_names, uncompressed_names_size) = match compress_names(
        codec,
        names.as_slice(),
    ) {
        Ok(compressed) => compressed,
        Err(error) => {
            proof {
                if let BuildError::NulInName(name) = &error {
                    let i = choose|i: int|
                        {
                            &&& 0 <= i < names@.len()
                            &&& all_nul_free(texts_of(names@).take(i))
                            &&& !nul_free(#[trigger] names@[i]@)
                            &&& name@ == names@[i]@
                        };
                    assert(texts_of(names@)[i] == names@[i]@);
                    assert(!nul_free(names_of(sorted)[i]));
                }
            }
            return Err(error);
        },
    };
    let compressed_sizes = match compress_sizes(codec, sizes.as_slice()) {
        Ok(compressed) => compressed,
        Err(error) => {
            proof {
                if let BuildError::AssetTooBig { name, size } = &error {
                    let i = choose|i: int|
                        {
                            &&& 0 <= i < sizes@.len()
                            &&& sizes_fit(sizes_alone(sizes@).take(i))
                            &&& #[trigger] sizes@[i].1 > LIMIT
                            &&& name@ == sizes@[i].0@
                            &&& *size == sizes@[i].1
                        };
                    assert(sizes_alone(sizes@)[i] == sorted[i].1.len());
                    assert(sorted[i].1.len() > LIMIT);
                }
            }
            return Err(error);
        },
    };

    // ensure that the uncompressed data isn't too big
    if uncompressed_data.len() > 0xffff_ffff {
        return Err(BuildError::TooMuchData(uncompressed_data.len()));
    }
    let uncompressed_data_size = uncompressed_data.len() as u32;

    // compress data
    let compressed_data = match codec.compress(uncompressed_data.as_slice()) {
        Ok(compressed) => compressed,
        Err(error) => {
            return Err(BuildError::Compression { stream: Stream::Data, error });
        },
    };
    let package = NamedArchive {
        compressed_data,
        uncompressed_data_size,
        compressed_names,
        uncompressed_names_size,
        compressed_sizes,
        checksums,
    };
    proof {
        assert(package@ =~= packed(codec, m));
        if assets@.len() >= 1 {
            crate::laws::lemma_round_trip(codec, m);
        }
    }
    Ok(package)
}

/// What to do about symbolic links among the assets.
#[derive(Clone, Copy)]
pub enum SymlinkRules {
    Forbid,
    Ignore,
    Follow,
}

/// The rule that the option `links` asks for: `forbid` where there is no option.
pub fn parse_symlink_rules(lit: Option<&Lit>) -> (r: Result<SymlinkRules, OptionError>)
    ensures
        match r {
            Ok(SymlinkRules::Forbid) => lit is None || (lit matches Some(Lit::Str(rule))
                && rule@ == "forbid"@),
            Ok(SymlinkRules::Ignore) => lit matches Some(Lit::Str(rule)) && rule@ == "ignore"@,
            Ok(SymlinkRules::Follow) => lit matches Some(Lit::Str(rule)) && rule@ == "follow"@,
            Err(OptionError::InvalidLinks) => match lit {
                None => false,
                Some(Lit::Str(rule)) => rule@ != "forbid"@ && rule@ != "ignore"@ && rule@
                    != "follow"@,
                Some(_) => true,
            },
            Err(_) => false,
        },
{
    match lit {
        None => Ok(SymlinkRules::Forbid),
        Some(Lit::Str(rule)) => {
            if str_eq(rule.as_str(), "forbid") {
                Ok(SymlinkRules::Forbid)
            } else if str_eq(rule.as_str(), "ignore") {
                Ok(SymlinkRules::Ignore)
            } else if str_eq(rule.as_str(), "follow") {
                Ok(SymlinkRules::Follow)
            } else {
                Err(OptionError::InvalidLinks)
            }
        },
        Some(_) => Err(OptionError::InvalidLinks),
    }
}

/// What an entry of a directory is.
#[derive(Clone, Copy)]
pub enum EntryKind {
    Dir,
    File,
    Symlink,
    Other,
}

/// What becomes of an entry of a directory that is walked for assets.
#[derive(Clone, Copy, PartialEq, Eq, Debug)]
pub enum EntryStep {
    /// It is passed over.
    Skip,
    /// It is an asset.
    Include,
    /// It is a symbolic link where there may be none: the walk fails.
    ForbiddenLink,
    /// It is neither directory, file nor symbolic link: the walk fails.
    Unsupported,
}

/// Whether the walk goes through symbolic links as if they were what they point to.
pub fn follows_links(rules: SymlinkRules) -> (follow: bool)
    ensures
        follow == (rules is Follow),
{
    match rules {
        SymlinkRules::Forbid => false,
        SymlinkRules::Ignore => false,
        SymlinkRules::Follow => true,
    }
}

/// What becomes of an entry of this kind under these rules. Directories are
/// passed over, since the walk goes into them by itself; files are assets; a
/// symbolic link is passed over where links are ignored and fails the walk
/// otherwise.
pub fn entry_step(kind: EntryKind, rules: SymlinkRules) -> (step: EntryStep)
    ensures
        step == match kind {
            EntryKind::Dir => EntryStep::Skip,
            EntryKind::File => EntryStep::Include,
            EntryKind::Symlink => if rules is Ignore {
                EntryStep::Skip
            } else {
                EntryStep::ForbiddenLink
            },
            EntryKind::Other => EntryStep::Unsupported,
        },
{
    match kind {
        EntryKind::Dir => EntryStep::Skip,
        EntryKind::File => EntryStep::Include,
        EntryKind::Symlink => match rules {
            SymlinkRules::Ignore => EntryStep::Skip,
            _ => EntryStep::ForbiddenLink,
        },
        EntryKind::Other => EntryStep::Unsupported,
    }
}

} // verus!
