//! What packing and unpacking have to do with each other.

use crate::decode::codec::{Codec, Uncompressed};
use crate::decode::common::{names_in, ranges_readable, sizes_of};
use crate::decode::enums::{digests_match, end_of_all, slices, start_of, unpacked_by_ordinal};
use crate::decode::named::unpacked;
use crate::encode::named::{archive_of, contents_of, digests_of, fits, has_name, packed};
use crate::model::data::{concat, end_offsets, lemma_concat_len, lemma_concat_slice, lengths};
use crate::model::names::{lemma_names_stream_read_back, names_stream};
use crate::model::order::{
    canonical, distinct_names, lemma_ascending_distinct, lemma_canonical_arranges,
    lemma_canonical_of_same_assets, names_of, same_assets, AssetView,
};
use crate::model::package::{lemma_table_entry, lemma_table_names, table, PackageView};
use crate::model::sizes::{
    lemma_sizes_stream_read_back, lemma_total_monotone, ranges_of, sizes_stream, total, LIMIT,
};
use vstd::prelude::*;

verus! {

/// Decompressing what `codec` makes of `stream` gives `stream` back.
pub open spec fn round_trips<C: Codec>(codec: &C, stream: Seq<u8>) -> bool {
    codec.decompressed(codec.compressed(stream), stream.len()) == Some(stream)
}

/// The three streams of the package of a manifest come back from `codec`.
pub open spec fn streams_round_trip<C: Codec>(codec: &C, assets: Seq<AssetView>) -> bool {
    let sorted = canonical(assets);
    &&& round_trips(codec, concat(contents_of(sorted)))
    &&& round_trips(codec, names_stream(names_of(sorted)))
    &&& round_trips(codec, sizes_stream(lengths(contents_of(sorted))))
}

/// The canonical order of a manifest gives each name the bytes that the manifest
/// gives it.
pub proof fn lemma_table_of_canonical(assets: Seq<AssetView>)
    requires
        distinct_names(assets),
    ensures
        table(
            names_of(canonical(assets)),
            ranges_of(lengths(contents_of(canonical(assets)))),
            concat(contents_of(canonical(assets))),
        ) == archive_of(assets),
{
    lemma_canonical_arranges(assets);
    let sorted = canonical(assets);
    let names = names_of(sorted);
    let blobs = contents_of(sorted);
    let spans = ranges_of(lengths(blobs));
    let data = concat(blobs);
    let built = table(names, spans, data);
    lemma_ascending_distinct(sorted);
    lemma_table_names(names, spans, data);
    assert forall|name: Seq<char>| built.contains_key(name) <==> has_name(assets, name) by {
        if built.contains_key(name) {
            assert(names.contains(name));
            let k = choose|k: int| 0 <= k < names.len() && names[k] == name;
            assert(sorted.contains(sorted[k]));
            let i = choose|i: int| 0 <= i < assets.len() && assets[i] == sorted[k];
            assert(assets[i].0 == name);
        }
        if has_name(assets, name) {
            let i = choose|i: int| 0 <= i < assets.len() && #[trigger] assets[i].0 == name;
            assert(assets.contains(assets[i]));
            assert(sorted.contains(assets[i]));
            let k = choose|k: int| 0 <= k < sorted.len() && sorted[k] == assets[i];
            assert(names[k] == name);
            assert(names.contains(name));
        }
    }
    assert forall|name: Seq<char>| built.contains_key(name) implies built[name] == archive_of(
        assets,
    )[name] by {
        assert(has_name(assets, name));
        let i = choose|i: int| 0 <= i < assets.len() && #[trigger] assets[i].0 == name;
        assert(assets.contains(assets[i]));
        assert(sorted.contains(assets[i]));
        let k = choose|k: int| 0 <= k < sorted.len() && sorted[k] == assets[i];
        assert(names[k] == name);
        assert forall|a: int, b: int| 0 <= a < b < names.len() implies names[a] != names[b] by {
            assert(sorted[a].0 != sorted[b].0);
        }
        lemma_table_entry(names, spans, data, k);
        lemma_concat_slice(blobs, k);
    }
    assert(built =~= archive_of(assets));
}

/// What the package of a manifest unpacks to, where its three streams come back
/// from the codec.
proof fn lemma_unpacked_packed<C: Codec>(codec: &C, assets: Seq<AssetView>)
    requires
        fits(assets),
        assets.len() >= 1,
        streams_round_trip(codec, assets),
    ensures
        unpacked(codec, packed(codec, assets)) == Some(
            table(
                names_of(canonical(assets)),
                ranges_of(lengths(contents_of(canonical(assets)))),
                concat(contents_of(canonical(assets))),
            ),
        ),
{
    lemma_canonical_arranges(assets);
    let sorted = canonical(assets);
    let names = names_of(sorted);
    let blobs = contents_of(sorted);
    let sizes = lengths(blobs);
    let package = packed(codec, assets);
    let count = package.checksums.len();
    assert(count == assets.len());
    assert(names.len() == count && sizes.len() == count);
    assert(names_in(codec, package.names, package.uncompressed_names_size) == Some(names)) by {
        lemma_names_stream_read_back(names);
    }
    assert(sizes_of(codec, package.sizes, count) == Some(sizes)) by {
        lemma_sizes_stream_read_back(sizes);
    }
    assert(total(sizes, sizes.len() as int) == package.uncompressed_data_size) by {
        lemma_concat_len(blobs);
    }
    assert(4 * count <= usize::MAX);
    assert(ranges_readable(codec, package.sizes, count));
    assert(codec.decompressed(package.data, package.uncompressed_data_size) == Some(
        concat(blobs),
    ));
}

/// Round trip: a manifest that can be packed and has an asset, packed and then
/// unpacked under a codec that gives its three streams back, is an archive that
/// hands out each asset of the manifest by its name, and nothing else.
pub proof fn lemma_round_trip<C: Codec>(codec: &C, assets: Seq<AssetView>)
    requires
        fits(assets),
        assets.len() >= 1,
        streams_round_trip(codec, assets),
    ensures
        unpacked(codec, packed(codec, assets)) == Some(archive_of(assets)),
        forall|i: int|
            0 <= i < assets.len() ==> archive_of(assets).contains_key(#[trigger] assets[i].0)
                && archive_of(assets)[assets[i].0] == assets[i].1,
        forall|name: Seq<char>| archive_of(assets).contains_key(name) ==> has_name(assets, name),
{
    lemma_unpacked_packed(codec, assets);
    lemma_table_of_canonical(assets);
    assert forall|i: int| 0 <= i < assets.len() implies archive_of(assets).contains_key(
        #[trigger] assets[i].0,
    ) && archive_of(assets)[assets[i].0] == assets[i].1 by {
        let name = assets[i].0;
        assert(has_name(assets, name));
        let j = choose|j: int| 0 <= j < assets.len() && #[trigger] assets[j].0 == name;
        if i < j {
            assert(assets[i].0 != assets[j].0);
        } else if j < i {
            assert(assets[j].0 != assets[i].0);
        }
    }
}

/// Without compression every stream comes back.
pub proof fn lemma_uncompressed_round_trips(stream: Seq<u8>)
    ensures
        round_trips(&Uncompressed {}, stream),
{
}

/// Round trip without compression: a manifest that can be packed and has an
/// asset, packed and then unpacked, is an archive that hands out each asset of
/// the manifest by its name, and nothing else.
pub proof fn lemma_round_trip_uncompressed(assets: Seq<AssetView>)
    requires
        fits(assets),
        assets.len() >= 1,
    ensures
        unpacked(&Uncompressed {}, packed(&Uncompressed {}, assets)) == Some(archive_of(assets)),
{
    lemma_round_trip(&Uncompressed {}, assets);
}

/// Determinism: two manifests of the same assets, in whatever order each
/// presents them, make the same package, and one can be packed if the other can.
pub proof fn lemma_order_independent<C: Codec>(codec: &C, a: Seq<AssetView>, b: Seq<AssetView>)
    requires
        distinct_names(a),
        distinct_names(b),
        same_assets(a, b),
    ensures
        packed(codec, a) == packed(codec, b),
        fits(a) == fits(b),
{
    lemma_canonical_of_same_assets(a, b);
    lemma_canonical_arranges(a);
    lemma_canonical_arranges(b);
}

/// Cardinality: a package that unpacks has as many names as sizes as digests, and
/// the archive has no more assets than that.
pub proof fn lemma_cardinality<C: Codec>(codec: &C, package: PackageView)
    requires
        unpacked(codec, package) is Some,
    ensures
        names_in(codec, package.names, package.uncompressed_names_size)->0.len()
            == package.checksums.len(),
        sizes_of(codec, package.sizes, package.checksums.len())->0.len() == package.checksums.len(),
        ranges_of(sizes_of(codec, package.sizes, package.checksums.len())->0).len()
            == package.checksums.len(),
        unpacked(codec, package)->0.dom().finite(),
        unpacked(codec, package)->0.len() <= package.checksums.len(),
{
    let names = names_in(codec, package.names, package.uncompressed_names_size)->0;
    let sizes = sizes_of(codec, package.sizes, package.checksums.len())->0;
    let data = codec.decompressed(package.data, package.uncompressed_data_size)->0;
    lemma_table_names(names, ranges_of(sizes), data);
    let archive = table(names, ranges_of(sizes), data);
    assert(archive.dom() =~= names.to_set());
    names.lemma_cardinality_of_set();
}

/// Cardinality: the package of a manifest has one name, one size and one digest
/// for each asset.
pub proof fn lemma_packed_cardinality<C: Codec>(codec: &C, assets: Seq<AssetView>)
    requires
        distinct_names(assets),
    ensures
        packed(codec, assets).checksums.len() == assets.len(),
        names_of(canonical(assets)).len() == assets.len(),
        lengths(contents_of(canonical(assets))).len() == assets.len(),
{
    lemma_canonical_arranges(assets);
}

/// The end offsets of the blobs, as they are recorded.
pub open spec fn recorded_ends(blobs: Seq<Seq<u8>>) -> Seq<u32> {
    Seq::new(blobs.len(), |i: int| end_offsets(blobs)[i] as u32)
}

/// Round trip by ordinal: blobs that together have no more bytes than can be
/// recorded, concatenated and compressed by a codec that gives that stream
/// back, unpack with their end offsets and digests to the same blobs.
pub proof fn lemma_round_trip_by_ordinal<C: Codec>(codec: &C, blobs: Seq<Seq<u8>>)
    requires
        concat(blobs).len() <= LIMIT,
        round_trips(codec, concat(blobs)),
    ensures
        unpacked_by_ordinal(
            codec,
            codec.compressed(concat(blobs)),
            recorded_ends(blobs),
            digests_of(blobs),
        ) == Some(blobs),
{
    let data = concat(blobs);
    let ends = recorded_ends(blobs);
    let sizes = lengths(blobs);
    lemma_concat_len(blobs);
    assert forall|i: int| 0 <= i < blobs.len() implies ends[i] == total(sizes, i + 1) && start_of(
        ends,
        i,
    ) == total(sizes, i) by {
        lemma_total_monotone(sizes, i + 1, blobs.len() as int);
        if i > 0 {
            lemma_total_monotone(sizes, i, blobs.len() as int);
        }
    }
    assert(end_of_all(ends) == data.len());
    assert forall|i: int| 0 < i < ends.len() implies ends[i - 1] <= #[trigger] ends[i] by {
        lemma_total_monotone(sizes, i, i + 1);
        assert(ends[i - 1] == total(sizes, i));
    }
    assert forall|i: int| 0 <= i < blobs.len() implies slices(data, ends)[i] == blobs[i] by {
        lemma_concat_slice(blobs, i);
    }
    assert(slices(data, ends) =~= blobs);
    assert(digests_match(blobs, digests_of(blobs)));
}

} // verus!
