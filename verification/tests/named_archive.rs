use include_assets::codec::{Codec, Deflate, ErrorMessage, Lz4, Uncompressed, Zstd};
use include_assets::decode::checksum::compute_checksum;
use include_assets::decode::common::{
    decompress_names, decompress_ranges, names_from_stream, ranges_from_sizes,
    try_decompress_names, try_decompress_ranges, u32_to_usize, u32_to_usize_range, NamesError,
    RangesError,
};
use include_assets::decode::named::LoadError;
use include_assets::encode::common::{AnyCodec, BuildError};
use include_assets::encode::named::{prepare_named_archive, NamedArchive as Package};
use include_assets::{CompressedNamedArchive, NamedArchive};

fn asset(name: &str, bytes: &[u8]) -> (String, Vec<u8>) {
    (name.to_owned(), bytes.to_vec())
}

fn leak(bytes: &[u8]) -> &'static [u8] {
    Vec::leak(bytes.to_vec())
}

fn embed<C: Codec>(codec: C, package: &Package) -> CompressedNamedArchive<C> {
    CompressedNamedArchive {
        codec,
        data: leak(&package.compressed_data),
        uncompressed_data_size: package.uncompressed_data_size,
        compressed_names: leak(&package.compressed_names),
        uncompressed_names_size: package.uncompressed_names_size,
        checksums: Vec::leak(package.checksums.clone()),
        compressed_sizes: leak(&package.compressed_sizes),
    }
}

fn build<C: Codec>(codec: &C, assets: Vec<(String, Vec<u8>)>) -> Package {
    match prepare_named_archive(codec, assets) {
        Ok(package) => package,
        Err(_) => panic!("the manifest should have been packed"),
    }
}

fn sample_assets() -> Vec<(String, Vec<u8>)> {
    let mut big = Vec::new();
    for i in 0..20000u32 {
        big.push((i % 13) as u8);
    }
    vec![
        asset("zebra.bin", &big),
        asset("a.txt", b"hi"),
        asset("dir/inner/\u{00e9}t\u{00e9}.txt", "\u{00e9}t\u{00e9}".as_bytes()),
        asset("b/c.txt", b"world!"),
        asset("a.b/x", b""),
        asset("a/x", b"slash sorts after dot"),
        asset("a", b"prefix first"),
    ]
}

fn round_trip<C: Codec + Copy>(codec: C) {
    let assets = sample_assets();
    let package = build(&codec, assets.clone());
    assert_eq!(package.checksums.len(), assets.len());
    let archive = NamedArchive::load(embed(codec, &package));
    assert_eq!(archive.number_of_assets(), assets.len());
    for (name, bytes) in &assets {
        assert_eq!(archive.get(name), Some(bytes.as_slice()));
        assert!(archive.contains(name));
        assert_eq!(&archive[name.as_str()], bytes.as_slice());
    }
    assert_eq!(archive.get("missing"), None);
    assert!(!archive.contains("a.tx"));
}

#[test]
fn round_trip_uncompressed() {
    round_trip(Uncompressed {});
}

#[test]
fn round_trip_lz4() {
    round_trip(Lz4 {});
}

#[test]
fn round_trip_zstd() {
    round_trip(Zstd { level: 5 });
    round_trip(Zstd { level: -3 });
    round_trip(Zstd { level: 19 });
}

#[test]
fn round_trip_deflate() {
    round_trip(Deflate { level: 2 });
    round_trip(Deflate { level: 0 });
    round_trip(Deflate { level: 10 });
}

#[test]
fn round_trip_any_codec() {
    round_trip(AnyCodec::Uncompressed(Uncompressed {}));
    round_trip(AnyCodec::Lz4(Lz4 {}));
    round_trip(AnyCodec::Deflate(Deflate { level: 9 }));
    round_trip(AnyCodec::Zstd(Zstd { level: 1 }));
}

#[test]
fn concrete_scenario() {
    let codec = Uncompressed {};
    let assets = vec![asset("b/c.txt", b"world!"), asset("a.txt", b"hi")];
    let package = build(&codec, assets);
    assert_eq!(package.compressed_data, b"hiworld!");
    assert_eq!(package.uncompressed_data_size, 8);
    assert_eq!(package.compressed_names, b"a.txt\0b/c.txt");
    assert_eq!(package.uncompressed_names_size, 13);
    assert_eq!(package.compressed_sizes, [2, 0, 0, 0, 6, 0, 0, 0]);
    assert_eq!(package.checksums, vec![compute_checksum(b"hi"), compute_checksum(b"world!")]);

    let names = decompress_names(&codec, &package.compressed_names, 13);
    assert_eq!(names, vec!["a.txt".to_owned(), "b/c.txt".to_owned()]);
    let ranges = decompress_ranges(&codec, &package.compressed_sizes, 2);
    assert_eq!(ranges, vec![0..2, 2..8]);

    let archive = NamedArchive::load(embed(codec, &package));
    assert_eq!(archive.get("a.txt"), Some(&b"hi"[..]));
    assert_eq!(archive.get("b/c.txt"), Some(&b"world!"[..]));
    assert_eq!(archive.number_of_assets(), 2);
}

#[test]
fn single_empty_asset_round_trips() {
    for codec in [
        AnyCodec::Uncompressed(Uncompressed {}),
        AnyCodec::Lz4(Lz4 {}),
        AnyCodec::Deflate(Deflate { level: 2 }),
        AnyCodec::Zstd(Zstd { level: 5 }),
    ] {
        let package = build(&codec, vec![asset("nothing", b"")]);
        assert_eq!(package.uncompressed_data_size, 0);
        let archive = match NamedArchive::try_load(embed(codec, &package)) {
            Ok(archive) => archive,
            Err(_) => panic!("an empty asset must load"),
        };
        assert_eq!(archive.get("nothing"), Some(&b""[..]));
        assert_eq!(archive.number_of_assets(), 1);
    }
}

#[test]
fn build_is_independent_of_input_order() {
    for codec in [
        AnyCodec::Uncompressed(Uncompressed {}),
        AnyCodec::Lz4(Lz4 {}),
        AnyCodec::Deflate(Deflate { level: 2 }),
        AnyCodec::Zstd(Zstd { level: 5 }),
    ] {
        let forward = sample_assets();
        let mut backward = forward.clone();
        backward.reverse();
        let mut rotated = forward.clone();
        rotated.rotate_left(3);
        let a = build(&codec, forward);
        for other in [backward, rotated] {
            let b = build(&codec, other);
            assert_eq!(a.compressed_data, b.compressed_data);
            assert_eq!(a.uncompressed_data_size, b.uncompressed_data_size);
            assert_eq!(a.compressed_names, b.compressed_names);
            assert_eq!(a.uncompressed_names_size, b.uncompressed_names_size);
            assert_eq!(a.compressed_sizes, b.compressed_sizes);
            assert_eq!(a.checksums, b.checksums);
        }
    }
}

#[test]
fn names_are_sorted_by_their_bytes() {
    let package = build(&Uncompressed {}, sample_assets());
    assert_eq!(
        package.compressed_names,
        "a\0a.b/x\0a.txt\0a/x\0b/c.txt\0dir/inner/\u{00e9}t\u{00e9}.txt\0zebra.bin".as_bytes()
    );
}

#[test]
fn counts_agree() {
    let codec = Lz4 {};
    let assets = sample_assets();
    let count = assets.len();
    let package = build(&codec, assets);
    let names = decompress_names(&codec, &package.compressed_names, package.uncompressed_names_size);
    let ranges = decompress_ranges(&codec, &package.compressed_sizes, package.checksums.len());
    assert_eq!(names.len(), count);
    assert_eq!(ranges.len(), count);
    assert_eq!(package.checksums.len(), count);
    assert_eq!(ranges.last().unwrap().end, package.uncompressed_data_size);
    let archive = NamedArchive::load(embed(codec, &package));
    assert_eq!(archive.names().len(), count);
    assert_eq!(archive.assets().len(), count);
}

#[test]
fn ranges_are_running_totals() {
    let stream = [5, 0, 0, 0, 0, 0, 0, 0, 3, 0, 0, 0];
    assert_eq!(ranges_from_sizes(&stream), Some(vec![0..5, 5..5, 5..8]));
    assert_eq!(ranges_from_sizes(&[]), Some(vec![]));
    assert_eq!(ranges_from_sizes(&[0x78, 0x56, 0x34, 0x12]), Some(vec![0..0x12345678]));
    assert_eq!(
        ranges_from_sizes(&[0xff, 0xff, 0xff, 0xff, 0, 0, 0, 0]),
        Some(vec![0..0xffff_ffff, 0xffff_ffff..0xffff_ffff])
    );
}

#[test]
fn ranges_reject_overflow_and_ragged_streams() {
    assert_eq!(ranges_from_sizes(&[0xff, 0xff, 0xff, 0xff, 1, 0, 0, 0]), None);
    assert_eq!(ranges_from_sizes(&[1, 0, 0]), None);
    assert_eq!(ranges_from_sizes(&[1, 0, 0, 0, 9]), None);
}

#[test]
fn decompress_ranges_reports_each_failure() {
    let codec = Uncompressed {};
    assert!(matches!(
        try_decompress_ranges(&codec, &[1, 0, 0, 0], 2),
        Err(RangesError::Decompression(_))
    ));
    assert!(matches!(
        try_decompress_ranges(&codec, &[0xff, 0xff, 0xff, 0xff, 1, 0, 0, 0], 2),
        Err(RangesError::Overflow)
    ));
    assert!(matches!(
        try_decompress_ranges(&codec, &[], usize::MAX / 2),
        Err(RangesError::TooManyEntries)
    ));
    assert_eq!(try_decompress_ranges(&codec, &[1, 0, 0, 0], 1).ok(), Some(vec![0..1]));
}

#[test]
fn names_are_split_at_zero_bytes() {
    assert_eq!(names_from_stream(b"a\0b"), Ok(vec!["a".to_owned(), "b".to_owned()]));
    assert_eq!(names_from_stream(b""), Ok(vec!["".to_owned()]));
    assert_eq!(names_from_stream(b"\0"), Ok(vec!["".to_owned(), "".to_owned()]));
    assert_eq!(
        names_from_stream(b"x\0\0yz\0"),
        Ok(vec!["x".to_owned(), "".to_owned(), "yz".to_owned(), "".to_owned()])
    );
    assert_eq!(
        names_from_stream("\u{1f980}/\u{00e4}".as_bytes()),
        Ok(vec!["\u{1f980}/\u{00e4}".to_owned()])
    );
}

#[test]
fn names_must_be_utf8() {
    assert_eq!(names_from_stream(b"ok\0\xff\xfe\0also ok\0\xc0"), Err(1));
    assert_eq!(names_from_stream(b"\xe2\x82"), Err(0));
    let codec = Uncompressed {};
    assert!(matches!(try_decompress_names(&codec, b"a\0\x80", 3), Err(NamesError::NotUtf8(1))));
    assert!(matches!(
        try_decompress_names(&codec, b"a\0b", 4),
        Err(NamesError::Decompression(_))
    ));
}

#[test]
fn conversions_keep_the_numbers() {
    assert_eq!(u32_to_usize(0), 0);
    assert_eq!(u32_to_usize(u32::MAX), 0xffff_ffff);
    assert_eq!(u32_to_usize_range(&(3..0xffff_fff0)), 3..0xffff_fff0usize);
}

#[test]
fn duplicate_name_is_rejected() {
    let assets = vec![
        asset("z", b"1"),
        asset("m", b"2"),
        asset("z", b"3"),
        asset("a", b"4"),
        asset("m", b"5"),
    ];
    match prepare_named_archive(&Uncompressed {}, assets) {
        Err(BuildError::DuplicateName(name)) => assert_eq!(name, "m"),
        _ => panic!("a duplicate name must be rejected"),
    }
}

#[test]
fn nul_in_name_is_rejected() {
    let assets = vec![asset("b\0ad", b"1"), asset("fine", b"2"), asset("a\0lso bad", b"3")];
    match prepare_named_archive(&Uncompressed {}, assets) {
        Err(BuildError::NulInName(name)) => assert_eq!(name, "a\0lso bad"),
        _ => panic!("a name with a zero byte must be rejected"),
    }
}

#[test]
fn empty_manifest_packs_but_does_not_load() {
    let codec = Uncompressed {};
    let package = build(&codec, vec![]);
    assert!(package.compressed_data.is_empty());
    assert_eq!(package.uncompressed_data_size, 0);
    assert!(package.compressed_names.is_empty());
    assert!(package.compressed_sizes.is_empty());
    assert!(package.checksums.is_empty());
    assert_eq!(ranges_from_sizes(&package.compressed_sizes), Some(vec![]));
    match NamedArchive::try_load(embed(codec, &package)) {
        Err(LoadError::CountMismatch { names, ranges }) => {
            assert_eq!(names, 1);
            assert_eq!(ranges, 0);
        }
        _ => panic!("the one empty name of an empty stream has no range"),
    }
}

#[test]
fn load_reports_each_failure() {
    let codec = Uncompressed {};
    let package = build(&codec, vec![asset("a", b"12"), asset("b", b"345")]);

    let mut broken = embed(codec, &package);
    broken.uncompressed_data_size = 6;
    assert!(matches!(NamedArchive::try_load(broken), Err(LoadError::Data(_))));

    let mut broken = embed(codec, &package);
    broken.uncompressed_names_size = 2;
    assert!(matches!(
        NamedArchive::try_load(broken),
        Err(LoadError::Names(NamesError::Decompression(_)))
    ));

    let mut broken = embed(codec, &package);
    broken.compressed_names = b"a\0\xff";
    assert!(matches!(
        NamedArchive::try_load(broken),
        Err(LoadError::Names(NamesError::NotUtf8(1)))
    ));

    let mut broken = embed(codec, &package);
    broken.checksums = &broken.checksums[..1];
    assert!(matches!(
        NamedArchive::try_load(broken),
        Err(LoadError::Ranges(RangesError::Decompression(_)))
    ));

    let mut broken = embed(codec, &package);
    broken.compressed_sizes = &[0xff, 0xff, 0xff, 0xff, 1, 0, 0, 0];
    assert!(matches!(
        NamedArchive::try_load(broken),
        Err(LoadError::Ranges(RangesError::Overflow))
    ));

    let mut broken = embed(codec, &package);
    broken.compressed_names = b"a\0b\0c";
    broken.uncompressed_names_size = 5;
    match NamedArchive::try_load(broken) {
        Err(LoadError::CountMismatch { names, ranges }) => {
            assert_eq!(names, 3);
            assert_eq!(ranges, 2);
        }
        _ => panic!("three names for two ranges must be rejected"),
    }

    let mut broken = embed(codec, &package);
    broken.compressed_sizes = &[2, 0, 0, 0, 2, 0, 0, 0];
    match NamedArchive::try_load(broken) {
        Err(LoadError::SizeMismatch { end, declared }) => {
            assert_eq!(end, 4);
            assert_eq!(declared, 5);
        }
        _ => panic!("ranges that end before the data ends must be rejected"),
    }

    assert!(NamedArchive::try_load(embed(codec, &package)).is_ok());
}

#[test]
fn load_does_not_check_digests() {
    let codec = Uncompressed {};
    let package = build(&codec, vec![asset("a", b"12"), asset("b", b"345")]);
    let mut altered = embed(codec, &package);
    altered.data = b"1x345";
    let archive = match NamedArchive::try_load(altered) {
        Ok(archive) => archive,
        Err(_) => panic!("a named archive loads whatever its digests say"),
    };
    assert_eq!(archive.get("a"), Some(&b"1x"[..]));
}

#[test]
fn repeated_name_in_a_package_keeps_its_last_range() {
    let codec = Uncompressed {};
    let package = build(&codec, vec![asset("a", b"12"), asset("b", b"345")]);
    let mut odd = embed(codec, &package);
    odd.compressed_names = b"a\0a";
    let archive = match NamedArchive::try_load(odd) {
        Ok(archive) => archive,
        Err(_) => panic!("a repeated name is no failure of loading"),
    };
    assert_eq!(archive.number_of_assets(), 1);
    assert_eq!(archive.get("a"), Some(&b"345"[..]));
    assert_eq!(archive.names(), vec!["a"]);
    assert_eq!(archive.assets(), vec![("a", &b"345"[..])]);
}

#[test]
fn names_and_assets_list_every_asset_once() {
    let codec = Zstd { level: 3 };
    let assets = sample_assets();
    let archive = NamedArchive::load(embed(codec, &build(&codec, assets.clone())));
    let mut names: Vec<String> = archive.names().into_iter().map(str::to_owned).collect();
    names.sort();
    let mut expected: Vec<String> = assets.iter().map(|(name, _)| name.clone()).collect();
    expected.sort();
    assert_eq!(names, expected);
    let mut listed: Vec<(String, Vec<u8>)> = archive
        .assets()
        .into_iter()
        .map(|(name, bytes)| (name.to_owned(), bytes.to_vec()))
        .collect();
    listed.sort();
    let mut all = assets;
    all.sort();
    assert_eq!(listed, all);
}

#[test]
fn build_error_messages() {
    let duplicate: BuildError<std::convert::Infallible> = BuildError::DuplicateName("x/y".to_owned());
    assert_eq!(duplicate.message(), "duplicate asset name: x/y");
    let nul: BuildError<std::convert::Infallible> = BuildError::NulInName("n".to_owned());
    assert_eq!(nul.message(), "asset name contains a null byte: n");
    let long: BuildError<std::convert::Infallible> = BuildError::NamesTooLong(4294967296);
    assert_eq!(long.message(), "uncompressed names are too long (4294967296 bytes)");
    let big: BuildError<std::convert::Infallible> =
        BuildError::AssetTooBig { name: "film".to_owned(), size: 5000000000 };
    assert_eq!(big.message(), "asset film is too big (5000000000 bytes)");
    let many: BuildError<std::convert::Infallible> = BuildError::TooManyAssets(4294967300);
    assert_eq!(
        many.message(),
        "too many assets: size of uncompressed asset sizes is too big (4294967300 bytes)"
    );
    let much: BuildError<std::convert::Infallible> = BuildError::TooMuchData(4294967297);
    assert_eq!(much.message(), "too much data (4294967297 bytes)");
}
