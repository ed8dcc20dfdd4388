use include_assets::codec::{Deflate, Lz4, Uncompressed};
use include_assets::encode::common::BuildError;
use include_assets::decode::checksum::compute_checksum;
use include_assets::decode::enums::EnumLoadError;
use include_assets::encode::enums::{checksums_of, prepare_asset_archive};
use include_assets::{AssetEnum, Checksum, EnumArchive, EnumMap};

const HI: Checksum = [
    0xbf, 0xbc, 0xbe, 0x7a, 0xde, 0x93, 0x03, 0x4e, 0xe0, 0xa4, 0x1a, 0x2e, 0xa7, 0xb5, 0xfd, 0x81,
    0xd8, 0x9b, 0xdb, 0x1d, 0x75, 0xd1, 0xaf, 0x23, 0x0e, 0xa3, 0x7d, 0x7a, 0xbe, 0x71, 0x07, 0x8f,
    0x1d, 0xf6, 0xdb, 0x4d, 0x25, 0x1c, 0xbc, 0x6b, 0x58, 0xe8, 0x96, 0x3d, 0xb2, 0x54, 0x6f, 0x0f,
    0x53, 0x9c, 0x80, 0xb0, 0xf0, 0x8c, 0x0f, 0xdd, 0x8c, 0x0a, 0x71, 0x07, 0x5c, 0x97, 0xb3, 0xe7,
];

const WORLD: Checksum = [
    0x4b, 0x60, 0xa6, 0xec, 0xe1, 0x07, 0xb0, 0x19, 0x32, 0xf5, 0x4f, 0x84, 0x69, 0x09, 0x8b, 0x4c,
    0x95, 0xd8, 0x89, 0x65, 0x70, 0xab, 0xee, 0xbb, 0x19, 0x95, 0xa0, 0x82, 0xa3, 0xbc, 0xfc, 0xdc,
    0x4c, 0xaf, 0x64, 0x8a, 0x56, 0x51, 0x36, 0x6d, 0x1e, 0x22, 0x91, 0xbb, 0x09, 0x4b, 0x45, 0x82,
    0x30, 0xaa, 0x61, 0x3e, 0x87, 0xdf, 0xc8, 0x6c, 0x26, 0x97, 0x51, 0x26, 0x55, 0xeb, 0x51, 0xb6,
];

const EMPTY: Checksum = [
    0x78, 0x6a, 0x02, 0xf7, 0x42, 0x01, 0x59, 0x03, 0xc6, 0xc6, 0xfd, 0x85, 0x25, 0x52, 0xd2, 0x72,
    0x91, 0x2f, 0x47, 0x40, 0xe1, 0x58, 0x47, 0x61, 0x8a, 0x86, 0xe2, 0x17, 0xf7, 0x1f, 0x54, 0x19,
    0xd2, 0x5e, 0x10, 0x31, 0xaf, 0xee, 0x58, 0x53, 0x13, 0x89, 0x64, 0x44, 0x93, 0x4e, 0xb0, 0x4b,
    0x90, 0x3a, 0x68, 0x5b, 0x14, 0x48, 0xb7, 0x55, 0xd5, 0x6f, 0x70, 0x1a, 0xfe, 0x9b, 0xe2, 0xce,
];

#[derive(Clone, Copy, Debug, PartialEq)]
enum Plain {
    Hi,
    Nothing,
    World,
}

impl AssetEnum for Plain {
    const DATA: &'static [u8] = b"hiworld!";
    const DATA_END_OFFSETS: &'static [u32] = &[2, 2, 8];
    const CHECKSUMS: &'static [Checksum] = &[HI, EMPTY, WORLD];
    type C = Uncompressed;
    const CODEC: Uncompressed = Uncompressed {};

    fn index(self) -> usize {
        self as usize
    }
}

/// The same assets with one byte of the data changed.
#[derive(Clone, Copy)]
enum Flipped {
    Hi,
}

impl AssetEnum for Flipped {
    const DATA: &'static [u8] = b"hiworle!";
    const DATA_END_OFFSETS: &'static [u32] = &[2, 2, 8];
    const CHECKSUMS: &'static [Checksum] = &[HI, EMPTY, WORLD];
    type C = Uncompressed;
    const CODEC: Uncompressed = Uncompressed {};

    fn index(self) -> usize {
        self as usize
    }
}

/// One checksum too few.
#[derive(Clone, Copy)]
enum Short {
    Hi,
}

impl AssetEnum for Short {
    const DATA: &'static [u8] = b"hiworld!";
    const DATA_END_OFFSETS: &'static [u32] = &[2, 2, 8];
    const CHECKSUMS: &'static [Checksum] = &[HI, EMPTY];
    type C = Uncompressed;
    const CODEC: Uncompressed = Uncompressed {};

    fn index(self) -> usize {
        self as usize
    }
}

/// An asset that ends before it starts.
#[derive(Clone, Copy)]
enum Backwards {
    Hi,
}

impl AssetEnum for Backwards {
    const DATA: &'static [u8] = b"hiworld!";
    const DATA_END_OFFSETS: &'static [u32] = &[2, 9, 8];
    const CHECKSUMS: &'static [Checksum] = &[HI, EMPTY, WORLD];
    type C = Uncompressed;
    const CODEC: Uncompressed = Uncompressed {};

    fn index(self) -> usize {
        self as usize
    }
}

/// Data that are shorter than the last end offset.
#[derive(Clone, Copy)]
enum Truncated {
    Hi,
}

impl AssetEnum for Truncated {
    const DATA: &'static [u8] = b"hiworld";
    const DATA_END_OFFSETS: &'static [u32] = &[2, 2, 8];
    const CHECKSUMS: &'static [Checksum] = &[HI, EMPTY, WORLD];
    type C = Uncompressed;
    const CODEC: Uncompressed = Uncompressed {};

    fn index(self) -> usize {
        self as usize
    }
}

/// No assets at all.
#[derive(Clone, Copy)]
enum Nothing {}

impl AssetEnum for Nothing {
    const DATA: &'static [u8] = &[0];
    const DATA_END_OFFSETS: &'static [u32] = &[];
    const CHECKSUMS: &'static [Checksum] = &[];
    type C = Lz4;
    const CODEC: Lz4 = Lz4 {};

    fn index(self) -> usize {
        match self {}
    }
}

/// Fifty times "hiworld!" as a raw DEFLATE stream, in two assets.
#[derive(Clone, Copy)]
enum Deflated {
    First,
    Rest,
}

impl AssetEnum for Deflated {
    const DATA: &'static [u8] = &[
        0xcb, 0xc8, 0x2c, 0xcf, 0x2f, 0xca, 0x49, 0x51, 0xcc, 0x18, 0xa5, 0x07, 0x05, 0x0d, 0x00,
    ];
    const DATA_END_OFFSETS: &'static [u32] = &[2, 400];
    const CHECKSUMS: &'static [Checksum] = &[HI, REST];
    type C = Deflate;
    const CODEC: Deflate = Deflate { level: 6 };

    fn index(self) -> usize {
        self as usize
    }
}

/// "hiworld!" as an LZ4 block: eight literals.
#[derive(Clone, Copy)]
enum Blocked {
    Hi,
    World,
}

impl AssetEnum for Blocked {
    const DATA: &'static [u8] = &[0x80, b'h', b'i', b'w', b'o', b'r', b'l', b'd', b'!'];
    const DATA_END_OFFSETS: &'static [u32] = &[2, 8];
    const CHECKSUMS: &'static [Checksum] = &[HI, WORLD];
    type C = Lz4;
    const CODEC: Lz4 = Lz4 {};

    fn index(self) -> usize {
        self as usize
    }
}

/// The same block with one of its bytes changed.
#[derive(Clone, Copy)]
enum BlockedFlipped {
    Hi,
}

impl AssetEnum for BlockedFlipped {
    const DATA: &'static [u8] = &[0x80, b'h', b'j', b'w', b'o', b'r', b'l', b'd', b'!'];
    const DATA_END_OFFSETS: &'static [u32] = &[2, 8];
    const CHECKSUMS: &'static [Checksum] = &[HI, WORLD];
    type C = Lz4;
    const CODEC: Lz4 = Lz4 {};

    fn index(self) -> usize {
        self as usize
    }
}

const REST: Checksum = [
    0x86, 0xcb, 0x33, 0x59, 0x57, 0x05, 0x98, 0xd5, 0x65, 0x16, 0x80, 0xf4, 0x38, 0x90, 0x07, 0x8e,
    0x7b, 0xe7, 0x74, 0x38, 0xaa, 0x4a, 0x73, 0xd6, 0x0c, 0xa8, 0x55, 0xdf, 0xe7, 0x44, 0x24, 0xce,
    0x8f, 0xe8, 0x9b, 0xdf, 0xc7, 0xd0, 0x81, 0xd9, 0x90, 0x03, 0x40, 0x00, 0xc1, 0x32, 0x21, 0x96,
    0xf9, 0x3f, 0x40, 0x3e, 0x62, 0x10, 0xe3, 0x21, 0x83, 0x27, 0x23, 0x0e, 0x8d, 0xef, 0x34, 0x69,
];

fn load<E: AssetEnum>() -> EnumArchive<E> {
    match EnumArchive::try_load() {
        Ok(archive) => archive,
        Err(_) => panic!("the data of the enum should have loaded"),
    }
}

#[test]
fn digests_of_the_fixtures() {
    assert_eq!(compute_checksum(b"hi"), HI);
    assert_eq!(compute_checksum(b"world!"), WORLD);
    assert_eq!(compute_checksum(b""), EMPTY);
    assert_eq!(compute_checksum(&b"hiworld!".repeat(50)[2..]), REST);
}

#[test]
fn load_and_index_by_variant() {
    let archive: EnumArchive<Plain> = EnumArchive::load();
    assert_eq!(&archive[Plain::Hi], b"hi");
    assert_eq!(&archive[Plain::Nothing], b"");
    assert_eq!(&archive[Plain::World], b"world!");
    let again: EnumArchive<Plain> = load();
    assert_eq!(&again[Plain::World], b"world!");
}

#[test]
fn load_decompresses() {
    let archive: EnumArchive<Deflated> = load();
    assert_eq!(&archive[Deflated::First], b"hi");
    assert_eq!(&archive[Deflated::Rest], &b"hiworld!".repeat(50)[2..]);
}

#[test]
fn empty_lz4_block_is_one_byte() {
    assert_eq!(include_assets::codec::Codec::compress(&Lz4 {}, b"").unwrap(), Nothing::DATA);
}

#[test]
fn load_of_no_assets() {
    let archive: EnumArchive<Nothing> = load();
    let lengths: EnumMap<Nothing, usize> = archive.map(|bytes| bytes.len());
    let doubled: EnumMap<Nothing, usize> = lengths.map(|n| n * 2);
    assert!(doubled.try_map(|n| if *n > 0 { Ok(*n) } else { Err(()) }).is_ok());
}

#[test]
fn changed_byte_is_a_checksum_mismatch() {
    match EnumArchive::<Flipped>::try_load() {
        Err(EnumLoadError::Checksum { index, mismatch }) => {
            assert_eq!(index, 2);
            assert_eq!(mismatch.expected, WORLD);
            assert_eq!(mismatch.actual, compute_checksum(b"worle!"));
            assert!(mismatch.message().starts_with("Checksum mismatch: expected 4b60a6ec"));
        }
        _ => panic!("a changed byte must be reported as a checksum mismatch"),
    }
    let _ = Flipped::Hi;
}

#[test]
fn changed_byte_of_a_compressed_stream_is_a_checksum_mismatch() {
    assert_eq!(include_assets::codec::Codec::compress(&Lz4 {}, b"hiworld!").unwrap(), Blocked::DATA);
    let archive: EnumArchive<Blocked> = load();
    assert_eq!(&archive[Blocked::Hi], b"hi");
    assert_eq!(&archive[Blocked::World], b"world!");
    match EnumArchive::<BlockedFlipped>::try_load() {
        Err(EnumLoadError::Checksum { index, mismatch }) => {
            assert_eq!(index, 0);
            assert_eq!(mismatch.expected, HI);
            assert_eq!(mismatch.actual, compute_checksum(b"hj"));
        }
        _ => panic!("a changed byte must be reported as a checksum mismatch"),
    }
    let _ = BlockedFlipped::Hi;
}

#[test]
fn enum_load_reports_each_failure() {
    match EnumArchive::<Short>::try_load() {
        Err(EnumLoadError::CountMismatch { offsets, checksums }) => {
            assert_eq!(offsets, 3);
            assert_eq!(checksums, 2);
        }
        _ => panic!("a missing checksum must be reported"),
    }
    match EnumArchive::<Backwards>::try_load() {
        Err(EnumLoadError::Offsets { index }) => assert_eq!(index, 2),
        _ => panic!("an asset that ends before it starts must be reported"),
    }
    assert!(matches!(EnumArchive::<Truncated>::try_load(), Err(EnumLoadError::Data(_))));
    let _ = (Short::Hi, Backwards::Hi, Truncated::Hi);
}

#[test]
fn map_applies_to_every_asset_in_order() {
    let archive: EnumArchive<Plain> = load();
    let texts = archive.map(|data| std::str::from_utf8(data).unwrap().to_owned());
    assert_eq!(texts[Plain::Hi], "hi");
    assert_eq!(texts[Plain::Nothing], "");
    assert_eq!(texts[Plain::World], "world!");
    let lengths = texts.map(|text| text.len());
    assert_eq!(lengths[Plain::Hi], 2);
    assert_eq!(lengths[Plain::Nothing], 0);
    assert_eq!(lengths[Plain::World], 6);
}

#[test]
fn try_map_stops_at_the_first_failure() {
    let archive: EnumArchive<Plain> = load();
    let seen = std::cell::RefCell::new(Vec::new());
    let result = archive.try_map(|data| {
        seen.borrow_mut().push(data.to_vec());
        if data.is_empty() {
            Err("empty")
        } else {
            Ok(data.len())
        }
    });
    assert_eq!(result.err(), Some("empty"));
    assert_eq!(*seen.borrow(), vec![b"hi".to_vec(), b"".to_vec()]);

    let lengths = match archive.try_map(|data| Ok::<usize, ()>(data.len())) {
        Ok(lengths) => lengths,
        Err(()) => panic!("no call failed"),
    };
    assert_eq!(lengths[Plain::World], 6);

    let halves = lengths.try_map(|n| if n % 2 == 0 { Ok(n / 2) } else { Err(*n) });
    match halves {
        Ok(halves) => {
            assert_eq!(halves[Plain::Hi], 1);
            assert_eq!(halves[Plain::Nothing], 0);
            assert_eq!(halves[Plain::World], 3);
        }
        Err(_) => panic!("every length is even"),
    }
    let fails = lengths.try_map(|n| if *n < 6 { Ok(*n) } else { Err(*n) });
    assert_eq!(fails.err(), Some(6));
}

#[test]
fn values_of_a_map_can_be_changed() {
    let archive: EnumArchive<Plain> = load();
    let mut lengths = archive.map(|data| data.len());
    lengths[Plain::Nothing] = 17;
    lengths[Plain::World] += 1;
    assert_eq!(lengths[Plain::Hi], 2);
    assert_eq!(lengths[Plain::Nothing], 17);
    assert_eq!(lengths[Plain::World], 7);
}

#[test]
fn packing_by_ordinal() {
    let blobs = vec![b"hi".to_vec(), b"".to_vec(), b"world!".to_vec()];
    assert_eq!(checksums_of(&blobs), vec![HI, EMPTY, WORLD]);
    let packed = match prepare_asset_archive(&Uncompressed {}, blobs) {
        Ok(packed) => packed,
        Err(_) => panic!("three small assets must be packed"),
    };
    assert_eq!(packed.compressed_data, Plain::DATA);
    assert_eq!(packed.data_end_offsets, Plain::DATA_END_OFFSETS);

    let nothing = match prepare_asset_archive(&Lz4 {}, vec![]) {
        Ok(packed) => packed,
        Err(_) => panic!("no assets must be packed"),
    };
    assert!(nothing.data_end_offsets.is_empty());
    assert!(checksums_of(&vec![]).is_empty());
}

#[test]
fn packing_by_ordinal_round_trips_through_the_codec() {
    use_codec(Lz4 {});
    use_codec(Deflate { level: 4 });
    use_codec(include_assets::codec::Zstd { level: 7 });
}

fn use_codec<C: include_assets::codec::Codec>(codec: C) {
    let blobs = vec![b"hiworld!".repeat(30), Vec::new(), b"x".to_vec(), b"hiworld?".repeat(30)];
    let packed = match prepare_asset_archive(&codec, blobs.clone()) {
        Ok(packed) => packed,
        Err(BuildError::Compression { .. }) => panic!("the codec failed"),
        Err(_) => panic!("the assets are small"),
    };
    assert_eq!(packed.data_end_offsets, vec![240, 240, 241, 481]);
    assert!(packed.compressed_data.len() < 481);
    assert_eq!(codec.decompress_with_length(&packed.compressed_data, 481), blobs.concat());
}
