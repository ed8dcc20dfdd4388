//! Solid archives of named binary assets.
//!
//! A set of assets is packed into one package: the concatenated asset bytes, the
//! asset names and the asset sizes, each compressed as a whole, and one digest
//! per asset. Compressing the assets as a whole lets the codec use what they
//! have in common. A package is unpacked once, into an archive that hands out
//! each asset by its name ([`NamedArchive`]) or by its ordinal ([`EnumArchive`]).
//!
//! - [`model`] states the layout of a package as mathematics: the names stream,
//!   the sizes stream, the byte ranges and the canonical order of a manifest.
//! - [`encode`] packs: [`encode::named::prepare_named_archive`] for assets that
//!   are known by name and [`encode::enums::prepare_asset_archive`] for assets
//!   that are known by ordinal. It also reads the options of packing.
//! - [`decode`] unpacks, and holds the codecs and the digests.
//! - [`laws`] proves what packing and unpacking have to do with each other:
//!   what was packed comes back, and the order in which assets are presented
//!   makes no difference to the package.
//!
//! # Limits
//!
//! The assets of one archive have at most `u32::MAX` bytes together, and so have
//! their names. All of an archive is decompressed at once and held in memory.
//! `usize` has at least 32 bits.

pub mod model;
pub mod text;

pub mod decode;
pub mod encode;
pub mod laws;

pub use decode::checksum::Checksum;
pub use decode::codec;
pub use decode::enums::{AssetEnum, EnumArchive, EnumMap};
pub use decode::named::{CompressedNamedArchive, NamedArchive};
