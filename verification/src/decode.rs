//! Unpacking: codecs, digests, and the two kinds of loaded archive.

pub mod checksum;
pub mod codec;
pub mod common;
pub mod enums;
pub mod named;
