//! Packing: from a manifest of assets to a package.

pub mod common;
pub mod enums;
pub mod named;
pub mod parse;
pub mod sort;
