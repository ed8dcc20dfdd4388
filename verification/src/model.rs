//! The layout of a package, stated over sequences, maps and integers.

pub mod data;
pub mod names;
pub mod order;
pub mod package;
pub mod sizes;
