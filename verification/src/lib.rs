//! The public API of a crate: walking its documented items, rendering them as
//! token streams, and printing them and the differences between two versions.
pub mod diff;
pub mod exports;
pub mod intermediate_public_item;
pub mod item_iterator;
pub mod model;
pub mod plain;
pub mod public_item;
pub mod text;
pub mod tokens;
