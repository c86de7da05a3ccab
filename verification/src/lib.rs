//! A content-addressable object store and canonical serializer for the
//! three object kinds of a minimal version-control backend: blobs, trees
//! and commits. The codec packs and parses the canonical byte form, the
//! store hashes and compresses packed bytes, and the builder turns
//! directory listings into tree objects in canonical order.

pub mod builder;
pub mod hexcode;
pub mod objects;
pub mod order;
pub mod parse;
pub mod raw;
pub mod store;
