//! A verified core for a two-sided preset manager.
//!
//! Two slot-indexed collections of presets ("sides") are loaded from and
//! saved back to directories on disk.  Each preset bundles a vector image in
//! the LSI binary format with an opaque text payload.  This crate holds the
//! verified logic: the LSI codec, the manifest codec, deterministic filename
//! derivation, the load/save resync planning, and the two-sided move/swap
//! protocol.  All file I/O stays outside, handing this crate plain bytes and
//! strings and receiving plans of writes and deletions back.

pub mod lsi_parser;
pub mod manifest;
pub mod presets;
pub mod session;
pub mod slot_map;
pub mod styles;
pub mod types;
