//! A layered asset-archive format: single-file packs holding a manifest, an
//! index and per-file encoded payloads, and a resolver that overlays packs by
//! priority.

pub mod builder;
pub mod codec;
pub mod format;
pub mod resolver;
