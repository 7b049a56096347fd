//! A compiler from an in-memory electrical schematic to a hierarchical,
//! human-readable source representation.
//!
//! The crate builds a schematic graph of parts, components and nets,
//! normalizes every identifier in it atomically, partitions the design into
//! one module per schematic sheet, and renders deterministic, naturally
//! sorted source text.

pub mod atopile;
pub mod component;
pub mod emit;
pub mod ingest;
pub mod net;
pub mod normalizer;
pub mod order;
pub mod part;
pub mod schematic;
pub mod sorting;
pub mod standard_library;
pub mod strutil;
pub mod writer;

pub use order::StrOrder;
