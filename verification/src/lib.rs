//! A compact, randomly accessible binary format for merged dictionaries.
//!
//! Two artifacts are produced from the entries of several source
//! dictionaries: a content blob, addressed by a dense entry id, and a lookup
//! blob, which indexes readings by their leading character.

pub mod builder;
pub mod collect;
pub mod content;
pub mod content_round_trip;
pub mod encode;
pub mod error;
pub mod id_mapping;
pub mod lookup;
pub mod lookup_round_trip;
pub mod merge;
pub mod num;
pub mod order;
pub mod reader;
pub mod reading_index;
pub mod sort;
pub mod source;
pub mod utf8_order;
pub mod wire;
