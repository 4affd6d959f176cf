//! An adaptive out-of-core sort sink for a streaming, morsel-driven pipeline,
//! together with the column hashing that joins and group-bys build on.
//!
//! The contracts state what each operation returns and how it changes the
//! state it is handed, and the code is verified against them. The calls into
//! `ahash`, `hashbrown` and `xxhash-rust` are taken on trust: each stands
//! behind an item whose doc comment says what is believed of it.

pub mod bytes_hash;
pub mod chunk;
pub mod error;
pub mod group;
pub mod group_model;
pub mod hashing;
pub mod memory;
pub mod model;
pub mod ooc;
pub mod order;
pub mod row;
pub mod sink;
pub mod sort;
pub mod spill;
pub mod table;
