[package]
name = "ooc_sort"
version = "0.1.0"
edition = "2021"
publish = false

[dependencies]
ahash = "0.8"
hashbrown = "0.13"
rayon = "1"
xxhash-rust = { version = "0.8", features = ["xxh3"] }
