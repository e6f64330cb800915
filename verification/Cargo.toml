[package]
name = "indexer_core"
version = "0.1.0"
edition = "2021"
publish = false

[dependencies]
roaring = "*"
fst = "*"
grenad = "*"
heed = "*"
rayon = "*"
crossbeam-channel = "*"
bytemuck = { version = "*", features = ["extern_crate_alloc"] }
