[package]
name = "for_codec"
version = "0.1.0"
edition = "2021"
publish = false

[dependencies]
tantivy-bitpacker = "*"

[dev-dependencies]
rand = "*"
