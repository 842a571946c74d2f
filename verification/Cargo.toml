[package]
name = "lz77_codec"
version = "0.1.0"
edition = "2021"
publish = false

[dependencies]
argparse = "*"

[dev-dependencies]
rand = "0.7"
