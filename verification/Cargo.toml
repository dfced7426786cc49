[package]
name = "ded"
version = "0.1.0"
edition = "2021"
publish = false

[dependencies]
rust-crypto = "*"
sha1 = "*"
sequence_trie = "*"
glob = "*"
clap = "2"
