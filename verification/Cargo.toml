[package]
name = "aho-corasick-etna"
version = "0.1.0"
edition = "2021"
publish = false

[dependencies]
crabcheck = "0.2"
hegel = "0.1"
proptest = "1"
quickcheck = "1.1"
rand = "0.9"
