[package]
name = "mini_lsm"
version = "0.1.0"
edition = "2021"
publish = false

[dependencies]
anyhow = "1"
bytes = "1"
crossbeam-channel = "0.5"
crossbeam-skiplist = "0.1"
farmhash = "1"
parking_lot = "0.12"
