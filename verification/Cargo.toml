[package]
name = "crdt"
version = "0.1.0"
edition = "2021"
publish = false

[dependencies]
arbitrary = "1"
by_address = "1"
