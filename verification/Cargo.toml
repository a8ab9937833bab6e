[package]
name = "keyspace"
version = "0.1.0"
edition = "2021"
publish = false

[dependencies]
rapidhash = "=3.1.0"
hrw-hash = "=2.0.3"
