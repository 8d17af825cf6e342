[package]
name = "bloom_sync"
version = "0.1.0"
edition = "2021"
publish = false

[dependencies]
bloomfilter = "1"
futures = "0.3"
