[package]
name = "vecq"
version = "0.3.0"
edition = "2021"
publish = false

[dependencies]
memmap2 = "=0.9.12"
rabitq-rs = "=0.9.0"
turboquant = "=0.1.1"
usearch = { version = "=2.26.6", default-features = false }
