[package]
name = "mc-oblivious-ram"
version = "0.1.0"
edition = "2021"
publish = false

[dependencies]
aligned-cmov = "=2.3.0"
balanced-tree-index = "=2.3.0"
mc-oblivious-traits = "=2.3.0"
rand_core = { version = "0.6", features = ["getrandom"] }
