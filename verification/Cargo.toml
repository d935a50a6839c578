[package]
name = "rulidity"
version = "0.1.0"
edition = "2021"
publish = false

[dependencies]
alloy-primitives = "1"
proc-macro2 = "1"
quote = "1"
syn = { version = "2", features = ["full"] }

[dev-dependencies]
revm = { version = "*", default-features = false, features = ["std"] }
