[package]
name = "vprogs"
version = "0.1.0"
edition = "2021"
publish = false

[dependencies]
borsh = { version = "1", features = ["derive"] }
faster-hex = "*"
kaspa-consensus-core = "*"
kaspa-hashes = "*"
log = "0.4"
sha2 = "0.10"
tokio = { version = "1", features = ["sync", "macros", "rt"] }

[dev-dependencies]
tempfile = "3"
