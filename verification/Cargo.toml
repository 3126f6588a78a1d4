[package]
name = "rain_helpers"
version = "0.1.0"
edition = "2021"
publish = false

[dependencies]
# Not called from this crate. solana-program takes any blake3 1.x; this holds
# it at a release that shares the digest crates of the rest of the tree.
blake3 = "=1.5.0"
solana-account-decoder = "=1.16.27"
solana-program = "=1.16.27"
solana-rpc-client = { version = "=1.16.27", default-features = false }
solana-rpc-client-api = "=1.16.27"
tokio = { version = "=1.54.1", features = ["macros"] }
