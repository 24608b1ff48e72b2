[package]
name = "symbol_index"
version = "0.1.0"
edition = "2021"
publish = false

[dependencies]
rayon = "1"
tokio = { version = "1", features = ["io-std", "macros", "rt-multi-thread"] }
tower-lsp = "0.20"
