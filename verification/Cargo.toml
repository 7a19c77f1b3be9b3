[package]
name = "panicgraph"
version = "0.1.0"
edition = "2021"
publish = false

[dependencies]
anyhow = "1"
clap = { version = "4", features = ["derive"] }
flate2 = "1"
hashbrown = "*"
regex = "1"
rustc-demangle = "0.1"
serde = { version = "1", features = ["derive"] }
serde_json = "1"
