[package]
name = "evemoddl"
version = "0.1.0"
edition = "2021"
publish = false

[dependencies]
anyhow = "1"
clap = { version = "4", features = ["derive"] }
directories = "*"
indicatif = "*"
reqwest = "*"
serde = { version = "1", features = ["derive"] }
serde_yaml = "0.9"
strsim = "*"
tokio = { version = "1", features = ["macros", "rt-multi-thread"] }
toml = "*"
xxhash-rust = { version = "*", features = ["xxh64"] }
