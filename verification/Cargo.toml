[package]
name = "karukan"
version = "0.1.0"
edition = "2021"
publish = false

[dependencies]
unicode-normalization = "*"
lindera = { version = "*", features = ["embedded-ipadic"] }
sha2 = "*"
directories = "*"
serde = { version = "1", features = ["derive"] }
serde_json = "1"
toml = "*"
anyhow = "1"
clap = { version = "4", features = ["derive"] }
tokio = { version = "1", features = ["rt", "macros"] }
reqwest = { version = "*", default-features = false }
tracing = "*"

[dev-dependencies]
