[package]
name = "instant_file_search"
version = "0.1.0"
edition = "2021"
publish = false

[dependencies]
regex = "1"
ntfs = "0.4"
serde = { version = "1", features = ["derive"] }
serde_json = "1"
anyhow = "1"
tracing = "0.1"
tracing-subscriber = { version = "0.3", features = ["env-filter", "fmt"] }
libc = "0.2"
rustix = { version = "0.38", features = ["fs"] }
sd-notify = "0.4"
tokio = { version = "1", features = ["rt-multi-thread", "macros", "io-std"] }
rmcp = { version = "*", features = ["server", "transport-io", "macros"] }
schemars = "*"
