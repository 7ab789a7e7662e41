[package]
name = "dadophoros"
version = "0.1.0"
edition = "2021"
publish = false

[dependencies]
anyhow = "1"
aya = "0.13"
aya-ebpf = "0.1"
bytemuck = { version = "1", features = ["derive"] }
clap = { version = "4", features = ["derive"] }
crossterm = { version = "0.28", features = ["event-stream"] }
futures-util = "0.3"
hickory-proto = { version = "0.24", default-features = false }
notify = "6"
postcard = { version = "1", features = ["use-std"] }
ratatui = "0.29"
serde = { version = "1", features = ["derive"] }
tokio = { version = "1", features = ["full"] }
toml = "0.8"
tracing = "0.1"
tracing-subscriber = { version = "0.3", features = ["env-filter"] }
