[package]
name = "orangu"
version = "0.1.0"
edition = "2021"
publish = false

[dependencies]
anyhow = "1"
ash = "0.38"
axum = { version = "0.8", default-features = false, features = ["json"] }
chrono = { version = "0.4", default-features = false, features = ["clock", "std"] }
clap = "4"
crossterm = "0.28"
fern = "0.7"
half = "2"
home = "0.5"
log = "0.4"
memmap2 = "0.9"
ratatui = "0.29"
rayon = "1"
reqwest = { version = "0.12", default-features = false, features = ["json"] }
serde = { version = "1", features = ["derive"] }
serde_json = "1"
sha2 = "0.10"
tokio = { version = "1", features = ["rt", "sync"] }
unicode-width = "0.2"
wgpu = { version = "*", default-features = false, features = ["vulkan", "wgsl"] }
