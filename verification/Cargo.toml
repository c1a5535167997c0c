[package]
name = "label_filter"
version = "0.1.0"
edition = "2021"
publish = false

[dependencies]
anyhow = "1"
bit-set = "0.8"
bytemuck = "1"
clap = { version = "4", features = ["derive"] }
half = { version = "2", features = ["bytemuck"] }
num_cpus = "1"
roaring = "0.11"
serde_json = "1"
tokio = { version = "1", features = ["rt-multi-thread"] }
