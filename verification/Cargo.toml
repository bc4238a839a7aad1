[package]
name = "hifisampler_core"
version = "0.1.0"
edition = "2021"
publish = false

[dependencies]
anyhow = "1"
hound = "3.5"
ndarray = "0.16"
num-complex = "0.4"
rubato = "0.16"
rustfft = "6"
serde = { version = "1", features = ["derive"] }
serde_yaml = "0.9"
tracing = "0.1"
