[package]
name = "resonant_dsp"
version = "0.1.0"
edition = "2021"
publish = false

[dependencies]
num-complex = "0.4"
num-traits = "0.2"
rustfft = "6"
serde = { version = "1", features = ["derive"] }

[dev-dependencies]
serde_json = "1"
