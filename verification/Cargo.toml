[package]
name = "squishi"
version = "0.1.0"
edition = "2021"
publish = false

[dependencies]
regex = "=1.13.1"
serde_json = { version = "=1.0.154", features = ["raw_value"] }
image = { version = "=0.25.10", default-features = false, features = ["png"] }
spleen-font = { version = "=0.2.0", features = ["s5x8"] }
clap = { version = "=4.6.7", features = ["derive"] }
clap_mangen = "=0.3.3"
dirs = "=7.0.0"
hf-hub = { version = "=0.5.0", default-features = false, features = ["ureq"] }
tokenizers = { version = "=0.23.2", default-features = false, features = ["fancy-regex"] }
candle-core = { version = "=0.11.1", default-features = false }
candle-nn = { version = "=0.11.1", default-features = false }
candle-transformers = { version = "=0.11.1", default-features = false }
candle-onnx = { version = "=0.11.1", default-features = false }
prost = "=0.14.4"
ort = { version = "=2.0.0-rc.10", default-features = false, features = ["load-dynamic"] }
