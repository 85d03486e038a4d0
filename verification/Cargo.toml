[package]
name = "procon31_comp"
version = "0.1.0"
edition = "2021"
publish = false

[dependencies]
rand = "=0.7.3"
serde = { version = "=1.0.229", features = ["derive"] }
serde_json = "=1.0.154"
ordered-float = "=2.10.1"
num-traits = "=0.2.19"
reqwest = { version = "0.11", default-features = false, features = ["blocking"] }
