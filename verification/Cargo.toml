[package]
name = "breplot"
version = "0.1.0"
edition = "2021"
publish = false

[dependencies]
base64 = "0.22"
brepkit-io = "=3.4.18"
brepkit-math = "=3.4.18"
brepkit-operations = "=3.4.18"
brepkit-topology = "=3.4.18"
png = "0.17"
serde = { version = "1", features = ["derive"] }
serde_json = "1"
wasm-minimal-protocol = "0.2"
