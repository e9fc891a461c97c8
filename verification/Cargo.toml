[package]
name = "kipa"
version = "0.1.0"
edition = "2021"
publish = false

[dependencies]
byteorder = "=1.5.0"
rand = "=0.8.8"
sequoia-openpgp = { version = "=1.22.0", default-features = false, features = ["crypto-rust", "allow-experimental-crypto", "allow-variable-time-crypto"] }
pnet = "=0.35.0"
clap = "=2.34.0"
serde = { version = "1", features = ["derive"] }
serde_json = "1"
