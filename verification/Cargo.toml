[package]
name = "mcscan"
version = "0.1.0"
edition = "2021"
publish = false

[dependencies]
gcd = "=2.3.0"
rand = "=0.8.8"
io-uring = "=0.7.15"
nix = { version = "=0.31.3", features = ["socket", "net"] }
craftping = { version = "=0.8.0", features = ["sync"] }
serde_json = "=1.0.151"
