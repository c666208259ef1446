[package]
name = "spacetime-storage"
version = "0.1.0"
edition = "2021"
publish = false

[dependencies]
arrayvec = "0.7"
async-stream = "0.3"
blake3 = { version = "1", features = ["pure"] }
bytes = "1"
crc32c = "0.6"
ethnum = "1"
futures-util = "0.3"
log = "0.4"
nix = { version = "0.30", features = ["fs"] }
tempfile = "3"
thiserror = "2"
zerocopy = { version = "0.8", features = ["derive"] }
