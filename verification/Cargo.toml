[package]
name = "reproduce"
version = "0.1.0"
edition = "2021"
publish = false

[dependencies]
regex = "*"
anyhow = "*"
bytesize = "*"
chrono = "*"
clap = "*"
ctrlc = "*"
kafka = { version = "*", default-features = false }
pcap = "*"
walkdir = "*"

[dev-dependencies]
rmp-serde = "*"
serde = "*"
serde_bytes = "*"
