[package]
name = "packet_match_fuzz"
version = "0.1.0"
edition = "2021"
publish = false

[dependencies]
rand = "=0.8.8"
sha2 = "=0.10.9"
anyhow = "=1.0.104"
chrono = "=0.4.45"
clap = { version = "=4.6.7", features = ["derive"] }
comfy-table = "=7.2.2"
macaddr = "=1.0.1"
pcap = "=1.3.0"
thiserror = "1"
tokio = { version = "=1.53.2", features = ["rt-multi-thread", "net", "time", "sync", "macros"] }
num-bigint = { version = "=0.4.8", features = ["rand"] }
num-traits = "=0.2.19"
