[package]
name = "cfg_ip"
version = "0.1.0"
edition = "2021"
publish = false

[dependencies]
anyhow = "1"
confy = "*"
encoding = "0.2"
itertools = "*"
serde = "1"
serde_derive = "1"
widestring = "*"
winapi = { version = "0.3", features = ["iphlpapi", "iptypes", "ws2def", "ws2ipdef", "ifdef", "minwindef", "ntdef", "winerror"] }
