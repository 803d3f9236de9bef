[package]
name = "cortado"
version = "0.1.0"
edition = "2021"
publish = false

[dependencies]
anstream = "0.6"
anyhow = "1"
arc-swap = "1"
clap = { version = "4", features = ["derive"] }
futures = "0.3"
libc = "0.2"
netlink-packet-route = "0.19"
netstack-smoltcp = "*"
rtnetlink = "0.14"
rustix = { version = "1", features = ["process"] }
serde = { version = "1", features = ["derive"] }
socket2 = "0.5"
tokio = { version = "1", features = ["full"] }
tokio-socks = "0.5"
tokio-tun = "0.11"
toml = "0.8"
wintun = "*"
