[package]
name = "liteway"
version = "0.1.0"
edition = "2021"
publish = false

[dependencies]
anyhow = "=1.0.104"
blake3 = "=1.8.7"
chacha20poly1305 = "=0.11.0"
chrono = { version = "=0.4.45", features = ["serde"] }
clap = { version = "=4.6.7", features = ["derive"] }
ctrlc = "=3.5.2"
ed25519-dalek = "=3.0.0"
env_logger = "=0.11.11"
futures = "=0.3.34"
hex = "=0.4.3"
ipnetwork = { version = "=0.21.1", features = ["serde"] }
libc = "=0.2.191"
log = "=0.4.35"
ml-dsa = "=0.1.2"
ml-kem = "=0.3.4"
netlink-packet-route = "=0.33.0"
rand = "=0.10.3"
rand_core = "=0.10.1"
rtnetlink = "=0.23.0"
serde = { version = "=1.0.229", features = ["derive"] }
serde_json = "=1.0.154"
socket2 = "=0.6.5"
tokio = { version = "=1.54.1", features = ["rt", "net"] }
toml = "=1.1.8"
tun = "=0.8.14"
windows-sys = { version = "=0.61.2", features = ["Win32_Foundation", "Win32_NetworkManagement_IpHelper", "Win32_NetworkManagement_Ndis", "Win32_Networking_WinSock"] }
x25519-dalek = { version = "=3.0.0", features = ["static_secrets"] }
zeroize = { version = "=1.9.1", features = ["derive"] }
