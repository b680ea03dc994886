[package]
name = "spend_dag"
version = "0.1.0"
edition = "2021"
publish = false

[dependencies]
sn_transfers = "=0.15.9"
xor_name = "=5.0.0"
futures = "=0.3.34"
tokio = { version = "=1.54.1", features = ["rt", "macros", "time", "sync"] }
bitcoin = "=0.31.3"
color-eyre = "=0.6.5"
colored = "=2.2.0"
dirs-next = "=2.0.0"
minreq = "=2.14.1"
serde = { version = "=1.0.229", features = ["derive"] }
serde_json = "=1.0.154"
service-manager = "=0.5.1"
sysinfo = "=0.29.11"
tracing = "=0.1.44"
sn_protocol = "0.12"
libp2p = { version = "0.53", default-features = false }
bytes = "1"
blsttc = "8"
