[package]
name = "deadlockrail"
version = "0.1.0"
edition = "2021"
publish = false

[dependencies]
serde = { version = "=1.0.229", features = ["derive"] }
serde_json = "=1.0.154"
structopt = "=0.3.26"
log = "=0.4.35"
simple_logger = "=5.2.0"
hprof = "=0.1.3"
