[package]
name = "mux_tab"
version = "0.1.0"
edition = "2021"
publish = false

[dependencies]
anyhow = "=1.0.104"
async-trait = "=0.1.92"
downcast-rs = "=1.2.1"
portable-pty = "=0.9.0"
serde = { version = "=1.0.229", features = ["derive"] }
url = "=2.5.8"
