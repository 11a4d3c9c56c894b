[package]
name = "wfrs"
version = "0.1.0"
edition = "2021"
publish = false

[dependencies]
rkyv = { version = "=0.7.46", features = ["validation", "archive_le"] }
futures-locks = { version = "=0.7.1", default-features = false }
js-sys = "=0.3.106"
wasm-bindgen = "=0.2.129"
rexie = "=0.6.2"
quick-xml = { version = "=0.30.0", features = ["serialize"] }
serde = { version = "=1.0.229", features = ["derive"] }
serde_json = "=1.0.154"
thiserror = "=1.0.69"
anyhow = "=1.0.104"
log = "=0.4.34"
