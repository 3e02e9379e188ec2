[package]
name = "merklechat"
version = "0.1.0"
edition = "2021"
publish = false

[dependencies]
aes-gcm = "=0.8.0"
base64 = "=0.13.1"
rand = { version = "=0.7.3", features = ["wasm-bindgen"] }
uuid = { version = "=0.8.2", features = ["v4", "serde", "wasm-bindgen"] }
serde = { version = "=1.0.229", features = ["derive"] }
serde_json = "=1.0.154"
wasm-bindgen = { version = "=0.2.130", features = ["serde-serialize"] }
js-sys = "=0.3.107"
web-sys = { version = "=0.3.107", features = ["Window", "Storage"] }
warp = "=0.2.5"
tokio = { version = "=0.2.25", features = ["macros", "rt-threaded"] }
tokio-postgres = { version = "=0.5.5", features = ["with-uuid-0_8"] }
mobc = "=0.5.12"
mobc-postgres = "=0.5.0"
futures = "=0.3.34"
pretty_env_logger = "=0.4.0"
