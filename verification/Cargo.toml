[package]
name = "crossbank"
version = "0.1.0"
edition = "2021"
publish = false

[dependencies]
crc32fast = "1"
lz4_flex = "*"
postcard = { version = "1", default-features = false, features = ["use-std"] }
serde = { version = "1", features = ["derive"] }
futures = "0.3"
redb = "3"
indexed-db = "0.4"
js-sys = "0.3"
wasm-bindgen = "0.2"
wasm-bindgen-futures = "0.4"
web-sys = { version = "0.3", features = ["BroadcastChannel", "MessageEvent", "Window", "Navigator", "StorageManager"] }

[dev-dependencies]
tempfile = "3"
