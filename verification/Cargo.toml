[package]
name = "parts_unknown"
version = "0.1.0"
edition = "2021"
publish = false

[dependencies]
rand = "0.7"
fnv = "1"
hex = "*"
thiserror = "1"
serde = { version = "1", features = ["derive"] }
wasm-bindgen = "0.2"
js-sys = "0.3"
serde-wasm-bindgen = "0.4"
console_log = "0.2"
console_error_panic_hook = "0.1"
log = "0.4"
