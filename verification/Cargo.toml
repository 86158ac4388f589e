[package]
name = "openrscad"
version = "0.1.0"
edition = "2021"
publish = false

[dependencies]
console_error_panic_hook = "*"
earcutr = "*"
geo = "*"
libm = "*"
manifold-csg = "*"
manifold-rust = "*"
napi = "*"
napi-derive = "*"
png = "*"
rustc-hash = "*"
serde = { version = "1", features = ["derive"] }
serde_json = "1"
thiserror = "*"
wasm-bindgen = "*"
web-time = "*"
