[package]
name = "rolldown_dx_cache"
version = "0.1.0"
edition = "2021"
publish = false

[dependencies]
anyhow = "1"
arcstr = "1"
base64-simd = "0.8"
blake3 = "=1.8.7"
dashmap = "6"
itoa = "1"
json-escape-simd = "*"
json-strip-comments = "*"
lz4_flex = "0.11"
memchr = "2"
oxc = "0.143"
oxc_resolver = { version = "=11.24.3", features = ["yarn_pnp"] }
regex = "1"
rustc-hash = "2"
serde = { version = "1", features = ["derive"] }
serde_json = "1"
sugar_path = "=3.0.0"
