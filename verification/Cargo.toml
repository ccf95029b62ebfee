[package]
name = "amla-sandbox-shell"
version = "0.1.0"
edition = "2021"
publish = false

[dependencies]
base64 = "0.22"
jaq-core = "1"
jaq-interpret = "1"
jaq-parse = "1"
jaq-std = "1"
lexopt = "0.3"
serde_json = "1"
smallvec = "1"
thiserror = "1"
