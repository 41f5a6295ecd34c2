[package]
name = "objsplit"
version = "0.1.0"
edition = "2021"
publish = false

[dependencies]
anyhow = "1"
argp = "0.4"
cwdemangle = "1"
hex = "0.4"
iced-x86 = "1"
log = "0.4"
object = { version = "0.36", default-features = false, features = ["read", "write", "std"] }
rayon = "1"
serde = { version = "1", features = ["derive"] }
serde_json = "1"
serde_yaml = "0.9"
tracing = "0.1"
typed-path = "0.11"
xxhash-rust = { version = "0.8", features = ["xxh3"] }
