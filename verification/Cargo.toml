[package]
name = "message_store"
version = "0.1.0"
edition = "2021"
publish = false

[dependencies]
sha3 = "=0.10.9"
sea-orm = { version = "=0.11.3", default-features = false, features = ["macros", "with-time"] }
time = "=0.3.55"
eyre = "=0.6.14"
itertools = "=0.15.0"
tracing = "=0.1.44"
