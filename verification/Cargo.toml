[package]
name = "ringil"
version = "0.1.0"
edition = "2021"
publish = false

[dependencies]
crc32fast = "1"
chacha20poly1305 = "0.10"
rand = "0.9"
prost = "*"
anyhow = "1"
eyre = "0.6"
nalgebra = "*"
ndarray = "*"
image = { version = "0.25", default-features = false }
fast_image_resize = "*"
tokio = { version = "1", features = ["sync", "rt", "macros", "rt-multi-thread"] }
tracing = "0.1"
tracing-subscriber = { version = "0.3", features = ["env-filter"] }
flume = "0.11"
serde = { version = "1", features = ["derive"] }
mavlink = "*"
config = { version = "*", default-features = false, features = ["toml"] }
