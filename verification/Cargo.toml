[package]
name = "ruvyxa"
version = "0.1.0"
edition = "2021"
publish = false

[dependencies]
blake3 = "1"
chrono = { version = "0.4", default-features = false, features = ["clock", "std"] }
serde = { version = "1", features = ["derive"] }
serde_json = "1"
image = { version = "0.25", default-features = false, features = ["png", "jpeg", "webp"] }
fast_image_resize = "5"
webp = "0.3"
axum = "0.8"
tokio = { version = "1", features = ["fs", "rt", "macros", "time"] }
anyhow = "1"
clap = { version = "4", features = ["derive"] }
libc = "0.2"

[dev-dependencies]
tempfile = "3"
