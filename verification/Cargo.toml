[package]
name = "moonlight"
version = "0.1.0"
edition = "2021"
publish = false

[dependencies]
uuid = { version = "=1.29.1", features = ["v7", "serde"] }
image = { version = "=0.25.10", default-features = false, features = ["png", "jpeg"] }
palette = "=0.7.7"
serde = { version = "=1.0.229", features = ["derive"] }
iced = { version = "=0.14.0", default-features = false, features = ["image", "canvas", "tiny-skia", "x11", "thread-pool"] }
