[package]
name = "pathtracer"
version = "0.1.0"
edition = "2021"
publish = false

[dependencies]
image = { version = "0.22", default-features = false, features = ["png_codec"] }
nalgebra = { version = "*", features = ["serde-serialize"] }
rand = "0.8"
serde = { version = "1", features = ["derive"] }
serde_yaml = "*"
show-image = "*"
