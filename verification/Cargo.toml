[package]
name = "sea2d"
version = "0.1.0"
edition = "2021"
publish = false

[dependencies]
rand = "0.9"
fnv = "1"
bincode = "1"
serde = { version = "1", features = ["derive"] }
serde_derive = "1"
image = { version = "0.25", default-features = false, features = ["png"] }
sdl2 = { version = "0.37", features = ["image", "ttf"] }
