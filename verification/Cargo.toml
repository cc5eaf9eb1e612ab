[package]
name = "scroll_tiling"
version = "0.1.0"
edition = "2021"
publish = false

[dependencies]
id_tree = "1.8"
keyframe = { version = "1", default-features = false, features = ["alloc"] }
serde = { version = "1", features = ["derive"] }
smallvec = "1"
libdisplay-info = "*"
smithay = { version = "*", default-features = false }

[dev-dependencies]
ron = "*"
