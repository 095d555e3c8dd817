[package]
name = "imagesorter"
version = "0.1.0"
edition = "2021"
publish = false

[dependencies]
sha2 = "*"
hex = "*"
image = "0.23"
img_hash = "3"
kamadak-exif = "*"
serde = { version = "*", features = ["derive"] }
serde_json = "*"
walkdir = "*"
chrono = "*"
trash = "*"
rayon = "*"
open = "*"
