[package]
name = "samepic"
version = "0.1.0"
edition = "2021"
publish = false

[dependencies]
image = "*"
image_hasher = "*"
kamadak-exif = "*"
camino = "*"
clap = { version = "*", features = ["derive"] }
clap_complete = "*"
color-eyre = "*"
walkdir = "*"
rayon = "*"
opener = "*"
which = "*"
tracing = "*"
tracing-subscriber = "*"
chrono = "*"
