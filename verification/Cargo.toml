[package]
name = "comic_shelf"
version = "0.1.0"
edition = "2021"
publish = false

[dependencies]
image = { version = "=0.25.10", default-features = false, features = ["jpeg", "png", "gif", "webp", "bmp"] }
lopdf = { version = "=0.45.0", default-features = false }
unrar = "=0.5.8"
zip = "=8.6.0"
rayon = "=1.12.0"
num_cpus = "=1.17.0"
