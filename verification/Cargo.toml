[package]
name = "medianest"
version = "0.1.0"
edition = "2021"
publish = false

[dependencies]
anyhow = "1"
argon2 = "0.5"
blake3 = "1"
blurhash = "0.2"
chacha20poly1305 = "0.10"
chrono = "0.4"
kamadak-exif = "0.5"
ffmpeg-sidecar = "*"
getrandom = "0.2"
image = { version = "0.25", default-features = false, features = ["jpeg", "png", "webp", "gif", "bmp", "tiff"] }
image_hasher = "2"
notify-debouncer-full = "*"
rayon = "1"
rusqlite = { version = "*", features = ["bundled"] }
serde = { version = "1", features = ["derive"] }
trash = "*"
walkdir = "2"
webp = "0.3"
zeroize = "1"
