[package]
name = "typerlude"
version = "0.1.0"
edition = "2021"
publish = false

[dependencies]
anyhow = "=1.0.104"
directories = "=6.0.0"
fastrand = "=2.5.0"
fs4 = { version = "1", features = ["sync"] }
rustix = { version = "=1.1.6", features = ["fs"] }
serde = { version = "=1.0.229", features = ["derive"] }
toml = "=0.9.12"
unicode-normalization = "=0.1.26"
unicode-segmentation = "=1.13.3"
unicode-width = "=0.2.3"
