[package]
name = "asset_manager"
version = "0.1.0"
edition = "2021"
publish = false

[dependencies]
zip = "*"
unrar = "*"
regex = "*"
serde = { version = "1", features = ["derive"] }
toml = "*"
image = { version = "*", default-features = false, features = ["png", "jpeg", "bmp", "gif"] }
