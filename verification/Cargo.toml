[package]
name = "bebasin"
version = "0.1.0"
edition = "2021"
publish = false

[dependencies]
md5 = "*"
nix = { version = "*", features = ["user", "fs"] }
serde = { version = "1", features = ["derive"] }
serde_json = "1"
curl = "*"
cursive = { version = "*", default-features = false, features = ["crossterm-backend"] }
zip = { version = "*", default-features = false, features = ["deflate"] }
webbrowser = "*"
