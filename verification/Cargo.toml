[package]
name = "userscript_registry"
version = "0.1.0"
edition = "2021"
publish = false

[dependencies]
base64 = "*"
uuid = { version = "*", features = ["v4"] }
chrono = "*"
reqwest = { version = "*", default-features = false, features = ["blocking"] }
dirs = "*"
open = "*"
discord-rich-presence = "*"
