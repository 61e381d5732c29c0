[package]
name = "logiopts"
version = "0.1.0"
edition = "2021"
publish = false

[dependencies]
serde_json = { version = "*", features = ["preserve_order"] }
clap = { version = "*", features = ["derive"] }
rusqlite = { version = "*", features = ["bundled"] }
directories-next = "*"
edit = "*"
eyre = "*"
libc = "*"
