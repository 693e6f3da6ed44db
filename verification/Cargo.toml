[package]
name = "supervisors"
version = "0.1.0"
edition = "2021"
publish = false

[dependencies]
rustc-hash = "2"
itertools = "0.14"
serde = { version = "1", features = ["derive"] }
serde_json = "1"
clap = { version = "4", features = ["derive"] }
platform-dirs = "*"
shellexpand = "*"
sysinfo = "*"
fs_extra = "*"
