[package]
name = "minisqlr"
version = "0.1.0"
edition = "2021"

[dependencies]
serde = { version = "1", features = ["derive"] }
serde_json = "1"
winapi = { version = "0.3", features = ["fileapi", "minwinbase", "winnt"] }
