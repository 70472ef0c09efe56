[package]
name = "shitview"
version = "0.1.0"
edition = "2021"
publish = false

[dependencies]
crossbeam-channel = "=0.5.17"
ignore = "=0.4.34"
notify = "=8.2.1"
rusqlite = "=0.41.1"
serde_json = "=1.0.154"
windows-sys = { version = "=0.61.2", features = ["Win32_Foundation", "Win32_Storage_FileSystem"] }
