[package]
name = "disk_census"
version = "0.1.0"
edition = "2021"
publish = false

[dependencies]
chrono = { version = "0.4", default-features = false, features = ["clock", "std"] }
serde = { version = "1", features = ["derive"] }
sysinfo = { version = "0.39", default-features = false, features = ["disk", "system"] }
tauri = { version = "2", default-features = false }
thiserror = "2"
trash = "5"
