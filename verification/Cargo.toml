[package]
name = "frfs"
version = "0.1.0"
edition = "2021"
publish = false

[dependencies]
argh = "0.1"
bincode = "1.3"
serde = { version = "1", features = ["derive"] }
thiserror = "1"
vfs = "0.9"
