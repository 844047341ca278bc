[package]
name = "lazybind"
version = "0.1.0"
edition = "2021"
publish = false

[dependencies]
anyhow = "1"
libc = "0.2"
rustix = { version = "1", features = ["event", "net", "process", "thread", "time"] }
