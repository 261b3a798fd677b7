[package]
name = "tree3"
version = "0.1.0"
edition = "2021"
publish = false

[dependencies]
clap = { version = "4", features = ["derive"] }
serde = { version = "1", features = ["derive"] }
serde_json = "1"
rayon = "1"
libc = "0.2"
windows-sys = { version = "0.59", features = ["Win32_System_Memory", "Win32_System_Threading"] }
