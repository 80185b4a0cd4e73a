[package]
name = "animfetch"
version = "0.1.0"
edition = "2021"
publish = false

[dependencies]
unicode-width = "*"
crossterm = "*"
libc = "*"
serde = { version = "1", features = ["derive"] }
toml = "*"
