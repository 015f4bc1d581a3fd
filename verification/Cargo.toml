[package]
name = "mop"
version = "0.1.0"
edition = "2021"

[dependencies]
clap = { version = "4", features = ["derive"] }
csv = "1"
deunicode = "1"
regex = "1"
