[package]
name = "mimeassoc"
version = "0.1.0"
edition = "2021"
publish = false

[dependencies]
xml-rs = "0.8"
clap = { version = "4", features = ["derive"] }
serde = { version = "1", features = ["derive"] }
serde_json = "1"
anyhow = "1"
which = "4"
is_executable = "1"
