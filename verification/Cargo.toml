[package]
name = "bibstore"
version = "0.1.0"
edition = "2021"
publish = false

[dependencies]
anyhow = "1"
clap = { version = "4", features = ["derive"] }
serde = { version = "1", features = ["derive"] }
skim = "*"
ureq = { version = "2", features = ["json"] }
walkdir = "2"
