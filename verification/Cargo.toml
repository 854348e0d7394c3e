[package]
name = "diskpulse"
version = "0.1.1"
edition = "2021"
publish = false

[dependencies]
anyhow = "1"
chrono = { version = "0.4", features = ["serde"] }
clap = { version = "4", features = ["derive"] }
clap_complete = "4"
comfy-table = "7"
ctrlc = "3"
dialoguer = "*"
directories = "*"
humansize = "2"
indicatif = "*"
jwalk = "0.8"
libc = "0.2"
owo-colors = { version = "4", features = ["supports-colors"] }
serde = { version = "1", features = ["derive"] }
serde_json = "1"
thiserror = "*"
trash = "*"
walkdir = "2"
