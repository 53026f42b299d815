[package]
name = "file_finder"
version = "0.1.0"
edition = "2021"
publish = false

[dependencies]
chrono = "0.4"
walkdir = "2"
serde = { version = "1", features = ["derive"] }
serde_yaml = "0.9"
directories = "5"
log = "0.4"
simplelog = "0.12"
log4rs = "1"
error-chain = "0.12"
gtk4 = "0.6"
libadwaita = { version = "0.4", features = ["v1_2"] }
glib = "0.17"
