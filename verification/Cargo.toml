[package]
name = "imap_cleanup"
version = "0.1.0"
edition = "2021"
publish = false

[dependencies]
chrono = "0.4"
clap = { version = "3.2", features = ["derive"] }
imap = "2.4"
native-tls = "0.2"
rpassword = "7"
