[package]
name = "chat_commands"
version = "0.1.0"
edition = "2021"
publish = false

[dependencies]
indexmap = "1"
log = "0.4"
reqwest = { version = "0.10", default-features = false, features = ["blocking", "rustls-tls"] }
serenity = "0.8"
