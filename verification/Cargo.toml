[package]
name = "mbq"
version = "0.1.0"
edition = "2021"
publish = false

[dependencies]
anyhow = "*"
clap = { version = "*", features = ["derive"] }
cliclack = "*"
console = "*"
directories-next = "*"
lettre = { version = "*", default-features = false, features = ["smtp-transport", "builder", "pool", "hostname", "rustls-tls"] }
mail-parser = "*"
maildir = "*"
serde = { version = "*", features = ["derive"] }
shellexpand = "*"
toml = "*"
tracing = "*"
tracing-subscriber = "*"
