[package]
name = "passman"
version = "0.1.0"
edition = "2021"
publish = false

[dependencies]
aes-gcm = "*"
base64 = "*"
rand = "*"
sha2 = "*"
clap = { version = "*", features = ["derive"] }
prettytable-rs = "*"
rpassword = "*"
