[package]
name = "rustpwman"
version = "0.1.0"
edition = "2021"
publish = false

[dependencies]
aes-gcm = "*"
argon2 = "*"
scrypt = "*"
pbkdf2 = "*"
sha2 = "*"
sha3 = "*"
rand = "*"
clap = "*"
rpassword = "*"
dirs = "*"
