[package]
name = "cryptman"
version = "0.1.0"
edition = "2021"
publish = false

[dependencies]
aes-gcm = "0.10"
chacha20poly1305 = "0.10"
argon2 = "0.5"
getrandom = "0.3"
zeroize = "1"
clap = { version = "4", features = ["derive"] }
crossbeam-channel = "0.5"
indicatif = "0.17"
num_cpus = "1"
rpassword = "7"
thiserror = "1"
libc = "0.2"
winapi = { version = "0.3", features = ["memoryapi"] }
