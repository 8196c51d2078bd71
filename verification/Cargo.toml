[package]
name = "cryptokit"
version = "0.1.0"
edition = "2021"
publish = false

[dependencies]
aes = "*"
cipher = "*"
hex = "0.4"
hmac = "*"
num-bigint = { version = "0.4", features = ["rand"] }
num-traits = "0.2"
rand = "0.8"
sha2 = "*"

[dev-dependencies]
pbkdf2 = "*"
