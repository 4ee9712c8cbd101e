[package]
name = "ot_extension"
version = "0.1.0"
edition = "2021"
publish = false

[dependencies]
crypto-bigint = "0.5"
crypto-primes = "0.5"
rand = "0.8"
rand_aes = "*"
rand_chacha = "0.3"
rayon = "1"
sha3 = "0.10"
