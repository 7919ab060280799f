[package]
name = "prime_palindromes"
version = "0.1.0"
edition = "2021"
publish = false

[dependencies]
is_prime = "*"
ureq = { version = "2", default-features = false }
