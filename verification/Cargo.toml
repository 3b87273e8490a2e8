[package]
name = "prime_factor_sieve"
version = "0.1.0"
edition = "2021"
publish = false
