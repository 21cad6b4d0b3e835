[package]
name = "aoc2022"
version = "0.1.0"
edition = "2021"
publish = false

[dependencies]
atoi = { version = "2", default-features = false }
heapless = "0.7"
nom = { version = "7", default-features = false }
cortex-m-rt = "0.7"
cortex-m-semihosting = "0.5"
panic-halt = "0.2"
panic-semihosting = "0.6"
