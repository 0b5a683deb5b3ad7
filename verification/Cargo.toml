[package]
name = "dns_block"
version = "0.1.0"
edition = "2021"
publish = false

[dependencies]
clap = { version = "*", features = ["derive"] }
fnv = "*"
indoc = "*"
log = "*"
mimalloc = "*"
rayon = "*"
stderrlog = "*"
