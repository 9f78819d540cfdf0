[package]
name = "game_of_life"
version = "0.1.0"
edition = "2021"
publish = false

[dependencies]
ahash = "*"
fastrand = "*"
mimalloc = "*"
rayon = "*"
serde_json = "*"
sysinfo = "0.37"
tiny_http = "*"
