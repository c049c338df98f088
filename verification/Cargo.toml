[package]
name = "hetero_rust"
version = "0.1.0"
edition = "2021"
publish = false

[dependencies]
sprs = "0.11"
hashbrown = "*"
itertools = "*"
rayon = "1"
eyre = "0.6"
tracing = "0.1"
tracing-subscriber = { version = "0.3", features = ["env-filter", "fmt"] }
rand = "0.8"
arrayvec = "0.7"
