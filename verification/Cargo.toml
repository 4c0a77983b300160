[package]
name = "idhash"
version = "0.1.0"
edition = "2021"
publish = false

[dependencies]
fasthash = "=0.4.0"
rayon = "=1.12.0"
clap = "=4.6.7"
arrow2 = { version = "=0.18.0", features = ["io_csv"] }

[dev-dependencies]
fastmurmur3 = "=0.2.0"
