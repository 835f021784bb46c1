[package]
name = "dss-codec"
version = "0.1.0"
edition = "2021"
publish = false

[dependencies]
clap = { version = "4", features = ["derive"] }
hound = "3"
rubato = "0.16"
sha1 = "0.10"
sha2 = "0.10"
