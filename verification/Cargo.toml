[package]
name = "vsdelta"
version = "0.1.0"
edition = "2021"
publish = false

[dependencies]
blake3 = "*"
anyhow = "*"
structopt = "*"
