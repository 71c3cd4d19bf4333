[package]
name = "nds_util"
version = "0.1.0"
edition = "2021"
publish = false

[dependencies]
ascii = "1"
byteorder = "1"
clap = { version = "4", features = ["derive"] }
