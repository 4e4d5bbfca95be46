[package]
name = "mif"
version = "0.3.0"
edition = "2021"
publish = false

[dependencies]
byteorder = "1"
num-traits = "0.2"
indexmap = { version = "2", features = ["serde"] }
serde = { version = "1", features = ["derive"] }
thiserror = "1"
toml = "0.8"
clap = { version = "4", features = ["derive"] }
