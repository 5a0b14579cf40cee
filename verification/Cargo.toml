[package]
name = "hsdraw"
version = "0.1.0"
edition = "2021"
publish = false

[dependencies]
byteorder = "1"
texpresso = "2"
sha1 = "0.10"
png = "0.17"
indexmap = "2"
serde = { version = "1", features = ["derive"] }
serde_json = "1"
clap = { version = "4", features = ["derive"] }
anyhow = "1"
thiserror = "1"
