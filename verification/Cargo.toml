[package]
name = "ruk"
version = "0.1.0"
edition = "2021"
publish = false

[dependencies]
clap = { version = "4", features = ["derive"] }
ctrlc = "3"
hdrhistogram = { version = "7", default-features = false }
httparse = "1"
mimalloc = "0.1"
mio = { version = "1", features = ["os-poll", "net"] }
