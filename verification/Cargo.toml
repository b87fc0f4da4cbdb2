[package]
name = "pocketmine"
version = "0.1.0"
edition = "2021"
publish = false

[dependencies]
byteorder = "1"
libc = "0.2"
once_cell = "1"
rand = "0.8"
tokio = { version = "1", features = ["net", "time", "rt", "rt-multi-thread", "sync", "macros"] }
tracing = "0.1"
