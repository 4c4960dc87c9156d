[package]
name = "nlpo3"
version = "1.4.0"
edition = "2021"
publish = false

[dependencies]
binary-heap-plus = "0.5"
bytecount = "0.6"
rustc-hash = "2"
rayon = "1"
clap = { version = "4", features = ["derive"] }
