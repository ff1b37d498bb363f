[package]
name = "filelist"
version = "0.1.0"
edition = "2021"
publish = false

[dependencies]
clap = { version = "4", features = ["derive"] }
rayon = "1"
gtk4 = "*"
gtk4-layer-shell = "*"
