[package]
name = "img_tool"
version = "0.1.0"
edition = "2021"
publish = false

[dependencies]
image = { version = "0.25", default-features = false, features = ["png", "jpeg", "gif", "bmp", "ico", "tiff", "webp", "pnm", "tga", "qoi", "hdr", "dds", "ff"] }
clap = { version = "4", features = ["derive"] }
glob = "0.3"
rayon = "1"
