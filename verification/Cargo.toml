[package]
name = "papagan"
version = "0.1.7"
edition = "2021"
publish = false

[dependencies]
smallvec = "1"
rayon = "1"
unicode-segmentation = "1"
unicode-normalization = "0.1"
anyhow = "1"
bzip2 = "*"
clap = { version = "4", features = ["derive"] }
flate2 = "1"
tar = "0.4"
ureq = "2"
napi = { version = "*", features = ["napi4"] }
napi-derive = "*"
pyo3 = "*"
