[package]
name = "ocr_triage"
version = "0.4.0"
edition = "2021"
publish = false

[dependencies]
image = { version = "0.25", default-features = false, features = ["jpeg", "png", "webp", "tiff", "bmp"] }
jpeg-decoder = "0.3"
zune-core = "0.5"
zune-png = "0.5"
