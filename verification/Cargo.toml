[package]
name = "image_upscaler"
version = "0.1.0"
edition = "2021"
publish = false

[dependencies]
image = { version = "=0.25.10", default-features = false, features = ["png", "jpeg", "webp", "bmp", "tiff", "gif", "rayon"] }
anyhow = "=1.0.104"
rayon = "=1.12.0"
tract-onnx = "=0.21.10"
# Not used directly: holds the version that tract-onnx resolves through
# liquid-core to 2.0.0, since later 2.0.x releases need Rust 1.96.
kstring = "=2.0.0"
resvg = { version = "=0.45.1", default-features = false }
vtracer = "=0.6.5"
visioncortex = "=0.8.10"
ureq = "=2.12.1"
