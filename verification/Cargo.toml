[package]
name = "rocktier_ocr"
version = "0.1.0"
edition = "2021"
publish = false

[dependencies]
anyhow = "1"
image = { version = "0.25", default-features = false, features = ["jpeg", "png"] }
ort = { version = "2.0.0-rc.10", default-features = false, features = ["std", "load-dynamic"] }
clipper2 = "*"
lopdf = "*"
serde_json = "1"
pdfium-render = "*"
