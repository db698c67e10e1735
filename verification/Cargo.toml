[package]
name = "pdfsigner"
version = "0.1.0"
edition = "2021"
publish = false

[dependencies]
anyhow = "1"
chrono = { version = "0.4", default-features = false, features = ["clock", "std"] }
eframe = { version = "0.29", default-features = false, features = ["default_fonts", "glow"] }
flate2 = "1"
image = { version = "0.25", default-features = false, features = ["png", "jpeg"] }
lopdf = { version = "0.34", default-features = false, features = ["nom_parser"] }
pdfium-render = { version = "0.8", default-features = false, features = ["pdfium_latest", "image_latest", "thread_safe"] }
ttf-parser = "0.25"

[dev-dependencies]
epaint_default_fonts = "0.29"
