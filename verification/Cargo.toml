[package]
name = "dive_overlay"
version = "0.1.0"
edition = "2021"
publish = false

[dependencies]
ab_glyph = "=0.2.32"
anyhow = "1"
chrono = "=0.4.45"
clap = { version = "=4.6.7", features = ["derive"] }
csv = "=1.4.0"
eframe = { version = "=0.37.0", default-features = false, features = ["default_fonts", "glow", "x11"] }
egui = "=0.37.0"
egui_extras = "=0.37.0"
image = { version = "=0.25.10", default-features = false }
imageproc = { version = "=0.27.0", default-features = false, features = ["text"] }
rfd = { version = "=0.17.2", default-features = false, features = ["xdg-portal"] }
serde = { version = "1", features = ["derive"] }
serde_json = "1"
thiserror = "=2.0.21"
ureq = { version = "=2.12.1", features = ["json"] }
which = "=8.0.6"
