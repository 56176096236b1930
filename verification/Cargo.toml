[package]
name = "yinyidict"
version = "0.1.0"
edition = "2021"
publish = false

[dependencies]
anyhow = "=1.0.104"
bincode = "=1.3.3"
bzip2-rs = "=0.1.2"
flate2 = "=1.1.10"
fst = "=0.4.7"
memmap2 = "=0.9.12"
serde = { version = "=1.0.229", features = ["derive"] }
serde_json = "=1.0.154"
raw-window-handle = "=0.6.2"
egui = { version = "=0.36.2", default-features = false, features = ["default_fonts"] }
eframe = { version = "=0.36.2", default-features = false, features = ["default_fonts", "glow", "wayland", "x11"] }
