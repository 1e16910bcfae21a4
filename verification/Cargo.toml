[package]
name = "rproc"
version = "0.1.0"
edition = "2021"
publish = false

[dependencies]
eframe = { version = "=0.32.3", default-features = false, features = ["default_fonts", "glow", "x11"] }
egui = { version = "=0.32.3", default-features = false, features = ["default_fonts"] }
egui_extras = { version = "=0.32.3", default-features = false }
nvml-wrapper = "=0.11.0"
sysinfo = "=0.36.1"
