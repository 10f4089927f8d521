[package]
name = "live_plotter"
version = "0.1.0"
edition = "2021"
publish = false

[dependencies]
chrono = "0.4"
clap = { version = "4", features = ["derive"] }
eframe = { version = "0.29", default-features = false, features = ["default_fonts", "glow", "x11"] }
egui = { version = "0.29", default-features = false, features = ["default_fonts"] }
egui_plot = "0.29"
