[package]
name = "lindirstat"
version = "0.1.0"
edition = "2021"
publish = false

[dependencies]
anyhow = "1"
clap = { version = "4", features = ["derive"] }
eframe = { version = "0.29", default-features = false, features = ["glow", "x11", "default_fonts"] }
egui = { version = "0.29", default-features = false, features = ["default_fonts"] }
jwalk = "0.8"
postcard = { version = "1", features = ["alloc"] }
serde = { version = "1", features = ["derive"] }
ssh2 = "0.9"
