[package]
name = "rsclipping"
version = "0.1.0"
edition = "2021"
publish = false

[dependencies]
anyhow = "1"
chrono = { version = "0.4", default-features = false, features = ["clock", "std"] }
clap = { version = "4", default-features = false, features = ["std", "help", "usage", "error-context", "derive"] }
dirs = "6"
eframe = { version = "0.31", default-features = false, features = ["glow", "x11", "default_fonts"] }
env_logger = { version = "0.11", default-features = false }
log = "0.4"
serde = { version = "1", features = ["derive"] }
serde_json = "1"
x11rb = { version = "0.13", features = ["randr"] }
