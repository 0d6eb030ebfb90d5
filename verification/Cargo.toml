[package]
name = "maelstrom_desktop"
version = "0.1.0"
edition = "2021"
publish = false

[dependencies]
time = { version = "=0.3.55", features = ["formatting", "parsing"] }
dirs = "=6.0.0"
thiserror = "=2.0.21"
image = { version = "=0.25.10", default-features = false, features = ["png", "jpeg"] }
tokio = { version = "1", features = ["sync"] }
bytemuck = "1"
