[package]
name = "aegis"
version = "0.1.0"
edition = "2021"
publish = false

[dependencies]
sgp4 = "=2.4.0"
chrono = "=0.4.45"
earcutr = "=0.4.3"
geojson = "=0.24.2"
image = { version = "=0.25.10", default-features = false, features = ["png", "jpeg"] }
ehttp = "=0.5.0"
thiserror = "=1.0.69"
log = "=0.4.29"
env_logger = "=0.11.10"
bytemuck = { version = "=1.25.0", features = ["derive"] }
