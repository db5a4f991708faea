[package]
name = "tank_rounds"
version = "0.1.0"
edition = "2021"
publish = false

[dependencies]
hecs = "*"
rand = "*"
rapier2d = "*"
serde = { version = "1", features = ["derive"] }
