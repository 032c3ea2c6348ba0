[package]
name = "raybow"
version = "0.1.0"
edition = "2021"
publish = false

[dependencies]
argh = "*"
bumpalo = "*"
exr = "*"
num_cpus = "*"
png = "*"
rapid-qoi = "*"
ron = "*"
serde = { version = "*", features = ["derive"] }
