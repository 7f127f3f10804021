[package]
name = "glfont"
version = "0.1.0"
edition = "2021"
publish = false

[dependencies]
bytemuck = "1"
chrono = { version = "0.4", default-features = false, features = ["std"] }
fixed = "1"
itertools = "*"
num-traits = "0.2"
rgb = "0.8"
thiserror = "*"
tracing = "0.1"
