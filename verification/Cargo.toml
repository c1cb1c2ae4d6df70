[package]
name = "sailboat"
version = "0.1.0"
edition = "2021"
publish = false

[dependencies]
postcard = { version = "=1.1.3", default-features = false }
anyhow = "=1.0.104"
clap = { version = "=4.6.7", features = ["derive"] }
serde = { version = "=1.0.229", features = ["derive"] }
serde_json = "=1.0.154"
serde_yaml = "=0.9.34"
plotters = { version = "=0.3.7", default-features = false, features = ["bitmap_backend", "bitmap_encoder", "ab_glyph", "line_series", "all_elements"] }
nalgebra = "=0.34.2"
ode_solvers = "=0.6.2"
serialport = { version = "=4.10.1", default-features = false }
num-traits = "=0.2.19"
