[package]
name = "akasha_core"
version = "0.1.0"
edition = "2021"
publish = false

[dependencies]
rand = "=0.8.8"
pollster = "0.3"
bytemuck = { version = "1", features = ["derive"] }
arrow = "=60.1.0"
parquet = "=60.1.0"
wilupgu = { version = "=0.4.3", features = ["cpu"] }
