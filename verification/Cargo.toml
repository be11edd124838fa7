[package]
name = "parquet_cdc"
version = "0.1.0"
edition = "2021"
publish = false

[dependencies]
bytemuck = "1"
fastcdc = "3"
schemars = "0.8"
serde = { version = "1", features = ["derive"] }
