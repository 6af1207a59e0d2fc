[package]
name = "event_raster"
version = "0.1.0"
edition = "2021"

[dependencies]
image = "*"
anyhow = "*"
thiserror = "*"
