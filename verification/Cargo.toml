[package]
name = "world_release"
version = "0.1.0"
edition = "2021"
publish = false

[dependencies]
flate2 = "=1.1.10"

[dev-dependencies]
quartz_nbt = "=0.2.9"
