[package]
name = "soil"
version = "0.1.0"
edition = "2021"
publish = false

[dependencies]
bincode = "=1.3.3"
bytemuck = { version = "=1.25.2", features = ["derive"] }
grass_app = "=0.1.1"
grass_io = "=0.1.1"
grass_mpi = { version = "=0.1.1", default-features = false }
grass_scheduler = "=0.1.1"
pollster = "=1.0.1"
proc-macro2 = "1"
quote = "1"
rand = "=0.9.5"
serde = { version = "1", features = ["derive"] }
serde_json = "1"
syn = { version = "=2.0.119", features = ["full"] }
toml = "=0.8.23"
wgpu = "=29.0.4"
