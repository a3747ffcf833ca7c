[package]
name = "solari"
version = "0.1.0"
edition = "2021"
publish = false

[dependencies]
anyhow = "1"
bytemuck = { version = "1", features = ["derive"] }
clap = { version = "4", features = ["derive"] }
geo = "0.29"
geo-types = "0.7"
gtfs-structures = "*"
memmap2 = "0.9"
polyline = "0.11"
rayon = "1"
redb = "2"
rmp-serde = "1"
rocket = { version = "0.5", features = ["json"] }
rstar = "0.12"
s2 = "0.0.13"
serde = { version = "1", features = ["derive"] }
serde_json = "1"
time = { version = "0.3", features = ["serde"] }
tracing = "0.1"
tracing-subscriber = "0.3"
