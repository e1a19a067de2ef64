[package]
name = "timetabling"
version = "0.1.0"
edition = "2021"
publish = false

[dependencies]
rand = "0.8"
itertools = "0.12"
rayon = "1"
ctrlc = "3"
clap = { version = "4", features = ["derive"] }
colored = "2"
comfy-table = "7"
serde = { version = "1", features = ["derive"] }
serde_json = { version = "1", features = ["raw_value"] }
tikv-jemallocator = "0.5"
