[package]
name = "netcoords"
version = "0.1.0"
edition = "2021"
publish = false

[dependencies]
rand = "0.4"
petgraph = { version = "0.6", features = ["serde-1"] }
spade = "1.8"
nalgebra = { version = "0.25", features = ["serde-serialize"] }
typenum = "1"
serde = { version = "1", features = ["derive"] }
serde_derive = "1"
serde_json = "1"
