[package]
name = "network_shapley"
version = "0.1.0"
edition = "2021"
publish = false

[dependencies]
highs = "*"
rand = "0.9"
rayon = "1"
serde = { version = "1", features = ["derive"] }
tabled = "*"
thiserror = "2"
