[package]
name = "vrp_pipeline"
version = "0.1.0"
edition = "2021"
publish = false

[dependencies]
bimap = "*"
tspf = "*"
kmeans = "*"
lp-solvers = "*"
clap = { version = "*", features = ["derive"] }
vrp-scientific = "*"
