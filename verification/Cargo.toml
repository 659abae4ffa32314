[package]
name = "webgraph"
version = "0.1.0"
edition = "2021"
publish = false

[dependencies]
anyhow = "*"
clap = { version = "*", features = ["derive"] }
num_cpus = "*"
rand = { version = "0.8", features = ["small_rng"] }
rayon = "*"
tempfile = "*"

[dev-dependencies]
dsi-bitstream = "*"
java-properties = "*"
