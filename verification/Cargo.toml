[package]
name = "graph_ds"
version = "0.1.0"
edition = "2021"
publish = false

[dependencies]
anyhow = "1"
bimap = "0.6"
brotli = "*"
gtfs-structures = { version = "*", default-features = false }
h3o = "*"
osmpbf = "*"
plotters = { version = "*", default-features = false, features = ["bitmap_backend", "bitmap_encoder", "line_series"] }
rand = "0.8"
rayon = "1"
rmp-serde = "1"
serde = { version = "1", features = ["derive"] }
