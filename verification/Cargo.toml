[package]
name = "jaccard_graph"
version = "0.1.0"
edition = "2021"
publish = false

[dependencies]
csv = "*"
deunicode = "*"
graphviz-rust = "*"
itertools = "*"
quantogram = "*"
rayon = "*"
serde = { version = "*", features = ["derive"] }
serde_json = "*"
statrs = "*"
